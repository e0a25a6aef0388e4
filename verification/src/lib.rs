//! Moderation, membership and game rules of the Marie Curie guild bot.
pub mod text;
pub mod ban_words;
pub mod calendar;
pub mod member;
pub mod roles;
pub mod game;
pub mod votes;
pub mod music;
pub mod assistant;

# bot_scythe

The rules of the Marie Curie Discord bot, written in Verus and proved against their contracts.

- `src/` is the verified library: banned words and the censor rule (`ban_words`), dates and the
  inactivity count (`calendar`), the member records kept per guild, silencing and the
  inactivity round (`member`), guild roles (`roles`), the "town night" game (`game`), the poll
  (`votes`), songs and playlists (`music`), the streamed answers of the language model
  (`assistant`), and the text helpers they share (`text`).
- `tests/` runs the library on concrete values.
- `app/` is the bot itself: the Discord commands and events, Redis storage and the voice
  connection, calling the library for every decision.

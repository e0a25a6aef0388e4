use bot_scythe::ban_words::{
    ban_word_listing, ban_words_text_after_add, ban_words_text_after_remove, check_ban_word,
    default_ban_words, is_ban_word, replace_caracters, should_censor, stored_ban_words,
    validacao_usando_levenshtein, words_after_add, words_after_remove,
};

fn words(list: &[&str]) -> Vec<String> {
    list.iter().map(|w| w.to_string()).collect()
}

#[test]
fn exact_word_is_banned() {
    assert!(is_ban_word("voldemort".to_string(), "voldemort".to_string()));
}

#[test]
fn word_in_capitals_is_banned() {
    assert!(is_ban_word("voldemort".to_string(), "VOLDEMORT".to_string()));
}

#[test]
fn word_hidden_with_digits_is_banned() {
    assert!(is_ban_word("voldemort".to_string(), "v0ld3m0rt".to_string()));
}

#[test]
fn unrelated_short_message_is_not_banned() {
    assert!(!is_ban_word("voldemort".to_string(), "hello".to_string()));
}

#[test]
fn word_inside_a_sentence_is_banned() {
    assert!(is_ban_word("voldemort".to_string(), "eu gosto de voldemort".to_string()));
}

#[test]
fn split_keeps_letters_and_drops_digits() {
    let (valid, invalid) = replace_caracters("v0ld3mort!".to_string());
    assert_eq!(valid, "vldmort");
    assert_eq!(invalid, "03!");
}

#[test]
fn split_keeps_spaces_with_the_letters() {
    let (valid, invalid) = replace_caracters("a b-1".to_string());
    assert_eq!(valid, "a b");
    assert_eq!(invalid, "-1");
}

#[test]
fn distance_check_measures_the_piece_without_spaces() {
    let d = validacao_usando_levenshtein("abc voldemrt xyz".to_string(), 'v', 9, "voldemort".to_string());
    assert_eq!(d, 1);
}

#[test]
fn distance_check_without_the_character_is_999() {
    let d = validacao_usando_levenshtein("abc".to_string(), 'v', 2, "vv".to_string());
    assert_eq!(d, 999);
}

#[test]
fn distance_check_past_the_end_is_999() {
    let d = validacao_usando_levenshtein("abc v".to_string(), 'v', 9, "voldemort".to_string());
    assert_eq!(d, 999);
}

#[test]
fn check_refuses_a_slice_that_cuts_a_character() {
    assert_eq!(check_ban_word(&"ab".to_string(), &"aé".to_string()), None);
}

#[test]
fn check_answers_where_defined() {
    assert_eq!(check_ban_word(&"voldemort".to_string(), &"Voldemort".to_string()), Some(true));
}

#[test]
fn message_containing_the_word_is_censored() {
    let r = should_censor(&"voldemort".to_string(), &"Quem e VOLDEMORT?".to_string(), 1, 2);
    assert_eq!(r, Some(true));
}

#[test]
fn bot_message_is_never_censored() {
    let r = should_censor(&"voldemort".to_string(), &"voldemort".to_string(), 2, 2);
    assert_eq!(r, Some(false));
}

#[test]
fn clean_message_is_not_censored() {
    let r = should_censor(&"voldemort".to_string(), &"bom dia".to_string(), 1, 2);
    assert_eq!(r, Some(false));
}

#[test]
fn default_list_holds_voldemort() {
    assert_eq!(default_ban_words(), words(&["voldemort"]));
}

#[test]
fn adding_appends_the_word() {
    let v = words_after_add(Some(words(&["a", "b"])), "c".to_string());
    assert_eq!(v, words(&["a", "b", "c"]));
}

#[test]
fn adding_to_nothing_starts_with_voldemort() {
    let v = words_after_add(None, "c".to_string());
    assert_eq!(v, words(&["voldemort", "c"]));
}

#[test]
fn removing_takes_every_copy_off() {
    let v = words_after_remove(Some(words(&["a", "b", "a", "c"])), "a".to_string());
    assert_eq!(v, words(&["b", "c"]));
}

#[test]
fn removing_from_nothing_keeps_the_starting_list_without_the_word() {
    let v = words_after_remove(None, "c".to_string());
    assert_eq!(v, words(&["voldemort"]));
    let v = words_after_remove(None, "voldemort".to_string());
    assert_eq!(v, words(&[]));
}

#[test]
fn add_then_remove_leaves_the_list() {
    let v = words_after_remove(Some(words_after_add(Some(words(&["a"])), "z".to_string())), "z".to_string());
    assert_eq!(v, words(&["a"]));
}

#[test]
fn listing_has_heading_and_lines() {
    let m = ban_word_listing(&words(&["a", "bc"])).unwrap();
    assert_eq!(m, "### LISTA DE PALAVRAS SILENCIADAS\n- a\n- bc");
}

#[test]
fn listing_of_nothing_is_none() {
    assert_eq!(ban_word_listing(&Vec::new()), None);
}

#[test]
fn stored_words_are_read() {
    assert_eq!(stored_ban_words(Some("[\"x\",\"y\"]".to_string())), Some(words(&["x", "y"])));
    assert_eq!(stored_ban_words(None), Some(words(&["voldemort"])));
    assert_eq!(stored_ban_words(Some("not json".to_string())), None);
}

#[test]
fn stored_text_after_add() {
    let text = ban_words_text_after_add(Some("[\"x\"]".to_string()), "y".to_string());
    assert_eq!(text, Some("[\"x\",\"y\"]".to_string()));
    let fresh = ban_words_text_after_add(None, "y".to_string());
    assert_eq!(fresh, Some("[\"voldemort\",\"y\"]".to_string()));
    assert_eq!(ban_words_text_after_add(Some("{".to_string()), "y".to_string()), None);
}

#[test]
fn stored_text_after_remove() {
    let text = ban_words_text_after_remove(Some("[\"x\",\"y\",\"x\"]".to_string()), "x".to_string());
    assert_eq!(text, Some("[\"y\"]".to_string()));
    let fresh = ban_words_text_after_remove(None, "y".to_string());
    assert_eq!(fresh, Some("[\"voldemort\"]".to_string()));
    assert_eq!(ban_words_text_after_remove(Some("[1]".to_string()), "y".to_string()), None);
}

#[test]
fn an_added_word_is_read_back() {
    let text = ban_words_text_after_add(Some("[\"a\"]".to_string()), "b".to_string()).unwrap();
    assert_eq!(stored_ban_words(Some(text.clone())), Some(words(&["a", "b"])));
    let text = ban_words_text_after_remove(Some(text), "a".to_string()).unwrap();
    assert_eq!(stored_ban_words(Some(text)), Some(words(&["b"])));
}

#[test]
fn short_ascii_message_is_not_banned() {
    assert!(!is_ban_word("voldemort".to_string(), "VOLD3".to_string()));
    assert!(!is_ban_word("voldemort".to_string(), "vol#".to_string()));
}

#[test]
fn ascii_case_does_not_matter() {
    for msg in ["Eu vi o Voldemort!", "v0ld3m0rt", "bom dia, 2 pessoas", "Vold!"] {
        let b = "voldemort".to_string();
        let plain = is_ban_word(b.clone(), msg.to_string());
        assert_eq!(plain, is_ban_word(b.clone(), msg.to_ascii_lowercase()));
        assert_eq!(plain, is_ban_word(b.clone(), msg.to_ascii_uppercase()));
    }
}

#[test]
fn a_small_letter_word_is_always_caught() {
    for w in ["a", "ab", "snape", "voldemort"] {
        assert!(is_ban_word(w.to_string(), w.to_string()));
        assert!(is_ban_word(w.to_string(), w.to_ascii_uppercase()));
    }
}

#[test]
fn distance_check_is_the_edit_distance() {
    assert_eq!(validacao_usando_levenshtein("xx voldemorx".to_string(), 'v', 9, "voldemort".to_string()), 1);
    assert_eq!(validacao_usando_levenshtein("kitten".to_string(), 'k', 6, "sitting".to_string()), 3);
}

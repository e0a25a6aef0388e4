use bot_scythe::assistant::stream_content;
use bot_scythe::music::{
    add_title, download_target, find_title_music, get_title_music, is_url, playlist_songs,
    playlists_after_create, playlists_text_after_create, stored_playlist, Playlists,
};

#[test]
fn links_and_searches() {
    assert!(is_url(&"https://youtu.be/x".to_string()));
    assert!(!is_url(&"htt".to_string()));
    assert!(!is_url(&"minha musica".to_string()));
    assert_eq!(download_target(&"minha musica".to_string()), "ytsearch:minha musica");
    assert_eq!(download_target(&"http://a".to_string()), "http://a");
}

#[test]
fn titles_are_collected() {
    let mut titles = String::new();
    add_title(&mut titles, &"One".to_string());
    add_title(&mut titles, &"Two".to_string());
    assert_eq!(titles, "One;Two;");
}

#[test]
fn playlist_is_cut_at_semicolons() {
    assert_eq!(playlist_songs(&"a;b;".to_string()), vec!["a".to_string(), "b".to_string(), String::new()]);
    assert_eq!(playlist_songs(&"".to_string()), vec![String::new()]);
    assert_eq!(playlist_songs(&"one".to_string()), vec!["one".to_string()]);
}

#[test]
fn playlists_are_saved_and_found() {
    let mut p = Playlists::new();
    p.insert("rock".to_string(), "a;b".to_string());
    p.insert("pop".to_string(), "c".to_string());
    p.insert("rock".to_string(), "d".to_string());
    assert_eq!(p.get(&"rock".to_string()), Some("d".to_string()));
    assert_eq!(p.get(&"pop".to_string()), Some("c".to_string()));
    assert_eq!(p.get(&"jazz".to_string()), None);
    let fresh = playlists_after_create(None, "x".to_string(), "y".to_string());
    assert_eq!(fresh.get(&"x".to_string()), Some("y".to_string()));
}

#[test]
fn playlists_round_trip_through_json() {
    let text = playlists_text_after_create("", "rock".to_string(), "a;b".to_string());
    assert_eq!(text, "{\"rock\":\"a;b\"}");
    assert_eq!(stored_playlist(&text, &"rock".to_string()), Some("a;b".to_string()));
    assert_eq!(stored_playlist(&text, &"pop".to_string()), None);
    let text = playlists_text_after_create(&text, "rock".to_string(), "c".to_string());
    assert_eq!(stored_playlist(&text, &"rock".to_string()), Some("c".to_string()));
    let text = playlists_text_after_create(&text, "pop".to_string(), "d".to_string());
    assert_eq!(stored_playlist(&text, &"rock".to_string()), Some("c".to_string()));
    assert_eq!(stored_playlist(&text, &"pop".to_string()), Some("d".to_string()));
    assert_eq!(stored_playlist("", &"rock".to_string()), None);
    assert_eq!(stored_playlist("{\"n\":\"m\"}", &"n".to_string()), Some("m".to_string()));
}

#[test]
fn title_of_the_downloader_output() {
    let out = b"{\"title\":\"Song\",\"id\":1}".to_vec();
    assert_eq!(find_title_music(&out), Some("Song".to_string()));
    assert_eq!(get_title_music(&out), "Song");
    assert_eq!(find_title_music(&b"oops".to_vec()), None);
    assert_eq!(find_title_music(&b"{\"id\":1}".to_vec()), None);
}

#[test]
fn streamed_answer_is_joined() {
    let text = "data: {\"choices\":[{\"delta\":{\"content\":\"Ola\"}}]}\r\ndata: data: {\"choices\":[{\"delta\":{\"content\":\" mundo\"}}]}\n\ndata: [DONE]\n".to_string();
    assert_eq!(stream_content(&text), "Ola mundo");
    assert_eq!(stream_content(&String::new()), "");
}

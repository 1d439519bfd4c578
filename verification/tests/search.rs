use wasm_utils::{search_songs, Song};

fn song(id: &str, title: &str, artist: &str, album: &str) -> Song {
    Song {
        id: id.to_string(),
        title: title.to_string(),
        artist: artist.to_string(),
        album: album.to_string(),
        cover_art: None,
    }
}

fn library() -> Vec<Song> {
    vec![
        song("1", "Hello", "Adele", "25"),
        song("2", "Yesterday", "The Beatles", "Help!"),
        song("3", "Help is on the way", "Someone", "Greatest Hits"),
        song("4", "Instrumental", "HELLO Orchestra", "Silence"),
    ]
}

fn ids(found: &[&Song]) -> Vec<String> {
    found.iter().map(|s| s.id.clone()).collect()
}

#[test]
fn empty_query_returns_all_in_order() {
    let songs = library();
    let found = search_songs(&songs, "");
    assert_eq!(ids(&found), vec!["1", "2", "3", "4"]);
}

#[test]
fn matching_is_case_insensitive() {
    let songs = library();
    let found = search_songs(&songs, "hello");
    assert_eq!(ids(&found), vec!["1", "4"]);
}

#[test]
fn query_matches_any_of_the_three_fields() {
    let songs = library();
    assert_eq!(ids(&search_songs(&songs, "beatles")), vec!["2"]);
    assert_eq!(ids(&search_songs(&songs, "greatest")), vec!["3"]);
    assert_eq!(ids(&search_songs(&songs, "help")), vec!["2", "3"]);
}

#[test]
fn no_match_gives_empty_result() {
    let songs = library();
    let found = search_songs(&songs, "polka");
    assert!(found.is_empty());
}

#[test]
fn searching_twice_changes_nothing() {
    let songs = library();
    let once: Vec<Song> = search_songs(&songs, "help").iter().map(|s| (*s).clone()).collect();
    let twice = search_songs(&once, "help");
    assert_eq!(ids(&twice), vec!["2", "3"]);
}

#[test]
fn unicode_case_folding() {
    let songs = vec![song("5", "ÜBER ALLES", "Band", "Album")];
    let found = search_songs(&songs, "über");
    assert_eq!(ids(&found), vec!["5"]);
}

#[test]
fn cover_art_field_round_trips() {
    let mut s = song("6", "T", "A", "B");
    s.cover_art = Some("cover.png".to_string());
    let songs = vec![s];
    let found = search_songs(&songs, "");
    assert_eq!(found[0].cover_art.as_deref(), Some("cover.png"));
}

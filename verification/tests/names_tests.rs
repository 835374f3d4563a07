use ethereal_waves::names::{
    artwork_file, playlist_file, push_decimal, ARTWORK_DIR, LIBRARY_FILE, PLAYLIST_DIR,
};
use ethereal_waves::scan::{Progress, EXTRACTION_TIMEOUT_SECONDS};

#[test]
fn the_stored_files_have_their_names() {
    assert_eq!(LIBRARY_FILE, "library.json");
    assert_eq!(PLAYLIST_DIR, "playlists");
    assert_eq!(ARTWORK_DIR, "artwork");
}

#[test]
fn a_playlist_file_is_named_by_the_id() {
    assert_eq!(playlist_file(7), "playlists/7.json");
    assert_eq!(playlist_file(0), "playlists/0.json");
    assert_eq!(playlist_file(10), "playlists/10.json");
    assert_eq!(playlist_file(4_294_967_295), "playlists/4294967295.json");
    assert_eq!(playlist_file(1_000_000), "playlists/1000000.json");
}

#[test]
fn an_artwork_file_lies_in_the_artwork_directory() {
    assert_eq!(artwork_file("abc.png"), "artwork/abc.png");
    assert_eq!(artwork_file(""), "artwork/");
}

#[test]
fn numbers_are_written_in_decimal() {
    for n in [0u64, 1, 9, 10, 11, 99, 100, 101, 12345, 1 << 32, u64::MAX - 1, u64::MAX] {
        let mut text = String::from("n=");
        push_decimal(&mut text, n);
        assert_eq!(text, format!("n={n}"));
    }
}

#[test]
fn progress_is_written_as_counts_and_percentage() {
    assert_eq!(Progress { done: 3, total: 9, percent: 33 }.label(), "3/9 (33%)");
    assert_eq!(Progress { done: 0, total: 0, percent: 100 }.label(), "0/0 (100%)");
    assert_eq!(Progress { done: 120, total: 1500, percent: 8 }.label(), "120/1500 (8%)");
}

#[test]
fn the_tag_reader_has_five_seconds_for_a_file() {
    assert_eq!(EXTRACTION_TIMEOUT_SECONDS, 5);
}

use ethereal_waves::library::MediaMetaData;
use ethereal_waves::merge_sort::sorted_tracks;
use ethereal_waves::playlist::{Playlist, PlaylistKind, LIBRARY_PLAYLIST_ID};
use ethereal_waves::sorting::{SortBy, SortDirection};

type Track = (String, MediaMetaData);

fn track(path: &str, title: &str, artist: &str, album: &str, number: u32) -> Track {
    let mut m = MediaMetaData::new();
    m.id = Some(format!("id-{path}"));
    m.title = Some(title.to_string());
    m.artist = Some(artist.to_string());
    m.album = Some(album.to_string());
    m.track_number = Some(number);
    (path.to_string(), m)
}

fn bare(path: &str) -> Track {
    (path.to_string(), MediaMetaData::new())
}

fn playlist_of(tracks: Vec<Track>) -> Playlist {
    let mut p = Playlist::library();
    for t in tracks {
        p.push(t);
    }
    p
}

fn paths(p: &Playlist) -> Vec<String> {
    p.tracks().iter().map(|t| t.0.clone()).collect()
}

#[test]
fn sort_by_title_ascending_orders_titles() {
    let mut p = playlist_of(vec![
        track("/m/c", "Cherry", "x", "y", 1),
        track("/m/a", "Apple", "x", "y", 2),
        track("/m/b", "Banana", "x", "y", 3),
    ]);
    p.sort(SortBy::Title, SortDirection::Ascending);
    assert_eq!(paths(&p), vec!["/m/a", "/m/b", "/m/c"]);
}

#[test]
fn sort_by_title_descending_orders_titles_backwards() {
    let mut p = playlist_of(vec![
        track("/m/c", "Cherry", "x", "y", 1),
        track("/m/a", "Apple", "x", "y", 2),
        track("/m/b", "Banana", "x", "y", 3),
    ]);
    p.sort(SortBy::Title, SortDirection::Descending);
    assert_eq!(paths(&p), vec!["/m/c", "/m/b", "/m/a"]);
}

#[test]
fn sort_keeps_tracks_with_the_same_title_in_their_order() {
    let mut p = playlist_of(vec![
        track("/m/2", "Same", "b", "y", 1),
        track("/m/0", "Other", "a", "y", 1),
        track("/m/1", "Same", "a", "y", 1),
        track("/m/3", "Same", "c", "y", 1),
    ]);
    p.sort(SortBy::Title, SortDirection::Ascending);
    assert_eq!(paths(&p), vec!["/m/0", "/m/2", "/m/1", "/m/3"]);
}

#[test]
fn sorting_by_title_twice_changes_nothing_the_second_time() {
    let mut p = playlist_of(vec![
        track("/m/2", "Same", "b", "y", 1),
        track("/m/9", "Zed", "a", "y", 1),
        track("/m/1", "Same", "a", "y", 1),
        track("/m/0", "Alpha", "a", "y", 1),
        track("/m/3", "Same", "c", "y", 1),
    ]);
    p.sort(SortBy::Title, SortDirection::Ascending);
    let once = paths(&p);
    let once_tracks: Vec<Track> = p.tracks().to_vec();
    p.sort(SortBy::Title, SortDirection::Ascending);
    assert_eq!(paths(&p), once);
    assert_eq!(p.tracks(), &once_tracks[..]);
    assert_eq!(once, vec!["/m/0", "/m/2", "/m/1", "/m/3", "/m/9"]);
}

#[test]
fn artist_descending_is_the_reverse_of_ascending_where_no_keys_are_shared() {
    let tracks = vec![
        track("/m/1", "t", "Beta", "One", 2),
        track("/m/2", "t", "Alpha", "Two", 1),
        track("/m/3", "t", "Beta", "One", 1),
        track("/m/4", "t", "Alpha", "One", 7),
        track("/m/5", "t", "Gamma", "Zero", 1),
    ];
    let mut up = playlist_of(tracks.clone());
    let mut down = playlist_of(tracks);
    up.sort(SortBy::Artist, SortDirection::Ascending);
    down.sort(SortBy::Artist, SortDirection::Descending);
    assert_eq!(paths(&up), vec!["/m/4", "/m/2", "/m/3", "/m/1", "/m/5"]);
    let mut reversed = paths(&up);
    reversed.reverse();
    assert_eq!(paths(&down), reversed);
}

#[test]
fn artist_descending_keeps_tracks_that_share_a_key_in_their_order() {
    let tracks = vec![
        track("/m/first", "t", "Same", "Album", 1),
        track("/m/second", "t", "Same", "Album", 1),
        track("/m/z", "t", "Zulu", "Album", 1),
    ];
    let mut up = playlist_of(tracks.clone());
    let mut down = playlist_of(tracks);
    up.sort(SortBy::Artist, SortDirection::Ascending);
    down.sort(SortBy::Artist, SortDirection::Descending);
    assert_eq!(paths(&up), vec!["/m/first", "/m/second", "/m/z"]);
    assert_eq!(paths(&down), vec!["/m/z", "/m/first", "/m/second"]);
}

#[test]
fn artist_sort_goes_by_artist_then_album_then_track_number() {
    let mut p = playlist_of(vec![
        track("/m/1", "t", "B", "A", 1),
        track("/m/2", "t", "A", "B", 2),
        track("/m/3", "t", "A", "B", 1),
        track("/m/4", "t", "A", "A", 9),
    ]);
    p.sort(SortBy::Artist, SortDirection::Ascending);
    assert_eq!(paths(&p), vec!["/m/4", "/m/3", "/m/2", "/m/1"]);
}

#[test]
fn album_sort_goes_by_album_alone() {
    let mut p = playlist_of(vec![
        track("/m/1", "t", "A", "Second", 1),
        track("/m/2", "t", "Z", "First", 2),
        track("/m/3", "t", "B", "Second", 1),
    ]);
    p.sort(SortBy::Album, SortDirection::Ascending);
    assert_eq!(paths(&p), vec!["/m/2", "/m/1", "/m/3"]);
    p.sort(SortBy::Album, SortDirection::Descending);
    assert_eq!(paths(&p), vec!["/m/1", "/m/3", "/m/2"]);
}

#[test]
fn a_missing_value_sorts_before_every_present_one() {
    let mut p = playlist_of(vec![
        track("/m/b", "b", "x", "y", 1),
        bare("/m/none"),
        track("/m/empty", "", "x", "y", 1),
    ]);
    p.sort(SortBy::Title, SortDirection::Ascending);
    assert_eq!(paths(&p), vec!["/m/none", "/m/empty", "/m/b"]);
    p.sort(SortBy::Title, SortDirection::Descending);
    assert_eq!(paths(&p), vec!["/m/b", "/m/empty", "/m/none"]);
}

#[test]
fn a_missing_track_number_sorts_first_within_an_album() {
    let mut unnumbered = track("/m/u", "t", "A", "A", 0);
    unnumbered.1.track_number = None;
    let mut p = playlist_of(vec![
        track("/m/2", "t", "A", "A", 2),
        track("/m/1", "t", "A", "A", 1),
        unnumbered,
        track("/m/0", "t", "A", "A", 0),
    ]);
    p.sort(SortBy::Artist, SortDirection::Ascending);
    assert_eq!(paths(&p), vec!["/m/u", "/m/0", "/m/1", "/m/2"]);
}

#[test]
fn text_sorts_byte_by_byte() {
    let mut p = playlist_of(vec![
        track("/m/lower", "apple", "x", "y", 1),
        track("/m/accent", "\u{e9}clair", "x", "y", 1),
        track("/m/upper", "Zebra", "x", "y", 1),
        track("/m/prefix", "app", "x", "y", 1),
        track("/m/digit", "9 lives", "x", "y", 1),
    ]);
    p.sort(SortBy::Title, SortDirection::Ascending);
    assert_eq!(paths(&p), vec!["/m/digit", "/m/upper", "/m/prefix", "/m/lower", "/m/accent"]);
}

fn pseudo_random_tracks(n: usize) -> Vec<Track> {
    let mut state: u64 = 0x2545_f491_4f6c_dd1d;
    let mut next = move || {
        state ^= state << 13;
        state ^= state >> 7;
        state ^= state << 17;
        state
    };
    let names = ["", "a", "b", "B", "ab", "abc", "\u{e9}", "z"];
    (0..n)
        .map(|i| {
            let mut m = MediaMetaData::new();
            let pick = |v: u64| -> Option<String> {
                let k = (v % 9) as usize;
                if k == 8 {
                    None
                } else {
                    Some(names[k].to_string())
                }
            };
            m.title = pick(next());
            m.artist = pick(next());
            m.album = pick(next());
            let number = next() % 4;
            m.track_number = if number == 3 { None } else { Some(number as u32) };
            (format!("/m/{i}"), m)
        })
        .collect()
}

#[test]
fn sort_agrees_with_the_stable_sort_of_the_standard_library() {
    for by in [SortBy::Artist, SortBy::Album, SortBy::Title] {
        for dir in [SortDirection::Ascending, SortDirection::Descending] {
            for n in [0usize, 1, 2, 3, 17, 200] {
                let tracks = pseudo_random_tracks(n);
                let mut expected = tracks.clone();
                expected.sort_by(|a, b| {
                    let ordering = match by {
                        SortBy::Artist => a
                            .1
                            .artist
                            .cmp(&b.1.artist)
                            .then(a.1.album.cmp(&b.1.album))
                            .then(a.1.track_number.cmp(&b.1.track_number)),
                        SortBy::Album => a.1.album.cmp(&b.1.album),
                        SortBy::Title => a.1.title.cmp(&b.1.title),
                    };
                    match dir {
                        SortDirection::Ascending => ordering,
                        SortDirection::Descending => ordering.reverse(),
                    }
                });
                let mut p = playlist_of(tracks.clone());
                p.sort(by, dir);
                assert_eq!(p.tracks(), &expected[..]);
                assert_eq!(sorted_tracks(tracks, by, dir), expected);
            }
        }
    }
}

#[test]
fn new_playlist_id_is_never_zero() {
    for _ in 0..500 {
        let p = Playlist::new("mix".to_string());
        assert_ne!(p.id(), 0);
        assert_ne!(p.id(), Playlist::library().id());
        assert_eq!(p.name(), "mix");
        assert!(!p.is_library());
        assert_eq!(p.len(), 0);
    }
}

#[test]
fn new_playlists_get_different_ids() {
    let ids: Vec<u32> = (0..8).map(|_| Playlist::new("p".to_string()).id()).collect();
    assert!(ids.iter().any(|id| *id != ids[0]));
}

#[test]
fn a_zero_draw_makes_no_playlist_and_hands_the_name_back() {
    match Playlist::from_draw(LIBRARY_PLAYLIST_ID, "name".to_string()) {
        Ok(_) => panic!("the reserved id is no user playlist's id"),
        Err(name) => assert_eq!(name, "name"),
    }
    match Playlist::from_draw(0, "name".to_string()) {
        Ok(_) => panic!("zero is no user playlist's id"),
        Err(name) => assert_eq!(name, "name"),
    }
}

#[test]
fn a_non_zero_draw_becomes_the_id() {
    for draw in [1u32, 2, 0x8000_0000, u32::MAX] {
        match Playlist::from_draw(draw, "name".to_string()) {
            Ok(p) => {
                assert_eq!(p.id(), draw);
                assert_ne!(p.id(), Playlist::library().id());
                assert_eq!(p.name(), "name");
                assert!(!p.is_library());
                assert_eq!(p.len(), 0);
            }
            Err(_) => panic!("a non-zero draw is an id"),
        }
    }
}

#[test]
fn the_library_playlist_has_the_reserved_id() {
    let p = Playlist::library();
    assert_eq!(p.id(), 0);
    assert_eq!(p.id(), LIBRARY_PLAYLIST_ID);
    assert_eq!(Playlist::library().id(), p.id());
    assert_eq!(p.name(), "Library");
    assert!(p.is_library());
    assert_eq!(p.len(), 0);
    assert!(p.tracks().is_empty());
}

#[test]
fn renaming_keeps_the_id() {
    let mut p = Playlist::new("old".to_string());
    let id = p.id();
    p.push(bare("/m/a"));
    p.set_name("new".to_string());
    assert_eq!(p.name(), "new");
    assert_eq!(p.id(), id);
    assert_eq!(p.len(), 1);
}

#[test]
fn push_remove_and_clear_change_the_tracks() {
    let mut p = Playlist::library();
    p.push(bare("/m/a"));
    p.push(bare("/m/b"));
    p.push(bare("/m/c"));
    assert_eq!(p.len(), 3);
    p.remove(1);
    assert_eq!(paths(&p), vec!["/m/a", "/m/c"]);
    p.remove(0);
    assert_eq!(paths(&p), vec!["/m/c"]);
    p.clear();
    assert_eq!(p.len(), 0);
    assert!(p.is_library());
    assert_eq!(p.id(), LIBRARY_PLAYLIST_ID);
}

#[test]
fn a_path_may_occur_twice_in_a_playlist() {
    let mut p = Playlist::library();
    p.push(bare("/m/a"));
    p.push(bare("/m/a"));
    assert_eq!(p.len(), 2);
    p.sort(SortBy::Title, SortDirection::Ascending);
    assert_eq!(paths(&p), vec!["/m/a", "/m/a"]);
}

#[test]
fn a_copy_of_a_playlist_holds_the_same() {
    let mut p = Playlist::new("mine".to_string());
    p.push(track("/m/1", "t", "B", "A", 1));
    p.push(track("/m/2", "u", "A", "B", 2));
    let q = p.clone();
    assert_eq!(q.id(), p.id());
    assert_eq!(q.name(), p.name());
    assert_eq!(q.is_library(), p.is_library());
    assert_eq!(q.tracks(), p.tracks());
}

#[test]
fn playlist_kinds_differ() {
    assert_ne!(PlaylistKind::Library, PlaylistKind::User);
}

#[test]
fn a_long_playlist_is_sorted() {
    let tracks = pseudo_random_tracks(20_000);
    let mut expected = tracks.clone();
    expected.sort_by(|a, b| a.1.title.cmp(&b.1.title));
    let mut p = playlist_of(tracks);
    p.sort(SortBy::Title, SortDirection::Ascending);
    assert_eq!(p.len(), 20_000);
    assert_eq!(p.tracks(), &expected[..]);
}

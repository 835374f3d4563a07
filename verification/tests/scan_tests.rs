use ethereal_waves::artwork::{ArtworkCache, ArtworkSample};
use ethereal_waves::library::{Library, MediaMetaData};
use ethereal_waves::scan::{
    completion_messages, is_audio_candidate, metadata_for, percent, seed, Extraction, FoundFile,
    Progress, ScanMessage, Scanner, Tags, MIN_AUDIO_SIZE, PROGRESS_INTERVAL_MS,
    SNAPSHOT_INTERVAL_MS,
};

const A_MP3_ID: &str = "355d896ab5c9f0bb353eeb175987afd6d93cc9a250955746b87ae6c10a47c8c2";
const ONE: &str = "fb298444d7f7b51455d6f9b5282e06608b3154f22b60a9d4f23e07f469b07b0f";

fn found(path: &str, size: u64) -> FoundFile {
    let file_name = path.rsplit('/').next().unwrap().to_string();
    FoundFile { path: path.to_string(), file_name, size }
}

fn no_tags() -> Tags {
    Tags {
        title: None,
        artist: None,
        album: None,
        album_artist: None,
        genre: None,
        album_disc_number: None,
        album_disc_count: None,
        track_number: None,
        track_count: None,
        duration_ms: None,
        image: None,
        preview_image: None,
    }
}

fn titled(title: &str) -> Extraction {
    let mut tags = no_tags();
    tags.title = Some(title.to_string());
    Extraction::Tagged(tags)
}

fn picture(bytes: &[u8], mime: &str) -> ArtworkSample {
    ArtworkSample { bytes: Some(bytes.to_vec()), mime: Some(mime.to_string()) }
}

fn paths(library: &Library) -> Vec<String> {
    library.entries().iter().map(|e| e.0.clone()).collect()
}

fn finished(scanner: Scanner) -> (Progress, Library) {
    match scanner.finish() {
        Ok(done) => done,
        Err(_) => panic!("files are left"),
    }
}

#[test]
fn an_mp3_of_exactly_4096_bytes_is_left_out() {
    assert_eq!(MIN_AUDIO_SIZE, 4096);
    assert!(!is_audio_candidate("a.mp3", 4096));
    assert!(is_audio_candidate("a.mp3", 4097));
    assert!(!is_audio_candidate("a.mp3", 0));
}

#[test]
fn an_upper_case_extension_is_taken() {
    assert!(is_audio_candidate("a.MP3", 5000));
    assert!(is_audio_candidate("a.Mp3", 5000));
    assert!(is_audio_candidate("a.FLAC", 5000));
    assert!(is_audio_candidate("a.OpUs", 5000));
}

#[test]
fn each_audio_format_is_taken_and_others_are_not() {
    for name in ["a.flac", "a.m4a", "a.mp3", "a.ogg", "a.opus"] {
        assert!(is_audio_candidate(name, 5000), "{name}");
    }
    for name in [
        "b.txt", "a.wav", "a.mp4", "a.mp", "a.mp33", "a.flacc", "a.og", "a.aac", "a.mp3.bak",
        "a.mp3.", "a.", "", "a.m4b", "a.opu",
    ] {
        assert!(!is_audio_candidate(name, 10000), "{name}");
    }
}

#[test]
fn the_extension_is_what_follows_the_last_dot() {
    assert!(is_audio_candidate("song.tar.flac", 5000));
    assert!(is_audio_candidate(".mp3", 5000));
    assert!(is_audio_candidate("a.b.c.ogg", 5000));
    assert!(is_audio_candidate("mp3", 5000));
    assert!(!is_audio_candidate("flac.mp3.txt", 5000));
    assert!(!is_audio_candidate("a.m\u{212a}a", 5000));
    assert!(is_audio_candidate("\u{e9}t\u{e9}.ogg", u64::MAX));
}

#[test]
fn percent_rounds_to_the_nearest_whole() {
    assert_eq!(percent(0, 5), 0);
    assert_eq!(percent(1, 3), 33);
    assert_eq!(percent(2, 3), 67);
    assert_eq!(percent(1, 8), 13);
    assert_eq!(percent(1, 2), 50);
    assert_eq!(percent(1, 200), 1);
    assert_eq!(percent(1, 201), 0);
    assert_eq!(percent(199, 200), 100);
    assert_eq!(percent(994, 1000), 99);
    assert_eq!(percent(995, 1000), 100);
    assert_eq!(percent(5, 5), 100);
    assert_eq!(percent(0, 0), 100);
    assert_eq!(percent(7, 5), 100);
    assert_eq!(percent(usize::MAX - 1, usize::MAX), 100);
    assert_eq!(percent(usize::MAX / 2, usize::MAX), 50);
}

#[test]
fn seeding_takes_each_audio_file_once_with_an_empty_record() {
    let files = vec![
        found("/music/a.mp3", 5000),
        found("/music/b.txt", 10000),
        found("/music/c.flac", 2000),
        found("/music/sub/d.OGG", 4097),
        found("/music/a.mp3", 5000),
        found("/music/e.opus", 4096),
    ];
    let library = seed(&files);
    assert_eq!(paths(&library), vec!["/music/a.mp3", "/music/sub/d.OGG"]);
    assert_eq!(library.get("/music/a.mp3"), Some(&MediaMetaData::new()));
    assert_eq!(library.get("/music/sub/d.OGG"), Some(&MediaMetaData::new()));
    assert!(seed(&[]).is_empty());
}

#[test]
fn a_scan_of_one_song_among_other_files_finds_the_song() {
    let files = vec![
        found("/music/a.mp3", 5000),
        found("/music/b.txt", 10000),
        found("/music/c.flac", 2000),
    ];
    let mut artwork = ArtworkCache::new();
    let mut scanner = Scanner::new(&files, 0);
    assert_eq!(scanner.total(), 1);
    let job = scanner.next_job().unwrap();
    assert_eq!(job.path, "/music/a.mp3");
    scanner.record(titled("Song A"), &mut artwork, true, 10);
    assert!(scanner.next_job().is_none());
    let (progress, library) = finished(scanner);
    assert_eq!(progress, Progress { done: 1, total: 1, percent: 100 });
    assert_eq!(library.len(), 1);
    let entry = library.get("/music/a.mp3").unwrap();
    assert_eq!(entry.title.as_deref(), Some("Song A"));
    assert_eq!(entry.id.as_deref(), Some(A_MP3_ID));
    assert!(entry.is_complete());
}

#[test]
fn the_next_file_comes_with_its_address() {
    let files = vec![found("/music/a b/c#1.mp3", 5000), found("relative/d.mp3", 5000)];
    let mut artwork = ArtworkCache::new();
    let mut scanner = Scanner::new(&files, 0);
    let first = scanner.next_job().unwrap();
    assert_eq!(first.path, "/music/a b/c#1.mp3");
    assert_eq!(first.uri.as_deref(), Some("file:///music/a%20b/c%231.mp3"));
    scanner.record(Extraction::Failed, &mut artwork, true, 0);
    let second = scanner.next_job().unwrap();
    assert_eq!(second.path, "relative/d.mp3");
    assert_eq!(second.uri, None);
}

#[test]
fn a_file_that_cannot_be_read_is_left_out_and_the_scan_goes_on() {
    let files = vec![found("/m/a.mp3", 5000), found("/m/b.mp3", 5000), found("/m/c.mp3", 5000)];
    let mut artwork = ArtworkCache::new();
    let mut scanner = Scanner::new(&files, 0);
    scanner.record(titled("A"), &mut artwork, true, 1);
    scanner.record(Extraction::Failed, &mut artwork, true, 2);
    scanner.record(titled("C"), &mut artwork, true, 3);
    let (progress, library) = finished(scanner);
    assert_eq!(progress, Progress { done: 3, total: 3, percent: 100 });
    assert_eq!(paths(&library), vec!["/m/a.mp3", "/m/c.mp3"]);
    for (_, meta) in library.entries() {
        assert!(meta.id.as_deref().is_some_and(|id| !id.is_empty()));
    }
}

#[test]
fn a_scan_of_no_files_is_complete_at_once() {
    let mut artwork = ArtworkCache::new();
    let mut scanner = Scanner::new(&[found("/m/readme.txt", 9000)], 5);
    assert_eq!(scanner.total(), 0);
    assert_eq!(scanner.done(), 0);
    assert!(scanner.is_finished());
    assert!(scanner.next_job().is_none());
    let out = scanner.record(titled("ghost"), &mut artwork, true, 100_000);
    assert!(out.progress.is_none() && out.snapshot.is_none() && out.artwork.is_none());
    let (progress, library) = finished(scanner);
    assert_eq!(progress, Progress { done: 0, total: 0, percent: 100 });
    assert!(library.is_empty());
}

#[test]
fn a_scan_with_files_left_is_handed_back() {
    let files = vec![found("/m/a.mp3", 5000), found("/m/b.mp3", 5000)];
    let mut artwork = ArtworkCache::new();
    let mut scanner = Scanner::new(&files, 0);
    scanner.record(titled("A"), &mut artwork, true, 1);
    assert!(!scanner.is_finished());
    let mut scanner = match scanner.finish() {
        Ok(_) => panic!("a file is left"),
        Err(back) => back,
    };
    assert_eq!(scanner.done(), 1);
    assert_eq!(scanner.total(), 2);
    assert_eq!(scanner.next_job().unwrap().path, "/m/b.mp3");
    scanner.record(titled("B"), &mut artwork, true, 2);
    let (_, library) = finished(scanner);
    assert_eq!(library.len(), 2);
}

#[test]
fn progress_goes_out_at_most_every_200_milliseconds() {
    assert_eq!(PROGRESS_INTERVAL_MS, 200);
    let files: Vec<FoundFile> = (0..6).map(|i| found(&format!("/m/{i}.mp3"), 5000)).collect();
    let mut artwork = ArtworkCache::new();
    let mut scanner = Scanner::new(&files, 1000);
    let times = [1100u64, 1199, 1200, 1399, 1400, 5000];
    let expected = [
        None,
        None,
        Some(Progress { done: 3, total: 6, percent: 50 }),
        None,
        Some(Progress { done: 5, total: 6, percent: 83 }),
        Some(Progress { done: 6, total: 6, percent: 100 }),
    ];
    for (now, want) in times.iter().zip(expected) {
        let out = scanner.record(Extraction::Untagged, &mut artwork, true, *now);
        assert_eq!(out.progress, want, "at {now}");
        assert!(out.snapshot.is_none());
    }
}

#[test]
fn progress_counts_up_and_never_past_the_total() {
    let files: Vec<FoundFile> = (0..40).map(|i| found(&format!("/m/{i}.ogg"), 5000)).collect();
    let mut artwork = ArtworkCache::new();
    let mut scanner = Scanner::new(&files, 0);
    let mut last = 0usize;
    let mut seen = 0;
    let mut now = 0u64;
    while !scanner.is_finished() {
        now += 70;
        let out = scanner.record(Extraction::Untagged, &mut artwork, true, now);
        if let Some(p) = out.progress {
            assert!(p.done > last);
            assert!(p.done <= p.total);
            assert_eq!(p.total, 40);
            assert_eq!(p.percent, percent(p.done, p.total));
            assert_eq!(p.done, scanner.done());
            last = p.done;
            seen += 1;
        }
    }
    assert_eq!(seen, 13);
    let (end, _) = finished(scanner);
    assert!(end.done >= last);
    assert_eq!(end, Progress { done: 40, total: 40, percent: 100 });
}

#[test]
fn a_clock_that_goes_backwards_lets_nothing_fall_due() {
    let files: Vec<FoundFile> = (0..3).map(|i| found(&format!("/m/{i}.mp3"), 5000)).collect();
    let mut artwork = ArtworkCache::new();
    let mut scanner = Scanner::new(&files, 50_000);
    let out = scanner.record(Extraction::Untagged, &mut artwork, true, 10);
    assert!(out.progress.is_none() && out.snapshot.is_none());
    let out = scanner.record(Extraction::Untagged, &mut artwork, true, 50_199);
    assert!(out.progress.is_none() && out.snapshot.is_none());
    let out = scanner.record(Extraction::Untagged, &mut artwork, true, 60_000);
    assert_eq!(out.progress, Some(Progress { done: 3, total: 3, percent: 100 }));
    assert!(out.snapshot.is_some());
}

#[test]
fn a_partial_snapshot_goes_out_every_ten_seconds_with_the_complete_entries() {
    assert_eq!(SNAPSHOT_INTERVAL_MS, 10_000);
    let files: Vec<FoundFile> = (0..5).map(|i| found(&format!("/m/{i}.mp3"), 5000)).collect();
    let mut artwork = ArtworkCache::new();
    let mut scanner = Scanner::new(&files, 0);
    assert!(scanner.record(titled("0"), &mut artwork, true, 9_999).snapshot.is_none());
    assert!(scanner.record(Extraction::Failed, &mut artwork, true, 9_999).snapshot.is_none());
    let out = scanner.record(titled("2"), &mut artwork, true, 10_000);
    let snapshot = out.snapshot.unwrap();
    assert_eq!(paths(&snapshot), vec!["/m/0.mp3", "/m/2.mp3"]);
    assert_eq!(snapshot.get("/m/2.mp3").unwrap().title.as_deref(), Some("2"));
    assert!(scanner.record(titled("3"), &mut artwork, true, 19_999).snapshot.is_none());
    let out = scanner.record(titled("4"), &mut artwork, true, 20_000);
    assert_eq!(paths(&out.snapshot.unwrap()), vec!["/m/0.mp3", "/m/2.mp3", "/m/3.mp3", "/m/4.mp3"]);
}

#[test]
fn the_messages_of_a_step_are_progress_then_snapshot() {
    let files = vec![found("/m/a.mp3", 5000), found("/m/b.mp3", 5000)];
    let mut artwork = ArtworkCache::new();
    let mut scanner = Scanner::new(&files, 0);
    let (messages, write) =
        scanner.record(titled("A"), &mut artwork, true, 100).into_messages();
    assert!(messages.is_empty());
    assert!(write.is_none());
    let (messages, _) = scanner.record(titled("B"), &mut artwork, true, 10_000).into_messages();
    assert_eq!(messages.len(), 2);
    match &messages[0] {
        ScanMessage::Progress(p) => assert_eq!(*p, Progress { done: 2, total: 2, percent: 100 }),
        _ => panic!("progress comes first"),
    }
    match &messages[1] {
        ScanMessage::PartialSnapshot(library) => assert_eq!(library.len(), 2),
        _ => panic!("the snapshot comes second"),
    }
}

#[test]
fn the_messages_that_end_a_scan_are_progress_then_the_library() {
    let files = vec![found("/m/a.mp3", 5000)];
    let mut artwork = ArtworkCache::new();
    let mut scanner = Scanner::new(&files, 0);
    scanner.record(titled("A"), &mut artwork, true, 1);
    let (progress, library) = finished(scanner);
    let messages = completion_messages(progress, library);
    assert_eq!(messages.len(), 2);
    match &messages[0] {
        ScanMessage::Progress(p) => assert_eq!(*p, Progress { done: 1, total: 1, percent: 100 }),
        _ => panic!("progress comes first"),
    }
    match &messages[1] {
        ScanMessage::Complete(library) => assert!(library.contains("/m/a.mp3")),
        _ => panic!("the library comes last"),
    }
}

#[test]
fn a_file_without_tags_gets_its_path_as_title() {
    let mut artwork = ArtworkCache::new();
    let recorded = metadata_for("/music/a.mp3", Extraction::Untagged, &mut artwork, true);
    let mut expected = MediaMetaData::new();
    expected.id = Some(A_MP3_ID.to_string());
    expected.title = Some("/music/a.mp3".to_string());
    assert_eq!(recorded.meta, Some(expected));
    assert!(recorded.artwork.is_none());
}

#[test]
fn a_file_that_failed_has_no_record() {
    let mut artwork = ArtworkCache::new();
    let recorded = metadata_for("/music/a.mp3", Extraction::Failed, &mut artwork, true);
    assert!(recorded.meta.is_none());
    assert!(recorded.artwork.is_none());
}

#[test]
fn the_tags_are_taken_over_as_they_are() {
    let tags = Tags {
        title: Some("Title".to_string()),
        artist: Some("Artist".to_string()),
        album: Some("Album".to_string()),
        album_artist: Some("Album Artist".to_string()),
        genre: Some("Genre".to_string()),
        album_disc_number: Some(1),
        album_disc_count: Some(2),
        track_number: Some(3),
        track_count: Some(12),
        duration_ms: Some(215_300),
        image: None,
        preview_image: None,
    };
    let mut artwork = ArtworkCache::new();
    let recorded = metadata_for("/music/a.mp3", Extraction::Tagged(tags), &mut artwork, true);
    let expected = MediaMetaData {
        id: Some(A_MP3_ID.to_string()),
        title: Some("Title".to_string()),
        artist: Some("Artist".to_string()),
        album: Some("Album".to_string()),
        album_artist: Some("Album Artist".to_string()),
        genre: Some("Genre".to_string()),
        album_disc_number: Some(1),
        album_disc_count: Some(2),
        track_number: Some(3),
        track_count: Some(12),
        duration_ms: Some(215_300),
        artwork_filename: None,
    };
    assert_eq!(recorded.meta, Some(expected));
    assert!(recorded.artwork.is_none());
}

#[test]
fn tags_without_a_title_leave_the_title_unset() {
    let mut tags = no_tags();
    tags.artist = Some("Artist".to_string());
    let mut artwork = ArtworkCache::new();
    let recorded = metadata_for("/music/a.mp3", Extraction::Tagged(tags), &mut artwork, true);
    let meta = recorded.meta.unwrap();
    assert_eq!(meta.title, None);
    assert_eq!(meta.duration_ms, None);
    assert_eq!(meta.artist.as_deref(), Some("Artist"));
    assert_eq!(meta.id.as_deref(), Some(A_MP3_ID));
}

#[test]
fn embedded_artwork_is_cached_and_named_in_the_record() {
    let mut tags = no_tags();
    tags.image = Some(picture(b"picture-one", "image/png"));
    tags.preview_image = Some(picture(b"picture-two", "image/png"));
    let mut artwork = ArtworkCache::new();
    let recorded = metadata_for("/music/a.mp3", Extraction::Tagged(tags), &mut artwork, true);
    let name = format!("{ONE}.png");
    assert_eq!(recorded.meta.unwrap().artwork_filename, Some(name.clone()));
    let write = recorded.artwork.unwrap();
    assert_eq!(write.filename, name);
    assert_eq!(write.bytes, b"picture-one");
    assert!(artwork.contains(&name));
}

#[test]
fn the_preview_picture_stands_in_where_there_is_no_other() {
    let mut tags = no_tags();
    tags.preview_image = Some(picture(b"picture-one", "image/jpeg"));
    let mut artwork = ArtworkCache::new();
    let recorded = metadata_for("/music/a.mp3", Extraction::Tagged(tags), &mut artwork, true);
    assert_eq!(recorded.meta.unwrap().artwork_filename, Some(format!("{ONE}.jpeg")));
    assert_eq!(recorded.artwork.unwrap().bytes, b"picture-one");
}

#[test]
fn an_unreadable_picture_is_no_artwork() {
    let mut tags = no_tags();
    tags.title = Some("T".to_string());
    tags.image = Some(ArtworkSample { bytes: None, mime: Some("image/png".to_string()) });
    tags.preview_image = Some(picture(b"picture-two", "image/png"));
    let mut artwork = ArtworkCache::new();
    let recorded = metadata_for("/music/a.mp3", Extraction::Tagged(tags), &mut artwork, true);
    let meta = recorded.meta.unwrap();
    assert_eq!(meta.artwork_filename, None);
    assert_eq!(meta.title.as_deref(), Some("T"));
    assert!(recorded.artwork.is_none());
}

#[test]
fn without_a_cache_directory_there_is_no_artwork() {
    let mut tags = no_tags();
    tags.image = Some(picture(b"picture-one", "image/png"));
    let mut artwork = ArtworkCache::new();
    let recorded = metadata_for("/music/a.mp3", Extraction::Tagged(tags), &mut artwork, false);
    assert_eq!(recorded.meta.unwrap().artwork_filename, None);
    assert!(recorded.artwork.is_none());
    assert!(!artwork.contains(&format!("{ONE}.png")));
}

#[test]
fn two_tracks_with_one_picture_write_it_once() {
    let files = vec![found("/m/a.mp3", 5000), found("/m/b.mp3", 5000)];
    let mut artwork = ArtworkCache::new();
    let mut scanner = Scanner::new(&files, 0);
    let mut first = no_tags();
    first.image = Some(picture(b"picture-one", "image/png"));
    let mut second = no_tags();
    second.image = Some(picture(b"picture-one", "image/png"));
    let out = scanner.record(Extraction::Tagged(first), &mut artwork, true, 1);
    assert_eq!(out.artwork.map(|w| w.filename), Some(format!("{ONE}.png")));
    let out = scanner.record(Extraction::Tagged(second), &mut artwork, true, 2);
    assert!(out.artwork.is_none());
    let (_, library) = finished(scanner);
    let name = Some(format!("{ONE}.png"));
    assert_eq!(library.get("/m/a.mp3").unwrap().artwork_filename, name);
    assert_eq!(library.get("/m/b.mp3").unwrap().artwork_filename, name);
}

use eleanor_server::config::Source;
use eleanor_server::fetching::{
    index_initial, index_new, index_source, reindex, IndexError, IndexMode, ProbedFile, RawTags,
};
use eleanor_server::library::Catalog;

fn tags() -> RawTags {
    RawTags {
        artist: None,
        album_artist: None,
        title: None,
        album: None,
        genre: None,
        track: None,
        year: None,
    }
}

fn probed(path: &str, filename: &str, content: &[u8]) -> ProbedFile {
    ProbedFile {
        path: path.to_string(),
        filename: filename.to_string(),
        packets: vec![content.to_vec()],
        tags: tags(),
        duration_ms: 1000,
    }
}

fn source(id: u8) -> Source {
    Source { id, path: format!("/src{}", id) }
}

#[test]
fn initial_mode_indexes_every_file() {
    let mut c = Catalog::new();
    let files = vec![
        probed("/m", "a.flac", b"content a"),
        probed("/m", "b.flac", b"content b"),
    ];
    index_source(&mut c, &source(1), IndexMode::Initial, &files).unwrap();
    assert_eq!(c.len(), 2);
    assert_eq!(c.list_all()[0].filename, "a.flac");
    assert_eq!(c.list_all()[1].filename, "b.flac");
    assert_eq!(c.list_all()[0].source_id, 1);
}

#[test]
fn initial_mode_twice_changes_nothing() {
    let mut once = Catalog::new();
    let files = vec![
        probed("/m", "a.flac", b"content a"),
        probed("/m", "b.flac", b"content b"),
    ];
    index_source(&mut once, &source(1), IndexMode::Initial, &files).unwrap();
    let mut twice = Catalog::new();
    index_source(&mut twice, &source(1), IndexMode::Initial, &files).unwrap();
    index_source(&mut twice, &source(1), IndexMode::Initial, &files).unwrap();
    let a: Vec<u32> = once.list_all().iter().map(|e| e.hash).collect();
    let b: Vec<u32> = twice.list_all().iter().map(|e| e.hash).collect();
    assert_eq!(a, b);
    assert_eq!(once.len(), twice.len());
}

#[test]
fn identical_content_collapses_to_first_entry() {
    let mut c = Catalog::new();
    let mut retagged = probed("/other", "retagged.mp3", b"same bytes");
    retagged.tags.artist = Some("Somebody Else".to_string());
    let files = vec![probed("/m", "first.mp3", b"same bytes"), retagged];
    index_source(&mut c, &source(1), IndexMode::Initial, &files).unwrap();
    assert_eq!(c.len(), 1);
    assert_eq!(c.list_all()[0].filename, "first.mp3");
    assert_eq!(c.list_all()[0].artist, None);
}

#[test]
fn incremental_mode_skips_known_filenames() {
    let mut c = Catalog::new();
    let first = vec![probed("/m", "A.flac", b"content a")];
    index_source(&mut c, &source(1), IndexMode::Initial, &first).unwrap();
    let kept_id = c.list_all()[0].id;
    let kept_hash = c.list_all()[0].hash;

    let second = vec![
        probed("/m", "A.flac", b"content a"),
        probed("/m", "B.flac", b"content b"),
    ];
    index_source(&mut c, &source(1), IndexMode::New, &second).unwrap();
    assert_eq!(c.len(), 2);
    assert_eq!(c.list_all()[0].id, kept_id);
    assert_eq!(c.list_all()[0].hash, kept_hash);
    assert_eq!(c.list_all()[0].filename, "A.flac");
    assert_eq!(c.list_all()[1].filename, "B.flac");
}

#[test]
fn incremental_mode_matches_by_leaf_name_only() {
    // A moved file with the leaf name of an existing, different entry is
    // skipped: the incremental comparison is by filename, not path or hash.
    let mut c = Catalog::new();
    let first = vec![probed("/m", "A.flac", b"old content")];
    index_source(&mut c, &source(1), IndexMode::Initial, &first).unwrap();
    let moved = vec![probed("/elsewhere", "A.flac", b"new content")];
    index_source(&mut c, &source(1), IndexMode::New, &moved).unwrap();
    assert_eq!(c.len(), 1);
    assert_eq!(c.list_all()[0].path, "/m");
}

#[test]
fn purge_mode_replaces_a_sources_entries() {
    let mut c = Catalog::new();
    let before = vec![
        probed("/m", "old1.mp3", b"old one"),
        probed("/m", "old2.mp3", b"old two"),
    ];
    index_source(&mut c, &source(1), IndexMode::Initial, &before).unwrap();
    let other = vec![probed("/n", "keep.mp3", b"other source")];
    index_source(&mut c, &source(2), IndexMode::Initial, &other).unwrap();
    let old_hash = c.list_all()[0].hash;

    let after = vec![
        probed("/m", "new1.mp3", b"new one"),
        probed("/m", "new2.mp3", b"new two"),
        probed("/m", "new3.mp3", b"new three"),
    ];
    index_source(&mut c, &source(1), IndexMode::Purge, &after).unwrap();
    assert_eq!(c.count_for_source(1), 3);
    assert_eq!(c.count_for_source(2), 1);
    assert!(c.find_by_hash(old_hash).is_none());
}

#[test]
fn year_zero_is_normalized_to_unset() {
    let mut c = Catalog::new();
    let mut with_sentinel = probed("/m", "a.mp3", b"content a");
    with_sentinel.tags.year = Some(0);
    let mut with_year = probed("/m", "b.mp3", b"content b");
    with_year.tags.year = Some(1997);
    let files = vec![with_sentinel, with_year];
    index_source(&mut c, &source(1), IndexMode::Initial, &files).unwrap();
    assert_eq!(c.list_all()[0].year, None);
    assert_eq!(c.list_all()[1].year, Some(1997));
}

#[test]
fn metadata_is_carried_into_the_entry() {
    let mut c = Catalog::new();
    let mut f = probed("/m", "a.mp3", b"content a");
    f.tags = RawTags {
        artist: Some("Artist".to_string()),
        album_artist: Some("Album Artist".to_string()),
        title: Some("Title".to_string()),
        album: Some("Album".to_string()),
        genre: Some("Genre".to_string()),
        track: Some(7),
        year: Some(2020),
    };
    f.duration_ms = 215_000;
    index_source(&mut c, &source(3), IndexMode::Initial, &vec![f]).unwrap();
    let e = &c.list_all()[0];
    assert_eq!(e.artist.as_deref(), Some("Artist"));
    assert_eq!(e.album_artist.as_deref(), Some("Album Artist"));
    assert_eq!(e.name.as_deref(), Some("Title"));
    assert_eq!(e.album.as_deref(), Some("Album"));
    assert_eq!(e.genres.as_deref(), Some("Genre"));
    assert_eq!(e.track, Some(7));
    assert_eq!(e.year, Some(2020));
    assert_eq!(e.duration, 215_000);
    assert_eq!(e.path, "/m");
    assert_eq!(e.filename, "a.mp3");
}

#[test]
fn track_number_is_stored_as_signed() {
    let mut c = Catalog::new();
    let mut f = probed("/m", "a.mp3", b"content a");
    f.tags.track = Some(u32::MAX);
    index_source(&mut c, &source(1), IndexMode::Initial, &vec![f]).unwrap();
    assert_eq!(c.list_all()[0].track, Some(-1));
}

#[test]
fn oversized_duration_aborts_the_walk() {
    let mut c = Catalog::new();
    let mut bad = probed("/m", "bad.mp3", b"content b");
    bad.duration_ms = u32::MAX as u64 + 1;
    let files = vec![probed("/m", "good.mp3", b"content a"), bad, probed(
        "/m",
        "later.mp3",
        b"content c",
    )];
    let r = index_source(&mut c, &source(1), IndexMode::Initial, &files);
    assert_eq!(r, Err(IndexError::DurationTooLarge));
    // The file before the failure stays indexed; the ones after do not.
    assert_eq!(c.len(), 1);
    assert_eq!(c.list_all()[0].filename, "good.mp3");
}

#[test]
fn initial_run_covers_every_source() {
    let mut c = Catalog::new();
    let sources = vec![source(1), source(2)];
    let filesets = vec![
        vec![probed("/s1", "a.mp3", b"content a")],
        vec![probed("/s2", "b.mp3", b"content b")],
    ];
    index_initial(&mut c, &sources, &filesets).unwrap();
    assert_eq!(c.count_for_source(1), 1);
    assert_eq!(c.count_for_source(2), 1);
}

#[test]
fn incremental_run_only_adds_new_files() {
    let mut c = Catalog::new();
    let sources = vec![source(1)];
    let filesets = vec![vec![probed("/s1", "a.mp3", b"content a")]];
    index_initial(&mut c, &sources, &filesets).unwrap();
    let grown = vec![vec![
        probed("/s1", "a.mp3", b"content a"),
        probed("/s1", "b.mp3", b"content b"),
    ]];
    index_new(&mut c, &sources, &grown).unwrap();
    assert_eq!(c.len(), 2);
}

#[test]
fn indexed_file_resolves_to_its_path() {
    let mut c = Catalog::new();
    let files = vec![probed("/music", "track.mp3", b"some audio bytes")];
    index_source(&mut c, &source(1), IndexMode::Initial, &files).unwrap();
    let hash = eleanor_server::hashing::hash_packets(&vec![b"some audio bytes".to_vec()]);
    let path = eleanor_server::library::path_from_hash(&c, hash).unwrap();
    assert_eq!(path, "/music/track.mp3");
}

#[test]
fn reindex_rebuilds_every_source() {
    let mut c = Catalog::new();
    let sources = vec![source(1)];
    let filesets = vec![vec![probed("/s1", "a.mp3", b"content a")]];
    index_initial(&mut c, &sources, &filesets).unwrap();
    let replaced = vec![vec![probed("/s1", "c.mp3", b"content c")]];
    reindex(&mut c, &sources, &replaced).unwrap();
    assert_eq!(c.len(), 1);
    assert_eq!(c.list_all()[0].filename, "c.mp3");
}

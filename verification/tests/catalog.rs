use eleanor_server::library::{path_from_hash, Catalog, EntryData, ResolveError, UpsertOutcome};

fn entry(path: &str, filename: &str, source_id: i32, hash: u32) -> EntryData {
    EntryData {
        path: path.to_string(),
        filename: filename.to_string(),
        source_id,
        hash,
        artist: None,
        album_artist: None,
        name: None,
        album: None,
        genres: None,
        track: None,
        year: None,
        duration: 0,
    }
}

#[test]
fn insert_assigns_sequential_ids() {
    let mut c = Catalog::new();
    assert_eq!(c.insert_or_ignore(entry("/a", "x.mp3", 0, 10)), UpsertOutcome::Inserted(0));
    assert_eq!(c.insert_or_ignore(entry("/a", "y.mp3", 0, 20)), UpsertOutcome::Inserted(1));
    let all = c.list_all();
    assert_eq!(all.len(), 2);
    assert_eq!(all[0].id, 0);
    assert_eq!(all[1].id, 1);
}

#[test]
fn hash_conflict_is_a_noop() {
    let mut c = Catalog::new();
    let mut first = entry("/a", "orig.mp3", 0, 42);
    first.artist = Some("First".to_string());
    assert_eq!(c.insert_or_ignore(first), UpsertOutcome::Inserted(0));
    let mut dup = entry("/b", "copy.mp3", 1, 42);
    dup.artist = Some("Second".to_string());
    assert_eq!(c.insert_or_ignore(dup), UpsertOutcome::Conflict);
    assert_eq!(c.len(), 1);
    let kept = c.find_by_hash(42).unwrap();
    assert_eq!(kept.filename, "orig.mp3");
    assert_eq!(kept.artist.as_deref(), Some("First"));
    assert_eq!(kept.source_id, 0);
}

#[test]
fn find_by_hash_misses_unknown() {
    let mut c = Catalog::new();
    c.insert_or_ignore(entry("/a", "x.mp3", 0, 7));
    assert!(c.find_by_hash(8).is_none());
    assert!(c.find_by_hash(7).is_some());
}

#[test]
fn resolve_present_hash_joins_path_and_filename() {
    let mut c = Catalog::new();
    c.insert_or_ignore(entry("/music/albums", "track01.flac", 0, 99));
    let p = path_from_hash(&c, 99).unwrap();
    assert_eq!(p, "/music/albums/track01.flac");
}

#[test]
fn resolve_unknown_hash_is_not_found() {
    let c = Catalog::new();
    assert_eq!(path_from_hash(&c, 1234), Err(ResolveError::NotFound));
}

#[test]
fn delete_by_source_removes_only_that_source() {
    let mut c = Catalog::new();
    c.insert_or_ignore(entry("/a", "x.mp3", 1, 1));
    c.insert_or_ignore(entry("/b", "y.mp3", 2, 2));
    c.insert_or_ignore(entry("/a", "z.mp3", 1, 3));
    let deleted = c.delete_by_source(1);
    assert_eq!(deleted, 2);
    assert_eq!(c.len(), 1);
    assert_eq!(c.list_all()[0].filename, "y.mp3");
    assert_eq!(c.count_for_source(1), 0);
    assert_eq!(c.count_for_source(2), 1);
}

#[test]
fn filenames_for_source_lists_only_that_source() {
    let mut c = Catalog::new();
    c.insert_or_ignore(entry("/a", "x.mp3", 1, 1));
    c.insert_or_ignore(entry("/b", "y.mp3", 2, 2));
    c.insert_or_ignore(entry("/a/sub", "z.mp3", 1, 3));
    let mut names = c.filenames_for_source(1);
    names.sort();
    assert_eq!(names, vec!["x.mp3".to_string(), "z.mp3".to_string()]);
}

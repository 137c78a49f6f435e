use eleanor_server::config::Config;
use eleanor_server::fetching::filter_audio_paths;

#[test]
fn non_audio_files_are_excluded() {
    let paths = vec![
        "/m/song.mp3".to_string(),
        "/m/notes.txt".to_string(),
        "/m/cover.png".to_string(),
        "/m/track.flac".to_string(),
        "/m/readme".to_string(),
        "/m/voice.ogg".to_string(),
    ];
    let kept = filter_audio_paths(&paths);
    assert_eq!(kept, vec![
        "/m/song.mp3".to_string(),
        "/m/track.flac".to_string(),
        "/m/voice.ogg".to_string(),
    ]);
}

#[test]
fn empty_walk_keeps_nothing() {
    let kept = filter_audio_paths(&vec![]);
    assert!(kept.is_empty());
}

#[test]
fn default_config_has_one_empty_source() {
    let c = Config::default();
    assert_eq!(c.port, 8008);
    assert_eq!(c.sources.len(), 1);
    assert_eq!(c.sources[0].id, 0);
    assert_eq!(c.sources[0].path, "");
}

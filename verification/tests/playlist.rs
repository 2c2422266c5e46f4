use quspec::utils::{collect_audio_files, format_time, is_audio_extension, AudioInput, FoundFile};

fn found(path: &str, name: &str, ext: Option<&str>) -> FoundFile<String> {
    FoundFile {
        path: path.to_string(),
        name: name.to_string(),
        extension: ext.map(|e| e.to_string()),
    }
}

#[test]
fn audio_extensions_ignore_case() {
    for e in ["wav", "flac", "mp3", "ogg", "opus", "m4a", "aac", "aiff", "aif", "wma", "mp4", "ape"] {
        assert!(is_audio_extension(e));
        assert!(is_audio_extension(&e.to_uppercase()));
    }
    assert!(is_audio_extension("FlAc"));
    assert!(!is_audio_extension("txt"));
    assert!(!is_audio_extension("wavx"));
    assert!(!is_audio_extension("wa"));
    assert!(!is_audio_extension(""));
    assert!(!is_audio_extension("jpg"));
}

#[test]
fn a_single_file_is_played_whatever_its_extension() {
    let out = collect_audio_files(AudioInput::File("notes.txt".to_string()));
    assert_eq!(out, vec!["notes.txt".to_string()]);
}

#[test]
fn a_missing_path_gives_nothing() {
    let out: Vec<String> = collect_audio_files(AudioInput::Missing);
    assert!(out.is_empty());
}

#[test]
fn a_directory_gives_its_audio_files_in_natural_order() {
    let files = vec![
        found("d/track10.flac", "track10.flac", Some("flac")),
        found("d/cover.jpg", "cover.jpg", Some("jpg")),
        found("d/sub/track2.MP3", "track2.MP3", Some("MP3")),
        found("d/README", "README", None),
        found("d/Track1.wav", "Track1.wav", Some("wav")),
        found("d/track02.ogg", "track02.ogg", Some("ogg")),
    ];
    let out = collect_audio_files(AudioInput::Directory(files));
    assert_eq!(
        out,
        vec![
            "d/Track1.wav".to_string(),
            // equal numbers, then ".mp3" sorts before ".ogg"
            "d/sub/track2.MP3".to_string(),
            "d/track02.ogg".to_string(),
            "d/track10.flac".to_string(),
        ]
    );
}

#[test]
fn names_that_tie_keep_the_order_they_were_found_in() {
    let files = vec![
        found("b/a01.wav", "a01.wav", Some("wav")),
        found("a/A1.wav", "A1.wav", Some("wav")),
        found("c/a1.wav", "a1.wav", Some("wav")),
        found("c/a0.wav", "a0.wav", Some("wav")),
    ];
    let out = collect_audio_files(AudioInput::Directory(files));
    assert_eq!(
        out,
        vec![
            "c/a0.wav".to_string(),
            "b/a01.wav".to_string(),
            "a/A1.wav".to_string(),
            "c/a1.wav".to_string(),
        ]
    );
}

#[test]
fn an_empty_directory_gives_nothing() {
    let out: Vec<String> = collect_audio_files(AudioInput::Directory(Vec::new()));
    assert!(out.is_empty());
}

#[test]
fn time_labels() {
    assert_eq!(format_time(0, None), "0:00");
    assert_eq!(format_time(5, None), "0:05");
    assert_eq!(format_time(65, None), "1:05");
    assert_eq!(format_time(600, None), "10:00");
    assert_eq!(format_time(3599, None), "59:59");
    assert_eq!(format_time(3600, None), "1:00:00");
    assert_eq!(format_time(3725, None), "1:02:05");
    assert_eq!(format_time(36000 + 59, None), "10:00:59");
}

#[test]
fn time_labels_with_fractions() {
    assert_eq!(format_time(5, Some(500)), "0:05.5");
    assert_eq!(format_time(5, Some(50)), "0:05.05");
    assert_eq!(format_time(5, Some(1)), "0:05.001");
    assert_eq!(format_time(5, Some(123)), "0:05.123");
    assert_eq!(format_time(5, Some(120)), "0:05.12");
    assert_eq!(format_time(5, Some(1000)), "0:05");
    assert_eq!(format_time(5, Some(0)), "0:05");
    assert_eq!(format_time(3725, Some(250)), "1:02:05.25");
}

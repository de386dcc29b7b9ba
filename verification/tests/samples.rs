use recolor::sample::model::{SampleClip, SampleLibrary};
use recolor::sample::scanner::{clip_for_extension, is_listed_extension, is_media_extension, process_file};

fn sample(pitch: u8, name: &str) -> SampleClip {
    SampleClip {
        id: 999,
        path: format!("/tmp/{}.wav", name),
        name: name.to_string(),
        pitch,
        duration_us: 240_000,
        sample_rate: 44100,
        format: "WAV".to_string(),
        tags: vec!["voice".to_string()],
    }
}

#[test]
fn added_clips_get_fresh_ids_and_read_back() {
    let mut lib = SampleLibrary::new();
    assert!(lib.is_empty());
    assert_eq!(lib.add_clip(sample(60, "a")), 0);
    assert_eq!(lib.add_clip(sample(62, "b")), 1);
    assert_eq!(lib.len(), 2);
    assert_eq!(lib.get_clip(1).unwrap().name, "b");
    assert_eq!(lib.get_clip(0).unwrap().id, 0);
    assert!(lib.get_clip(2).is_none());
}

#[test]
fn removed_clips_are_gone_and_ids_are_not_reused() {
    let mut lib = SampleLibrary::new();
    lib.add_clip(sample(60, "a"));
    lib.add_clip(sample(61, "b"));
    assert!(lib.remove_clip(0));
    assert!(!lib.remove_clip(0));
    assert!(lib.get_clip(0).is_none());
    assert_eq!(lib.get_clip(1).unwrap().name, "b");
    assert_eq!(lib.add_clip(sample(62, "c")), 2);
    assert_eq!(lib.len(), 2);
}

#[test]
fn clips_are_found_by_pitch() {
    let mut lib = SampleLibrary::new();
    lib.add_clip(sample(60, "a"));
    lib.add_clip(sample(62, "b"));
    lib.add_clip(sample(60, "c"));
    lib.add_clip(sample(57, "d"));
    let exact: Vec<&str> = lib.find_by_pitch(60).iter().map(|c| c.name.as_str()).collect();
    assert_eq!(exact, vec!["a", "c"]);
    let near: Vec<&str> = lib.find_similar(60, 2).iter().map(|c| c.name.as_str()).collect();
    assert_eq!(near, vec!["a", "b", "c"]);
    assert!(lib.find_similar(100, 3).is_empty());
}

#[test]
fn pitch_name_of_a_clip() {
    assert_eq!(sample(69, "x").pitch_name(), "A4");
}

#[test]
fn media_extensions_in_any_case() {
    assert!(is_media_extension("wav"));
    assert!(is_media_extension("WAV"));
    assert!(is_media_extension("Mp4"));
    assert!(is_media_extension("ts"));
    assert!(!is_media_extension("txt"));
    assert!(!is_media_extension("mid"));
    assert!(!is_media_extension(""));
}

#[test]
fn a_media_file_gives_a_clip() {
    let c = process_file("/x/Voice.FLAC".to_string(), Some("Voice".to_string()), "FLAC", 4).unwrap();
    assert_eq!(c.id, 4);
    assert_eq!(c.path, "/x/Voice.FLAC");
    assert_eq!(c.name, "Voice");
    assert_eq!(c.pitch, 60);
    assert_eq!(c.duration_us, 0);
    assert_eq!(c.sample_rate, 44100);
    assert_eq!(c.format, "FLAC");
    assert!(c.tags.is_empty());
    let d = process_file("/x/.mov".to_string(), None, "mov", 0).unwrap();
    assert_eq!(d.name, "unknown");
    assert_eq!(d.format, "MOV");
    assert!(process_file("/x/a.txt".to_string(), Some("a".to_string()), "txt", 0).is_none());
}

#[test]
fn listed_extensions_are_lower_case() {
    assert!(is_listed_extension("flac"));
    assert!(is_listed_extension("m4v"));
    assert!(!is_listed_extension("FLAC"));
    assert!(!is_listed_extension("txt"));
    assert!(!is_listed_extension(""));
}

#[test]
fn a_lower_case_extension_gives_a_clip() {
    let c = clip_for_extension("/s/a.ogg".to_string(), None, "ogg", 4).unwrap();
    assert_eq!((c.id, c.name.as_str(), c.format.as_str(), c.pitch), (4, "unknown", "OGG", 60));
    assert_eq!((c.duration_us, c.sample_rate, c.tags.len()), (0, 44100, 0));
    assert!(clip_for_extension("/s/a.Ogg".to_string(), None, "Ogg", 4).is_none());
}

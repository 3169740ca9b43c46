use content_renamer::audio_file::{
    detect_audio_file_kind, detect_extension_kind, AudioFileKind, UnsupportedFile,
};

#[test]
fn detects_supported_extensions() {
    assert_eq!(
        detect_audio_file_kind("song.mp3").expect("mp3"),
        AudioFileKind::Mp3
    );
    assert_eq!(
        detect_audio_file_kind("song.m4a").expect("m4a"),
        AudioFileKind::M4a
    );
}

#[test]
fn rejects_unsupported_extensions() {
    let error = detect_audio_file_kind("song.wav").expect_err("wav rejected");
    assert!(error.message().contains("mp3 / m4a"));
}

#[test]
fn reads_extensions_in_any_case() {
    assert_eq!(
        detect_audio_file_kind("/music/01. Song.MP3"),
        Ok(AudioFileKind::Mp3)
    );
    assert_eq!(detect_audio_file_kind("a.b.M4a"), Ok(AudioFileKind::M4a));
}

#[test]
fn rejects_files_without_extension() {
    assert_eq!(detect_audio_file_kind("mp3"), Err(UnsupportedFile));
    assert_eq!(detect_audio_file_kind(".mp3"), Err(UnsupportedFile));
    assert_eq!(detect_audio_file_kind("song.mp3.bak"), Err(UnsupportedFile));
    assert_eq!(detect_audio_file_kind("dir.mp3/song"), Err(UnsupportedFile));
    assert_eq!(detect_audio_file_kind(""), Err(UnsupportedFile));
}

#[test]
fn knows_the_kinds_of_extensions() {
    assert_eq!(detect_extension_kind(Some("mP3")), Ok(AudioFileKind::Mp3));
    assert_eq!(detect_extension_kind(Some("m4a")), Ok(AudioFileKind::M4a));
    assert_eq!(detect_extension_kind(Some("m4b")), Err(UnsupportedFile));
    assert_eq!(detect_extension_kind(None), Err(UnsupportedFile));
}

#[test]
fn reads_names_with_colons_and_backslashes() {
    assert_eq!(
        detect_audio_file_kind("Re:Zero OP.mp3"),
        Ok(AudioFileKind::Mp3)
    );
    assert_eq!(
        detect_audio_file_kind("C:/music/Re:Zero.m4a"),
        Ok(AudioFileKind::M4a)
    );
    assert_eq!(
        detect_audio_file_kind("C:\\music\\song.mp3"),
        Ok(AudioFileKind::Mp3)
    );
    assert_eq!(
        detect_audio_file_kind("C:\\my.mp3\\song"),
        Err(UnsupportedFile)
    );
    assert_eq!(detect_audio_file_kind("music/.."), Err(UnsupportedFile));
}

#[test]
fn passes_over_endings_without_names() {
    assert_eq!(detect_audio_file_kind("song.mp3/"), Ok(AudioFileKind::Mp3));
    assert_eq!(
        detect_audio_file_kind("music/song.m4a//."),
        Ok(AudioFileKind::M4a)
    );
    assert_eq!(
        detect_audio_file_kind("song.mp3/.."),
        Err(UnsupportedFile)
    );
    assert_eq!(detect_audio_file_kind("."), Err(UnsupportedFile));
    assert_eq!(detect_audio_file_kind("/"), Err(UnsupportedFile));
}

#[test]
fn reads_names_after_drives_and_shares() {
    assert_eq!(
        detect_audio_file_kind("C:song.mp3"),
        Ok(AudioFileKind::Mp3)
    );
    assert_eq!(
        detect_audio_file_kind("//server/share/song.mp3"),
        Ok(AudioFileKind::Mp3)
    );
    assert_eq!(
        detect_audio_file_kind("\\\\server\\share\\song.m4a"),
        Ok(AudioFileKind::M4a)
    );
    assert_eq!(
        detect_audio_file_kind("//server/share/"),
        Err(UnsupportedFile)
    );
}

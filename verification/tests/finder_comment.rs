use id3::TagLike;

use content_renamer::audio_file::UnsupportedFile;
use content_renamer::file_name::AudioSource;
use content_renamer::finder_comment::{
    is_theme_line, merge_theme_comment, read_comment, write_comment, AudioTag, CommentError,
};

#[test]
fn appends_theme_line() {
    let updated = merge_theme_comment("既存コメント", "君の名は。 [OP]");
    assert_eq!(updated, "既存コメント\n君の名は。 [OP]");
}

#[test]
fn replaces_existing_theme_line() {
    let updated = merge_theme_comment("メモ\n主題歌作品: 古い作品", "SPY×FAMILY [ED]");
    assert_eq!(updated, "メモ\nSPY×FAMILY [ED]");
}

#[test]
fn detailed_comment_roundtrip() {
    let empty = id3::Tag::read_from2(std::io::Cursor::new(b"")).map_err(|error| error.to_string());
    assert!(empty.is_err());
    let tag = mp3_tag(
        write_comment(AudioSource::Mp3(empty), "君の名は。 [OP]").expect("write detailed comment"),
    );

    let mut bytes: Vec<u8> = Vec::new();
    tag.write_to(&mut bytes, id3::Version::Id3v24)
        .expect("encoded");
    let written =
        id3::Tag::read_from2(std::io::Cursor::new(bytes)).map_err(|error| error.to_string());
    let comment = read_comment(&AudioSource::Mp3(written)).expect("read detailed comment");
    assert_eq!(comment, "君の名は。 [OP]");
}

#[test]
fn merges_theme_line_for_m4a_comment_too() {
    let updated = merge_theme_comment("既存コメント", "超かぐや姫 [etc.]");
    assert_eq!(updated, "既存コメント\n超かぐや姫 [etc.]");
}

#[test]
fn replaces_new_style_theme_line() {
    let updated = merge_theme_comment("メモ\nドラえもん [OP]", "ドラえもん [ED]");
    assert_eq!(updated, "メモ\nドラえもん [ED]");
}

fn lines(comment: &str) -> Vec<&str> {
    comment.lines().collect()
}

#[test]
fn knows_theme_lines() {
    assert!(is_theme_line("主題歌作品: 何か"));
    assert!(is_theme_line("  主題歌作品:"));
    assert!(is_theme_line("作品 [OP]"));
    assert!(is_theme_line("作品 [ed]"));
    assert!(is_theme_line("作品 [Etc.]"));
    assert!(is_theme_line("作品 [その他]"));
    assert!(!is_theme_line("作品[OP]"));
    assert!(!is_theme_line("[OP]"));
    assert!(!is_theme_line(" [OP]"));
    assert!(!is_theme_line("作品 [IN]"));
    assert!(!is_theme_line("作品 [OP] "));
    assert!(!is_theme_line("作品 [etcx]"));
    assert!(!is_theme_line(""));
}

#[test]
fn merging_keeps_other_lines() {
    let merged = merge_theme_comment("a  \r\n\n b\r\n作品 [OP]\nc", "新作 [ED]");
    assert_eq!(lines(&merged), vec!["a", " b", "新作 [ED]", "c"]);
    assert_eq!(merge_theme_comment("", "新作 [ED]"), "新作 [ED]");
    assert_eq!(
        merge_theme_comment("作品 [OP]\n作品 [ED]", "新作 [ED]"),
        "新作 [ED]\n作品 [ED]"
    );
}

#[test]
fn merging_twice_is_merging_once() {
    let once = merge_theme_comment("メモ", "作品 [OP]");
    assert_eq!(merge_theme_comment(&once, "作品 [OP]"), once);
    assert_eq!(
        merge_theme_comment(&once, "別作 [ED]"),
        merge_theme_comment("メモ", "別作 [ED]")
    );
}

fn mp3_with_comments(comments: Vec<(&str, &str, &str)>) -> id3::Tag {
    let mut tag = id3::Tag::new();
    tag.set_title("Title");
    for (lang, description, text) in comments {
        tag.add_frame(id3::frame::Comment {
            lang: lang.to_string(),
            description: description.to_string(),
            text: text.to_string(),
        });
    }
    tag
}

fn mp3_tag(tag: AudioTag) -> id3::Tag {
    match tag {
        AudioTag::Mp3(tag) => tag,
        AudioTag::M4a(_) => panic!("not an ID3 tag"),
    }
}

#[test]
fn written_mp3_comments_are_read_back() {
    let source = AudioSource::Mp3(Ok(mp3_with_comments(vec![
        ("eng", "d", "old"),
        ("fra", "", "older"),
    ])));
    assert_eq!(read_comment(&source), Ok("old".to_string()));
    let tag = mp3_tag(write_comment(source, "君の名は。 [OP]").expect("written"));
    assert_eq!(tag.comments().count(), 1);
    let comment = tag.comments().next().expect("comment");
    assert_eq!(comment.lang, "eng");
    assert_eq!(comment.description, "d");
    assert_eq!(tag.title(), Some("Title"));

    let mut bytes: Vec<u8> = Vec::new();
    tag.write_to(&mut bytes, id3::Version::Id3v24)
        .expect("encoded");
    let decoded = id3::Tag::read_from2(std::io::Cursor::new(bytes)).expect("decoded");
    assert_eq!(
        read_comment(&AudioSource::Mp3(Ok(decoded))),
        Ok("君の名は。 [OP]".to_string())
    );
}

#[test]
fn comments_are_written_to_files_without_tags() {
    let source = AudioSource::Mp3(Err("NoTag".to_string()));
    assert_eq!(read_comment(&source), Ok(String::new()));
    let tag = mp3_tag(write_comment(source, "君の名は。 [OP]").expect("written"));
    let comment = tag.comments().next().expect("comment");
    assert_eq!(comment.lang, "jpn");
    assert_eq!(comment.description, "");
    assert_eq!(comment.text, "君の名は。 [OP]");
}

#[test]
fn blank_comments_are_removed() {
    let source = AudioSource::Mp3(Ok(mp3_with_comments(vec![("eng", "", "old")])));
    let tag = mp3_tag(write_comment(source, " \n ").expect("written"));
    assert_eq!(tag.comments().count(), 0);

    let mut before = mp4ameta::Tag::default();
    before.set_comment("old");
    match write_comment(AudioSource::M4a(Ok(before)), "").expect("written") {
        AudioTag::M4a(tag) => assert_eq!(tag.comment(), None),
        AudioTag::Mp3(_) => panic!("not MPEG-4 metadata"),
    }
}

#[test]
fn written_m4a_comments_are_read_back() {
    let mut before = mp4ameta::Tag::default();
    before.set_title("Title");
    before.add_comment("one");
    before.add_comment("two");
    let source = AudioSource::M4a(Ok(before));
    assert_eq!(read_comment(&source), Ok("one".to_string()));
    match write_comment(source, "君の名は。 [OP]").expect("written") {
        AudioTag::M4a(tag) => {
            assert_eq!(tag.comments().count(), 1);
            assert_eq!(tag.title(), Some("Title"));
            assert_eq!(
                read_comment(&AudioSource::M4a(Ok(tag))),
                Ok("君の名は。 [OP]".to_string())
            );
        }
        AudioTag::Mp3(_) => panic!("not MPEG-4 metadata"),
    }
}

#[test]
fn says_why_a_comment_cannot_be_written() {
    let unsupported = AudioSource::Unsupported(UnsupportedFile);
    assert_eq!(read_comment(&unsupported), Err(UnsupportedFile));
    match write_comment(unsupported, "x") {
        Ok(_) => panic!("written"),
        Err(error) => {
            assert_eq!(error, CommentError::Unsupported(UnsupportedFile));
            assert_eq!(error.message(), "mp3 / m4a ファイルのみ対応しています");
        }
    }
    let unreadable = AudioSource::M4a(Err("broken".to_string()));
    assert_eq!(read_comment(&unreadable), Ok(String::new()));
    match write_comment(unreadable, "x") {
        Ok(_) => panic!("written"),
        Err(error) => {
            assert_eq!(error, CommentError::UnreadableM4a);
            assert_eq!(error.message(), "failed to read m4a metadata");
        }
    }
}

use id3::TagLike;

use content_renamer::audio_file::UnsupportedFile;
use content_renamer::file_name::{
    build_search_input, build_search_queries, build_search_queries_from_title, clean_title,
    normalize_metadata, normalize_text, push_query, read_metadata, strip_leading_track_number,
    strip_title_noise, AudioSource, SourceError,
};
use content_renamer::order::TextSet;

fn mp3(title: Option<&str>, artist: Option<&str>) -> AudioSource {
    let mut tag = id3::Tag::new();
    if let Some(title) = title {
        tag.set_title(title);
    }
    if let Some(artist) = artist {
        tag.set_artist(artist);
    }
    AudioSource::Mp3(Ok(tag))
}

#[test]
fn extracts_multiple_query_shapes_from_title() {
    let queries = build_search_queries_from_title("01. Artist - Song Title [Official]");
    assert!(queries
        .iter()
        .any(|value| value == "Artist - Song Title [Official]"));
    assert!(queries.iter().any(|value| value == "Artist - Song Title"));
    assert!(queries.iter().any(|value| value == "Artist"));
    assert!(queries.iter().any(|value| value == "Song Title [Official]"));
    assert!(queries.iter().any(|value| value == "Song Title"));
    assert_eq!(queries.len(), 5);
}

#[test]
fn strips_common_mix_suffixes() {
    let queries = build_search_queries_from_title("Reply Inst(NoLimiter)");
    assert!(queries.iter().any(|value| value == "Reply"));
    assert!(queries.iter().all(|value| value != "Inst"));
}

#[test]
fn prepends_title_and_artist_search_queries() {
    let title_queries = build_search_queries_from_title("Blue");
    let queries = build_search_queries(&title_queries, Some("Fujifabric"));

    assert_eq!(queries[0], "Blue Fujifabric");
    assert_eq!(queries[1], "Fujifabric Blue");
    assert!(queries.iter().any(|value| value == "Blue"));
    assert_eq!(queries.len(), 3);
}

#[test]
fn normalizes_titles() {
    assert_eq!(normalize_text("  a_b.c　d \t\n e "), "a b c d e");
    assert_eq!(normalize_text("..."), "");
    assert_eq!(normalize_text("青い 空"), "青い 空");
    let once = normalize_text(" x__y. ");
    assert_eq!(normalize_text(&once), once);
}

#[test]
fn strips_track_numbers() {
    assert_eq!(strip_leading_track_number("01. Song"), "Song");
    assert_eq!(strip_leading_track_number("  7 - Song"), "Song");
    assert_eq!(strip_leading_track_number("123_Song"), "Song");
    assert_eq!(strip_leading_track_number("1234 Song"), "1234 Song");
    assert_eq!(strip_leading_track_number("7Song"), "7Song");
    assert_eq!(strip_leading_track_number("Song 01."), "Song 01.");
    assert_eq!(strip_leading_track_number("12"), "12");
    assert_eq!(strip_leading_track_number("１２. Song"), "Song");
}

#[test]
fn cleans_titles() {
    assert_eq!(clean_title("01. Song (TV Size) [x]【y】"), "Song");
    assert_eq!(clean_title("Song (open"), "Song (open");
    assert_eq!(clean_title("Song (a]b)"), "Song b)");
    assert_eq!(clean_title("Song ((a)"), "Song");
    let long = "x".repeat(81);
    assert_eq!(
        clean_title(&format!("Song ({})", long)),
        format!("Song ({})", long)
    );
    let short = "x".repeat(80);
    assert_eq!(clean_title(&format!("Song ({})", short)), "Song");
}

#[test]
fn strips_noise() {
    assert_eq!(strip_title_noise("Song Instrumental"), "Song");
    assert_eq!(strip_title_noise("Song OFF VOCAL"), "Song");
    assert_eq!(strip_title_noise("Song off-vocal x"), "Song x");
    assert_eq!(strip_title_noise("Song TVsize"), "Song");
    assert_eq!(strip_title_noise("Song anime size"), "Song");
    assert_eq!(strip_title_noise("Song short version"), "Song");
    assert_eq!(strip_title_noise("Song long-ver"), "Song");
    assert_eq!(strip_title_noise("Song edit ver"), "Song");
    assert_eq!(strip_title_noise("Song No Limiter"), "Song");
    assert_eq!(strip_title_noise("Instance"), "Instance");
    assert_eq!(strip_title_noise("tv  size"), "tv size");
    assert_eq!(strip_title_noise("inst inst"), "");
    assert_eq!(strip_title_noise("歌inst"), "歌inst");
    assert_eq!(strip_title_noise("inſt"), "");
}

#[test]
fn keeps_queries_of_two_bytes() {
    let mut queries = TextSet::new();
    push_query(&mut queries, "a");
    push_query(&mut queries, "愛");
    push_query(&mut queries, " ab ");
    push_query(&mut queries, "ab");
    assert_eq!(
        queries.to_list(),
        vec!["ab".to_string(), "愛".to_string()]
    );
}

#[test]
fn parts_titles_at_separators() {
    let queries = build_search_queries_from_title("A1／B2");
    assert_eq!(
        queries,
        vec!["A1".to_string(), "A1／B2".to_string(), "B2".to_string()]
    );
    let queries = build_search_queries_from_title("aa_bb");
    assert_eq!(
        queries,
        vec!["aa".to_string(), "aa bb".to_string(), "bb".to_string()]
    );
    assert_eq!(build_search_queries_from_title("x"), Vec::<String>::new());
}

#[test]
fn ignores_short_artists_in_queries() {
    let titles = vec!["Blue".to_string(), "blue".to_string(), "Blue".to_string()];
    let queries = build_search_queries(&titles, Some("x"));
    assert_eq!(queries, vec!["Blue".to_string(), "blue".to_string()]);
    let queries = build_search_queries(&titles, None);
    assert_eq!(queries, vec!["Blue".to_string(), "blue".to_string()]);
}

#[test]
fn reads_the_tags_of_mp3_files() {
    let input = build_search_input(&mp3(Some(" 01. Blue_Sky "), Some("Fuji.fabric"))).expect("input");
    assert_eq!(input.source_title, "01 Blue Sky");
    assert_eq!(input.source_artist.as_deref(), Some("Fuji fabric"));
    assert_eq!(input.title_queries, vec!["Blue Sky".to_string()]);
    assert_eq!(
        input.search_queries,
        vec![
            "Blue Sky Fuji fabric".to_string(),
            "Fuji fabric Blue Sky".to_string(),
            "Blue Sky".to_string(),
        ]
    );
}

#[test]
fn reads_the_tags_of_m4a_files() {
    let mut tag = mp4ameta::Tag::default();
    tag.set_title("Blue");
    tag.set_album_artist("Band");
    let (title, artist) = read_metadata(&AudioSource::M4a(Ok(tag.clone()))).expect("metadata");
    assert_eq!(title, "Blue");
    assert_eq!(artist.as_deref(), Some("Band"));
    tag.set_artist("Singer");
    let input = build_search_input(&AudioSource::M4a(Ok(tag))).expect("input");
    assert_eq!(input.source_artist.as_deref(), Some("Singer"));
}

#[test]
fn says_why_there_is_nothing_to_search_for() {
    let message = |source: AudioSource| match build_search_input(&source) {
        Ok(_) => panic!("input"),
        Err(error) => error.message(),
    };
    assert_eq!(
        message(AudioSource::Unsupported(UnsupportedFile)),
        "mp3 / m4a ファイルのみ対応しています"
    );
    assert_eq!(
        message(AudioSource::Mp3(Err("NoTag".to_string()))),
        "NoTag"
    );
    assert_eq!(
        message(AudioSource::M4a(Err("broken".to_string()))),
        "broken"
    );
    assert_eq!(message(mp3(None, None)), "タイトルタグが見つかりません");
    assert_eq!(
        message(AudioSource::M4a(Ok(mp4ameta::Tag::default()))),
        "タイトルタグが見つかりません"
    );
    assert_eq!(message(mp3(Some(" . "), None)), "タイトルタグが空です");
    assert_eq!(
        message(mp3(Some("x"), None)),
        "タイトルタグから検索語を作れませんでした"
    );
}

#[test]
fn blank_artists_count_as_none() {
    let (title, artist) =
        normalize_metadata(Some("T t".to_string()), Some(" _ ".to_string())).expect("metadata");
    assert_eq!(title, "T t");
    assert_eq!(artist, None);
    assert!(matches!(
        normalize_metadata(None, None),
        Err(SourceError::NoTitle)
    ));
}

use content_renamer::file_name::SearchInput;
use content_renamer::lookup::{
    build_exact_queries, build_fuzzy_queries, format_exact_matched_query, prefer_artist_matches,
    SongRecord, ThemeCandidate, ThemeKind,
};
use content_renamer::scoring::ArtistRecord;

fn blue_input(search_queries: Vec<&str>) -> SearchInput {
    SearchInput {
        source_title: "Blue".to_string(),
        source_artist: Some("Fujifabric".to_string()),
        title_queries: vec!["Blue".to_string()],
        search_queries: search_queries.into_iter().map(String::from).collect(),
    }
}

fn song(id: u64, title: &str, artists: Vec<&str>) -> SongRecord {
    SongRecord {
        id,
        title: title.to_string(),
        animethemes: Vec::new(),
        artists: artists
            .into_iter()
            .map(|name| ArtistRecord {
                name: name.to_string(),
            })
            .collect(),
    }
}

#[test]
fn maps_api_theme_types() {
    assert_eq!(ThemeKind::from_api_type("OP"), ThemeKind::Opening);
    assert_eq!(ThemeKind::from_api_type("ED"), ThemeKind::Ending);
    assert_eq!(ThemeKind::from_api_type("IN"), ThemeKind::Other);
}

#[test]
fn includes_artist_in_fuzzy_queries() {
    let search_input = SearchInput {
        source_title: "Blue".to_string(),
        source_artist: Some("Fujifabric".to_string()),
        title_queries: vec!["Blue".to_string()],
        search_queries: vec![
            "Blue Fujifabric".to_string(),
            "Fujifabric Blue".to_string(),
            "Blue".to_string(),
        ],
    };

    let queries = build_fuzzy_queries(&search_input);
    assert_eq!(queries[0], "Blue Fujifabric");
    assert_eq!(queries[1], "Fujifabric Blue");
    assert_eq!(queries[2], "Blue");
    assert_eq!(queries.len(), 3);
}

#[test]
fn builds_artist_aware_exact_queries_first() {
    let search_input = SearchInput {
        source_title: "Blue".to_string(),
        source_artist: Some("Fujifabric".to_string()),
        title_queries: vec!["Blue".to_string()],
        search_queries: vec!["Blue Fujifabric".to_string(), "Blue".to_string()],
    };

    let queries = build_exact_queries(&search_input);
    assert_eq!(queries[0].title, "Blue");
    assert_eq!(queries[0].matched_query, "Blue Fujifabric");
    assert_eq!(queries[0].artist.as_deref(), Some("Fujifabric"));
    assert_eq!(queries[1].matched_query, "Blue");
    assert!(queries[1].artist.is_none());
}

#[test]
fn exact_queries_without_artist_are_made_once() {
    let search_input = SearchInput {
        source_title: "Blue".to_string(),
        source_artist: None,
        title_queries: vec!["Blue".to_string(), "Red".to_string()],
        search_queries: vec![],
    };
    let queries = build_exact_queries(&search_input);
    assert_eq!(queries.len(), 2);
    assert_eq!(queries[0].matched_query, "Blue");
    assert_eq!(queries[1].title, "Red");
    assert!(queries[0].artist.is_none());
}

#[test]
fn shows_queries_with_their_artist() {
    assert_eq!(
        format_exact_matched_query("Blue", Some("Fujifabric")),
        "Blue Fujifabric"
    );
    assert_eq!(format_exact_matched_query("Blue", None), "Blue");
}

#[test]
fn fuzzy_queries_skip_blanks_and_repetitions() {
    let queries = build_fuzzy_queries(&blue_input(vec!["  ", "Blue", "BLUE!", "Red", "blue"]));
    assert_eq!(queries, vec!["Blue".to_string(), "Red".to_string()]);
}

#[test]
fn prefers_songs_by_the_artist() {
    let songs = vec![
        song(1, "Blue", vec!["Someone"]),
        song(2, "Blue", vec!["Other", "FUJIFABRIC"]),
        song(3, "Blue", vec!["Fujifabric feat. X"]),
    ];
    let preferred = prefer_artist_matches(songs, Some("Fujifabric"));
    let ids: Vec<u64> = preferred.iter().map(|song| song.id).collect();
    assert_eq!(ids, vec![2, 3]);
}

#[test]
fn keeps_all_songs_where_none_is_by_the_artist() {
    let songs = vec![
        song(1, "Blue", vec!["Someone"]),
        song(2, "Blue", vec![]),
    ];
    let preferred = prefer_artist_matches(songs, Some("Fujifabric"));
    assert_eq!(preferred.len(), 2);
    let songs = vec![song(1, "Blue", vec!["Someone"])];
    assert_eq!(prefer_artist_matches(songs, None).len(), 1);
}

#[test]
fn labels_themes() {
    assert_eq!(ThemeKind::Opening.label(), "OP");
    assert_eq!(ThemeKind::Ending.label(), "ED");
    assert_eq!(ThemeKind::Other.label(), "etc.");
    assert_eq!(ThemeKind::Opening.priority(), 1);
    assert_eq!(ThemeKind::Ending.priority(), 1);
    assert_eq!(ThemeKind::Other.priority(), 0);
}

#[test]
fn writes_candidates_with_their_theme() {
    let candidate = ThemeCandidate {
        work_title: "超かぐや姫".to_string(),
        kind: ThemeKind::Other,
        score: 3,
        sources: vec![],
    };
    assert_eq!(candidate.formatted_label(), "超かぐや姫 [etc.]");
    let copy = candidate.clone();
    assert_eq!(copy.formatted_label(), candidate.formatted_label());
    assert_eq!(copy.score, 3);
}

use content_renamer::scoring::normalized_lookup_text;
use content_renamer::title_cache::TitleCache;
use content_renamer::title_localizer::{
    contains_japanese, is_japanese_character, media_match_score, select_localized_title,
    should_localize, title_similarity_score, AniListMedia, AniListTitle, GraphQlData, GraphQlPage,
    GraphQlResponse, LocalizeStep, TitleLocalizer, SEARCH_QUERY,
};

fn media(native: Option<&str>, romaji: Option<&str>, english: Option<&str>) -> AniListMedia {
    AniListMedia {
        title: AniListTitle {
            native: native.map(String::from),
            romaji: romaji.map(String::from),
            english: english.map(String::from),
        },
        synonyms: vec![],
    }
}

fn response(media: Vec<AniListMedia>) -> GraphQlResponse {
    GraphQlResponse {
        data: Some(GraphQlData {
            page: Some(GraphQlPage { media }),
        }),
    }
}

#[test]
fn localizes_romaji_title_to_native() {
    let response = GraphQlResponse {
        data: Some(GraphQlData {
            page: Some(GraphQlPage {
                media: vec![AniListMedia {
                    title: AniListTitle {
                        native: Some("ブルーロック".to_string()),
                        romaji: Some("Blue Lock".to_string()),
                        english: Some("BLUE LOCK".to_string()),
                    },
                    synonyms: vec![],
                }],
            }),
        }),
    };

    let localized = select_localized_title("Blue Lock", &response);
    assert_eq!(localized.as_deref(), Some("ブルーロック"));
}

#[test]
fn skips_titles_that_are_already_japanese() {
    assert!(!should_localize("ぼっち・ざ・ろっく！"));
    assert!(should_localize("Bocchi the Rock!"));
}

#[test]
fn similarity_prefers_exact_alias_match() {
    assert!(
        title_similarity_score("Blue Lock", "Blue Lock")
            > title_similarity_score("Blue Lock", "Blue Dragon")
    );
}

#[test]
fn detects_japanese_characters() {
    assert!(contains_japanese("ブルーロック"));
    assert!(!contains_japanese("Blue Lock"));
}

#[test]
fn normalizes_titles_for_cache_key() {
    assert_eq!(normalized_lookup_text("Blue-Lock!"), "blue lock");
}

#[test]
fn media_score_uses_synonyms_too() {
    let media = AniListMedia {
        title: AniListTitle {
            native: Some("ブルーロック".to_string()),
            romaji: Some("Blue Lock".to_string()),
            english: Some("BLUE LOCK".to_string()),
        },
        synonyms: vec![
            "ブルーロック第2期".to_string(),
            "Blue Lock 2nd Season".to_string(),
        ],
    };

    assert!(media_match_score("Blue Lock", &media) >= 100);
    assert_eq!(media_match_score("Blue Lock", &media), 105);
    assert_eq!(media_match_score("blue lock 2ND season", &media), 105);
}

#[test]
fn scores_similar_titles() {
    assert_eq!(title_similarity_score("Blue Lock", "BLUE-LOCK"), 100);
    assert_eq!(title_similarity_score("Blue Lock", "Blue Lock 2"), 65);
    assert_eq!(title_similarity_score("Blue Lock", "Blue Dragon"), 14);
    assert_eq!(title_similarity_score("Blue Lock", "Red"), 0);
    assert_eq!(title_similarity_score("", "Red"), 0);
}

#[test]
fn knows_the_edges_of_japanese() {
    for (character, japanese) in [
        ('\u{303F}', false),
        ('\u{3040}', true),
        ('\u{30FF}', true),
        ('\u{3100}', false),
        ('\u{31EF}', false),
        ('\u{31F0}', true),
        ('\u{3200}', false),
        ('\u{3400}', true),
        ('\u{4DBF}', true),
        ('\u{4DC0}', false),
        ('\u{4E00}', true),
        ('\u{9FFF}', true),
        ('\u{A000}', false),
        ('\u{FF65}', false),
        ('\u{FF66}', true),
        ('\u{FF9D}', true),
        ('\u{FF9E}', false),
    ] {
        assert_eq!(is_japanese_character(character), japanese);
    }
}

#[test]
fn looks_up_only_titles_with_letters() {
    assert!(!should_localize("86"));
    assert!(!should_localize(""));
    assert!(should_localize("86 Eighty-Six"));
    assert!(should_localize("É"));
    assert!(!should_localize("Re:ゼロ"));
}

#[test]
fn takes_the_first_best_title() {
    let found = response(vec![
        media(Some("別の作品"), Some("Other"), None),
        media(Some(" 一番 "), Some("Blue Lock"), None),
        media(Some("二番"), Some("Blue Lock"), None),
    ]);
    assert_eq!(
        select_localized_title("Blue Lock", &found).as_deref(),
        Some("一番")
    );
}

#[test]
fn finds_no_title_where_none_is_meant() {
    assert_eq!(
        select_localized_title("Blue", &GraphQlResponse { data: None }),
        None
    );
    assert_eq!(
        select_localized_title(
            "Blue",
            &GraphQlResponse {
                data: Some(GraphQlData { page: None })
            }
        ),
        None
    );
    assert_eq!(select_localized_title("Blue", &response(vec![])), None);
    let weak = response(vec![media(Some("赤"), Some("Red"), None)]);
    assert_eq!(select_localized_title("Blue", &weak), None);
    let latin = response(vec![media(Some("Blue Lock"), Some("Blue"), None)]);
    assert_eq!(select_localized_title("Blue", &latin), None);
    let blank = response(vec![media(Some("  "), Some("Blue"), None)]);
    assert_eq!(select_localized_title("Blue", &blank), None);
    let none = response(vec![media(None, Some("Blue"), None)]);
    assert_eq!(select_localized_title("Blue", &none), None);
    let same = response(vec![media(Some("青い　空"), None, None)]);
    assert_eq!(select_localized_title("青い 空", &same), None);
}

#[test]
fn remembers_answers() {
    let mut localizer = TitleLocalizer::new(TitleCache::new());
    match localizer.localize_title("Blue Lock") {
        LocalizeStep::Ask(request) => {
            assert_eq!(request.search, "Blue Lock");
            assert_eq!(request.query, SEARCH_QUERY);
            assert!(request.query.contains("perPage: 5"));
        }
        LocalizeStep::Known(_) => panic!("not asked"),
    }
    let answer = response(vec![media(Some("ブルーロック"), Some("Blue Lock"), None)]);
    let localized = localizer.accept_answer("Blue Lock", &answer).expect("fits");
    assert_eq!(localized.as_deref(), Some("ブルーロック"));
    match localizer.localize_title("BLUE-LOCK!") {
        LocalizeStep::Known(title) => assert_eq!(title.as_deref(), Some("ブルーロック")),
        LocalizeStep::Ask(_) => panic!("asked again"),
    }
    assert!(matches!(
        localizer.localize_title("Red Lock"),
        LocalizeStep::Ask(_)
    ));
    assert!(matches!(
        localizer.localize_title("ブルーロック"),
        LocalizeStep::Known(None)
    ));
    assert_eq!(
        localizer.accept_answer("Red", &response(vec![])),
        Some(None)
    );
    assert!(matches!(
        localizer.localize_title("Red"),
        LocalizeStep::Known(None)
    ));
    assert_eq!(localizer.cache().to_entries().len(), 2);
}

#[test]
fn caches_are_saved_and_loaded() {
    let mut cache = TitleCache::new();
    cache.put("a".to_string(), Some("あ".to_string()));
    cache.put("b".to_string(), None);
    cache.put("a".to_string(), Some("亜".to_string()));
    assert_eq!(cache.get("a"), Some(Some("亜".to_string())));
    assert_eq!(cache.get("b"), Some(None));
    assert_eq!(cache.get("c"), None);
    let entries = cache.to_entries();
    assert_eq!(entries.len(), 2);
    let loaded = TitleCache::from_entries(entries);
    assert_eq!(loaded.get("a"), Some(Some("亜".to_string())));
    assert_eq!(loaded.get("b"), Some(None));
    let repeated = TitleCache::from_entries(vec![
        ("k".to_string(), None),
        ("k".to_string(), Some("値".to_string())),
    ]);
    assert_eq!(repeated.get("k"), Some(Some("値".to_string())));
    assert_eq!(repeated.to_entries().len(), 1);
}

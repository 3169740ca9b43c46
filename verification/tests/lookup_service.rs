use content_renamer::file_name::SearchInput;
use content_renamer::lookup::{
    AnimeRecord, AnimeThemeRecord, SearchSongHit, SongRecord, ThemeCandidate, ThemeKind,
};
use content_renamer::lookup_service::{
    localize_candidate_titles, LookupError, LookupReply, ThemeLookupService,
};
use content_renamer::requests::LookupRequest;
use content_renamer::scoring::ArtistRecord;

fn input(titles: Vec<&str>, artist: Option<&str>, queries: Vec<&str>) -> SearchInput {
    SearchInput {
        source_title: "Blue".to_string(),
        source_artist: artist.map(String::from),
        title_queries: titles.into_iter().map(String::from).collect(),
        search_queries: queries.into_iter().map(String::from).collect(),
    }
}

fn song(id: u64, anime: Vec<&str>) -> SongRecord {
    SongRecord {
        id,
        title: "Blue".to_string(),
        animethemes: anime
            .into_iter()
            .enumerate()
            .map(|(index, name)| AnimeThemeRecord {
                id: id * 100 + index as u64,
                theme_type: "OP".to_string(),
                anime: Some(AnimeRecord {
                    name: name.to_string(),
                    slug: name.to_string(),
                }),
            })
            .collect(),
        artists: vec![ArtistRecord {
            name: "Singer".to_string(),
        }],
    }
}

fn title_of(request: Option<LookupRequest>) -> String {
    match request {
        Some(LookupRequest::SongsByTitle(title)) => title,
        other => panic!("unexpected request {:?}", other),
    }
}

fn text_of(request: Option<LookupRequest>) -> String {
    match request {
        Some(LookupRequest::SongSearch(text)) => text,
        other => panic!("unexpected request {:?}", other),
    }
}

fn id_of(request: Option<LookupRequest>) -> u64 {
    match request {
        Some(LookupRequest::SongDetail(id)) => id,
        other => panic!("unexpected request {:?}", other),
    }
}

#[test]
fn makes_exact_queries_and_lists_what_they_found() {
    let mut service = ThemeLookupService::new(input(vec!["Blue"], Some("Singer"), vec!["Blue"]));
    assert_eq!(title_of(service.request()), "Blue");
    assert!(matches!(
        service.lookup_candidates(),
        Err(LookupError::Unfinished)
    ));
    assert!(service.accept(LookupReply::Songs(vec![song(1, vec!["A"])])));
    assert_eq!(title_of(service.request()), "Blue");
    assert!(service.accept(LookupReply::Songs(vec![
        song(1, vec!["A"]),
        song(2, vec!["B"])
    ])));
    assert!(service.request().is_none());
    let candidates = service.lookup_candidates().expect("candidates");
    assert_eq!(candidates.len(), 2);
    assert_eq!(candidates[0].work_title, "A");
    assert_eq!(candidates[0].score, 234 + 230);
    assert_eq!(candidates[0].sources[0].matched_query, "Blue / Blue Singer");
    assert_eq!(candidates[1].score, 230);
}

#[test]
fn makes_at_most_six_exact_queries() {
    let mut service = ThemeLookupService::new(input(
        vec!["t1", "t2", "t3", "t4"],
        Some("Singer"),
        vec![],
    ));
    let mut asked = Vec::new();
    while let Some(LookupRequest::SongsByTitle(title)) = service.request() {
        asked.push(title);
        assert!(service.accept(LookupReply::Songs(vec![])));
    }
    assert_eq!(asked, vec!["t1", "t2", "t3", "t4", "t1", "t2"]);
    assert!(service.request().is_none());
    assert_eq!(service.lookup_candidates().expect("candidates").len(), 0);
}

#[test]
fn is_content_with_enough_candidates() {
    let mut service = ThemeLookupService::new(input(vec!["t1", "t2", "t3"], None, vec!["q1"]));
    assert!(service.accept(LookupReply::Songs(vec![song(
        1,
        vec!["a", "b", "c", "d", "e", "f", "g"]
    )])));
    assert_eq!(title_of(service.request()), "t2");
    assert!(service.accept(LookupReply::Songs(vec![song(2, vec!["h"])])));
    assert!(service.request().is_none());
    assert_eq!(service.lookup_candidates().expect("candidates").len(), 8);
}

#[test]
fn makes_fuzzy_queries_where_exact_ones_found_nothing() {
    let mut service = ThemeLookupService::new(input(
        vec!["Blue"],
        None,
        vec!["q1", "q2", "q3", "q4", "q5"],
    ));
    assert_eq!(title_of(service.request()), "Blue");
    assert!(service.accept(LookupReply::Songs(vec![])));
    let mut asked = Vec::new();
    for id in 1..=4 {
        asked.push(text_of(service.request()));
        assert!(service.accept(LookupReply::Hits(vec![
            SearchSongHit {
                id: 9,
                title: "Blue".to_string(),
            },
            SearchSongHit {
                id,
                title: format!("Song {}", id),
            },
            SearchSongHit {
                id: id + 10,
                title: format!("Tong {}", id),
            },
        ])));
    }
    assert_eq!(asked, vec!["q1", "q2", "q3", "q4"]);
    let mut looked_at = Vec::new();
    while service.request().is_some() {
        let id = id_of(service.request());
        looked_at.push(id);
        assert!(service.accept(LookupReply::Song(song(id, vec!["A"]))));
    }
    assert_eq!(looked_at, vec![9, 1, 11, 2, 12, 3, 13, 4]);
    let candidates = service.lookup_candidates().expect("candidates");
    assert_eq!(candidates.len(), 1);
    assert_eq!(candidates[0].sources.len(), 8);
    let hit_scores = (62 + 58 + 54 + 50) + 59 + 56 + 55 + 52 + 51 + 48 + 47;
    assert_eq!(candidates[0].score, hit_scores + 8 * 45);
}

#[test]
fn passes_over_replies_that_it_does_not_wait_for() {
    let mut service = ThemeLookupService::new(input(vec!["Blue"], None, vec![]));
    assert!(!service.accept(LookupReply::Hits(vec![])));
    assert!(!service.accept(LookupReply::Song(song(1, vec!["A"]))));
    assert_eq!(title_of(service.request()), "Blue");
    assert!(service.accept(LookupReply::Songs(vec![])));
    assert!(!service.accept(LookupReply::Songs(vec![song(1, vec!["A"])])));
    assert_eq!(service.lookup_candidates().expect("candidates").len(), 0);
}

#[test]
fn searches_for_nothing_without_queries() {
    let service = ThemeLookupService::new(input(vec![], None, vec![]));
    assert!(service.request().is_none());
    assert_eq!(service.lookup_candidates().expect("candidates").len(), 0);
}

#[test]
fn prefers_songs_by_the_artist_of_the_file() {
    let mut service = ThemeLookupService::new(input(vec!["Blue"], Some("Band"), vec![]));
    let mut by_band = song(2, vec!["B"]);
    by_band.artists = vec![ArtistRecord {
        name: "The Band".to_string(),
    }];
    assert!(service.accept(LookupReply::Songs(vec![song(1, vec!["A"]), by_band])));
    assert!(service.accept(LookupReply::Songs(vec![])));
    let candidates = service.lookup_candidates().expect("candidates");
    assert_eq!(candidates.len(), 1);
    assert_eq!(candidates[0].work_title, "B");
}

#[test]
fn says_why_there_are_no_candidates() {
    assert_eq!(LookupError::Unfinished.message(), "lookup is not finished");
    assert_eq!(LookupError::ScoreOverflow.message(), "score does not fit");
}

#[test]
fn gives_candidates_their_japanese_titles() {
    let candidate = |title: &str| ThemeCandidate {
        work_title: title.to_string(),
        kind: ThemeKind::Ending,
        score: 5,
        sources: vec![],
    };
    let mut candidates = vec![candidate("Blue Lock"), candidate("Other")];
    localize_candidate_titles(
        &mut candidates,
        &vec![Some("ブルーロック".to_string()), None],
    );
    assert_eq!(candidates[0].formatted_label(), "ブルーロック [ED]");
    assert_eq!(candidates[0].score, 5);
    assert_eq!(candidates[1].formatted_label(), "Other [ED]");
}

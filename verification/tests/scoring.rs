use content_renamer::scoring::{
    artist_match_score, position_rank_bonus, query_rank_bonus, title_match_score, token_set,
    ArtistRecord,
};

fn artists(names: Vec<&str>) -> Vec<ArtistRecord> {
    names
        .into_iter()
        .map(|name| ArtistRecord {
            name: name.to_string(),
        })
        .collect()
}

#[test]
fn scores_exact_title_highly() {
    assert!(title_match_score("Blue", "Blue") > title_match_score("Blue", "Reply"));
}

#[test]
fn scores_titles() {
    assert_eq!(title_match_score("Blue", "BLUE!"), 45);
    assert_eq!(title_match_score("Blue Sky", "blue"), 20);
    assert_eq!(title_match_score("blue", "Blue Sky"), 20);
    assert_eq!(title_match_score("Blue Sky High", "High in the Sky"), 12);
    assert_eq!(title_match_score("Blue", "Red"), 0);
    assert_eq!(title_match_score("", "Red"), 0);
    assert_eq!(title_match_score("...", "..."), 0);
}

#[test]
fn scores_artists() {
    assert_eq!(
        artist_match_score(&artists(vec!["Other", "FujiFabric"]), Some("fujifabric")),
        30
    );
    assert_eq!(
        artist_match_score(&artists(vec!["Fujifabric Band"]), Some("Fujifabric")),
        15
    );
    assert_eq!(
        artist_match_score(&artists(vec!["Fuji", "Fujifabric"]), Some("Fujifabric")),
        15
    );
    assert_eq!(artist_match_score(&artists(vec!["", "X"]), Some("Y")), 0);
    assert_eq!(artist_match_score(&artists(vec!["X"]), Some(" - ")), 0);
    assert_eq!(artist_match_score(&artists(vec!["X"]), None), 0);
}

#[test]
fn scores_places() {
    assert_eq!(query_rank_bonus(0), 24);
    assert_eq!(query_rank_bonus(5), 4);
    assert_eq!(query_rank_bonus(6), 0);
    assert_eq!(query_rank_bonus(usize::MAX), 0);
    assert_eq!(position_rank_bonus(0), 18);
    assert_eq!(position_rank_bonus(5), 3);
    assert_eq!(position_rank_bonus(6), 0);
}

#[test]
fn splits_texts_into_words() {
    let words = token_set("a b  a c");
    assert_eq!(words.len(), 3);
    assert!(words.contains("b"));
    assert!(!words.contains(""));
    assert_eq!(token_set("").len(), 0);
}

use std::collections::HashMap;

use content_renamer::file_name::SearchInput;
use content_renamer::lookup::{ExactQuery, SearchSongHit, SongRecord};
use content_renamer::order::TextSet;
use content_renamer::scoring::ArtistRecord;
use content_renamer::songs::{
    checked_exact_song_score, checked_fuzzy_hit_score, checked_merge_fuzzy_song, exact_song_score,
    fuzzy_hit_score, merge_exact_song, merge_exact_songs, merge_fuzzy_song, merge_hits, rank_hits,
    SearchSongHitAccumulator, SongMatch,
};

fn song(id: u64, title: &str, artist: &str) -> SongRecord {
    SongRecord {
        id,
        title: title.to_string(),
        animethemes: Vec::new(),
        artists: vec![ArtistRecord {
            name: artist.to_string(),
        }],
    }
}

fn input() -> SearchInput {
    SearchInput {
        source_title: "Blue".to_string(),
        source_artist: Some("Fujifabric".to_string()),
        title_queries: vec!["Blue".to_string()],
        search_queries: vec!["Blue".to_string()],
    }
}

fn query(title: &str) -> ExactQuery {
    ExactQuery {
        title: title.to_string(),
        matched_query: format!("{} Fujifabric", title),
        artist: Some("Fujifabric".to_string()),
    }
}

fn hit(id: u64, title: &str) -> SearchSongHit {
    SearchSongHit {
        id,
        title: title.to_string(),
    }
}

#[test]
fn scores_exact_finds() {
    let blue = song(1, "Blue", "Fujifabric");
    assert_eq!(exact_song_score(&blue, &query("Blue"), 0, &input()), 234);
    assert_eq!(
        checked_exact_song_score(&blue, &query("Blue"), 0, &input()),
        Some(234)
    );
    assert_eq!(exact_song_score(&blue, &query("Red"), 9, &input()), 165);
    let other = song(2, "Green", "Nobody");
    assert_eq!(exact_song_score(&other, &query("Blue"), 5, &input()), 94);
}

#[test]
fn scores_fuzzy_finds() {
    assert_eq!(fuzzy_hit_score("Blue", "Blue", 0, 0), 107);
    assert_eq!(checked_fuzzy_hit_score("Blue", "Blue", 0, 0), Some(107));
    assert_eq!(fuzzy_hit_score("Green", "Blue", 5, 3), 35);
    assert_eq!(fuzzy_hit_score("Green", "Blue", 8, 8), 20);
}

#[test]
fn finds_add_up() {
    let mut songs = HashMap::new();
    merge_exact_song(
        &mut songs,
        song(1, "Blue", "X"),
        &query("Blue"),
        0,
        &input(),
    );
    merge_exact_song(
        &mut songs,
        song(1, "Blue", "Fujifabric"),
        &query("Blue 2"),
        1,
        &input(),
    );
    assert_eq!(songs.len(), 1);
    let found = &songs[&1];
    assert_eq!(found.score, 204 + 205);
    assert_eq!(found.song.artists[0].name, "Fujifabric");
    assert_eq!(
        found.matched_queries.to_list(),
        vec![
            "Blue 2 Fujifabric".to_string(),
            "Blue Fujifabric".to_string()
        ]
    );
}

#[test]
fn merges_lists_of_songs() {
    let mut songs = HashMap::new();
    assert!(merge_exact_songs(
        &mut songs,
        vec![song(1, "Blue", "X"), song(2, "Red", "X"), song(1, "Blue", "X")],
        &query("Blue"),
        0,
        &input(),
    ));
    assert_eq!(songs.len(), 2);
    assert_eq!(songs[&1].score, 408);
    assert_eq!(songs[&2].score, 114);
}

#[test]
fn reports_exact_scores_that_do_not_fit() {
    let mut songs = HashMap::new();
    songs.insert(
        1,
        SongMatch {
            song: song(1, "Blue", "X"),
            score: usize::MAX - 100,
            matched_queries: TextSet::new(),
        },
    );
    assert!(!merge_exact_songs(
        &mut songs,
        vec![song(2, "Red", "X"), song(1, "Blue", "X")],
        &query("Blue"),
        0,
        &input(),
    ));
}

fn accumulated(id: u64, title: &str, score: usize) -> SearchSongHitAccumulator {
    let mut matched_queries = TextSet::new();
    matched_queries.insert("q".to_string());
    SearchSongHitAccumulator {
        id,
        title: title.to_string(),
        score,
        matched_queries,
    }
}

#[test]
fn merges_fuzzy_finds() {
    let mut songs = HashMap::new();
    merge_fuzzy_song(
        &mut songs,
        song(1, "Blue", "Fujifabric"),
        accumulated(1, "Blue", 50),
        &input(),
    );
    assert_eq!(songs[&1].score, 125);
    assert_eq!(songs[&1].matched_queries.to_list(), vec!["q".to_string()]);
    assert!(checked_merge_fuzzy_song(
        &mut songs,
        song(1, "Blue", "X"),
        accumulated(1, "Blue", 1),
        &input(),
    ));
    assert_eq!(songs[&1].score, 171);
    assert!(!checked_merge_fuzzy_song(
        &mut songs,
        song(1, "Blue", "X"),
        accumulated(1, "Blue", usize::MAX),
        &input(),
    ));
    assert_eq!(songs[&1].score, 171);
}

#[test]
fn collects_hits_of_fuzzy_queries() {
    let mut hits = HashMap::new();
    let list = vec![
        hit(1, "Blue"),
        hit(2, "Green"),
        hit(3, "Red"),
        hit(4, "Pink"),
        hit(5, "Grey"),
        hit(6, "Gold"),
        hit(7, "Blue"),
    ];
    assert!(merge_hits(&mut hits, &list, "Blue", 0));
    assert_eq!(hits.len(), 6);
    assert_eq!(hits[&1].score, 107);
    assert_eq!(hits[&2].score, 59);
    assert!(merge_hits(&mut hits, &vec![hit(2, "GREEN")], "Green", 1));
    assert_eq!(hits[&2].score, 59 + 103);
    assert_eq!(hits[&2].title, "GREEN");
    assert_eq!(
        hits[&2].matched_queries.to_list(),
        vec!["Blue".to_string(), "Green".to_string()]
    );
    let ids: Vec<u64> = rank_hits(hits).iter().map(|hit| hit.id).collect();
    assert_eq!(ids, vec![2, 1, 3, 4, 5, 6]);
}

#[test]
fn ranks_hits_by_score_title_and_id() {
    let mut hits = HashMap::new();
    hits.insert(4, accumulated(4, "b", 10));
    hits.insert(3, accumulated(3, "b", 10));
    hits.insert(2, accumulated(2, "a", 10));
    hits.insert(1, accumulated(1, "z", 11));
    let ids: Vec<u64> = rank_hits(hits).iter().map(|hit| hit.id).collect();
    assert_eq!(ids, vec![1, 2, 3, 4]);
}

#[test]
fn reports_hit_scores_that_do_not_fit() {
    let mut hits = HashMap::new();
    hits.insert(1, accumulated(1, "Blue", usize::MAX));
    assert!(!merge_hits(&mut hits, &vec![hit(1, "Blue")], "Blue", 0));
}

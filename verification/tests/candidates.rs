use std::collections::HashMap;

use content_renamer::candidates::{
    build_candidates, build_candidates_in_order, checked_build_candidates, count_candidates,
    format_song_source, summarize_queries,
};
use content_renamer::lookup::{
    AnimeRecord, AnimeThemeRecord, SongRecord, ThemeCandidate, ThemeKind,
};
use content_renamer::order::TextSet;
use content_renamer::scoring::ArtistRecord;
use content_renamer::songs::SongMatch;

fn queries(texts: Vec<&str>) -> TextSet {
    let mut set = TextSet::new();
    for text in texts {
        set.insert(text.to_string());
    }
    set
}

fn theme(id: u64, kind: &str, name: &str) -> AnimeThemeRecord {
    AnimeThemeRecord {
        id,
        theme_type: kind.to_string(),
        anime: Some(AnimeRecord {
            name: name.to_string(),
            slug: format!("slug_{}", id),
        }),
    }
}

fn found(id: u64, score: usize, animethemes: Vec<AnimeThemeRecord>) -> SongMatch {
    SongMatch {
        song: SongRecord {
            id,
            title: format!("Song {}", id),
            animethemes,
            artists: vec![],
        },
        score,
        matched_queries: queries(vec!["q"]),
    }
}

fn labels(candidates: &Vec<ThemeCandidate>) -> Vec<String> {
    candidates
        .iter()
        .map(|candidate| candidate.formatted_label())
        .collect()
}

#[test]
fn builds_candidates_from_song_matches() {
    let mut songs = HashMap::new();
    songs.insert(
        1,
        SongMatch {
            song: SongRecord {
                id: 1,
                title: "KICK BACK".to_string(),
                animethemes: vec![AnimeThemeRecord {
                    id: 11,
                    theme_type: "OP".to_string(),
                    anime: Some(AnimeRecord {
                        name: "チェンソーマン".to_string(),
                        slug: "chainsaw_man".to_string(),
                    }),
                }],
                artists: vec![ArtistRecord {
                    name: "米津玄師".to_string(),
                }],
            },
            score: 120,
            matched_queries: queries(vec!["KICK BACK"]),
        },
    );
    songs.insert(
        2,
        SongMatch {
            song: SongRecord {
                id: 2,
                title: "KICK BACK".to_string(),
                animethemes: vec![AnimeThemeRecord {
                    id: 12,
                    theme_type: "OP".to_string(),
                    anime: Some(AnimeRecord {
                        name: "チェンソーマン".to_string(),
                        slug: "chainsaw_man".to_string(),
                    }),
                }],
                artists: vec![ArtistRecord {
                    name: "米津玄師".to_string(),
                }],
            },
            score: 80,
            matched_queries: queries(vec!["KICK BACK"]),
        },
    );

    let candidates = build_candidates(&songs);
    assert_eq!(candidates.len(), 1);
    assert_eq!(candidates[0].formatted_label(), "チェンソーマン [OP]");
    assert_eq!(candidates[0].score, 200);
    assert_eq!(candidates[0].sources.len(), 2);
    assert_eq!(
        candidates[0].sources[0].page_title,
        "AnimeThemes: KICK BACK / 米津玄師"
    );
    assert_eq!(
        candidates[0].sources[0].source_url,
        "https://animethemes.moe/anime/chainsaw_man"
    );
    assert_eq!(candidates[0].sources[0].matched_query, "KICK BACK");
    assert_eq!(count_candidates(&songs), 1);
}

#[test]
fn ranks_candidates() {
    let mut songs = HashMap::new();
    songs.insert(1, found(1, 10, vec![theme(1, "IN", "A"), theme(2, "OP", "C")]));
    songs.insert(2, found(2, 10, vec![theme(3, "ED", "B")]));
    songs.insert(3, found(3, 90, vec![theme(4, "IN", "Z")]));
    songs.insert(4, found(4, 5, vec![theme(5, "OP", "D")]));
    songs.insert(5, found(5, 5, vec![theme(6, "OP", "D")]));
    let candidates = build_candidates(&songs);
    assert_eq!(
        labels(&candidates),
        vec![
            "Z [etc.]".to_string(),
            "D [OP]".to_string(),
            "B [ED]".to_string(),
            "C [OP]".to_string(),
            "A [etc.]".to_string(),
        ]
    );
    assert_eq!(count_candidates(&songs), 5);
}

#[test]
fn tells_themes_of_one_anime_apart() {
    let mut songs = HashMap::new();
    songs.insert(1, found(1, 7, vec![theme(1, "OP", "A"), theme(2, "ED", "A")]));
    let candidates = build_candidates(&songs);
    assert_eq!(
        labels(&candidates),
        vec!["A [ED]".to_string(), "A [OP]".to_string()]
    );
}

#[test]
fn counts_a_theme_of_a_song_once() {
    let mut songs = HashMap::new();
    songs.insert(
        1,
        found(
            1,
            7,
            vec![
                theme(1, "OP", "A"),
                theme(1, "OP", "A"),
                AnimeThemeRecord {
                    id: 3,
                    theme_type: "OP".to_string(),
                    anime: None,
                },
                theme(2, "OP", "A"),
            ],
        ),
    );
    let candidates = build_candidates(&songs);
    assert_eq!(candidates.len(), 1);
    assert_eq!(candidates[0].score, 14);
    assert_eq!(candidates[0].sources.len(), 2);
    assert_eq!(candidates[0].kind, ThemeKind::Opening);
}

#[test]
fn walk_order_changes_only_the_order_of_sources() {
    let mut songs = HashMap::new();
    songs.insert(1, found(1, 3, vec![theme(1, "OP", "A")]));
    songs.insert(2, found(2, 4, vec![theme(2, "OP", "A"), theme(3, "ED", "B")]));
    let forth = build_candidates_in_order(&songs, &vec![1, 2]).expect("fits");
    let back = build_candidates_in_order(&songs, &vec![2, 1]).expect("fits");
    assert_eq!(labels(&forth), labels(&back));
    assert_eq!(forth[0].score, 7);
    assert_eq!(back[0].score, 7);
    assert_eq!(forth[0].sources[0].page_title, "AnimeThemes: Song 1");
    assert_eq!(back[0].sources[0].page_title, "AnimeThemes: Song 2");
    assert_eq!(back[0].sources.len(), 2);
}

#[test]
fn reports_scores_that_do_not_fit() {
    let mut songs = HashMap::new();
    songs.insert(1, found(1, usize::MAX, vec![theme(1, "OP", "A")]));
    assert!(checked_build_candidates(&songs).is_some());
    songs.insert(2, found(2, 1, vec![theme(2, "OP", "A")]));
    assert!(checked_build_candidates(&songs).is_none());
    assert_eq!(count_candidates(&songs), 1);
}

#[test]
fn names_songs_as_sources() {
    let mut record = found(9, 0, vec![]).song;
    assert_eq!(format_song_source(&record), "AnimeThemes: Song 9");
    record.artists = vec![
        ArtistRecord {
            name: "X".to_string(),
        },
        ArtistRecord {
            name: "Y".to_string(),
        },
    ];
    assert_eq!(format_song_source(&record), "AnimeThemes: Song 9 / X, Y");
}

#[test]
fn summarizes_three_queries() {
    assert_eq!(
        summarize_queries(&queries(vec!["d", "b", "a", "c", "b"])),
        "a / b / c"
    );
    assert_eq!(summarize_queries(&queries(vec!["x"])), "x");
    assert_eq!(summarize_queries(&queries(vec![])), "");
}

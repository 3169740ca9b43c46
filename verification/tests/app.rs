use content_renamer::app::{ContentRenamerApp, EnqueueOutcome, EntryChoice};
use content_renamer::file_name::{SearchInput, SourceError};
use content_renamer::lookup::{CandidateSource, ThemeCandidate, ThemeKind};
use content_renamer::processor::{
    finish_save, search_file, ProcessStatus, SearchOutcome, WorkerEvent,
};

fn input() -> SearchInput {
    SearchInput {
        source_title: "Blue".to_string(),
        source_artist: Some("Singer".to_string()),
        title_queries: vec!["Blue".to_string()],
        search_queries: vec!["Blue Singer".to_string(), "Blue".to_string()],
    }
}

fn candidate(title: &str, score: usize, sources: usize) -> ThemeCandidate {
    ThemeCandidate {
        work_title: title.to_string(),
        kind: ThemeKind::Opening,
        score,
        sources: (0..sources)
            .map(|index| CandidateSource {
                page_title: format!("page {}", index),
                source_url: format!("url {}", index),
                matched_query: format!("query {}", index),
            })
            .collect(),
    }
}

fn add(app: &mut ContentRenamerApp, path: &str) -> EnqueueOutcome {
    app.enqueue_file(path.to_string(), path.to_string(), Ok(input()))
}

fn found(id: u64) -> WorkerEvent {
    search_file(
        id,
        SearchOutcome::Found(vec![candidate("A", 9, 4), candidate("B", 5, 1)]),
        Some("メモ".to_string()),
    )
}

#[test]
fn adds_each_path_once() {
    let mut app = ContentRenamerApp::default();
    assert_eq!(app.len(), 0);
    assert!(app.has_room());
    assert_eq!(add(&mut app, "a.mp3"), EnqueueOutcome::Search(1));
    assert_eq!(add(&mut app, "b.mp3"), EnqueueOutcome::Search(2));
    assert_eq!(add(&mut app, "a.mp3"), EnqueueOutcome::Known);
    assert_eq!(app.len(), 2);
    assert!(app.contains_path("b.mp3"));
    assert!(!app.contains_path("c.mp3"));
    let entry = app.entry(0).expect("entry");
    assert_eq!(entry.status, ProcessStatus::Searching);
    assert_eq!(
        entry.detail,
        "タイトルタグをもとに AnimeThemes から関連候補を検索しています"
    );
    assert!(app.entry(2).is_none());
}

#[test]
fn knows_paths_by_their_components() {
    let mut app = ContentRenamerApp::default();
    assert_eq!(add(&mut app, "a//song.mp3"), EnqueueOutcome::Search(1));
    for again in [
        "a/song.mp3",
        "a//song.mp3",
        "a/./song.mp3",
        "a/song.mp3/",
        "a/song.mp3/.",
    ] {
        assert!(app.contains_path(again), "{}", again);
        assert_eq!(add(&mut app, again), EnqueueOutcome::Known, "{}", again);
    }
    assert_eq!(app.len(), 1);
    assert_eq!(app.entry(0).expect("entry").path, "a//song.mp3");

    for (index, other) in ["/a/song.mp3", "./a/song.mp3", "a/b/../song.mp3", "A/song.mp3"]
        .iter()
        .enumerate()
    {
        assert!(!app.contains_path(other), "{}", other);
        assert_eq!(
            add(&mut app, other),
            EnqueueOutcome::Search(index as u64 + 2),
            "{}",
            other
        );
    }
    assert!(!app.contains_path("//server/share/song.mp3"));
    assert_eq!(app.len(), 5);
}

#[test]
fn notes_files_without_titles() {
    let mut app = ContentRenamerApp::default();
    let outcome = app.enqueue_file(
        "a.mp3".to_string(),
        "a.mp3".to_string(),
        Err(SourceError::NoTitle),
    );
    assert_eq!(outcome, EnqueueOutcome::Unreadable(1));
    let entry = app.entry(0).expect("entry");
    assert_eq!(entry.status, ProcessStatus::Error);
    assert_eq!(
        entry.detail,
        "検索元にするタイトルタグを読めませんでした: タイトルタグが見つかりません"
    );
    assert_eq!(add(&mut app, "b.mp3"), EnqueueOutcome::Search(2));
}

#[test]
fn shows_what_a_search_found() {
    let mut app = ContentRenamerApp::default();
    add(&mut app, "a.mp3");
    add(&mut app, "b.mp3");
    app.apply_event(found(2));
    let first = app.show_entry(0).expect("panel");
    assert_eq!(first.status, "検索中");
    assert!(first.candidates.is_none());
    assert_eq!(first.comment, None);

    let panel = app.show_entry(1).expect("panel");
    assert_eq!(panel.file_name, "b.mp3");
    assert_eq!(panel.status, "候補あり");
    assert_eq!(panel.source_title.as_deref(), Some("参照タイトル: Blue"));
    assert_eq!(
        panel.source_artist.as_deref(),
        Some("参照アーティスト: Singer")
    );
    assert_eq!(
        panel.search_queries.as_deref(),
        Some("検索候補: Blue Singer / Blue")
    );
    assert_eq!(panel.comment.as_deref(), Some("現在のコメント: メモ"));
    let candidates = panel.candidates.expect("candidates");
    assert_eq!(candidates.selected, 0);
    assert_eq!(
        candidates.choices,
        vec![
            "A [OP] (スコア 9)".to_string(),
            "B [OP] (スコア 5)".to_string()
        ]
    );
    assert_eq!(candidates.count, "候補数: 2 件");
    assert_eq!(candidates.sources.len(), 2);
    let sources = &candidates.sources[0];
    assert_eq!(sources.len(), 3);
    assert_eq!(sources[2].title, "page 2");
    assert_eq!(sources[2].url, "url 2");
    assert_eq!(sources[2].query, "検索語: query 2");
    assert_eq!(candidates.sources[1].len(), 1);
    assert_eq!(candidates.sources[1][0].title, "page 0");
    assert!(candidates.can_save);
    assert!(app.show_entry(2).is_none());
}

#[test]
fn saves_the_selection() {
    let mut app = ContentRenamerApp::default();
    add(&mut app, "a.mp3");
    assert!(app.start_save(1).is_none());
    app.apply_event(found(1));
    app.select_candidate(1, 1);
    let request = app.start_save(1).expect("request");
    assert_eq!(request.id, 1);
    assert_eq!(request.path, "a.mp3");
    assert_eq!(request.value, "B [OP]");
    let panel = app.show_entry(0).expect("panel");
    assert_eq!(panel.detail, "「B [OP]」をコメントへ保存しています");
    assert_eq!(panel.status, "保存中");
    assert!(!panel.candidates.expect("candidates").can_save);

    app.select_candidate(1, 0);
    app.apply_event(finish_save(1, "B [OP]".to_string(), &request.value, Ok(())));
    let entry = app.entry(0).expect("entry");
    assert_eq!(entry.status, ProcessStatus::Saved);
    assert_eq!(entry.selected_candidate, 1);
    assert_eq!(entry.comment.as_deref(), Some("B [OP]"));
    assert_eq!(entry.candidates.len(), 2);
}

#[test]
fn failed_saves_keep_the_selection() {
    let mut app = ContentRenamerApp::default();
    add(&mut app, "a.mp3");
    app.apply_event(found(1));
    app.select_candidate(1, 1);
    app.apply_event(finish_save(
        1,
        "c".to_string(),
        "A [OP]",
        Err("x".to_string()),
    ));
    let entry = app.entry(0).expect("entry");
    assert_eq!(entry.status, ProcessStatus::Error);
    assert_eq!(entry.selected_candidate, 1);
    assert_eq!(entry.comment, None);
}

#[test]
fn selections_out_of_range_become_the_first() {
    let mut app = ContentRenamerApp::default();
    add(&mut app, "a.mp3");
    app.apply_event(found(1));
    app.select_candidate(1, 7);
    assert!(app.start_save(1).is_none());
    let panel = app.show_entry(0).expect("panel");
    assert_eq!(panel.candidates.expect("candidates").selected, 0);
    assert_eq!(app.entry(0).expect("entry").selected_candidate, 0);
}

#[test]
fn events_for_unknown_files_change_nothing() {
    let mut app = ContentRenamerApp::default();
    add(&mut app, "a.mp3");
    app.apply_event(found(9));
    assert!(app.start_save(9).is_none());
    let entry = app.entry(0).expect("entry");
    assert_eq!(entry.status, ProcessStatus::Searching);
    assert_eq!(entry.candidates.len(), 0);
}

#[test]
fn showing_all_files_makes_selections_valid() {
    let mut app = ContentRenamerApp::default();
    add(&mut app, "a.mp3");
    add(&mut app, "b.mp3");
    app.apply_event(found(1));
    app.apply_event(found(2));
    app.select_candidate(1, 7);
    app.select_candidate(2, 1);
    let panels = app.show_entries();
    assert_eq!(panels.len(), 2);
    assert_eq!(panels[0].file_name, "a.mp3");
    assert_eq!(panels[1].file_name, "b.mp3");
    assert_eq!(app.entry(0).expect("entry").selected_candidate, 0);
    assert_eq!(app.entry(1).expect("entry").selected_candidate, 1);
    assert!(app.apply_choices(&vec![]).is_none());
    assert_eq!(app.entry(0).expect("entry").status, ProcessStatus::Ready);
    assert_eq!(app.entry(0).expect("entry").comment.as_deref(), Some("メモ"));
}

#[test]
fn at_most_one_file_is_saved_at_a_time() {
    let mut app = ContentRenamerApp::default();
    for path in ["a.mp3", "b.mp3", "c.mp3", "d.mp3"] {
        add(&mut app, path);
    }
    for id in 1..=3 {
        app.apply_event(found(id));
    }
    assert!(app.start_save(3).is_some());
    let save = |selected| EntryChoice {
        selected,
        save: true,
    };
    let choices = vec![save(None), save(Some(1)), save(Some(1)), save(None)];
    let request = app.apply_choices(&choices).expect("request");
    assert_eq!(request.id, 2);
    assert_eq!(request.path, "b.mp3");
    assert_eq!(request.value, "B [OP]");
    let statuses: Vec<ProcessStatus> = (0..4)
        .map(|index| app.entry(index).expect("entry").status)
        .collect();
    assert_eq!(
        statuses,
        vec![
            ProcessStatus::Ready,
            ProcessStatus::Saving,
            ProcessStatus::Saving,
            ProcessStatus::Searching,
        ]
    );
    assert_eq!(app.entry(2).expect("entry").selected_candidate, 1);
    let again = app.apply_choices(&vec![
        EntryChoice {
            selected: Some(9),
            save: false,
        },
        save(None),
    ]);
    assert!(again.is_none());
    assert_eq!(app.entry(0).expect("entry").selected_candidate, 0);
}

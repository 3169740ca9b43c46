use id3::TagLike;

use content_renamer::audio_file::UnsupportedFile;
use content_renamer::file_name::{AudioSource, SourceError};
use content_renamer::finder_comment::{merge_theme_comment, AudioTag};
use content_renamer::lookup::{ThemeCandidate, ThemeKind};
use content_renamer::processor::{
    current_comment, error_result, finish_save, save_selected_comment, search_file, ProcessStatus,
    SaveResult, SaveStep, SearchOutcome, SearchResult, WorkerEvent,
};

fn candidate(title: &str) -> ThemeCandidate {
    ThemeCandidate {
        work_title: title.to_string(),
        kind: ThemeKind::Opening,
        score: 1,
        sources: vec![],
    }
}

fn commented(text: &str) -> AudioSource {
    let mut tag = id3::Tag::new();
    tag.add_frame(id3::frame::Comment {
        lang: "jpn".to_string(),
        description: String::new(),
        text: text.to_string(),
    });
    AudioSource::Mp3(Ok(tag))
}

fn searched(event: WorkerEvent) -> SearchResult {
    match event {
        WorkerEvent::SearchCompleted(result) => result,
        WorkerEvent::SaveCompleted(_) => panic!("a save"),
    }
}

fn saved(event: WorkerEvent) -> SaveResult {
    match event {
        WorkerEvent::SaveCompleted(result) => result,
        WorkerEvent::SearchCompleted(_) => panic!("a search"),
    }
}

fn finished(step: SaveStep) -> SaveResult {
    match step {
        SaveStep::Finished(event) => saved(event),
        SaveStep::Write { .. } => panic!("a tag to write"),
    }
}

#[test]
fn labels_statuses() {
    assert_eq!(ProcessStatus::Searching.label(), "検索中");
    assert_eq!(ProcessStatus::Ready.label(), "候補あり");
    assert_eq!(ProcessStatus::Saving.label(), "保存中");
    assert_eq!(ProcessStatus::Saved.label(), "保存済み");
    assert_eq!(ProcessStatus::Skipped.label(), "候補なし");
    assert_eq!(ProcessStatus::Error.label(), "エラー");
}

#[test]
fn reports_searches() {
    let result = searched(search_file(
        7,
        SearchOutcome::Found(vec![candidate("A"), candidate("B")]),
        Some("c".to_string()),
    ));
    assert_eq!(result.id, 7);
    assert_eq!(result.status, ProcessStatus::Ready);
    assert_eq!(
        result.detail,
        "関連候補を 2 件見つけました。プルダウンから選んでコメントへ保存してください"
    );
    assert_eq!(result.candidates.len(), 2);
    assert_eq!(result.comment.as_deref(), Some("c"));

    let result = searched(search_file(8, SearchOutcome::Found(vec![]), None));
    assert_eq!(result.status, ProcessStatus::Skipped);
    assert_eq!(
        result.detail,
        "AnimeThemes で関連しそうなアニメ作品を見つけられませんでした"
    );

    let result = searched(search_file(
        9,
        SearchOutcome::Unreadable(SourceError::NoTitle),
        None,
    ));
    assert_eq!(result.status, ProcessStatus::Error);
    assert_eq!(
        result.detail,
        "検索元にするタイトルタグを読めませんでした: タイトルタグが見つかりません"
    );

    let result = searched(search_file(
        9,
        SearchOutcome::NoClient("x".to_string()),
        None,
    ));
    assert_eq!(result.status, ProcessStatus::Error);
    assert_eq!(result.detail, "検索クライアントの初期化に失敗しました: x");

    let result = searched(search_file(9, SearchOutcome::Failed("x".to_string()), None));
    assert_eq!(result.status, ProcessStatus::Error);
    assert_eq!(result.detail, "検索に失敗しました: x");
    assert_eq!(result.candidates.len(), 0);
}

#[test]
fn shows_comments_that_hold_something() {
    assert_eq!(
        current_comment(true, &commented("メモ")),
        Some("メモ".to_string())
    );
    assert_eq!(current_comment(true, &commented("")), None);
    assert_eq!(current_comment(false, &commented("メモ")), None);
    assert_eq!(
        current_comment(true, &AudioSource::Unsupported(UnsupportedFile)),
        None
    );
    assert_eq!(
        current_comment(true, &AudioSource::Mp3(Err("NoTag".to_string()))),
        None
    );
}

#[test]
fn saves_the_selected_candidate() {
    match save_selected_comment(3, true, commented("メモ\n旧作 [OP]"), "新作 [ED]") {
        SaveStep::Write { tag, comment } => {
            assert_eq!(comment, "メモ\n新作 [ED]");
            match tag {
                AudioTag::Mp3(tag) => {
                    assert_eq!(tag.comments().next().expect("comment").text, comment)
                }
                AudioTag::M4a(_) => panic!("not an ID3 tag"),
            }
            let result = saved(finish_save(3, comment, "新作 [ED]", Ok(())));
            assert_eq!(result.id, 3);
            assert_eq!(result.status, ProcessStatus::Saved);
            assert_eq!(result.detail, "Commentタグに「新作 [ED]」を保存しました");
            assert_eq!(result.comment.as_deref(), Some("メモ\n新作 [ED]"));
            assert_eq!(result.saved_candidate_value.as_deref(), Some("新作 [ED]"));
        }
        SaveStep::Finished(_) => panic!("no tag to write"),
    }
}

#[test]
fn says_why_nothing_was_saved() {
    let result = finished(save_selected_comment(3, false, commented("メモ"), "新作 [ED]"));
    assert_eq!(result.status, ProcessStatus::Skipped);
    assert_eq!(result.detail, "このOSではコメントを書き込めません");

    let result = finished(save_selected_comment(
        3,
        true,
        AudioSource::Unsupported(UnsupportedFile),
        "新作 [ED]",
    ));
    assert_eq!(result.status, ProcessStatus::Error);
    assert_eq!(
        result.detail,
        "既存のコメントを読めませんでした: mp3 / m4a ファイルのみ対応しています"
    );

    let result = finished(save_selected_comment(
        3,
        true,
        AudioSource::M4a(Err("broken".to_string())),
        "新作 [ED]",
    ));
    assert_eq!(
        result.detail,
        "コメントを書き込めませんでした: failed to read m4a metadata"
    );

    let result = saved(finish_save(
        3,
        "c".to_string(),
        "新作 [ED]",
        Err("failed to write mp3 comment tag".to_string()),
    ));
    assert_eq!(result.status, ProcessStatus::Error);
    assert_eq!(
        result.detail,
        "コメントを書き込めませんでした: failed to write mp3 comment tag"
    );
    assert_eq!(result.comment, None);
    assert_eq!(result.saved_candidate_value, None);
    assert_eq!(error_result(1, "d".to_string()).detail, "d");
}

#[test]
fn saving_again_replaces_the_earlier_candidate() {
    let first = merge_theme_comment("メモ", &candidate("作品").formatted_label());
    let second = merge_theme_comment(&first, &candidate("別作").formatted_label());
    assert_eq!(second, "メモ\n別作 [OP]");
}

//! What becomes of a file: searches, saved comments, and their results.

use vstd::prelude::*;

use crate::audio_file::UnsupportedFile;
use crate::file_name::{source_error_message, AudioSource, SourceError};
use crate::finder_comment::{
    carries_comment, comment_error_message, comment_lines, comments_are_comm, is_kept_line,
    is_plain_line, is_theme, law_merge_replaces_earlier_theme, law_merged_comment_has_theme,
    law_merging_leaves_other_lines, law_written_comment_is_read_back, merge_theme_comment,
    merged_comment, read_comment, source_comment, tag_comment, write_comment, AudioTag,
    CommentError,
};
use crate::lookup::{
    candidate_views, labelled, theme_label, ThemeCandidate, ThemeCandidateView, ThemeKind,
};
use crate::patterns::{is_labelled_at, is_theme_tag};
use crate::tags::mp3_frames;
use crate::text::{
    ascii_lowered, decimal, decimal_text, joined2, optional_view, trimmed_start,
};

verus! {

/// How far the work on a file is.
#[derive(Debug, Clone, Copy, PartialEq, Eq, Structural)]
pub enum ProcessStatus {
    Searching,
    Ready,
    Saving,
    Saved,
    Skipped,
    Error,
}

/// What the user is shown of a status.
pub open spec fn status_label(status: ProcessStatus) -> Seq<char> {
    match status {
        ProcessStatus::Searching => "検索中"@,
        ProcessStatus::Ready => "候補あり"@,
        ProcessStatus::Saving => "保存中"@,
        ProcessStatus::Saved => "保存済み"@,
        ProcessStatus::Skipped => "候補なし"@,
        ProcessStatus::Error => "エラー"@,
    }
}

impl ProcessStatus {
    /// What the user is shown of a status.
    pub fn label(self) -> (label: &'static str)
        ensures
            label@ == status_label(self),
    {
        match self {
            ProcessStatus::Searching => "検索中",
            ProcessStatus::Ready => "候補あり",
            ProcessStatus::Saving => "保存中",
            ProcessStatus::Saved => "保存済み",
            ProcessStatus::Skipped => "候補なし",
            ProcessStatus::Error => "エラー",
        }
    }
}

/// What came of a search.
#[derive(Debug)]
pub struct SearchResult {
    pub id: u64,
    pub status: ProcessStatus,
    pub detail: String,
    pub candidates: Vec<ThemeCandidate>,
    pub comment: Option<String>,
}

/// What a `SearchResult` holds.
#[verifier::ext_equal]
pub struct SearchResultView {
    pub id: u64,
    pub status: ProcessStatus,
    pub detail: Seq<char>,
    pub candidates: Seq<ThemeCandidateView>,
    pub comment: Option<Seq<char>>,
}

impl View for SearchResult {
    type V = SearchResultView;

    open spec fn view(&self) -> SearchResultView {
        SearchResultView {
            id: self.id,
            status: self.status,
            detail: self.detail@,
            candidates: candidate_views(self.candidates@),
            comment: optional_view(self.comment),
        }
    }
}

/// What came of saving a comment.
#[derive(Debug)]
pub struct SaveResult {
    pub id: u64,
    pub status: ProcessStatus,
    pub detail: String,
    pub comment: Option<String>,
    pub saved_candidate_value: Option<String>,
}

/// What a `SaveResult` holds.
#[verifier::ext_equal]
pub struct SaveResultView {
    pub id: u64,
    pub status: ProcessStatus,
    pub detail: Seq<char>,
    pub comment: Option<Seq<char>>,
    pub saved_candidate_value: Option<Seq<char>>,
}

impl View for SaveResult {
    type V = SaveResultView;

    open spec fn view(&self) -> SaveResultView {
        SaveResultView {
            id: self.id,
            status: self.status,
            detail: self.detail@,
            comment: optional_view(self.comment),
            saved_candidate_value: optional_view(self.saved_candidate_value),
        }
    }
}

/// The end of some work on a file.
#[derive(Debug)]
pub enum WorkerEvent {
    SearchCompleted(SearchResult),
    SaveCompleted(SaveResult),
}

/// What a `WorkerEvent` holds.
pub enum WorkerEventView {
    SearchCompleted(SearchResultView),
    SaveCompleted(SaveResultView),
}

impl View for WorkerEvent {
    type V = WorkerEventView;

    open spec fn view(&self) -> WorkerEventView {
        match self {
            WorkerEvent::SearchCompleted(result) => WorkerEventView::SearchCompleted(result@),
            WorkerEvent::SaveCompleted(result) => WorkerEventView::SaveCompleted(result@),
        }
    }
}

// ---------------------------------------------------------------------------
// Searches
// ---------------------------------------------------------------------------

/// The comment that a file has, where comments can be read and it is not empty.
pub open spec fn shown_comment(supported: bool, source: AudioSource) -> Option<Seq<char>> {
    match source_comment(source) {
        Ok(comment) if supported && comment.len() > 0 => Some(comment),
        _ => None,
    }
}

/// The comment that a file has, where comments can be read and it is not empty.
pub fn current_comment(supported: bool, source: &AudioSource) -> (comment: Option<String>)
    ensures
        optional_view(comment) == shown_comment(supported, *source),
{
    if !supported {
        return None;
    }
    match read_comment(source) {
        Ok(comment) => if comment.as_str().is_empty() {
            None
        } else {
            Some(comment)
        },
        Err(_) => None,
    }
}

/// How a search ended.
#[derive(Debug)]
pub enum SearchOutcome {
    /// The tags of the file give nothing to search for.
    Unreadable(SourceError),
    /// There is no client for requests.
    NoClient(String),
    /// A request failed.
    Failed(String),
    /// These candidates were found.
    Found(Vec<ThemeCandidate>),
}

/// What the user is told of tags that give nothing to search for.
pub open spec fn unreadable_detail(error: SourceError) -> Seq<char> {
    "検索元にするタイトルタグを読めませんでした: "@ + source_error_message(error@)
}

/// What the user is told of tags that give nothing to search for.
pub fn describe_unreadable(error: &SourceError) -> (detail: String)
    ensures
        detail@ == unreadable_detail(*error),
{
    let message = error.message();
    joined2("検索元にするタイトルタグを読めませんでした: ", message.as_str())
}

/// The status and what the user is told of a search.
pub open spec fn search_report(outcome: SearchOutcome) -> (ProcessStatus, Seq<char>) {
    match outcome {
        SearchOutcome::Unreadable(error) => (ProcessStatus::Error, unreadable_detail(error)),
        SearchOutcome::NoClient(error) => (
            ProcessStatus::Error,
            "検索クライアントの初期化に失敗しました: "@ + error@,
        ),
        SearchOutcome::Failed(error) => (ProcessStatus::Error, "検索に失敗しました: "@ + error@),
        SearchOutcome::Found(candidates) => if candidates@.len() == 0 {
            (
                ProcessStatus::Skipped,
                "AnimeThemes で関連しそうなアニメ作品を見つけられませんでした"@,
            )
        } else {
            (
                ProcessStatus::Ready,
                "関連候補を "@ + decimal(candidates@.len())
                    + " 件見つけました。プルダウンから選んでコメントへ保存してください"@,
            )
        },
    }
}

/// The candidates of a search.
pub open spec fn outcome_candidates(outcome: SearchOutcome) -> Seq<ThemeCandidateView> {
    match outcome {
        SearchOutcome::Found(candidates) => candidate_views(candidates@),
        _ => Seq::empty(),
    }
}

/// The result of a search for the file with an id, which has `comment`.
pub open spec fn search_result(
    id: u64,
    outcome: SearchOutcome,
    comment: Option<Seq<char>>,
) -> SearchResultView {
    SearchResultView {
        id,
        status: search_report(outcome).0,
        detail: search_report(outcome).1,
        candidates: outcome_candidates(outcome),
        comment,
    }
}

/// The result of a search for the file with an id, which has `comment`.
pub fn search_file(id: u64, outcome: SearchOutcome, comment: Option<String>) -> (event: WorkerEvent)
    ensures
        event@ == WorkerEventView::SearchCompleted(
            search_result(id, outcome, optional_view(comment)),
        ),
{
    let ghost all = outcome;
    let (status, detail, candidates) = match outcome {
        SearchOutcome::Unreadable(error) => (
            ProcessStatus::Error,
            describe_unreadable(&error),
            Vec::new(),
        ),
        SearchOutcome::NoClient(error) => (
            ProcessStatus::Error,
            joined2("検索クライアントの初期化に失敗しました: ", error.as_str()),
            Vec::new(),
        ),
        SearchOutcome::Failed(error) => (
            ProcessStatus::Error,
            joined2("検索に失敗しました: ", error.as_str()),
            Vec::new(),
        ),
        SearchOutcome::Found(candidates) => if candidates.len() == 0 {
            (
                ProcessStatus::Skipped,
                "AnimeThemes で関連しそうなアニメ作品を見つけられませんでした".to_string(),
                candidates,
            )
        } else {
            let count = decimal_text(candidates.len() as u64);
            let counted = joined2("関連候補を ", count.as_str());
            let detail = joined2(
                counted.as_str(),
                " 件見つけました。プルダウンから選んでコメントへ保存してください",
            );
            (ProcessStatus::Ready, detail, candidates)
        },
    };
    assert(candidate_views(candidates@) =~= outcome_candidates(all));
    WorkerEvent::SearchCompleted(SearchResult { id, status, detail, candidates, comment })
}

/// A search that found something is ready, one that found nothing is skipped,
/// and only one that did not come to its end is an error.
pub proof fn law_status_tells_outcome(id: u64, outcome: SearchOutcome, comment: Option<Seq<char>>)
    ensures
        search_result(id, outcome, comment).status is Ready <==> search_result(
            id,
            outcome,
            comment,
        ).candidates.len() > 0,
        search_result(id, outcome, comment).status is Error <==> !(outcome is Found),
{
}

// ---------------------------------------------------------------------------
// Saving
// ---------------------------------------------------------------------------

/// The result of a save that failed.
pub open spec fn failed_save(id: u64, detail: Seq<char>) -> SaveResultView {
    SaveResultView {
        id,
        status: ProcessStatus::Error,
        detail,
        comment: None,
        saved_candidate_value: None,
    }
}

/// The result of a save that failed.
pub fn error_result(id: u64, detail: String) -> (result: SaveResult)
    ensures
        result@ == failed_save(id, detail@),
{
    SaveResult {
        id,
        status: ProcessStatus::Error,
        detail,
        comment: None,
        saved_candidate_value: None,
    }
}

/// The result of a save where comments cannot be written.
pub open spec fn skipped_save(id: u64) -> SaveResultView {
    SaveResultView {
        id,
        status: ProcessStatus::Skipped,
        detail: "このOSではコメントを書き込めません"@,
        comment: None,
        saved_candidate_value: None,
    }
}

/// The result of a save of `value` that made `comment` the comment of a file.
pub open spec fn finished_save(id: u64, comment: Seq<char>, value: Seq<char>) -> SaveResultView {
    SaveResultView {
        id,
        status: ProcessStatus::Saved,
        detail: "Commentタグに「"@ + value + "」を保存しました"@,
        comment: Some(comment),
        saved_candidate_value: Some(value),
    }
}

/// What the user is told of a comment that could not be written.
pub open spec fn unwritten_detail(error: Seq<char>) -> Seq<char> {
    "コメントを書き込めませんでした: "@ + error
}

/// What is to be done to save a comment.
pub enum SaveStep {
    /// Nothing: this came of it.
    Finished(WorkerEvent),
    /// The tag is to be written, which makes `comment` the comment of the file.
    Write { tag: AudioTag, comment: String },
}

/// Whether a save is over with a result.
pub open spec fn is_over(step: SaveStep, result: SaveResultView) -> bool {
    match step {
        SaveStep::Finished(event) => event@ == WorkerEventView::SaveCompleted(result),
        SaveStep::Write { .. } => false,
    }
}

/// Whether `step` is what is to be done to save `value` in the comment of a
/// file: the comment is merged with the value and put into the tag, and where
/// that cannot be done the save is over.
pub open spec fn is_save_step(
    id: u64,
    supported: bool,
    source: AudioSource,
    value: Seq<char>,
    step: SaveStep,
) -> bool {
    if !supported {
        is_over(step, skipped_save(id))
    } else {
        match (source, source_comment(source)) {
            (AudioSource::M4a(Err(_)), _) => is_over(
                step,
                failed_save(
                    id,
                    unwritten_detail(comment_error_message(CommentError::UnreadableM4a)),
                ),
            ),
            (_, Ok(existing)) => match step {
                SaveStep::Finished(_) => false,
                SaveStep::Write { tag, comment } => comment@ == merged_comment(existing, value)
                    && carries_comment(source, merged_comment(existing, value), tag),
            },
            (_, Err(_)) => is_over(
                step,
                failed_save(
                    id,
                    "既存のコメントを読めませんでした: "@
                        + "mp3 / m4a ファイルのみ対応しています"@,
                ),
            ),
        }
    }
}

/// What is to be done to save `candidate_value` in the comment of a file.
pub fn save_selected_comment(
    id: u64,
    supported: bool,
    source: AudioSource,
    candidate_value: &str,
) -> (step: SaveStep)
    ensures
        is_save_step(id, supported, source, candidate_value@, step),
{
    if !supported {
        return SaveStep::Finished(
            WorkerEvent::SaveCompleted(
                SaveResult {
                    id,
                    status: ProcessStatus::Skipped,
                    detail: "このOSではコメントを書き込めません".to_string(),
                    comment: None,
                    saved_candidate_value: None,
                },
            ),
        );
    }
    let existing = match read_comment(&source) {
        Ok(existing) => existing,
        Err(unsupported) => {
            let detail = joined2("既存のコメントを読めませんでした: ", unsupported.message());
            return SaveStep::Finished(WorkerEvent::SaveCompleted(error_result(id, detail)));
        },
    };
    let comment = merge_theme_comment(existing.as_str(), candidate_value);
    match write_comment(source, comment.as_str()) {
        Ok(tag) => SaveStep::Write { tag, comment },
        Err(error) => SaveStep::Finished(
            WorkerEvent::SaveCompleted(
                error_result(id, joined2("コメントを書き込めませんでした: ", error.message())),
            ),
        ),
    }
}

/// The result of a save of `candidate_value` after the tag was written, or why it
/// could not be.
pub fn finish_save(
    id: u64,
    comment: String,
    candidate_value: &str,
    written: Result<(), String>,
) -> (event: WorkerEvent)
    ensures
        event@ == WorkerEventView::SaveCompleted(
            match written {
                Ok(_) => finished_save(id, comment@, candidate_value@),
                Err(error) => failed_save(id, unwritten_detail(error@)),
            },
        ),
{
    match written {
        Ok(_) => {
            let opened = joined2("Commentタグに「", candidate_value);
            WorkerEvent::SaveCompleted(
                SaveResult {
                    id,
                    status: ProcessStatus::Saved,
                    detail: joined2(opened.as_str(), "」を保存しました"),
                    comment: Some(comment),
                    saved_candidate_value: Some(candidate_value.to_string()),
                },
            )
        },
        Err(error) => WorkerEvent::SaveCompleted(
            error_result(id, joined2("コメントを書き込めませんでした: ", error.as_str())),
        ),
    }
}

proof fn lemma_trimmed_start_add(left: Seq<char>, right: Seq<char>)
    requires
        trimmed_start(left).len() > 0,
    ensures
        trimmed_start(left + right) == trimmed_start(left) + right,
    decreases left.len(),
{
    if crate::text::is_white(left[0]) {
        lemma_trimmed_start_add(left.drop_first(), right);
        assert((left + right).drop_first() =~= left.drop_first() + right);
    }
}

proof fn lemma_trimmed_start_suffix(text: Seq<char>)
    ensures
        forall|c: char| #[trigger] trimmed_start(text).contains(c) ==> text.contains(c),
    decreases text.len(),
{
    if text.len() > 0 && crate::text::is_white(text[0]) {
        lemma_trimmed_start_suffix(text.drop_first());
        assert forall|c: char| #[trigger] trimmed_start(text).contains(c) implies text.contains(
            c,
        ) by {
            assert(trimmed_start(text.drop_first()).contains(c));
            let k = text.drop_first().index_of(c);
            assert(text[k + 1] == c);
        }
    }
}

/// How a candidate is written is one theme line, where its title is one line
/// that is not blank.
pub proof fn law_label_is_theme_line(work_title: Seq<char>, kind: ThemeKind)
    requires
        trimmed_start(work_title).len() > 0,
        !work_title.contains('\n'),
    ensures
        is_theme(labelled(work_title, kind)),
        is_kept_line(labelled(work_title, kind)),
{
    reveal_strlit(" [");
    reveal_strlit("]");
    reveal_strlit("OP");
    reveal_strlit("ED");
    reveal_strlit("etc.");
    reveal_strlit("op");
    reveal_strlit("ed");
    reveal_strlit("etc.");
    let label = theme_label(kind);
    let line = labelled(work_title, kind);
    let ending = " ["@ + label + "]"@;
    assert(line =~= work_title + ending);
    lemma_trimmed_start_add(work_title, ending);
    lemma_trimmed_start_suffix(work_title);
    let name = trimmed_start(work_title);
    let text = name + ending;
    let cut = name.len() as int;
    assert(text[cut] == ending[0] && text[cut + 1] == ending[1]);
    assert(text.subrange(cut + 2, text.len() - 1) =~= label);
    assert(ascii_lowered("OP"@) =~= "op"@);
    assert(ascii_lowered("ED"@) =~= "ed"@);
    assert(ascii_lowered("etc."@) =~= "etc."@);
    assert(is_theme_tag(label));
    assert forall|k: int| 0 <= k < cut implies #[trigger] text[k] != '\n' by {
        assert(name.contains(name[k]));
    }
    assert(is_labelled_at(text, cut));
    assert(line.last() == ']');
    assert forall|k: int| 0 <= k < line.len() implies line[k] != '\n' by {
        if k < work_title.len() {
            assert(work_title.contains(work_title[k]));
        } else {
            assert(line[k] == ending[k - work_title.len()]);
            assert(forall|j: int| 0 <= j < label.len() ==> label[j] != '\n');
        }
    }
}

/// Saving a candidate replaces the candidate that was saved before, and leaves
/// the rest of the comment as it was.
pub proof fn law_saving_replaces_earlier_candidate(
    existing: Seq<char>,
    work_title: Seq<char>,
    kind: ThemeKind,
    value: Seq<char>,
)
    requires
        trimmed_start(work_title).len() > 0,
        !work_title.contains('\n'),
    ensures
        merged_comment(merged_comment(existing, labelled(work_title, kind)), value)
            == merged_comment(existing, value),
{
    law_label_is_theme_line(work_title, kind);
    law_merge_replaces_earlier_theme(existing, labelled(work_title, kind), value);
}

/// What is saved is what is read back: the comment of the written tag is the
/// comment that the save reports, and has the saved value as one of its lines.
pub proof fn law_saved_value_is_read_back(
    id: u64,
    source: AudioSource,
    value: Seq<char>,
    tag: AudioTag,
    comment: String,
)
    requires
        is_save_step(id, true, source, value, (SaveStep::Write { tag, comment })),
        is_kept_line(value),
        source matches AudioSource::Mp3(Ok(before)) ==> comments_are_comm(mp3_frames(before)),
    ensures
        tag_comment(tag) == Ok::<_, UnsupportedFile>(comment@),
        comment_lines(comment@).contains(value),
{
    match source_comment(source) {
        Ok(existing) => {
            law_merged_comment_has_theme(existing, value);
            law_written_comment_is_read_back(source, merged_comment(existing, value), tag);
        },
        Err(_) => {},
    }
}

/// The result of a search is for the file that was searched for, and has the candidates
/// that were found and the comment of the file.
pub proof fn law_search_results(id: u64, outcome: SearchOutcome, comment: Option<Seq<char>>)
    ensures
        search_result(id, outcome, comment).id == id,
        search_result(id, outcome, comment).comment == comment,
        outcome matches SearchOutcome::Found(candidates) ==> {
            &&& search_result(id, outcome, comment).candidates == candidate_views(candidates@)
            &&& candidates@.len() > 0 ==> search_result(id, outcome, comment).status is Ready
                && search_result(id, outcome, comment).detail == "関連候補を "@ + decimal(
                candidates@.len(),
            ) + " 件見つけました。プルダウンから選んでコメントへ保存してください"@
            &&& candidates@.len() == 0 ==> search_result(id, outcome, comment).status is Skipped
                && search_result(id, outcome, comment).detail
                == "AnimeThemes で関連しそうなアニメ作品を見つけられませんでした"@
        },
        outcome matches SearchOutcome::Unreadable(error) ==> search_result(
            id,
            outcome,
            comment,
        ).status is Error && search_result(id, outcome, comment).detail
            == "検索元にするタイトルタグを読めませんでした: "@ + source_error_message(error@),
        outcome matches SearchOutcome::NoClient(error) ==> search_result(
            id,
            outcome,
            comment,
        ).status is Error && search_result(id, outcome, comment).detail
            == "検索クライアントの初期化に失敗しました: "@ + error@,
        outcome matches SearchOutcome::Failed(error) ==> search_result(
            id,
            outcome,
            comment,
        ).status is Error && search_result(id, outcome, comment).detail == "検索に失敗しました: "@
            + error@,
        !(outcome is Found) ==> search_result(id, outcome, comment).candidates.len() == 0,
{
}

/// The comment of a file is shown where comments can be read, it could be read, and it is
/// not empty.
pub proof fn law_shown_comments(supported: bool, source: AudioSource)
    ensures
        !supported ==> shown_comment(supported, source) is None,
        source_comment(source) is Err ==> shown_comment(supported, source) is None,
        source_comment(source) matches Ok(comment) ==> comment.len() == 0 ==> shown_comment(
            supported,
            source,
        ) is None,
        source_comment(source) matches Ok(comment) ==> supported && comment.len() > 0
            ==> shown_comment(supported, source) == Some(comment),
{
}

/// A save writes the comment that the value is merged into wherever comments can be
/// written and the tag of the file can be; only then, and it changes nothing otherwise.
pub proof fn law_saves(
    id: u64,
    supported: bool,
    source: AudioSource,
    value: Seq<char>,
    step: SaveStep,
)
    requires
        is_save_step(id, supported, source, value, step),
    ensures
        step is Write <==> supported && !(source is Unsupported) && !(source matches AudioSource::M4a(
            Err(_),
        )),
        step matches SaveStep::Write { tag, comment } ==> {
            &&& source_comment(source) matches Ok(existing)
            &&& comment@ == merged_comment(existing, value)
            &&& carries_comment(source, comment@, tag)
        },
        step matches SaveStep::Finished(event) ==> {
            &&& event@ matches WorkerEventView::SaveCompleted(result)
            &&& result.id == id
            &&& result.comment is None
            &&& result.saved_candidate_value is None
            &&& !supported ==> result.status is Skipped
            &&& supported ==> result.status is Error
        },
{
    match source_comment(source) {
        Ok(existing) => {},
        Err(_) => {},
    }
}

/// A save that was written is reported with the value and the comment, one that was not
/// with the reason.
pub proof fn law_reported_saves(id: u64, comment: Seq<char>, value: Seq<char>, reason: Seq<char>)
    ensures
        finished_save(id, comment, value).id == id,
        finished_save(id, comment, value).status is Saved,
        finished_save(id, comment, value).comment == Some(comment),
        finished_save(id, comment, value).saved_candidate_value == Some(value),
        finished_save(id, comment, value).detail == "Commentタグに「"@ + value
            + "」を保存しました"@,
        failed_save(id, unwritten_detail(reason)).id == id,
        failed_save(id, unwritten_detail(reason)).status is Error,
        failed_save(id, unwritten_detail(reason)).comment is None,
        failed_save(id, unwritten_detail(reason)).saved_candidate_value is None,
        failed_save(id, unwritten_detail(reason)).detail == "コメントを書き込めませんでした: "@
            + reason,
{
}

/// Saving a candidate leaves every line of the comment that neither begins with the
/// prefix of theme lines nor ends in a square bracket, and adds the candidate.
pub proof fn law_saving_leaves_other_lines(
    id: u64,
    source: AudioSource,
    value: Seq<char>,
    tag: AudioTag,
    comment: String,
    existing: Seq<char>,
    line: Seq<char>,
)
    requires
        is_save_step(id, true, source, value, (SaveStep::Write { tag, comment })),
        is_kept_line(value),
        source_comment(source) == Ok::<_, UnsupportedFile>(existing),
        comment_lines(existing).contains(line),
        is_plain_line(line),
    ensures
        comment_lines(comment@).contains(line),
        comment_lines(comment@).contains(value),
{
    law_merging_leaves_other_lines(existing, value);
}

/// What is said where a comment cannot be saved.
pub proof fn law_what_is_said_of_failed_saves(
    id: u64,
    supported: bool,
    source: AudioSource,
    value: Seq<char>,
    event: WorkerEvent,
)
    requires
        is_save_step(id, supported, source, value, SaveStep::Finished(event)),
    ensures
        event@ matches WorkerEventView::SaveCompleted(result) && {
            &&& !supported ==> result.detail == "このOSではコメントを書き込めません"@
            &&& supported && source is M4a ==> result.detail
                == "コメントを書き込めませんでした: "@ + "failed to read m4a metadata"@
            &&& supported && source is Unsupported ==> result.detail
                == "既存のコメントを読めませんでした: "@
                + "mp3 / m4a ファイルのみ対応しています"@
        },
{
    match source_comment(source) {
        Ok(existing) => {},
        Err(_) => {},
    }
}

/// Each status is shown under a name of its own.
pub proof fn law_names_of_states(one: ProcessStatus, two: ProcessStatus)
    ensures
        status_label(ProcessStatus::Searching) == "検索中"@,
        status_label(ProcessStatus::Ready) == "候補あり"@,
        status_label(ProcessStatus::Saving) == "保存中"@,
        status_label(ProcessStatus::Saved) == "保存済み"@,
        status_label(ProcessStatus::Skipped) == "候補なし"@,
        status_label(ProcessStatus::Error) == "エラー"@,
        status_label(one) == status_label(two) <==> one == two,
{
    reveal_strlit("検索中");
    reveal_strlit("候補あり");
    reveal_strlit("保存中");
    reveal_strlit("保存済み");
    reveal_strlit("候補なし");
    reveal_strlit("エラー");
    assert("候補あり"@[2] == 'あ' && "候補なし"@[2] == 'な');
    assert("検索中"@[0] == '検' && "候補あり"@[0] == '候' && "候補なし"@[0] == '候' && "保存中"@[0]
        == '保' && "保存済み"@[0] == '保' && "エラー"@[0] == 'エ');
    assert("保存中"@.len() == 3 && "保存済み"@.len() == 4);
}

/// A result holds what its fields hold.
pub proof fn law_results_hold_their_fields(search: SearchResult, save: SaveResult)
    ensures
        search@.id == search.id && search@.status == search.status && search@.detail
            == search.detail@ && search@.candidates == candidate_views(search.candidates@),
        search.comment matches Some(comment) ==> search@.comment == Some(comment@),
        search.comment is None ==> search@.comment is None,
        save@.id == save.id && save@.status == save.status && save@.detail == save.detail@,
        save.comment matches Some(comment) ==> save@.comment == Some(comment@),
        save.comment is None ==> save@.comment is None,
        save.saved_candidate_value matches Some(value) ==> save@.saved_candidate_value == Some(
            value@,
        ),
        save.saved_candidate_value is None ==> save@.saved_candidate_value is None,
        WorkerEvent::SearchCompleted(search)@ == WorkerEventView::SearchCompleted(search@),
        WorkerEvent::SaveCompleted(save)@ == WorkerEventView::SaveCompleted(save@),
{
}

} // verus!

//! The files that a user works on, and what is shown of them.

use vstd::prelude::*;

use crate::file_name::{SearchInput, SourceError};
use crate::lookup::{
    candidate_views, labelled, CandidateSource, CandidateSourceView, ThemeCandidate,
    ThemeCandidateView,
};
use crate::paths::{
    is_plain_path, is_same_path, law_plain_paths_are_the_same_everywhere, may_be_same_path,
    same_path, unix_path,
};
use crate::processor::{
    describe_unreadable, status_label, unreadable_detail, ProcessStatus, SaveResult,
    SaveResultView, SearchResult, SearchResultView, WorkerEvent, WorkerEventView,
};
use crate::text::{
    decimal, decimal_text, join_strings, join_texts, joined2, optional_view, same_text, views,
};

verus! {

// ---------------------------------------------------------------------------
// The state
// ---------------------------------------------------------------------------

/// A file that a user works on.
#[derive(Debug)]
pub struct FileEntry {
    pub id: u64,
    /// The path as it was given. Paths are compared by their components.
    pub path: String,
    pub file_name: String,
    pub source_title: String,
    pub source_artist: Option<String>,
    pub search_queries: Vec<String>,
    pub status: ProcessStatus,
    pub detail: String,
    pub candidates: Vec<ThemeCandidate>,
    pub selected_candidate: usize,
    pub comment: Option<String>,
}

/// What a `FileEntry` holds.
#[verifier::ext_equal]
pub struct EntryView {
    pub id: u64,
    pub path: Seq<char>,
    pub file_name: Seq<char>,
    pub source_title: Seq<char>,
    pub source_artist: Option<Seq<char>>,
    pub search_queries: Seq<Seq<char>>,
    pub status: ProcessStatus,
    pub detail: Seq<char>,
    pub candidates: Seq<ThemeCandidateView>,
    pub selected_candidate: nat,
    pub comment: Option<Seq<char>>,
}

impl View for FileEntry {
    type V = EntryView;

    open spec fn view(&self) -> EntryView {
        EntryView {
            id: self.id,
            path: self.path@,
            file_name: self.file_name@,
            source_title: self.source_title@,
            source_artist: optional_view(self.source_artist),
            search_queries: views(self.search_queries@),
            status: self.status,
            detail: self.detail@,
            candidates: candidate_views(self.candidates@),
            selected_candidate: self.selected_candidate as nat,
            comment: optional_view(self.comment),
        }
    }
}

/// What the entries of a list hold.
pub open spec fn file_views(entries: Seq<FileEntry>) -> Seq<EntryView> {
    Seq::new(entries.len(), |i: int| entries[i]@)
}

/// All files that a user works on.
pub struct ContentRenamerApp {
    entries: Vec<FileEntry>,
    next_id: u64,
}

/// What a `ContentRenamerApp` holds.
#[verifier::ext_equal]
pub struct AppView {
    pub entries: Seq<EntryView>,
    pub next_id: u64,
}

impl View for ContentRenamerApp {
    type V = AppView;

    closed spec fn view(&self) -> AppView {
        AppView { entries: file_views(self.entries@), next_id: self.next_id }
    }
}

/// Whether no two files have the same id or the same path, and all ids are
/// below the next one.
pub open spec fn in_order(app: AppView) -> bool {
    &&& forall|i: int, j: int|
        0 <= i < j < app.entries.len() ==> (#[trigger] app.entries[i]).id != (
        #[trigger] app.entries[j]).id && !is_same_path(app.entries[i].path, app.entries[j].path)
    &&& forall|i: int| 0 <= i < app.entries.len() ==> (#[trigger] app.entries[i]).id < app.next_id
}

/// Whether a file with a path is there: one whose path has the same components,
/// on every system.
pub open spec fn has_path(app: AppView, path: Seq<char>) -> bool {
    exists|i: int|
        0 <= i < app.entries.len() && is_same_path((#[trigger] app.entries[i]).path, path)
}

/// Whether a file with a path may be there: one whose path may have the same
/// components, on some system.
pub open spec fn may_have_path(app: AppView, path: Seq<char>) -> bool {
    exists|i: int|
        0 <= i < app.entries.len() && may_be_same_path((#[trigger] app.entries[i]).path, path)
}

/// Whether a file with an id is there.
pub open spec fn has_id(app: AppView, id: u64) -> bool {
    exists|i: int| 0 <= i < app.entries.len() && (#[trigger] app.entries[i]).id == id
}

/// No files.
pub open spec fn no_files() -> AppView {
    AppView { entries: Seq::empty(), next_id: 1 }
}

// ---------------------------------------------------------------------------
// What happens to it
// ---------------------------------------------------------------------------

/// A new file: it is searched for, or its tags give nothing to search for.
pub open spec fn new_entry(
    id: u64,
    path: Seq<char>,
    file_name: Seq<char>,
    input: Result<SearchInput, SourceError>,
) -> EntryView {
    match input {
        Ok(input) => EntryView {
            id,
            path,
            file_name,
            source_title: input@.source_title,
            source_artist: input@.source_artist,
            search_queries: input@.search_queries,
            status: ProcessStatus::Searching,
            detail: "タイトルタグをもとに AnimeThemes から関連候補を検索しています"@,
            candidates: Seq::empty(),
            selected_candidate: 0,
            comment: None,
        },
        Err(error) => EntryView {
            id,
            path,
            file_name,
            source_title: Seq::empty(),
            source_artist: None,
            search_queries: Seq::empty(),
            status: ProcessStatus::Error,
            detail: unreadable_detail(error),
            candidates: Seq::empty(),
            selected_candidate: 0,
            comment: None,
        },
    }
}

/// The files after one more; a path that is known to be there already is passed
/// over.
pub open spec fn with_file(
    app: AppView,
    known: bool,
    path: Seq<char>,
    file_name: Seq<char>,
    input: Result<SearchInput, SourceError>,
) -> AppView {
    if known {
        app
    } else {
        AppView {
            entries: app.entries.push(new_entry(app.next_id, path, file_name, input)),
            next_id: (app.next_id + 1) as u64,
        }
    }
}

/// The files with the one with an id changed.
pub open spec fn with_entry(app: AppView, id: u64, change: spec_fn(EntryView) -> EntryView) -> AppView {
    AppView {
        entries: Seq::new(
            app.entries.len(),
            |i: int|
                if app.entries[i].id == id {
                    change(app.entries[i])
                } else {
                    app.entries[i]
                },
        ),
        ..app
    }
}

/// A file with the result of its search.
pub open spec fn searched(result: SearchResultView) -> spec_fn(EntryView) -> EntryView {
    |entry: EntryView|
        EntryView {
            status: result.status,
            detail: result.detail,
            candidates: result.candidates,
            comment: result.comment,
            selected_candidate: 0,
            ..entry
        }
}

/// Whether the candidate at `at` is the first that is written as `value`.
pub open spec fn is_first_labelled(
    candidates: Seq<ThemeCandidateView>,
    value: Seq<char>,
    at: int,
) -> bool {
    &&& 0 <= at < candidates.len()
    &&& labelled(candidates[at].work_title, candidates[at].kind) == value
    &&& forall|i: int|
        0 <= i < at ==> labelled((#[trigger] candidates[i]).work_title, candidates[i].kind)
            != value
}

/// Whether a candidate is written as `value`.
pub open spec fn has_labelled(candidates: Seq<ThemeCandidateView>, value: Seq<char>) -> bool {
    exists|at: int| is_first_labelled(candidates, value, at)
}

/// The first candidate that is written as `value`.
pub open spec fn first_labelled(candidates: Seq<ThemeCandidateView>, value: Seq<char>) -> int {
    choose|at: int| is_first_labelled(candidates, value, at)
}

/// The candidate that is selected after `value` was saved: the first that is
/// written so, or the one that was selected where there is none.
pub open spec fn selected_after(entry: EntryView, value: Option<Seq<char>>) -> nat {
    match value {
        Some(value) => if has_labelled(entry.candidates, value) {
            first_labelled(entry.candidates, value) as nat
        } else {
            entry.selected_candidate
        },
        None => entry.selected_candidate,
    }
}

/// A file with the result of saving a comment.
pub open spec fn saved(result: SaveResultView) -> spec_fn(EntryView) -> EntryView {
    |entry: EntryView|
        EntryView {
            status: result.status,
            detail: result.detail,
            comment: result.comment,
            selected_candidate: selected_after(entry, result.saved_candidate_value),
            ..entry
        }
}

/// The files after the end of some work.
pub open spec fn after_event(app: AppView, event: WorkerEventView) -> AppView {
    match event {
        WorkerEventView::SearchCompleted(result) => with_entry(app, result.id, searched(result)),
        WorkerEventView::SaveCompleted(result) => with_entry(app, result.id, saved(result)),
    }
}

/// How the selected candidate of a file is written, where there is one.
pub open spec fn selected_value(entry: EntryView) -> Option<Seq<char>> {
    if entry.selected_candidate < entry.candidates.len() {
        let selected = entry.candidates[entry.selected_candidate as int];
        Some(labelled(selected.work_title, selected.kind))
    } else {
        None
    }
}

/// A file whose selected candidate is being saved; one without is left alone.
pub open spec fn saving() -> spec_fn(EntryView) -> EntryView {
    |entry: EntryView|
        match selected_value(entry) {
            Some(value) => EntryView {
                status: ProcessStatus::Saving,
                detail: "「"@ + value + "」をコメントへ保存しています"@,
                ..entry
            },
            None => entry,
        }
}

/// A file with another candidate selected.
pub open spec fn selecting(index: nat) -> spec_fn(EntryView) -> EntryView {
    |entry: EntryView| EntryView { selected_candidate: index, ..entry }
}

/// A file whose selection is one of its candidates, where it has any.
pub open spec fn with_valid_selection(entry: EntryView) -> EntryView {
    if entry.candidates.len() > 0 && entry.selected_candidate >= entry.candidates.len() {
        EntryView { selected_candidate: 0, ..entry }
    } else {
        entry
    }
}

/// What becomes of a path that a user adds.
#[derive(Debug, Clone, Copy, PartialEq, Eq, Structural)]
pub enum EnqueueOutcome {
    /// It is there already.
    Known,
    /// The file with this id is to be searched for.
    Search(u64),
    /// The file with this id has nothing to search for.
    Unreadable(u64),
}

/// A comment that is to be saved.
#[derive(Debug)]
pub struct SaveRequest {
    pub id: u64,
    pub path: String,
    pub value: String,
}

impl ContentRenamerApp {
    /// Whether the files are in order.
    pub closed spec fn well_formed(&self) -> bool {
        in_order(self@)
    }
}

impl Default for ContentRenamerApp {
    /// No files.
    fn default() -> (app: ContentRenamerApp)
        ensures
            app.well_formed(),
            in_order(app@),
            app@ == no_files(),
    {
        let app = ContentRenamerApp { entries: Vec::new(), next_id: 1 };
        assert(app@.entries =~= Seq::empty());
        app
    }
}

impl ContentRenamerApp {
    /// The number of files.
    pub fn len(&self) -> (count: usize)
        ensures
            count == self@.entries.len(),
    {
        self.entries.len()
    }

    /// The file at `at`.
    pub fn entry(&self, at: usize) -> (entry: Option<&FileEntry>)
        ensures
            entry matches Some(entry) ==> at < self@.entries.len() && entry@
                == self@.entries[at as int],
            entry is None <==> at >= self@.entries.len(),
    {
        if at < self.entries.len() {
            Some(&self.entries[at])
        } else {
            None
        }
    }

    /// Whether there is an id left for one more file.
    pub fn has_room(&self) -> (room: bool)
        ensures
            room == (self@.next_id < u64::MAX),
    {
        self.next_id < u64::MAX
    }

    /// Whether a file with a path is there. Paths are compared by their components,
    /// as the system sees them.
    pub fn contains_path(&self, path: &str) -> (found: bool)
        ensures
            has_path(self@, path@) ==> found,
            found ==> may_have_path(self@, path@),
    {
        let mut i: usize = 0;
        while i < self.entries.len()
            invariant
                i <= self.entries@.len(),
                forall|k: int|
                    0 <= k < i ==> !is_same_path((#[trigger] self@.entries[k]).path, path@),
            decreases self.entries@.len() - i,
        {
            let ghost entry = self@.entries[i as int];
            assert(entry.path == self.entries@[i as int].path@);
            if same_path(self.entries[i].path.as_str(), path) {
                assert(may_be_same_path(entry.path, path@));
                return true;
            }
            i = i + 1;
        }
        false
    }

    fn position(&self, id: u64) -> (at: usize)
        ensures
            at <= self@.entries.len(),
            at < self@.entries.len() ==> self@.entries[at as int].id == id,
            forall|k: int| 0 <= k < at ==> (#[trigger] self@.entries[k]).id != id,
    {
        let mut at: usize = 0;
        while at < self.entries.len() && self.entries[at].id != id
            invariant
                at <= self.entries@.len(),
                forall|k: int| 0 <= k < at ==> (#[trigger] self@.entries[k]).id != id,
            decreases self.entries@.len() - at,
        {
            at = at + 1;
        }
        at
    }

    /// Adds a file, unless its path is there already. Paths are compared by their
    /// components, as the system sees them.
    pub fn enqueue_file(
        &mut self,
        path: String,
        file_name: String,
        input: Result<SearchInput, SourceError>,
    ) -> (outcome: EnqueueOutcome)
        requires
            old(self).well_formed(),
            old(self)@.next_id < u64::MAX,
        ensures
            final(self).well_formed(),
            in_order(final(self)@),
            final(self)@ == with_file(
                old(self)@,
                outcome is Known,
                path@,
                file_name@,
                input,
            ),
            has_path(old(self)@, path@) ==> outcome is Known,
            outcome is Known ==> may_have_path(old(self)@, path@),
            outcome !is Known ==> outcome == if input is Ok {
                EnqueueOutcome::Search(old(self)@.next_id)
            } else {
                EnqueueOutcome::Unreadable(old(self)@.next_id)
            },
    {
        let ghost before = self@;
        if self.contains_path(path.as_str()) {
            return EnqueueOutcome::Known;
        }
        let id = self.next_id;
        let ghost added = new_entry(id, path@, file_name@, input);
        let (entry, outcome) = match input {
            Ok(input) => (
                FileEntry {
                    id,
                    path,
                    file_name,
                    source_title: input.source_title,
                    source_artist: input.source_artist,
                    search_queries: input.search_queries,
                    status: ProcessStatus::Searching,
                    detail:
                        "タイトルタグをもとに AnimeThemes から関連候補を検索しています".to_string(),
                    candidates: Vec::new(),
                    selected_candidate: 0,
                    comment: None,
                },
                EnqueueOutcome::Search(id),
            ),
            Err(error) => (
                FileEntry {
                    id,
                    path,
                    file_name,
                    source_title: String::new(),
                    source_artist: None,
                    search_queries: Vec::new(),
                    status: ProcessStatus::Error,
                    detail: describe_unreadable(&error),
                    candidates: Vec::new(),
                    selected_candidate: 0,
                    comment: None,
                },
                EnqueueOutcome::Unreadable(id),
            ),
        };
        assert(entry@ =~= added);
        self.entries.push(entry);
        self.next_id = id + 1;
        assert(self@.entries =~= before.entries.push(added));
        proof {
            law_files_stay_in_order_with_one_more(
                before,
                false,
                added.path,
                added.file_name,
                input,
            );
        }
        outcome
    }

    /// Gives a file the result of its search.
    pub fn apply_search_result(&mut self, result: SearchResult)
        requires
            old(self).well_formed(),
        ensures
            final(self).well_formed(),
            in_order(final(self)@),
            final(self)@ == with_entry(old(self)@, result@.id, searched(result@)),
    {
        let ghost before = self@;
        let ghost shown = result@;
        let at = self.position(result.id);
        if at < self.entries.len() {
            self.entries[at].status = result.status;
            self.entries[at].detail = result.detail;
            self.entries[at].candidates = result.candidates;
            self.entries[at].comment = result.comment;
            self.entries[at].selected_candidate = 0;
            assert(self.entries@[at as int]@ == searched(shown)(before.entries[at as int]));
        }
        proof {
            lemma_entry_changed(before, self@, shown.id, searched(shown), at as int);
        }
    }

    /// Gives a file the result of saving a comment.
    pub fn apply_save_result(&mut self, result: SaveResult)
        requires
            old(self).well_formed(),
        ensures
            final(self).well_formed(),
            in_order(final(self)@),
            final(self)@ == with_entry(old(self)@, result@.id, saved(result@)),
    {
        let ghost before = self@;
        let ghost shown = result@;
        let at = self.position(result.id);
        if at < self.entries.len() {
            let selected = selected_index(&self.entries[at], &result.saved_candidate_value);
            self.entries[at].status = result.status;
            self.entries[at].detail = result.detail;
            self.entries[at].comment = result.comment;
            self.entries[at].selected_candidate = selected;
            assert(self.entries@[at as int]@ == saved(shown)(before.entries[at as int]));
        }
        proof {
            lemma_entry_changed(before, self@, shown.id, saved(shown), at as int);
        }
    }

    /// Takes note of the end of some work.
    pub fn apply_event(&mut self, event: WorkerEvent)
        requires
            old(self).well_formed(),
        ensures
            final(self).well_formed(),
            in_order(final(self)@),
            final(self)@ == after_event(old(self)@, event@),
    {
        match event {
            WorkerEvent::SearchCompleted(result) => self.apply_search_result(result),
            WorkerEvent::SaveCompleted(result) => self.apply_save_result(result),
        }
    }

    /// Begins to save the selected candidate of the file with an id, and says what
    /// is to be saved; where there is no such file or candidate, nothing changes.
    pub fn start_save(&mut self, entry_id: u64) -> (request: Option<SaveRequest>)
        requires
            old(self).well_formed(),
        ensures
            final(self).well_formed(),
            in_order(final(self)@),
            final(self)@ == with_entry(old(self)@, entry_id, saving()),
            request is Some <==> exists|i: int|
                0 <= i < old(self)@.entries.len() && (#[trigger] old(self)@.entries[i]).id
                    == entry_id && selected_value(old(self)@.entries[i]) is Some,
            request matches Some(request) ==> request.id == entry_id && exists|i: int|
                0 <= i < old(self)@.entries.len() && (#[trigger] old(self)@.entries[i]).id
                    == entry_id && old(self)@.entries[i].path == request.path@ && selected_value(
                    old(self)@.entries[i],
                ) == Some(request.value@),
    {
        let ghost before = self@;
        let at = self.position(entry_id);
        if at >= self.entries.len() {
            assert(self@ =~= with_entry(before, entry_id, saving()));
            return None;
        }
        let selected = self.entries[at].selected_candidate;
        if selected >= self.entries[at].candidates.len() {
            assert(saving()(before.entries[at as int]) == before.entries[at as int]);
            proof {
                lemma_entry_changed(before, self@, entry_id, saving(), at as int);
                assert forall|i: int|
                    0 <= i < before.entries.len() && (#[trigger] before.entries[i]).id
                        == entry_id implies i == at by {}
            }
            return None;
        }
        let value = self.entries[at].candidates[selected].formatted_label();
        let opened = joined2("「", value.as_str());
        self.entries[at].status = ProcessStatus::Saving;
        self.entries[at].detail = joined2(opened.as_str(), "」をコメントへ保存しています");
        assert(self.entries@[at as int]@ == saving()(before.entries[at as int]));
        proof {
            lemma_entry_changed(before, self@, entry_id, saving(), at as int);
            assert(before.entries[at as int].id == entry_id);
        }
        Some(SaveRequest { id: entry_id, path: self.entries[at].path.clone(), value })
    }

    /// Selects a candidate of the file with an id.
    pub fn select_candidate(&mut self, entry_id: u64, index: usize)
        requires
            old(self).well_formed(),
        ensures
            final(self).well_formed(),
            in_order(final(self)@),
            final(self)@ == with_entry(old(self)@, entry_id, selecting(index as nat)),
    {
        let ghost before = self@;
        let at = self.position(entry_id);
        if at < self.entries.len() {
            self.entries[at].selected_candidate = index;
            assert(self.entries@[at as int]@ == selecting(index as nat)(
                before.entries[at as int],
            ));
        }
        proof {
            lemma_entry_changed(before, self@, entry_id, selecting(index as nat), at as int);
        }
    }
}

proof fn lemma_entry_changed(
    before: AppView,
    after: AppView,
    id: u64,
    change: spec_fn(EntryView) -> EntryView,
    at: int,
)
    requires
        in_order(before),
        forall|entry: EntryView| (#[trigger] change(entry)).id == entry.id && change(entry).path
            == entry.path,
        0 <= at <= before.entries.len(),
        at < before.entries.len() ==> before.entries[at].id == id,
        forall|k: int| 0 <= k < at ==> (#[trigger] before.entries[k]).id != id,
        after.next_id == before.next_id,
        after.entries.len() == before.entries.len(),
        at < before.entries.len() ==> after.entries[at] == change(before.entries[at]),
        forall|k: int|
            0 <= k < before.entries.len() && k != at ==> #[trigger] after.entries[k]
                == before.entries[k],
    ensures
        after == with_entry(before, id, change),
        in_order(after),
{
    assert forall|k: int| 0 <= k < after.entries.len() implies after.entries[k] == with_entry(
        before,
        id,
        change,
    ).entries[k] by {
        if k != at {
            assert(after.entries[k] == before.entries[k]);
            if k > at {
                assert(before.entries[at].id != before.entries[k].id);
            }
        }
    }
    assert(after.entries =~= with_entry(before, id, change).entries);
    law_files_stay_in_order_with_changes(before, id, change);
}

fn selected_index(entry: &FileEntry, value: &Option<String>) -> (index: usize)
    ensures
        index == selected_after(entry@, optional_view(*value)),
{
    let wanted = match value {
        Some(wanted) => wanted,
        None => {
            return entry.selected_candidate;
        },
    };
    let ghost candidates = entry@.candidates;
    let mut i: usize = 0;
    while i < entry.candidates.len()
        invariant
            i <= entry.candidates@.len(),
            candidates == candidate_views(entry.candidates@),
            optional_view(*value) == Some(wanted@),
            forall|k: int|
                0 <= k < i ==> labelled(
                    (#[trigger] candidates[k]).work_title,
                    candidates[k].kind,
                ) != wanted@,
        decreases entry.candidates@.len() - i,
    {
        let label = entry.candidates[i].formatted_label();
        assert(candidates[i as int] == entry.candidates@[i as int]@);
        if same_text(label.as_str(), wanted.as_str()) {
            proof {
                assert(is_first_labelled(candidates, wanted@, i as int));
                let chosen = first_labelled(candidates, wanted@);
                assert(is_first_labelled(candidates, wanted@, chosen));
                if chosen < i {
                    assert(labelled(candidates[chosen].work_title, candidates[chosen].kind)
                        != wanted@);
                }
                if i < chosen {
                    assert(labelled(candidates[i as int].work_title, candidates[i as int].kind)
                        != wanted@);
                }
                assert(has_labelled(entry@.candidates, wanted@));
            }
            return i;
        }
        i = i + 1;
    }
    entry.selected_candidate
}

// ---------------------------------------------------------------------------
// Laws
// ---------------------------------------------------------------------------

/// Files stay in order with one more: no two have the same id or path.
pub proof fn law_files_stay_in_order_with_one_more(
    app: AppView,
    known: bool,
    path: Seq<char>,
    file_name: Seq<char>,
    input: Result<SearchInput, SourceError>,
)
    requires
        in_order(app),
        app.next_id < u64::MAX,
        has_path(app, path) ==> known,
    ensures
        in_order(with_file(app, known, path, file_name, input)),
        !known ==> has_path(with_file(app, known, path, file_name, input), path),
{
    let after = with_file(app, known, path, file_name, input);
    if !known {
        let added = new_entry(app.next_id, path, file_name, input);
        assert forall|i: int, j: int| 0 <= i < j < after.entries.len() implies (
        #[trigger] after.entries[i]).id != (#[trigger] after.entries[j]).id
            && !is_same_path(after.entries[i].path, after.entries[j].path) by {
            assert(after.entries[i] == app.entries[i]);
            if j < app.entries.len() {
                assert(after.entries[j] == app.entries[j]);
            } else {
                assert(after.entries[j] == added);
                assert(!is_same_path(app.entries[i].path, path));
            }
        }
        assert forall|i: int| 0 <= i < after.entries.len() implies (
        #[trigger] after.entries[i]).id < after.next_id by {
            if i < app.entries.len() {
                assert(after.entries[i] == app.entries[i]);
            }
        }
        assert(after.entries[app.entries.len() as int].path == path);
    }
}

/// Files stay in order with every change of one of them that keeps its id and
/// path.
pub proof fn law_files_stay_in_order_with_changes(
    app: AppView,
    id: u64,
    change: spec_fn(EntryView) -> EntryView,
)
    requires
        in_order(app),
        forall|entry: EntryView| (#[trigger] change(entry)).id == entry.id && change(entry).path
            == entry.path,
    ensures
        in_order(with_entry(app, id, change)),
{
    let after = with_entry(app, id, change);
    assert forall|i: int| 0 <= i < after.entries.len() implies (#[trigger] after.entries[i]).id
        == app.entries[i].id && after.entries[i].path == app.entries[i].path by {
        assert(change(app.entries[i]).id == app.entries[i].id);
    }
    assert forall|i: int, j: int| 0 <= i < j < after.entries.len() implies (
    #[trigger] after.entries[i]).id != (#[trigger] after.entries[j]).id && !is_same_path(
        after.entries[i].path,
        after.entries[j].path,
    ) by {
        assert(app.entries[i].id != app.entries[j].id);
    }
}

/// The end of some work changes no file but the one that it was for.
pub proof fn law_events_leave_other_files(app: AppView, event: WorkerEventView, at: int)
    requires
        0 <= at < app.entries.len(),
        app.entries[at].id != match event {
            WorkerEventView::SearchCompleted(result) => result.id,
            WorkerEventView::SaveCompleted(result) => result.id,
        },
    ensures
        after_event(app, event).entries.len() == app.entries.len(),
        after_event(app, event).entries[at] == app.entries[at],
{
}

/// The end of work for a file that is not there changes nothing.
pub proof fn law_events_for_unknown_files_change_nothing(app: AppView, event: WorkerEventView)
    requires
        !has_id(
            app,
            match event {
                WorkerEventView::SearchCompleted(result) => result.id,
                WorkerEventView::SaveCompleted(result) => result.id,
            },
        ),
    ensures
        after_event(app, event) == app,
{
    assert(after_event(app, event).entries =~= app.entries);
}

/// Adding a path a second time, in whatever form, changes nothing: it is there
/// after the first time.
pub proof fn law_paths_are_added_once(
    app: AppView,
    path: Seq<char>,
    first_name: Seq<char>,
    first: Result<SearchInput, SourceError>,
    again: Seq<char>,
    second_name: Seq<char>,
    second: Result<SearchInput, SourceError>,
)
    requires
        is_same_path(path, again),
    ensures
        ({
            let after = with_file(app, has_path(app, path), path, first_name, first);
            &&& has_path(after, again)
            &&& with_file(after, has_path(after, again), again, second_name, second) == after
        }),
{
    let after = with_file(app, has_path(app, path), path, first_name, first);
    if has_path(app, path) {
        let i = choose|i: int|
            0 <= i < app.entries.len() && is_same_path((#[trigger] app.entries[i]).path, path);
        assert(is_same_path(after.entries[i].path, again));
    } else {
        assert(after.entries[app.entries.len() as int].path == path);
    }
}

/// Among plain paths, one is there where a file's path has the same components, and
/// on no system otherwise.
pub proof fn law_plain_paths_are_found_by_components(app: AppView, path: Seq<char>)
    requires
        is_plain_path(path),
        forall|i: int|
            0 <= i < app.entries.len() ==> is_plain_path((#[trigger] app.entries[i]).path),
    ensures
        has_path(app, path) <==> exists|i: int|
            0 <= i < app.entries.len() && unix_path((#[trigger] app.entries[i]).path)
                == unix_path(path),
        may_have_path(app, path) <==> has_path(app, path),
{
    assert forall|i: int| 0 <= i < app.entries.len() implies (is_same_path(
        (#[trigger] app.entries[i]).path,
        path,
    ) <==> unix_path(app.entries[i].path) == unix_path(path)) && (may_be_same_path(
        app.entries[i].path,
        path,
    ) <==> unix_path(app.entries[i].path) == unix_path(path)) by {
        law_plain_paths_are_the_same_everywhere(app.entries[i].path, path);
    }
    if may_have_path(app, path) {
        let i = choose|i: int|
            0 <= i < app.entries.len() && may_be_same_path((#[trigger] app.entries[i]).path, path);
        assert(is_same_path(app.entries[i].path, path));
    }
    if has_path(app, path) {
        let i = choose|i: int|
            0 <= i < app.entries.len() && is_same_path((#[trigger] app.entries[i]).path, path);
        assert(may_be_same_path(app.entries[i].path, path));
    }
}

// ---------------------------------------------------------------------------
// What is shown
// ---------------------------------------------------------------------------

/// How a candidate is offered: as it is written, with its score.
pub open spec fn choice_text(candidate: ThemeCandidateView) -> Seq<char> {
    labelled(candidate.work_title, candidate.kind) + " (スコア "@ + decimal(candidate.score)
        + ")"@
}

/// A source as it is shown.
#[derive(Debug)]
pub struct SourceLine {
    pub title: String,
    pub url: String,
    pub query: String,
}

/// What a `SourceLine` holds.
#[verifier::ext_equal]
pub struct SourceLineView {
    pub title: Seq<char>,
    pub url: Seq<char>,
    pub query: Seq<char>,
}

impl View for SourceLine {
    type V = SourceLineView;

    open spec fn view(&self) -> SourceLineView {
        SourceLineView { title: self.title@, url: self.url@, query: self.query@ }
    }
}

/// What the lines of a list hold.
pub open spec fn line_views(lines: Seq<SourceLine>) -> Seq<SourceLineView> {
    Seq::new(lines.len(), |i: int| lines[i]@)
}

/// The sources of a candidate that are shown: the first three.
pub open spec fn shown_sources(sources: Seq<CandidateSourceView>) -> Seq<SourceLineView> {
    Seq::new(
        if sources.len() > 3 {
            3
        } else {
            sources.len()
        },
        |i: int|
            SourceLineView {
                title: sources[i].page_title,
                url: sources[i].source_url,
                query: "検索語: "@ + sources[i].matched_query,
            },
    )
}

/// What the lines of the lists of a list hold.
pub open spec fn line_list_views(lists: Seq<Vec<SourceLine>>) -> Seq<Seq<SourceLineView>> {
    Seq::new(lists.len(), |i: int| line_views(lists[i]@))
}

/// The candidates of a file as they are shown. Of the sources only those of the
/// candidate that is selected are, or of the one that the user picks instead.
#[derive(Debug)]
pub struct CandidatePanel {
    pub selected: usize,
    pub choices: Vec<String>,
    pub count: String,
    pub sources: Vec<Vec<SourceLine>>,
    pub can_save: bool,
}

/// What a `CandidatePanel` holds.
#[verifier::ext_equal]
pub struct CandidatePanelView {
    pub selected: nat,
    pub choices: Seq<Seq<char>>,
    pub count: Seq<char>,
    pub sources: Seq<Seq<SourceLineView>>,
    pub can_save: bool,
}

impl View for CandidatePanel {
    type V = CandidatePanelView;

    open spec fn view(&self) -> CandidatePanelView {
        CandidatePanelView {
            selected: self.selected as nat,
            choices: views(self.choices@),
            count: self.count@,
            sources: line_list_views(self.sources@),
            can_save: self.can_save,
        }
    }
}

/// A file as it is shown.
#[derive(Debug)]
pub struct EntryPanel {
    pub file_name: String,
    pub status: String,
    pub source_title: Option<String>,
    pub source_artist: Option<String>,
    pub search_queries: Option<String>,
    pub detail: String,
    pub candidates: Option<CandidatePanel>,
    pub comment: Option<String>,
}

/// What an `EntryPanel` holds.
#[verifier::ext_equal]
pub struct EntryPanelView {
    pub file_name: Seq<char>,
    pub status: Seq<char>,
    pub source_title: Option<Seq<char>>,
    pub source_artist: Option<Seq<char>>,
    pub search_queries: Option<Seq<char>>,
    pub detail: Seq<char>,
    pub candidates: Option<CandidatePanelView>,
    pub comment: Option<Seq<char>>,
}

impl View for EntryPanel {
    type V = EntryPanelView;

    open spec fn view(&self) -> EntryPanelView {
        EntryPanelView {
            file_name: self.file_name@,
            status: self.status@,
            source_title: optional_view(self.source_title),
            source_artist: optional_view(self.source_artist),
            search_queries: optional_view(self.search_queries),
            detail: self.detail@,
            candidates: match self.candidates {
                Some(panel) => Some(panel@),
                None => None,
            },
            comment: optional_view(self.comment),
        }
    }
}

/// The candidates of a file as they are shown, where it has any.
pub open spec fn shown_candidates(entry: EntryView) -> Option<CandidatePanelView> {
    if entry.candidates.len() == 0 {
        None
    } else {
        Some(
            CandidatePanelView {
                selected: entry.selected_candidate,
                choices: Seq::new(
                    entry.candidates.len(),
                    |i: int| choice_text(entry.candidates[i]),
                ),
                count: "候補数: "@ + decimal(entry.candidates.len()) + " 件"@,
                sources: Seq::new(
                    entry.candidates.len(),
                    |i: int| shown_sources(entry.candidates[i].sources),
                ),
                can_save: entry.status != ProcessStatus::Saving,
            },
        )
    }
}

/// A text under a heading, where there is one.
pub open spec fn headed(heading: Seq<char>, text: Option<Seq<char>>) -> Option<Seq<char>> {
    match text {
        Some(text) => Some(heading + text),
        None => None,
    }
}

/// A file as it is shown.
pub open spec fn shown_entry(entry: EntryView) -> EntryPanelView {
    EntryPanelView {
        file_name: entry.file_name,
        status: status_label(entry.status),
        source_title: if entry.source_title.len() > 0 {
            Some("参照タイトル: "@ + entry.source_title)
        } else {
            None
        },
        source_artist: headed("参照アーティスト: "@, entry.source_artist),
        search_queries: if entry.search_queries.len() > 0 {
            Some("検索候補: "@ + join_texts(entry.search_queries, " / "@))
        } else {
            None
        },
        detail: entry.detail,
        candidates: shown_candidates(entry),
        comment: headed("現在のコメント: "@, entry.comment),
    }
}

fn under_heading(heading: &str, text: &Option<String>) -> (out: Option<String>)
    ensures
        optional_view(out) == headed(heading@, optional_view(*text)),
{
    match text {
        Some(text) => Some(joined2(heading, text.as_str())),
        None => None,
    }
}

/// How a candidate is offered.
pub fn describe_choice(candidate: &ThemeCandidate) -> (text: String)
    ensures
        text@ == choice_text(candidate@),
{
    let label = candidate.formatted_label();
    let opened = joined2(label.as_str(), " (スコア ");
    let score = decimal_text(candidate.score as u64);
    let scored = joined2(opened.as_str(), score.as_str());
    joined2(scored.as_str(), ")")
}

fn describe_sources(sources: &Vec<CandidateSource>) -> (lines: Vec<SourceLine>)
    ensures
        line_views(lines@) == shown_sources(crate::lookup::source_views(sources@)),
{
    let ghost shown = shown_sources(crate::lookup::source_views(sources@));
    let mut lines: Vec<SourceLine> = Vec::new();
    let mut i: usize = 0;
    while i < sources.len() && i < 3
        invariant
            i <= shown.len(),
            shown == shown_sources(crate::lookup::source_views(sources@)),
            line_views(lines@) == shown.take(i as int),
        decreases sources@.len() - i,
    {
        let ghost before = line_views(lines@);
        let source = &sources[i];
        lines.push(
            SourceLine {
                title: source.page_title.clone(),
                url: source.source_url.clone(),
                query: joined2("検索語: ", source.matched_query.as_str()),
            },
        );
        assert(line_views(lines@) =~= before.push(shown[i as int]));
        assert(shown.take(i + 1) =~= before.push(shown[i as int]));
        i = i + 1;
    }
    assert(shown.take(shown.len() as int) =~= shown);
    lines
}

fn describe_candidates(entry: &FileEntry) -> (panel: Option<CandidatePanel>)
    ensures
        panel is Some <==> shown_candidates(entry@) is Some,
        panel matches Some(panel) ==> Some(panel@) == shown_candidates(entry@),
{
    if entry.candidates.len() == 0 {
        return None;
    }
    let ghost texts = Seq::new(
        entry@.candidates.len(),
        |i: int| choice_text(entry@.candidates[i]),
    );
    let ghost shown = Seq::new(
        entry@.candidates.len(),
        |i: int| shown_sources(entry@.candidates[i].sources),
    );
    let mut choices: Vec<String> = Vec::new();
    let mut sources: Vec<Vec<SourceLine>> = Vec::new();
    let mut i: usize = 0;
    while i < entry.candidates.len()
        invariant
            i <= entry.candidates@.len(),
            texts == Seq::new(
                entry@.candidates.len(),
                |k: int| choice_text(entry@.candidates[k]),
            ),
            shown == Seq::new(
                entry@.candidates.len(),
                |k: int| shown_sources(entry@.candidates[k].sources),
            ),
            views(choices@) == texts.take(i as int),
            line_list_views(sources@) == shown.take(i as int),
        decreases entry.candidates@.len() - i,
    {
        let ghost before = views(choices@);
        let ghost listed = line_list_views(sources@);
        let candidate = &entry.candidates[i];
        choices.push(describe_choice(candidate));
        sources.push(describe_sources(&candidate.sources));
        assert(views(choices@) =~= before.push(texts[i as int]));
        assert(texts.take(i + 1) =~= before.push(texts[i as int]));
        assert(line_list_views(sources@) =~= listed.push(shown[i as int]));
        assert(shown.take(i + 1) =~= listed.push(shown[i as int]));
        i = i + 1;
    }
    assert(texts.take(texts.len() as int) =~= texts);
    assert(shown.take(shown.len() as int) =~= shown);
    let number = decimal_text(entry.candidates.len() as u64);
    let counted = joined2("候補数: ", number.as_str());
    let panel = CandidatePanel {
        selected: entry.selected_candidate,
        choices,
        count: joined2(counted.as_str(), " 件"),
        sources,
        can_save: entry.status != ProcessStatus::Saving,
    };
    assert(panel@.choices =~= texts);
    assert(panel@.sources =~= shown);
    Some(panel)
}

/// A file as it is shown.
pub fn describe_entry(entry: &FileEntry) -> (panel: EntryPanel)
    ensures
        panel@ == shown_entry(entry@),
{
    let source_title = if entry.source_title.as_str().is_empty() {
        None
    } else {
        Some(joined2("参照タイトル: ", entry.source_title.as_str()))
    };
    let search_queries = if entry.search_queries.len() == 0 {
        None
    } else {
        let joined = join_strings(&entry.search_queries, " / ");
        Some(joined2("検索候補: ", joined.as_str()))
    };
    EntryPanel {
        file_name: entry.file_name.clone(),
        status: entry.status.label().to_string(),
        source_title,
        source_artist: under_heading("参照アーティスト: ", &entry.source_artist),
        search_queries,
        detail: entry.detail.clone(),
        candidates: describe_candidates(entry),
        comment: under_heading("現在のコメント: ", &entry.comment),
    }
}

impl ContentRenamerApp {
    /// The file at `at` as it is shown. A selection that is none of its
    /// candidates becomes the first one.
    pub fn show_entry(&mut self, at: usize) -> (panel: Option<EntryPanel>)
        requires
            old(self).well_formed(),
        ensures
            final(self).well_formed(),
            in_order(final(self)@),
            panel is Some <==> at < old(self)@.entries.len(),
            panel matches Some(panel) ==> panel@ == shown_entry(
                with_valid_selection(old(self)@.entries[at as int]),
            ),
            final(self)@.next_id == old(self)@.next_id,
            final(self)@.entries == if at < old(self)@.entries.len() {
                old(self)@.entries.update(
                    at as int,
                    with_valid_selection(old(self)@.entries[at as int]),
                )
            } else {
                old(self)@.entries
            },
    {
        let ghost before = self@;
        if at >= self.entries.len() {
            return None;
        }
        if self.entries[at].candidates.len() > 0 && self.entries[at].selected_candidate
            >= self.entries[at].candidates.len() {
            self.entries[at].selected_candidate = 0;
        }
        proof {
            let shown = with_valid_selection(before.entries[at as int]);
            assert(self.entries@[at as int]@ == shown);
            assert(self@.entries =~= before.entries.update(at as int, shown));
            assert forall|i: int, j: int| 0 <= i < j < self@.entries.len() implies (
            #[trigger] self@.entries[i]).id != (#[trigger] self@.entries[j]).id
                && !is_same_path(self@.entries[i].path, self@.entries[j].path) by {
                assert(before.entries[i].id != before.entries[j].id);
            }
            assert forall|i: int| 0 <= i < self@.entries.len() implies (
            #[trigger] self@.entries[i]).id < self@.next_id by {
                assert(before.entries[i].id < before.next_id);
            }
        }
        Some(describe_entry(&self.entries[at]))
    }
}

// ---------------------------------------------------------------------------
// Showing all files
// ---------------------------------------------------------------------------

/// The files after all of them were shown.
pub open spec fn with_valid_selections(app: AppView) -> AppView {
    AppView {
        entries: Seq::new(app.entries.len(), |i: int| with_valid_selection(app.entries[i])),
        ..app
    }
}

/// What the panels of a list hold.
pub open spec fn panel_views(panels: Seq<EntryPanel>) -> Seq<EntryPanelView> {
    Seq::new(panels.len(), |i: int| panels[i]@)
}

/// What a user did with a file that was shown.
#[derive(Debug, Clone, Copy, PartialEq, Eq, Structural)]
pub struct EntryChoice {
    /// The candidate that was picked, if one was.
    pub selected: Option<usize>,
    /// Whether the candidate is to be saved.
    pub save: bool,
}

/// What a user did with the file at `at`; nothing, where the list is too short.
pub open spec fn choice_at(choices: Seq<EntryChoice>, at: int) -> EntryChoice {
    if 0 <= at < choices.len() {
        choices[at]
    } else {
        EntryChoice { selected: None, save: false }
    }
}

/// A file after it was shown and the user picked one of its candidates, or none.
pub open spec fn picked(entry: EntryView, choice: EntryChoice) -> EntryView {
    match choice.selected {
        Some(index) if index < entry.candidates.len() => EntryView {
            selected_candidate: index as nat,
            ..entry
        },
        _ => with_valid_selection(entry),
    }
}

/// Whether a user can ask for a file to be saved, and did.
pub open spec fn asks_save(entry: EntryView, choice: EntryChoice) -> bool {
    choice.save && entry.candidates.len() > 0 && entry.status != ProcessStatus::Saving
}

/// The last of the first `count` files that a user asked to be saved.
pub open spec fn last_save(
    entries: Seq<EntryView>,
    choices: Seq<EntryChoice>,
    count: nat,
) -> Option<int>
    decreases count,
{
    if count == 0 {
        None
    } else if asks_save(entries[count - 1], choice_at(choices, count - 1)) {
        Some(count - 1)
    } else {
        last_save(entries, choices, (count - 1) as nat)
    }
}

/// The file that is saved after all were shown.
pub open spec fn file_to_save(app: AppView, choices: Seq<EntryChoice>) -> Option<int> {
    last_save(app.entries, choices, app.entries.len())
}

/// The files after all of them were shown and the user picked candidates.
pub open spec fn after_picks(app: AppView, choices: Seq<EntryChoice>) -> AppView {
    AppView {
        entries: Seq::new(
            app.entries.len(),
            |i: int| picked(app.entries[i], choice_at(choices, i)),
        ),
        ..app
    }
}

/// The files after all of them were shown, the user picked candidates, and one
/// of the files began to be saved, if any was to be.
pub open spec fn after_choices(app: AppView, choices: Seq<EntryChoice>) -> AppView {
    match file_to_save(app, choices) {
        Some(at) => with_entry(after_picks(app, choices), app.entries[at].id, saving()),
        None => after_picks(app, choices),
    }
}

proof fn lemma_last_save(entries: Seq<EntryView>, choices: Seq<EntryChoice>, count: nat)
    requires
        count <= entries.len(),
    ensures
        last_save(entries, choices, count) matches Some(at) ==> 0 <= at < count && asks_save(
            entries[at],
            choice_at(choices, at),
        ),
    decreases count,
{
    if count > 0 {
        lemma_last_save(entries, choices, (count - 1) as nat);
    }
}

/// Files stay in order when they are shown and candidates are picked.
proof fn lemma_picks_stay_in_order(app: AppView, choices: Seq<EntryChoice>)
    requires
        in_order(app),
    ensures
        in_order(after_picks(app, choices)),
{
    let after = after_picks(app, choices);
    assert forall|i: int, j: int| 0 <= i < j < after.entries.len() implies (
    #[trigger] after.entries[i]).id != (#[trigger] after.entries[j]).id && !is_same_path(
        after.entries[i].path,
        after.entries[j].path,
    ) by {
        assert(app.entries[i].id != app.entries[j].id);
    }
    assert forall|i: int| 0 <= i < after.entries.len() implies (#[trigger] after.entries[i]).id
        < after.next_id by {
        assert(app.entries[i].id < app.next_id);
    }
}

/// After all files were shown, with whatever the user did, each has one of its
/// candidates selected, where it has any: the one that was picked, else the one
/// that was selected, or the first where that was none of them. One file at most
/// begins to be saved, which was not being saved before. Nothing else changes:
/// not the ids, paths, candidates and comments, nor the status of any other file.
pub proof fn law_showing_files(app: AppView, choices: Seq<EntryChoice>, at: int)
    requires
        in_order(app),
        0 <= at < app.entries.len(),
    ensures
        in_order(after_choices(app, choices)),
        after_choices(app, choices).entries.len() == app.entries.len(),
        ({
            let before = app.entries[at];
            let after = after_choices(app, choices).entries[at];
            &&& after.candidates.len() > 0 ==> after.selected_candidate < after.candidates.len()
            &&& after.selected_candidate == picked(
                before,
                choice_at(choices, at),
            ).selected_candidate
            &&& if file_to_save(app, choices) == Some(at) {
                &&& before.status != ProcessStatus::Saving
                &&& after.status == ProcessStatus::Saving
            } else {
                after.status == before.status && after.detail == before.detail
            }
            &&& after == (EntryView {
                selected_candidate: after.selected_candidate,
                status: after.status,
                detail: after.detail,
                ..before
            })
        }),
{
    let middle = after_picks(app, choices);
    lemma_picks_stay_in_order(app, choices);
    lemma_last_save(app.entries, choices, app.entries.len());
    if let Some(saved_at) = file_to_save(app, choices) {
        law_files_stay_in_order_with_changes(middle, app.entries[saved_at].id, saving());
        if saved_at < at {
            assert(app.entries[saved_at].id != app.entries[at].id);
        } else if at < saved_at {
            assert(app.entries[at].id != app.entries[saved_at].id);
        }
    }
}

/// Without picks and saves, showing the files only makes their selections valid.
pub proof fn law_showing_files_alone(app: AppView)
    ensures
        after_choices(app, Seq::empty()) == with_valid_selections(app),
{
    lemma_no_save(app.entries, app.entries.len());
    assert(after_choices(app, Seq::empty()).entries =~= with_valid_selections(app).entries);
}

proof fn lemma_no_save(entries: Seq<EntryView>, count: nat)
    ensures
        last_save(entries, Seq::empty(), count) is None,
    decreases count,
{
    if count > 0 {
        lemma_no_save(entries, (count - 1) as nat);
    }
}

impl ContentRenamerApp {
    /// All files as they are shown. A selection that is none of the candidates of
    /// its file becomes the first one.
    pub fn show_entries(&mut self) -> (panels: Vec<EntryPanel>)
        requires
            old(self).well_formed(),
        ensures
            final(self).well_formed(),
            in_order(final(self)@),
            final(self)@ == with_valid_selections(old(self)@),
            panel_views(panels@) == Seq::new(
                old(self)@.entries.len(),
                |i: int| shown_entry(with_valid_selection(old(self)@.entries[i])),
            ),
    {
        let ghost before = self@;
        let mut panels: Vec<EntryPanel> = Vec::new();
        let mut at: usize = 0;
        while at < self.entries.len()
            invariant
                at <= self@.entries.len(),
                self@.entries.len() == before.entries.len(),
                self@.next_id == before.next_id,
                self.well_formed(),
                panels@.len() == at,
                forall|i: int|
                    0 <= i < at ==> (#[trigger] self@.entries[i]) == with_valid_selection(
                        before.entries[i],
                    ),
                forall|i: int|
                    at <= i < before.entries.len() ==> (#[trigger] self@.entries[i])
                        == before.entries[i],
                forall|i: int|
                    0 <= i < at ==> (#[trigger] panels@[i])@ == shown_entry(
                        with_valid_selection(before.entries[i]),
                    ),
            decreases self@.entries.len() - at,
        {
            let ghost shown = self@.entries[at as int];
            assert(shown == before.entries[at as int]);
            match self.show_entry(at) {
                Some(panel) => panels.push(panel),
                None => {
                    assert(false);
                },
            }
            at = at + 1;
        }
        assert(self@.entries =~= with_valid_selections(before).entries);
        assert(panel_views(panels@) =~= Seq::new(
            before.entries.len(),
            |i: int| shown_entry(with_valid_selection(before.entries[i])),
        ));
        panels
    }

    fn pick_all(&mut self, choices: &Vec<EntryChoice>)
        requires
            old(self).well_formed(),
        ensures
            final(self)@ == after_picks(old(self)@, choices@),
            final(self).well_formed(),
    {
        let ghost before = self@;
        let total: usize = self.entries.len();
        let mut at: usize = 0;
        while at < total
            invariant
                at <= total,
                total == self.entries@.len(),
                self.entries@.len() == before.entries.len(),
                self.next_id == before.next_id,
                forall|i: int|
                    0 <= i < at ==> (#[trigger] self.entries@[i])@ == picked(
                        before.entries[i],
                        choice_at(choices@, i),
                    ),
                forall|i: int|
                    at <= i < before.entries.len() ==> (#[trigger] self.entries@[i])@
                        == before.entries[i],
            decreases total - at,
        {
            assert(self.entries@[at as int]@ == before.entries[at as int]);
            let count = self.entries[at].candidates.len();
            let mut selected = self.entries[at].selected_candidate;
            if count > 0 && selected >= count {
                selected = 0;
            }
            if at < choices.len() {
                match choices[at].selected {
                    Some(index) => {
                        if index < count {
                            selected = index;
                        }
                    },
                    None => {},
                }
            }
            self.entries[at].selected_candidate = selected;
            assert(self.entries@[at as int]@ == picked(
                before.entries[at as int],
                choice_at(choices@, at as int),
            ));
            at = at + 1;
        }
        assert(self@.entries =~= after_picks(before, choices@).entries);
        proof {
            lemma_picks_stay_in_order(before, choices@);
        }
    }

    fn find_save(&self, choices: &Vec<EntryChoice>) -> (found: Option<usize>)
        ensures
            match found {
                Some(at) => file_to_save(self@, choices@) == Some(at as int),
                None => file_to_save(self@, choices@) is None,
            },
    {
        let mut found: Option<usize> = None;
        let mut at: usize = 0;
        while at < self.entries.len()
            invariant
                at <= self.entries@.len(),
                match found {
                    Some(k) => last_save(self@.entries, choices@, at as nat) == Some(k as int),
                    None => last_save(self@.entries, choices@, at as nat) is None,
                },
            decreases self.entries@.len() - at,
        {
            let entry = &self.entries[at];
            assert(self@.entries[at as int] == entry@);
            if at < choices.len() && choices[at].save && entry.candidates.len() > 0
                && entry.status != ProcessStatus::Saving {
                found = Some(at);
            }
            at = at + 1;
        }
        found
    }

    /// Takes note of what the user did with the files that were shown, and says
    /// what is to be saved. Of several files to save the last one is.
    pub fn apply_choices(&mut self, choices: &Vec<EntryChoice>) -> (request: Option<SaveRequest>)
        requires
            old(self).well_formed(),
        ensures
            final(self).well_formed(),
            in_order(final(self)@),
            final(self)@ == after_choices(old(self)@, choices@),
            request is Some <==> file_to_save(old(self)@, choices@) is Some,
            request matches Some(request) ==> {
                let at = file_to_save(old(self)@, choices@).unwrap();
                let entry = old(self)@.entries[at];
                &&& request.id == entry.id
                &&& request.path@ == entry.path
                &&& Some(request.value@) == selected_value(picked(entry, choice_at(choices@, at)))
            },
    {
        let ghost before = self@;
        proof {
            lemma_last_save(before.entries, choices@, before.entries.len());
        }
        let found = self.find_save(choices);
        self.pick_all(choices);
        match found {
            Some(at) => {
                assert(self.entries@.len() == self@.entries.len());
                let id = self.entries[at].id;
                let ghost middle = self@;
                let ghost entry = middle.entries[at as int];
                assert(entry == picked(before.entries[at as int], choice_at(choices@, at as int)));
                assert(entry.id == id && selected_value(entry) is Some);
                let request = self.start_save(id);
                proof {
                    assert forall|i: int|
                        0 <= i < middle.entries.len() && (#[trigger] middle.entries[i]).id
                            == id implies i == at by {
                        if i < at {
                            assert(middle.entries[i].id != middle.entries[at as int].id);
                        } else if at < i {
                            assert(middle.entries[at as int].id != middle.entries[i].id);
                        }
                    }
                }
                request
            },
            None => None,
        }
    }
}

// ---------------------------------------------------------------------------
// Laws of files and what is shown of them
// ---------------------------------------------------------------------------

/// A file that is added comes last, under the next id, and leaves the others. It is
/// searched for where its tags give something to search for, and is else in error; it has
/// no candidates and no comment yet.
pub proof fn law_new_files(
    app: AppView,
    path: Seq<char>,
    file_name: Seq<char>,
    input: Result<SearchInput, SourceError>,
)
    requires
        app.next_id < u64::MAX,
    ensures
        ({
            let after = with_file(app, false, path, file_name, input);
            let added = after.entries.last();
            &&& after.entries.len() == app.entries.len() + 1
            &&& after.entries.drop_last() == app.entries
            &&& after.next_id == app.next_id + 1
            &&& added.id == app.next_id
            &&& added.path == path
            &&& added.file_name == file_name
            &&& added.candidates.len() == 0
            &&& added.selected_candidate == 0
            &&& added.comment is None
            &&& input matches Ok(input) ==> {
                &&& added.status is Searching
                &&& added.source_title == input@.source_title
                &&& added.source_artist == input@.source_artist
                &&& added.search_queries == input@.search_queries
                &&& added.detail
                    == "タイトルタグをもとに AnimeThemes から関連候補を検索しています"@
            }
            &&& input matches Err(error) ==> {
                &&& added.status is Error
                &&& added.source_title.len() == 0
                &&& added.source_artist is None
                &&& added.search_queries.len() == 0
                &&& added.detail == "検索元にするタイトルタグを読めませんでした: "@
                    + crate::file_name::source_error_message(error@)
            }
        }),
        with_file(app, true, path, file_name, input) == app,
{
    let after = with_file(app, false, path, file_name, input);
    assert(after.entries.drop_last() =~= app.entries);
}

/// The result of a search is that of its file from then on: its status, its candidates
/// with the first of them selected, and its comment. Nothing else of the file changes.
pub proof fn law_search_results_are_taken(app: AppView, result: SearchResultView, at: int)
    requires
        0 <= at < app.entries.len(),
        app.entries[at].id == result.id,
    ensures
        ({
            let before = app.entries[at];
            let after = after_event(app, WorkerEventView::SearchCompleted(result)).entries[at];
            &&& after.status == result.status
            &&& after.detail == result.detail
            &&& after.candidates == result.candidates
            &&& after.comment == result.comment
            &&& after.selected_candidate == 0
            &&& after.id == before.id && after.path == before.path && after.file_name
                == before.file_name
            &&& after.source_title == before.source_title && after.source_artist
                == before.source_artist && after.search_queries == before.search_queries
        }),
        after_event(app, WorkerEventView::SearchCompleted(result)).next_id == app.next_id,
{
}

/// The result of a save is that of its file from then on: its status and its comment. The
/// first candidate that is written as what was saved is selected, if there is one. Nothing
/// else of the file changes.
pub proof fn law_save_results_are_taken(
    app: AppView,
    result: SaveResultView,
    at: int,
    selected: int,
)
    requires
        0 <= at < app.entries.len(),
        app.entries[at].id == result.id,
    ensures
        ({
            let before = app.entries[at];
            let after = after_event(app, WorkerEventView::SaveCompleted(result)).entries[at];
            &&& after.status == result.status
            &&& after.detail == result.detail
            &&& after.comment == result.comment
            &&& after.candidates == before.candidates
            &&& after.id == before.id && after.path == before.path && after.file_name
                == before.file_name
            &&& after.source_title == before.source_title && after.source_artist
                == before.source_artist && after.search_queries == before.search_queries
            &&& result.saved_candidate_value is None ==> after.selected_candidate
                == before.selected_candidate
            &&& result.saved_candidate_value matches Some(value) ==> {
                &&& (forall|i: int|
                    0 <= i < before.candidates.len() ==> labelled(
                        (#[trigger] before.candidates[i]).work_title,
                        before.candidates[i].kind,
                    ) != value) ==> after.selected_candidate == before.selected_candidate
                &&& 0 <= selected < before.candidates.len() && labelled(
                    before.candidates[selected].work_title,
                    before.candidates[selected].kind,
                ) == value && (forall|i: int|
                    0 <= i < selected ==> labelled(
                        (#[trigger] before.candidates[i]).work_title,
                        before.candidates[i].kind,
                    ) != value) ==> after.selected_candidate == selected
            }
        }),
        after_event(app, WorkerEventView::SaveCompleted(result)).next_id == app.next_id,
{
    let before = app.entries[at];
    let list = before.candidates;
    if let Some(value) = result.saved_candidate_value {
        if has_labelled(list, value) {
            let first = first_labelled(list, value);
            assert(is_first_labelled(list, value, first));
            if 0 <= selected < list.len() && labelled(
                list[selected].work_title,
                list[selected].kind,
            ) == value {
                if first < selected {
                    assert(labelled(list[first].work_title, list[first].kind) == value);
                } else if selected < first {
                    assert(labelled(list[selected].work_title, list[selected].kind) != value);
                }
            }
        } else if 0 <= selected < list.len() && labelled(
            list[selected].work_title,
            list[selected].kind,
        ) == value && (forall|i: int|
            0 <= i < selected ==> labelled((#[trigger] list[i]).work_title, list[i].kind)
                != value) {
            assert(is_first_labelled(list, value, selected));
        }
    }
}

/// A file with a candidate selected begins to be saved: its status and what is said of it
/// change, and nothing else. What is saved is how the candidate is written.
pub proof fn law_saving_a_file(entry: EntryView)
    ensures
        entry.selected_candidate < entry.candidates.len() ==> {
            let selected = entry.candidates[entry.selected_candidate as int];
            let value = labelled(selected.work_title, selected.kind);
            &&& selected_value(entry) == Some(value)
            &&& saving()(entry) == (EntryView {
                status: ProcessStatus::Saving,
                detail: "「"@ + value + "」をコメントへ保存しています"@,
                ..entry
            })
        },
        entry.selected_candidate >= entry.candidates.len() ==> selected_value(entry) is None
            && saving()(entry) == entry,
{
}

/// A selection that is one of the candidates stays, and one that is none of them becomes
/// the first; nothing else changes.
pub proof fn law_selections_become_valid(entry: EntryView)
    ensures
        entry.selected_candidate < entry.candidates.len() || entry.candidates.len() == 0
            ==> with_valid_selection(entry) == entry,
        entry.candidates.len() > 0 && entry.selected_candidate >= entry.candidates.len()
            ==> with_valid_selection(entry) == (EntryView { selected_candidate: 0, ..entry }),
{
}

/// A pick among the candidates is selected; another one, or none, leaves the selection as
/// valid as it is shown.
pub proof fn law_picks(entry: EntryView, index: usize, save: bool)
    ensures
        index < entry.candidates.len() ==> picked(
            entry,
            EntryChoice { selected: Some(index), save },
        ) == (EntryView { selected_candidate: index as nat, ..entry }),
        index >= entry.candidates.len() ==> picked(
            entry,
            EntryChoice { selected: Some(index), save },
        ) == with_valid_selection(entry),
        picked(entry, EntryChoice { selected: None, save }) == with_valid_selection(entry),
{
}

/// A file is saved where the user asks for it, it has candidates, and it is not being
/// saved already; of several such files the last one is.
pub proof fn law_which_file_is_saved(app: AppView, choices: Seq<EntryChoice>, at: int)
    requires
        0 <= at < app.entries.len(),
        at < choices.len(),
        choices[at].save,
        app.entries[at].candidates.len() > 0,
        !(app.entries[at].status is Saving),
    ensures
        file_to_save(app, choices) matches Some(saved) && at <= saved < app.entries.len(),
        (forall|i: int|
            at < i < app.entries.len() && i < choices.len() ==> !(#[trigger] choices[i]).save)
            ==> file_to_save(app, choices) == Some(at),
{
    lemma_last_save_behind(app.entries, choices, app.entries.len(), at);
}

proof fn lemma_last_save_behind(
    entries: Seq<EntryView>,
    choices: Seq<EntryChoice>,
    count: nat,
    at: int,
)
    requires
        0 <= at < count <= entries.len(),
        asks_save(entries[at], choice_at(choices, at)),
    ensures
        last_save(entries, choices, count) matches Some(saved) && at <= saved < count,
        (forall|i: int| at < i < count && i < choices.len() ==> !(#[trigger] choices[i]).save)
            ==> last_save(entries, choices, count) == Some(at),
    decreases count,
{
    if at < count - 1 {
        lemma_last_save_behind(entries, choices, (count - 1) as nat, at);
        if forall|i: int| at < i < count && i < choices.len() ==> !(#[trigger] choices[i]).save {
            if count - 1 < choices.len() {
                assert(!choices[count - 1].save);
            }
        }
    }
}

/// No file is saved that the user did not ask for, that has no candidates, or that is
/// being saved already.
pub proof fn law_no_other_file_is_saved(app: AppView, choices: Seq<EntryChoice>)
    ensures
        file_to_save(app, choices) matches Some(at) ==> {
            &&& 0 <= at < app.entries.len()
            &&& at < choices.len() && choices[at].save
            &&& app.entries[at].candidates.len() > 0
            &&& !(app.entries[at].status is Saving)
        },
{
    lemma_last_save(app.entries, choices, app.entries.len());
}

/// What is shown of a file: its name, its status, its title, artist and queries where it
/// has them, what is said of it, its candidates where it has any, and its comment where it
/// has one.
pub proof fn law_shown_files(entry: EntryView)
    ensures
        ({
            let shown = shown_entry(entry);
            &&& shown.file_name == entry.file_name
            &&& shown.detail == entry.detail
            &&& shown.status == match entry.status {
                ProcessStatus::Searching => "検索中"@,
                ProcessStatus::Ready => "候補あり"@,
                ProcessStatus::Saving => "保存中"@,
                ProcessStatus::Saved => "保存済み"@,
                ProcessStatus::Skipped => "候補なし"@,
                ProcessStatus::Error => "エラー"@,
            }
            &&& entry.source_title.len() == 0 ==> shown.source_title is None
            &&& entry.source_title.len() > 0 ==> shown.source_title == Some(
                "参照タイトル: "@ + entry.source_title,
            )
            &&& entry.source_artist is None ==> shown.source_artist is None
            &&& entry.source_artist matches Some(artist) ==> shown.source_artist == Some(
                "参照アーティスト: "@ + artist,
            )
            &&& entry.search_queries.len() == 0 ==> shown.search_queries is None
            &&& entry.search_queries.len() > 0 ==> shown.search_queries == Some(
                "検索候補: "@ + join_texts(entry.search_queries, " / "@),
            )
            &&& entry.comment is None ==> shown.comment is None
            &&& entry.comment matches Some(comment) ==> shown.comment == Some(
                "現在のコメント: "@ + comment,
            )
            &&& shown.candidates is Some <==> entry.candidates.len() > 0
        }),
{
}

/// What is shown of the candidates of a file: each as it is written, with its score, and
/// its first three sources; how many there are; which one is selected; and whether it can
/// be saved, which it can unless the file is being saved.
pub proof fn law_shown_candidates(entry: EntryView, at: int, source: int)
    requires
        0 <= at < entry.candidates.len(),
    ensures
        shown_entry(entry).candidates matches Some(panel) && {
            let candidate = entry.candidates[at];
            &&& panel.selected == entry.selected_candidate
            &&& panel.choices.len() == entry.candidates.len()
            &&& panel.choices[at] == labelled(candidate.work_title, candidate.kind) + " (スコア "@
                + decimal(candidate.score) + ")"@
            &&& panel.count == "候補数: "@ + decimal(entry.candidates.len()) + " 件"@
            &&& panel.can_save <==> !(entry.status is Saving)
            &&& panel.sources.len() == entry.candidates.len()
            &&& panel.sources[at].len() == if candidate.sources.len() < 3 {
                candidate.sources.len()
            } else {
                3
            }
            &&& 0 <= source < panel.sources[at].len() ==> panel.sources[at][source].title
                == candidate.sources[source].page_title && panel.sources[at][source].url
                == candidate.sources[source].source_url && panel.sources[at][source].query
                == "検索語: "@ + candidate.sources[source].matched_query
        },
{
}

/// A file holds what its fields hold.
pub proof fn law_files_hold_their_fields(entry: FileEntry)
    ensures
        entry@.id == entry.id && entry@.path == entry.path@ && entry@.file_name == entry.file_name@
            && entry@.source_title == entry.source_title@ && entry@.status == entry.status
            && entry@.detail == entry.detail@ && entry@.candidates == candidate_views(
            entry.candidates@,
        ) && entry@.selected_candidate == entry.selected_candidate,
        entry.source_artist matches Some(artist) ==> entry@.source_artist == Some(artist@),
        entry.source_artist is None ==> entry@.source_artist is None,
        entry.comment matches Some(comment) ==> entry@.comment == Some(comment@),
        entry.comment is None ==> entry@.comment is None,
        entry@.search_queries.len() == entry.search_queries@.len(),
        forall|i: int|
            0 <= i < entry.search_queries@.len() ==> #[trigger] entry@.search_queries[i]
                == entry.search_queries@[i]@,
{
}

/// What is shown of a file holds what its fields hold.
pub proof fn law_panels_hold_their_fields(panel: EntryPanel, list: CandidatePanel, at: int, k: int)
    ensures
        panel@.file_name == panel.file_name@ && panel@.status == panel.status@ && panel@.detail
            == panel.detail@,
        panel.source_title matches Some(title) ==> panel@.source_title == Some(title@),
        panel.source_title is None ==> panel@.source_title is None,
        panel.source_artist matches Some(artist) ==> panel@.source_artist == Some(artist@),
        panel.source_artist is None ==> panel@.source_artist is None,
        panel.search_queries matches Some(queries) ==> panel@.search_queries == Some(queries@),
        panel.search_queries is None ==> panel@.search_queries is None,
        panel.comment matches Some(comment) ==> panel@.comment == Some(comment@),
        panel.comment is None ==> panel@.comment is None,
        panel.candidates matches Some(shown) ==> panel@.candidates == Some(shown@),
        panel.candidates is None ==> panel@.candidates is None,
        list@.selected == list.selected && list@.count == list.count@ && list@.can_save
            == list.can_save,
        list@.choices.len() == list.choices@.len(),
        0 <= at < list.choices@.len() ==> list@.choices[at] == list.choices@[at]@,
        list@.sources.len() == list.sources@.len(),
        0 <= at < list.sources@.len() ==> list@.sources[at].len() == list.sources@[at]@.len(),
        0 <= at < list.sources@.len() && 0 <= k < list.sources@[at]@.len() ==> {
            let line = list.sources@[at]@[k];
            &&& list@.sources[at][k].title == line.title@
            &&& list@.sources[at][k].url == line.url@
            &&& list@.sources[at][k].query == line.query@
        },
{
}

/// A candidate that is selected is selected in its file, and nothing else changes.
pub proof fn law_selecting_a_candidate(app: AppView, id: u64, index: nat, at: int)
    requires
        0 <= at < app.entries.len(),
    ensures
        ({
            let before = app.entries[at];
            let after = with_entry(app, id, selecting(index));
            &&& after.next_id == app.next_id
            &&& after.entries.len() == app.entries.len()
            &&& before.id == id ==> after.entries[at] == (EntryView {
                selected_candidate: index,
                ..before
            })
            &&& before.id != id ==> after.entries[at] == before
        }),
{
}

} // verus!

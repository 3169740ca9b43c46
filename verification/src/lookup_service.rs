//! The search for candidates, request by request.

use std::collections::HashMap;

use vstd::prelude::*;

use crate::candidates::{
    candidate_keys, checked_build_candidates, count_candidates, keyed_by_id,
    law_walk_order_does_not_matter_for_fit, lists_candidates, scores_fit, theme_uses,
};
use crate::file_name::{SearchInput, SearchInputView};
use crate::lookup::{
    build_exact_queries, build_fuzzy_queries, candidate_views, exact_queries, fuzzy_queries,
    hit_views, prefer_artist_matches, preferred_songs, query_views, song_views, ExactQuery,
    ExactQueryView, SearchSongHit, SearchSongHitView, SongRecord, SongView, ThemeCandidate,
    ThemeCandidateView, DESIRED_CANDIDATE_COUNT, MAX_EXACT_QUERIES, MAX_FUZZY_DETAIL_REQUESTS,
    MAX_FUZZY_QUERIES,
};
use crate::order::walks;
use crate::requests::{LookupRequest, LookupRequestView};
use crate::songs::{
    accumulated_views, borrowed, checked_merge_fuzzy_song, counted_hits, detail_points,
    found_score, hit_list_views, hits_keyed_by_id, law_ranked_hits, lemma_hits_stay_finite,
    lemma_ranked_hits_list, match_views, merge_exact_songs, merge_hits, rank_hits, ranked_hits,
    with_exact_songs, with_found_song, with_hit_list, HitView, SearchSongHitAccumulator, SongMatch,
    SongMatchView,
};
use crate::text::{optional_view, views};

verus! {

broadcast use vstd::std_specs::hash::group_hash_axioms;

// ---------------------------------------------------------------------------
// The course of a search
// ---------------------------------------------------------------------------

/// Where a search stands.
#[derive(Debug, Clone, Copy, PartialEq, Eq, Structural)]
pub enum LookupStage {
    /// The exact query with this index is to be made.
    Exact(usize),
    /// The fuzzy query with this index is to be made.
    Fuzzy(usize),
    /// The songs that fuzzy queries found are to be looked at.
    Detail,
    /// All is found.
    Done,
    /// A score did not fit.
    Overflow,
}

/// A search.
#[verifier::ext_equal]
pub struct LookupView {
    pub input: SearchInputView,
    pub songs: Map<u64, SongMatchView>,
    pub hits: Map<u64, HitView>,
    pub pending: Seq<HitView>,
    pub stage: LookupStage,
}

/// How many exact queries are made for a file.
pub open spec fn exact_budget(input: SearchInputView) -> nat {
    if exact_queries(input).len() < MAX_EXACT_QUERIES {
        exact_queries(input).len()
    } else {
        MAX_EXACT_QUERIES as nat
    }
}

/// How many fuzzy queries are made for a file.
pub open spec fn fuzzy_budget(input: SearchInputView) -> nat {
    if fuzzy_queries(input.search_queries).len() < MAX_FUZZY_QUERIES {
        fuzzy_queries(input.search_queries).len()
    } else {
        MAX_FUZZY_QUERIES as nat
    }
}

/// The hits that are looked at in detail: the first ones.
pub open spec fn detailed_hits(ranked: Seq<HitView>) -> Seq<HitView> {
    if ranked.len() > MAX_FUZZY_DETAIL_REQUESTS {
        ranked.take(MAX_FUZZY_DETAIL_REQUESTS as int)
    } else {
        ranked
    }
}

/// A search with hits that are still to be looked at.
pub open spec fn at_detail(search: LookupView, pending: Seq<HitView>) -> LookupView {
    LookupView {
        pending,
        stage: if pending.len() > 0 {
            LookupStage::Detail
        } else {
            LookupStage::Done
        },
        ..search
    }
}

/// A search at the fuzzy query with an index, or past the last one.
pub open spec fn at_fuzzy(search: LookupView, index: nat) -> LookupView {
    if index < fuzzy_budget(search.input) {
        LookupView { stage: LookupStage::Fuzzy(index as usize), ..search }
    } else {
        at_detail(
            LookupView { hits: Map::empty(), ..search },
            detailed_hits(ranked_hits(search.hits)),
        )
    }
}

/// A search at the exact query with an index, or past the last one: fuzzy
/// queries are made only where exact ones found nothing.
pub open spec fn at_exact(search: LookupView, index: nat) -> LookupView {
    if index < exact_budget(search.input) {
        LookupView { stage: LookupStage::Exact(index as usize), ..search }
    } else if search.songs.is_empty() {
        at_fuzzy(search, 0)
    } else {
        LookupView { stage: LookupStage::Done, ..search }
    }
}

/// A search in which a score did not fit.
pub open spec fn overflowed(search: LookupView) -> LookupView {
    LookupView {
        songs: Map::empty(),
        hits: Map::empty(),
        pending: Seq::empty(),
        stage: LookupStage::Overflow,
        ..search
    }
}

/// A search for a file at its start.
pub open spec fn opened(input: SearchInputView) -> LookupView {
    at_exact(
        LookupView {
            input,
            songs: Map::empty(),
            hits: Map::empty(),
            pending: Seq::empty(),
            stage: LookupStage::Exact(0),
        },
        0,
    )
}

/// What a search asks next.
pub open spec fn next_request(search: LookupView) -> Option<LookupRequestView> {
    match search.stage {
        LookupStage::Exact(index) => Some(
            LookupRequestView::SongsByTitle(exact_queries(search.input)[index as int].title),
        ),
        LookupStage::Fuzzy(index) => Some(
            LookupRequestView::SongSearch(
                fuzzy_queries(search.input.search_queries)[index as int],
            ),
        ),
        LookupStage::Detail => Some(LookupRequestView::SongDetail(search.pending[0].id)),
        LookupStage::Done => None,
        LookupStage::Overflow => None,
    }
}

/// A search after an exact query found songs: those by the artist of the query
/// count, or all where none is. With enough candidates the search is done.
pub open spec fn after_exact(search: LookupView, index: usize, songs: Seq<SongView>) -> LookupView {
    let query = exact_queries(search.input)[index as int];
    match with_exact_songs(
        search.songs,
        preferred_songs(songs, query.artist),
        query,
        index as nat,
        search.input,
    ) {
        Some(found) => {
            let merged = LookupView { songs: found, ..search };
            if candidate_keys(found).len() >= DESIRED_CANDIDATE_COUNT {
                LookupView { stage: LookupStage::Done, ..merged }
            } else {
                at_exact(merged, index as nat + 1)
            }
        },
        None => overflowed(search),
    }
}

/// A search after a fuzzy query found songs.
pub open spec fn after_fuzzy(
    search: LookupView,
    index: usize,
    hits: Seq<SearchSongHitView>,
) -> LookupView {
    let query = fuzzy_queries(search.input.search_queries)[index as int];
    match with_hit_list(search.hits, counted_hits(hits), query, index as nat) {
        Some(merged) => at_fuzzy(LookupView { hits: merged, ..search }, index as nat + 1),
        None => overflowed(search),
    }
}

/// A search after a song was looked at in detail.
pub open spec fn after_detail(search: LookupView, song: SongView) -> LookupView {
    let hit = search.pending[0];
    let points = detail_points(song, hit.score, search.input);
    if found_score(search.songs, song.id) + points <= usize::MAX {
        at_detail(
            LookupView {
                songs: with_found_song(search.songs, song, points, hit.matched_queries),
                ..search
            },
            search.pending.drop_first(),
        )
    } else {
        overflowed(search)
    }
}

/// What AnimeThemes answered.
#[derive(Debug)]
pub enum LookupReply {
    Songs(Vec<SongRecord>),
    Hits(Vec<SearchSongHit>),
    Song(SongRecord),
}

/// What a `LookupReply` holds.
pub enum LookupReplyView {
    Songs(Seq<SongView>),
    Hits(Seq<SearchSongHitView>),
    Song(SongView),
}

impl View for LookupReply {
    type V = LookupReplyView;

    open spec fn view(&self) -> LookupReplyView {
        match self {
            LookupReply::Songs(songs) => LookupReplyView::Songs(song_views(songs@)),
            LookupReply::Hits(hits) => LookupReplyView::Hits(hit_views(hits@)),
            LookupReply::Song(song) => LookupReplyView::Song(song@),
        }
    }
}

/// Whether a reply is of the sort that a search waits for.
pub open spec fn awaits(search: LookupView, reply: LookupReplyView) -> bool {
    match search.stage {
        LookupStage::Exact(_) => reply is Songs,
        LookupStage::Fuzzy(_) => reply is Hits,
        LookupStage::Detail => reply is Song,
        LookupStage::Done => false,
        LookupStage::Overflow => false,
    }
}

/// A search after a reply; one that it does not wait for changes nothing.
pub open spec fn after_reply(search: LookupView, reply: LookupReplyView) -> LookupView {
    match (search.stage, reply) {
        (LookupStage::Exact(index), LookupReplyView::Songs(songs)) => after_exact(
            search,
            index,
            songs,
        ),
        (LookupStage::Fuzzy(index), LookupReplyView::Hits(hits)) => after_fuzzy(
            search,
            index,
            hits,
        ),
        (LookupStage::Detail, LookupReplyView::Song(song)) => after_detail(search, song),
        _ => search,
    }
}

/// Whether a search is in order: its stage fits its queries, and songs and hits
/// stand under their ids.
pub open spec fn in_order(search: LookupView) -> bool {
    &&& match search.stage {
        LookupStage::Exact(index) => index < exact_budget(search.input),
        LookupStage::Fuzzy(index) => index < fuzzy_budget(search.input) && search.songs.is_empty(),
        LookupStage::Detail => 0 < search.pending.len() <= MAX_FUZZY_DETAIL_REQUESTS,
        LookupStage::Done => true,
        LookupStage::Overflow => true,
    }
    &&& keyed_by_id(search.songs)
    &&& hits_keyed_by_id(search.hits)
}

proof fn lemma_exact_keyed(
    songs: Map<u64, SongMatchView>,
    list: Seq<SongView>,
    query: ExactQueryView,
    query_index: nat,
    input: SearchInputView,
)
    requires
        keyed_by_id(songs),
    ensures
        with_exact_songs(songs, list, query, query_index, input) matches Some(found)
            ==> keyed_by_id(found),
    decreases list.len(),
{
    if list.len() > 0 {
        lemma_exact_keyed(songs, list.drop_last(), query, query_index, input);
    }
}

proof fn lemma_hits_keyed(
    hits: Map<u64, HitView>,
    list: Seq<SearchSongHitView>,
    query: Seq<char>,
    query_index: nat,
)
    requires
        hits_keyed_by_id(hits),
    ensures
        with_hit_list(hits, list, query, query_index) matches Some(merged)
            ==> hits_keyed_by_id(merged),
    decreases list.len(),
{
    if list.len() > 0 {
        lemma_hits_keyed(hits, list.drop_last(), query, query_index);
    }
}

/// A search is in order at its start.
pub proof fn law_search_opens_in_order(input: SearchInputView)
    ensures
        in_order(opened(input)),
{
}

/// A search stays in order with every reply.
pub proof fn law_search_stays_in_order(search: LookupView, reply: LookupReplyView)
    requires
        in_order(search),
    ensures
        in_order(after_reply(search, reply)),
{
    match (search.stage, reply) {
        (LookupStage::Exact(index), LookupReplyView::Songs(songs)) => {
            let query = exact_queries(search.input)[index as int];
            lemma_exact_keyed(
                search.songs,
                preferred_songs(songs, query.artist),
                query,
                index as nat,
                search.input,
            );
        },
        (LookupStage::Fuzzy(index), LookupReplyView::Hits(hits)) => {
            let query = fuzzy_queries(search.input.search_queries)[index as int];
            lemma_hits_keyed(search.hits, counted_hits(hits), query, index as nat);
        },
        _ => {},
    }
}

/// How many requests a search may still make.
pub open spec fn requests_left(search: LookupView) -> nat {
    match search.stage {
        LookupStage::Exact(index) => (exact_budget(search.input) - index + fuzzy_budget(
            search.input,
        ) + MAX_FUZZY_DETAIL_REQUESTS) as nat,
        LookupStage::Fuzzy(index) => (fuzzy_budget(search.input) - index
            + MAX_FUZZY_DETAIL_REQUESTS) as nat,
        LookupStage::Detail => search.pending.len(),
        LookupStage::Done => 0,
        LookupStage::Overflow => 0,
    }
}

/// Every reply that a search waits for brings it closer to its end.
pub proof fn law_search_ends(search: LookupView, reply: LookupReplyView)
    requires
        in_order(search),
        awaits(search, reply),
    ensures
        requests_left(after_reply(search, reply)) < requests_left(search),
{
}

/// A search makes no more requests than its limits allow together.
pub proof fn law_requests_are_bounded(input: SearchInputView)
    ensures
        requests_left(opened(input)) <= MAX_EXACT_QUERIES + MAX_FUZZY_QUERIES
            + MAX_FUZZY_DETAIL_REQUESTS,
{
}

/// A search that asks nothing more is at its end, and no other is.
pub proof fn law_search_asks_until_its_end(search: LookupView)
    requires
        in_order(search),
    ensures
        next_request(search) is None <==> requests_left(search) == 0,
        next_request(search) is None <==> search.stage is Done || search.stage is Overflow,
{
}

// ---------------------------------------------------------------------------
// Searching
// ---------------------------------------------------------------------------

/// Why a search has no candidates.
#[derive(Debug, Clone, Copy, PartialEq, Eq, Structural)]
pub enum LookupError {
    /// There are still requests to make.
    Unfinished,
    /// A score did not fit.
    ScoreOverflow,
}

impl LookupError {
    /// What is said of a search without candidates.
    pub fn message(self) -> (message: &'static str)
        ensures
            message@ == match self {
                LookupError::Unfinished => "lookup is not finished"@,
                LookupError::ScoreOverflow => "score does not fit"@,
            },
    {
        match self {
            LookupError::Unfinished => "lookup is not finished",
            LookupError::ScoreOverflow => "score does not fit",
        }
    }
}

/// A search for the candidates of a file.
pub struct ThemeLookupService {
    search_input: SearchInput,
    exact: Vec<ExactQuery>,
    fuzzy: Vec<String>,
    songs: HashMap<u64, SongMatch>,
    hits: HashMap<u64, SearchSongHitAccumulator>,
    pending: Vec<SearchSongHitAccumulator>,
    stage: LookupStage,
}

impl View for ThemeLookupService {
    type V = LookupView;

    closed spec fn view(&self) -> LookupView {
        LookupView {
            input: self.search_input@,
            songs: match_views(self.songs@),
            hits: accumulated_views(self.hits@),
            pending: hit_list_views(self.pending@),
            stage: self.stage,
        }
    }
}

impl ThemeLookupService {
    /// Whether the search is in order and has its queries at hand.
    pub closed spec fn well_formed(&self) -> bool {
        &&& self.has_queries()
        &&& in_order(self@)
    }

    spec fn has_queries(&self) -> bool {
        &&& query_views(self.exact@) == exact_queries(self.search_input@)
        &&& views(self.fuzzy@) == fuzzy_queries(self.search_input@.search_queries)
    }

    /// A search for a file at its start.
    pub fn new(search_input: SearchInput) -> (service: ThemeLookupService)
        ensures
            service.well_formed(),
            service@ == opened(search_input@),
            in_order(service@),
    {
        let exact = build_exact_queries(&search_input);
        let fuzzy = build_fuzzy_queries(&search_input);
        let mut service = ThemeLookupService {
            search_input,
            exact,
            fuzzy,
            songs: HashMap::new(),
            hits: HashMap::new(),
            pending: Vec::new(),
            stage: LookupStage::Exact(0),
        };
        assert(service@.songs =~= Map::empty());
        assert(service@.hits =~= Map::empty());
        assert(service@.pending =~= Seq::empty());
        service.enter_exact(0);
        proof {
            law_search_opens_in_order(search_input@);
        }
        service
    }

    fn enter_fuzzy(&mut self, index: usize)
        requires
            old(self).has_queries(),
            hits_keyed_by_id(old(self)@.hits),
        ensures
            final(self).has_queries(),
            final(self)@ == at_fuzzy(old(self)@, index as nat),
    {
        if index < self.fuzzy.len() && index < MAX_FUZZY_QUERIES {
            self.stage = LookupStage::Fuzzy(index);
            return;
        }
        let mut hits: HashMap<u64, SearchSongHitAccumulator> = HashMap::new();
        std::mem::swap(&mut hits, &mut self.hits);
        assert(accumulated_views(self.hits@) =~= Map::empty());
        let mut ranked = rank_hits(hits);
        let ghost all = hit_list_views(ranked@);
        if ranked.len() > MAX_FUZZY_DETAIL_REQUESTS {
            ranked.truncate(MAX_FUZZY_DETAIL_REQUESTS);
        }
        assert(hit_list_views(ranked@) =~= detailed_hits(all));
        self.stage = if ranked.len() > 0 {
            LookupStage::Detail
        } else {
            LookupStage::Done
        };
        self.pending = ranked;
    }

    fn enter_exact(&mut self, index: usize)
        requires
            old(self).has_queries(),
            hits_keyed_by_id(old(self)@.hits),
        ensures
            final(self).has_queries(),
            final(self)@ == at_exact(old(self)@, index as nat),
    {
        assert(self@.songs.dom() =~= self.songs@.dom());
        assert(self@.songs.is_empty() == self.songs@.is_empty()) by {
            if self.songs@.is_empty() {
                assert(self@.songs =~= Map::empty());
            }
            if self@.songs.is_empty() {
                assert(self.songs@ =~= Map::empty());
            }
        }
        if index < self.exact.len() && index < MAX_EXACT_QUERIES {
            self.stage = LookupStage::Exact(index);
        } else if self.songs.is_empty() {
            self.enter_fuzzy(0);
        } else {
            self.stage = LookupStage::Done;
        }
    }

    fn overflow(&mut self)
        requires
            old(self).has_queries(),
        ensures
            final(self).has_queries(),
            final(self)@ == overflowed(old(self)@),
    {
        self.songs = HashMap::new();
        self.hits = HashMap::new();
        self.pending = Vec::new();
        self.stage = LookupStage::Overflow;
        assert(self@.songs =~= Map::empty());
        assert(self@.hits =~= Map::empty());
        assert(self@.pending =~= Seq::empty());
    }

    /// What the search asks next.
    pub fn request(&self) -> (request: Option<LookupRequest>)
        requires
            self.well_formed(),
        ensures
            request is Some <==> next_request(self@) is Some,
            request matches Some(request) ==> Some(request@) == next_request(self@),
    {
        match self.stage {
            LookupStage::Exact(index) => {
                assert(exact_queries(self@.input)[index as int] == self.exact@[index as int]@);
                Some(LookupRequest::SongsByTitle(self.exact[index].title.clone()))
            },
            LookupStage::Fuzzy(index) => {
                assert(views(self.fuzzy@)[index as int] == self.fuzzy@[index as int]@);
                Some(LookupRequest::SongSearch(self.fuzzy[index].clone()))
            },
            LookupStage::Detail => Some(LookupRequest::SongDetail(self.pending[0].id)),
            LookupStage::Done => None,
            LookupStage::Overflow => None,
        }
    }

    fn accept_songs(&mut self, index: usize, songs: Vec<SongRecord>)
        requires
            old(self).well_formed(),
            old(self)@.stage == LookupStage::Exact(index),
        ensures
            final(self).has_queries(),
            final(self)@ == after_exact(old(self)@, index, song_views(songs@)),
    {
        let ghost before = self@;
        let ghost query = exact_queries(before.input)[index as int];
        assert(query == self.exact@[index as int]@);
        let preferred = prefer_artist_matches(songs, borrowed(&self.exact[index].artist));
        let fits = merge_exact_songs(
            &mut self.songs,
            preferred,
            &self.exact[index],
            index,
            &self.search_input,
        );
        if !fits {
            self.overflow();
            assert(self@ =~= overflowed(before));
            return;
        }
        assert(self@ =~= (LookupView { songs: self@.songs, ..before }));
        if count_candidates(&self.songs) >= DESIRED_CANDIDATE_COUNT {
            self.stage = LookupStage::Done;
        } else {
            self.enter_exact(index + 1);
        }
    }

    fn accept_hits(&mut self, index: usize, hits: &Vec<SearchSongHit>)
        requires
            old(self).well_formed(),
            old(self)@.stage == LookupStage::Fuzzy(index),
        ensures
            final(self).has_queries(),
            final(self)@ == after_fuzzy(old(self)@, index, hit_views(hits@)),
    {
        let ghost before = self@;
        let ghost query = fuzzy_queries(before.input.search_queries)[index as int];
        assert(query == views(self.fuzzy@)[index as int]);
        let fits = merge_hits(&mut self.hits, hits, self.fuzzy[index].as_str(), index);
        if !fits {
            self.overflow();
            assert(self@ =~= overflowed(before));
            return;
        }
        assert(self@ =~= (LookupView { hits: self@.hits, ..before }));
        proof {
            lemma_hits_keyed(before.hits, counted_hits(hit_views(hits@)), query, index as nat);
        }
        self.enter_fuzzy(index + 1);
    }

    fn accept_song(&mut self, song: SongRecord)
        requires
            old(self).well_formed(),
            old(self)@.stage == LookupStage::Detail,
        ensures
            final(self).has_queries(),
            final(self)@ == after_detail(old(self)@, song@),
    {
        let ghost before = self@;
        let hit = self.pending.remove(0);
        assert(hit@ == before.pending[0]);
        assert(hit_list_views(self.pending@) =~= before.pending.drop_first());
        let fits = checked_merge_fuzzy_song(&mut self.songs, song, hit, &self.search_input);
        if !fits {
            self.overflow();
            assert(self@ =~= overflowed(before));
            return;
        }
        self.stage = if self.pending.len() > 0 {
            LookupStage::Detail
        } else {
            LookupStage::Done
        };
    }

    /// Takes a reply, and says whether the search waited for one of its sort.
    pub fn accept(&mut self, reply: LookupReply) -> (awaited: bool)
        requires
            old(self).well_formed(),
        ensures
            final(self).well_formed(),
            in_order(final(self)@),
            awaited == awaits(old(self)@, reply@),
            final(self)@ == after_reply(old(self)@, reply@),
    {
        proof {
            law_search_stays_in_order(self@, reply@);
        }
        match (self.stage, reply) {
            (LookupStage::Exact(index), LookupReply::Songs(songs)) => {
                self.accept_songs(index, songs);
                true
            },
            (LookupStage::Fuzzy(index), LookupReply::Hits(hits)) => {
                self.accept_hits(index, &hits);
                true
            },
            (LookupStage::Detail, LookupReply::Song(song)) => {
                self.accept_song(song);
                true
            },
            _ => false,
        }
    }

    /// The candidates that the search found.
    pub fn lookup_candidates(&self) -> (candidates: Result<Vec<ThemeCandidate>, LookupError>)
        requires
            self.well_formed(),
        ensures
            candidates matches Ok(candidates) ==> self@.stage is Done && exists|order: Seq<u64>|
                #[trigger]
                walks(order, self@.songs) && lists_candidates(
                    candidate_views(candidates@),
                    theme_uses(self@.songs, order),
                ),
            candidates matches Err(LookupError::Unfinished) <==> next_request(self@) is Some,
            candidates matches Err(LookupError::ScoreOverflow) <==> self@.stage is Overflow || (
            self@.stage is Done && exists|order: Seq<u64>| #[trigger]
                walks(order, self@.songs) && !scores_fit(theme_uses(self@.songs, order))),
    {
        match self.stage {
            LookupStage::Done => {},
            LookupStage::Overflow => {
                return Err(LookupError::ScoreOverflow);
            },
            _ => {
                return Err(LookupError::Unfinished);
            },
        }
        assert(self@.songs.dom() =~= self.songs@.dom());
        assert forall|order: Seq<u64>| walks(order, self.songs@) == #[trigger] walks(
            order,
            self@.songs,
        ) by {}
        match checked_build_candidates(&self.songs) {
            Some(candidates) => {
                proof {
                    let order = choose|order: Seq<u64>| #[trigger]
                        walks(order, self.songs@) && scores_fit(theme_uses(self@.songs, order))
                            && lists_candidates(
                            candidate_views(candidates@),
                            theme_uses(self@.songs, order),
                        );
                    assert(walks(order, self@.songs));
                    assert forall|other: Seq<u64>| #[trigger]
                        walks(other, self@.songs) implies scores_fit(
                        theme_uses(self@.songs, other),
                    ) by {
                        law_walk_order_does_not_matter_for_fit(self@.songs, order, other);
                    }
                }
                Ok(candidates)
            },
            None => {
                proof {
                    let order = choose|order: Seq<u64>| #[trigger]
                        walks(order, self.songs@) && !scores_fit(theme_uses(self@.songs, order));
                    assert(walks(order, self@.songs));
                }
                Err(LookupError::ScoreOverflow)
            },
        }
    }
}

// ---------------------------------------------------------------------------
// Japanese titles
// ---------------------------------------------------------------------------

/// A candidate under its Japanese title, where there is one.
pub open spec fn localized(
    candidate: ThemeCandidateView,
    title: Option<Seq<char>>,
) -> ThemeCandidateView {
    match title {
        Some(title) => ThemeCandidateView { work_title: title, ..candidate },
        None => candidate,
    }
}

/// Gives candidates their Japanese titles, where there are such.
pub fn localize_candidate_titles(
    candidates: &mut Vec<ThemeCandidate>,
    titles: &Vec<Option<String>>,
)
    requires
        titles@.len() == old(candidates)@.len(),
    ensures
        final(candidates)@.len() == old(candidates)@.len(),
        forall|i: int|
            0 <= i < old(candidates)@.len() ==> (#[trigger] final(candidates)@[i])@ == localized(
                old(candidates)@[i]@,
                optional_view(titles@[i]),
            ),
{
    let ghost before = candidates@;
    let mut i: usize = 0;
    while i < candidates.len()
        invariant
            i <= candidates@.len(),
            before == old(candidates)@,
            candidates@.len() == before.len(),
            titles@.len() == before.len(),
            forall|k: int|
                0 <= k < i ==> (#[trigger] candidates@[k])@ == localized(
                    before[k]@,
                    optional_view(titles@[k]),
                ),
            forall|k: int| i <= k < before.len() ==> #[trigger] candidates@[k] == before[k],
        decreases candidates@.len() - i,
    {
        match &titles[i] {
            Some(title) => {
                candidates[i].work_title = title.clone();
            },
            None => {},
        }
        assert(candidates@[i as int]@ == localized(
            before[i as int]@,
            optional_view(titles@[i as int]),
        ));
        i = i + 1;
    }
}

// ---------------------------------------------------------------------------
// Laws of the course of a search
// ---------------------------------------------------------------------------

/// A search after a list of replies.
pub open spec fn after_replies(search: LookupView, replies: Seq<LookupReplyView>) -> LookupView
    decreases replies.len(),
{
    if replies.len() == 0 {
        search
    } else {
        after_reply(after_replies(search, replies.drop_last()), replies.last())
    }
}

/// How many exact queries there are for a file: its titles, twice where it has an
/// artist, and no more than six.
pub open spec fn exact_count(input: SearchInputView) -> nat {
    let all = if input.source_artist is Some {
        2 * input.title_queries.len()
    } else {
        input.title_queries.len()
    };
    if all < 6 {
        all
    } else {
        6
    }
}

/// How many fuzzy queries there are for a file: no more than four.
pub open spec fn fuzzy_count(input: SearchInputView) -> nat {
    let all = fuzzy_queries(input.search_queries).len();
    if all < 4 {
        all
    } else {
        4
    }
}

/// The title of an exact query: the titles of the file in their order, and then once
/// more from the first.
pub open spec fn exact_title(input: SearchInputView, at: int) -> Seq<char> {
    if at < input.title_queries.len() {
        input.title_queries[at]
    } else {
        input.title_queries[at - input.title_queries.len()]
    }
}

/// What is asked where exact queries found no song: the first fuzzy query, if there is
/// one, whatever the artist of the file is.
pub open spec fn first_fuzzy_request(input: SearchInputView) -> Option<LookupRequestView> {
    if fuzzy_queries(input.search_queries).len() > 0 {
        Some(LookupRequestView::SongSearch(fuzzy_queries(input.search_queries)[0]))
    } else {
        None
    }
}

proof fn lemma_no_hits_ranked()
    ensures
        ranked_hits(Map::<u64, HitView>::empty()).len() == 0,
{
    let none = Map::<u64, HitView>::empty();
    lemma_ranked_hits_list(none);
    let list = ranked_hits(none);
    if list.len() > 0 {
        assert(list.to_set().contains(list[0]));
        assert(none.values().contains(list[0]));
    }
}

proof fn lemma_no_candidates()
    ensures
        candidate_keys(Map::<u64, SongMatchView>::empty()).len() == 0,
{
    assert(candidate_keys(Map::<u64, SongMatchView>::empty()) =~= Set::empty());
}

proof fn lemma_no_songs_by(artist: Option<Seq<char>>)
    ensures
        preferred_songs(Seq::empty(), artist) == Seq::<SongView>::empty(),
{
    if let Some(name) = artist {
        reveal(Seq::filter);
    }
}

proof fn lemma_search_without_songs(input: SearchInputView, replies: Seq<LookupReplyView>)
    requires
        replies.len() <= exact_count(input),
        forall|i: int|
            0 <= i < replies.len() ==> #[trigger] replies[i] == LookupReplyView::Songs(
                Seq::empty(),
            ),
    ensures
        ({
            let search = after_replies(opened(input), replies);
            &&& search.input == input
            &&& search.songs == Map::<u64, SongMatchView>::empty()
            &&& search.hits == Map::<u64, HitView>::empty()
            &&& replies.len() < exact_count(input) ==> search.stage == LookupStage::Exact(
                replies.len() as usize,
            )
            &&& replies.len() == exact_count(input) && fuzzy_count(input) > 0 ==> search.stage
                == LookupStage::Fuzzy(0)
            &&& replies.len() == exact_count(input) && fuzzy_count(input) == 0
                ==> search.stage is Done
        }),
    decreases replies.len(),
{
    lemma_no_hits_ranked();
    lemma_no_candidates();
    if replies.len() > 0 {
        let shorter = replies.drop_last();
        assert forall|i: int| 0 <= i < shorter.len() implies #[trigger] shorter[i]
            == LookupReplyView::Songs(Seq::empty()) by {
            assert(shorter[i] == replies[i]);
        }
        lemma_search_without_songs(input, shorter);
        assert(replies[replies.len() - 1] == LookupReplyView::Songs(Seq::empty()));
        let index = shorter.len() as usize;
        lemma_no_songs_by(exact_queries(input)[index as int].artist);
    }
}

/// As long as nothing is found, a search asks for the titles of the file, one after the
/// other; and where these are used up it asks for the first fuzzy query, if there is
/// one, whatever the artist of the file is.
pub proof fn law_nothing_found_leads_to_fuzzy_queries(
    input: SearchInputView,
    replies: Seq<LookupReplyView>,
)
    requires
        replies.len() <= exact_count(input),
        forall|i: int|
            0 <= i < replies.len() ==> #[trigger] replies[i] == LookupReplyView::Songs(
                Seq::empty(),
            ),
    ensures
        next_request(after_replies(opened(input), replies)) == if replies.len() < exact_count(
            input,
        ) {
            Some(LookupRequestView::SongsByTitle(exact_title(input, replies.len() as int)))
        } else {
            first_fuzzy_request(input)
        },
{
    lemma_search_without_songs(input, replies);
    if replies.len() < exact_count(input) {
        let at = replies.len() as int;
        if at < input.title_queries.len() {
            crate::lookup::law_exact_queries(input, at);
        } else {
            crate::lookup::law_exact_queries(input, at - input.title_queries.len());
        }
    }
}

/// As long as fuzzy queries find nothing, a search asks for them one after the other,
/// four at most, and is then at its end.
pub proof fn law_all_fuzzy_queries_are_made(
    input: SearchInputView,
    replies: Seq<LookupReplyView>,
    more: Seq<LookupReplyView>,
)
    requires
        replies.len() == exact_count(input),
        forall|i: int|
            0 <= i < replies.len() ==> #[trigger] replies[i] == LookupReplyView::Songs(
                Seq::empty(),
            ),
        more.len() <= fuzzy_count(input),
        forall|i: int|
            0 <= i < more.len() ==> #[trigger] more[i] == LookupReplyView::Hits(Seq::empty()),
    ensures
        ({
            let search = after_replies(opened(input), replies + more);
            &&& next_request(search) == if more.len() < fuzzy_count(input) {
                Some(
                    LookupRequestView::SongSearch(
                        fuzzy_queries(input.search_queries)[more.len() as int],
                    ),
                )
            } else {
                None
            }
            &&& search.songs == Map::<u64, SongMatchView>::empty()
            &&& search.hits == Map::<u64, HitView>::empty()
            &&& search.input == input
            &&& more.len() < fuzzy_count(input) ==> search.stage == LookupStage::Fuzzy(
                more.len() as usize,
            )
            &&& more.len() == fuzzy_count(input) ==> search.stage is Done
        }),
    decreases more.len(),
{
    lemma_no_hits_ranked();
    if more.len() == 0 {
        assert(replies + more =~= replies);
        lemma_search_without_songs(input, replies);
    } else {
        let shorter = more.drop_last();
        assert forall|i: int| 0 <= i < shorter.len() implies #[trigger] shorter[i]
            == LookupReplyView::Hits(Seq::empty()) by {
            assert(shorter[i] == more[i]);
        }
        law_all_fuzzy_queries_are_made(input, replies, shorter);
        assert((replies + more).drop_last() =~= replies + shorter);
        assert(more[more.len() - 1] == LookupReplyView::Hits(Seq::empty()));
        assert((replies + more).last() == more.last());
    }
}

/// What follows a reply to an exact query: the songs by the artist of the query are
/// found, or all where there is none. With eight candidates the search is at its end;
/// with fewer the next title is asked for; and behind the last one the search is at its
/// end where it found songs, and else asks for the first fuzzy query.
pub proof fn law_what_follows_an_exact_query(
    search: LookupView,
    index: usize,
    songs: Seq<SongView>,
)
    requires
        in_order(search),
        search.stage == LookupStage::Exact(index),
    ensures
        ({
            let query = exact_queries(search.input)[index as int];
            let after = after_reply(search, LookupReplyView::Songs(songs));
            let found = with_exact_songs(
                search.songs,
                preferred_songs(songs, query.artist),
                query,
                index as nat,
                search.input,
            );
            &&& after.input == search.input
            &&& after.stage is Overflow <==> found is None
            &&& found is Some ==> Some(after.songs) == found
            &&& found is Some && candidate_keys(after.songs).len() >= 8 ==> next_request(
                after,
            ) is None
            &&& found is Some && candidate_keys(after.songs).len() < 8 && index + 1 < exact_count(
                search.input,
            ) ==> next_request(after) == Some(
                LookupRequestView::SongsByTitle(exact_title(search.input, index + 1)),
            )
            &&& found is Some && index + 1 >= exact_count(search.input) && (exists|id: u64|
                #[trigger] after.songs.contains_key(id)) ==> next_request(after) is None
            &&& found is Some && index + 1 >= exact_count(search.input) && (forall|id: u64|
                !#[trigger] after.songs.contains_key(id)) && search.hits.is_empty()
                ==> next_request(after) == first_fuzzy_request(search.input)
        }),
{
    let input = search.input;
    let after = after_reply(search, LookupReplyView::Songs(songs));
    let next = index + 1;
    if next < exact_count(input) {
        if next < input.title_queries.len() {
            crate::lookup::law_exact_queries(input, next);
        } else {
            crate::lookup::law_exact_queries(input, next - input.title_queries.len());
        }
    }
    lemma_no_hits_ranked();
    lemma_no_candidates();
    if forall|id: u64| !#[trigger] after.songs.contains_key(id) {
        assert(after.songs =~= Map::empty());
    }
    if search.hits.is_empty() {
        assert(search.hits =~= Map::empty());
    }
    if exists|id: u64| #[trigger] after.songs.contains_key(id) {
        assert(!after.songs.is_empty());
    }
}

/// What follows a reply to a fuzzy query: the first six songs are among the hits. The
/// next fuzzy query is asked for, up to the fourth; behind the last one the search asks
/// for the song with the highest score, and will for eight of them at most, the better
/// ones first. Without hits it is at its end.
pub proof fn law_what_follows_a_fuzzy_query(
    search: LookupView,
    index: usize,
    hits: Seq<SearchSongHitView>,
)
    requires
        in_order(search),
        search.stage == LookupStage::Fuzzy(index),
        search.hits.dom().finite(),
    ensures
        ({
            let queries = fuzzy_queries(search.input.search_queries);
            let counted = if hits.len() > 6 {
                hits.take(6)
            } else {
                hits
            };
            let found = with_hit_list(search.hits, counted, queries[index as int], index as nat);
            let after = after_reply(search, LookupReplyView::Hits(hits));
            &&& after.input == search.input
            &&& after.stage is Overflow <==> found is None
            &&& found matches Some(merged) ==> {
                &&& after.songs == search.songs
                &&& index + 1 < fuzzy_count(search.input) ==> after.hits == merged && next_request(
                    after,
                ) == Some(LookupRequestView::SongSearch(queries[index + 1]))
                &&& index + 1 >= fuzzy_count(search.input) && merged.dom().len() == 0
                    ==> next_request(after) is None
                &&& index + 1 >= fuzzy_count(search.input) && merged.dom().len() > 0 ==> {
                    &&& next_request(after) == Some(
                        LookupRequestView::SongDetail(after.pending[0].id),
                    )
                    &&& after.pending.len() == if merged.dom().len() < 8 {
                        merged.dom().len()
                    } else {
                        8
                    }
                    &&& forall|i: int|
                        0 <= i < after.pending.len() ==> merged.contains_key(
                            (#[trigger] after.pending[i]).id,
                        ) && merged[after.pending[i].id] == after.pending[i]
                    &&& forall|i: int, j: int|
                        0 <= i < j < after.pending.len() ==> (#[trigger] after.pending[i]).score >= (
                        #[trigger] after.pending[j]).score && after.pending[i].id
                            != after.pending[j].id
                    &&& forall|id: u64, i: int|
                        #[trigger] merged.contains_key(id) && 0 <= i < after.pending.len()
                            && !after.pending.contains(merged[id]) ==> merged[id].score <= (
                        #[trigger] after.pending[i]).score
                }
            }
        }),
{
    let input = search.input;
    let queries = fuzzy_queries(input.search_queries);
    let counted = counted_hits(hits);
    let after = after_reply(search, LookupReplyView::Hits(hits));
    let query = queries[index as int];
    lemma_hits_stay_finite(search.hits, counted, query, index as nat);
    lemma_hits_keyed(search.hits, counted, query, index as nat);
    if let Some(merged) = with_hit_list(search.hits, counted, query, index as nat) {
        law_ranked_hits(merged);
        let ranked = ranked_hits(merged);
        if index + 1 >= fuzzy_count(input) {
            assert(after.pending == detailed_hits(ranked));
            assert forall|i: int| 0 <= i < after.pending.len() implies merged.contains_key(
                (#[trigger] after.pending[i]).id,
            ) && merged[after.pending[i].id] == after.pending[i] by {
                assert(after.pending[i] == ranked[i]);
            }
            assert forall|i: int, j: int| 0 <= i < j < after.pending.len() implies (
            #[trigger] after.pending[i]).score >= (#[trigger] after.pending[j]).score
                && after.pending[i].id != after.pending[j].id by {
                let (first, second) = (ranked[i], ranked[j]);
                assert(after.pending[i] == first && after.pending[j] == second);
                assert(merged[first.id] == first && merged[second.id] == second);
                if first.id == second.id {
                    crate::order::lemma_before_irreflexive(first.title);
                }
            }
            assert forall|id: u64, i: int|
                #[trigger] merged.contains_key(id) && 0 <= i < after.pending.len()
                    && !after.pending.contains(merged[id]) implies merged[id].score <= (
            #[trigger] after.pending[i]).score by {
                assert(ranked.contains(merged[id]));
                let k = ranked.index_of(merged[id]);
                assert(after.pending[i] == ranked[i]);
                if k < after.pending.len() {
                    assert(after.pending[k] == merged[id]);
                    assert(after.pending.contains(merged[id]));
                }
                assert(ranked[i].score >= ranked[k].score);
            }
        }
    }
}

/// What follows the record of a song that fuzzy queries found: the song is found with
/// the points of those queries and of its record, and the next one is asked for, if
/// there is one.
pub proof fn law_what_follows_a_detail(search: LookupView, song: SongView)
    requires
        in_order(search),
        search.stage == LookupStage::Detail,
    ensures
        ({
            let hit = search.pending[0];
            let points = detail_points(song, hit.score, search.input);
            let earlier = if search.songs.contains_key(song.id) {
                search.songs[song.id].score
            } else {
                0
            };
            let after = after_reply(search, LookupReplyView::Song(song));
            &&& after.input == search.input
            &&& after.stage is Overflow <==> earlier + points > usize::MAX
            &&& earlier + points <= usize::MAX ==> {
                &&& after.songs == with_found_song(search.songs, song, points, hit.matched_queries)
                &&& after.songs.contains_key(song.id)
                &&& after.songs[song.id].score == earlier + points
                &&& search.pending.len() == 1 ==> next_request(after) is None
                &&& search.pending.len() > 1 ==> next_request(after) == Some(
                    LookupRequestView::SongDetail(search.pending[1].id),
                )
                &&& after.pending == search.pending.drop_first()
            }
        }),
{
}

/// A reply of another sort than the one that is waited for changes nothing, and nor does
/// any reply at the end of a search.
pub proof fn law_other_replies_change_nothing(search: LookupView, reply: LookupReplyView)
    requires
        match next_request(search) {
            Some(LookupRequestView::SongsByTitle(_)) => !(reply is Songs),
            Some(LookupRequestView::SongSearch(_)) => !(reply is Hits),
            Some(LookupRequestView::SongDetail(_)) => !(reply is Song),
            None => true,
        },
    ensures
        after_reply(search, reply) == search,
        !awaits(search, reply),
{
}

/// The reply that is waited for is of the sort that was asked for.
pub proof fn law_awaited_replies(search: LookupView, reply: LookupReplyView)
    ensures
        awaits(search, reply) <==> match next_request(search) {
            Some(LookupRequestView::SongsByTitle(_)) => reply is Songs,
            Some(LookupRequestView::SongSearch(_)) => reply is Hits,
            Some(LookupRequestView::SongDetail(_)) => reply is Song,
            None => false,
        },
{
}

/// A candidate for which a Japanese title was found goes by it, and is otherwise as it
/// was; one for which none was found stays.
pub proof fn law_localized_candidates(candidate: ThemeCandidateView, title: Seq<char>)
    ensures
        localized(candidate, Some(title)).work_title == title,
        localized(candidate, Some(title)).kind == candidate.kind,
        localized(candidate, Some(title)).score == candidate.score,
        localized(candidate, Some(title)).sources == candidate.sources,
        localized(candidate, None) == candidate,
{
}

/// A reply holds what AnimeThemes answered.
pub proof fn law_replies_hold_the_answer(
    songs: Vec<SongRecord>,
    hits: Vec<SearchSongHit>,
    song: SongRecord,
)
    ensures
        LookupReply::Songs(songs)@ == LookupReplyView::Songs(song_views(songs@)),
        LookupReply::Hits(hits)@ == LookupReplyView::Hits(hit_views(hits@)),
        LookupReply::Song(song)@ == LookupReplyView::Song(song@),
{
}

} // verus!

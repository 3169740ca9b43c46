//! The songs that were found for a file, and their scores.

use std::collections::HashMap;

use vstd::prelude::*;

use crate::file_name::{SearchInput, SearchInputView};
use crate::lookup::{
    hit_views, song_views, ExactQuery, ExactQueryView, SearchSongHit, SearchSongHitView,
    SongRecord, SongView, MAX_FUZZY_RESULTS_PER_QUERY,
};
use crate::order::{
    in_rank_order, is_before, lemma_before_irreflexive, lemma_before_total,
    lemma_before_transitive, lemma_same_multiset, lemma_sorted_unique, sort_by_rank,
    strictly_sorted, text_before, walked_keys, walks, Ranked, TextSet,
};
use crate::scoring::{
    artist_match_score, position_points, position_rank_bonus, query_points, query_rank_bonus,
    source_artist_points, title_match_score, title_points,
};
use crate::text::{optional_str_view, optional_view, same_text};

verus! {

broadcast use vstd::std_specs::hash::group_hash_axioms;

// ---------------------------------------------------------------------------
// Scores
// ---------------------------------------------------------------------------

/// The score of a song that the exact query at `query_index` found.
pub open spec fn exact_points(
    song: SongView,
    query: ExactQueryView,
    query_index: nat,
    input: SearchInputView,
) -> nat {
    90 + query_points(query_index) + title_points(song.title, query.title) + title_points(
        song.title,
        input.source_title,
    ) + source_artist_points(song.artists, input.source_artist)
}

/// The score of a song that the fuzzy query at `query_index` found at
/// `position`.
pub open spec fn fuzzy_points(
    song_title: Seq<char>,
    query: Seq<char>,
    position: nat,
    query_index: nat,
) -> nat {
    20 + query_points(query_index) + position_points(position) + title_points(song_title, query)
}

/// The score of a song with `hit_score` points from fuzzy queries.
pub open spec fn detail_points(song: SongView, hit_score: nat, input: SearchInputView) -> nat {
    hit_score + title_points(song.title, input.source_title) + source_artist_points(
        song.artists,
        input.source_artist,
    )
}

/// An owned optional text, borrowed.
pub fn borrowed(text: &Option<String>) -> (out: Option<&str>)
    ensures
        optional_str_view(out) == optional_view(*text),
{
    match text {
        Some(text) => Some(text.as_str()),
        None => None,
    }
}

/// The score of a song that the exact query at `query_index` found.
pub fn exact_song_score(
    song: &SongRecord,
    query: &ExactQuery,
    query_index: usize,
    search_input: &SearchInput,
) -> (score: usize)
    requires
        exact_points(song@, query@, query_index as nat, search_input@) <= usize::MAX,
    ensures
        score == exact_points(song@, query@, query_index as nat, search_input@),
{
    90 + query_rank_bonus(query_index) + title_match_score(
        song.title.as_str(),
        query.title.as_str(),
    ) + title_match_score(song.title.as_str(), search_input.source_title.as_str())
        + artist_match_score(&song.artists, borrowed(&search_input.source_artist))
}

/// The sum of two numbers, where both are there and it fits.
pub fn checked_sum(left: Option<usize>, right: usize) -> (sum: Option<usize>)
    ensures
        sum == match left {
            Some(left) => if left + right <= usize::MAX {
                Some((left + right) as usize)
            } else {
                None
            },
            None => None,
        },
{
    match left {
        Some(left) => left.checked_add(right),
        None => None,
    }
}

/// The score of a song that the exact query at `query_index` found, or nothing
/// where it does not fit.
pub fn checked_exact_song_score(
    song: &SongRecord,
    query: &ExactQuery,
    query_index: usize,
    search_input: &SearchInput,
) -> (score: Option<usize>)
    ensures
        score matches Some(score) ==> score == exact_points(
            song@,
            query@,
            query_index as nat,
            search_input@,
        ),
        score is None <==> exact_points(song@, query@, query_index as nat, search_input@)
            > usize::MAX,
{
    let ranked: usize = 90 + query_rank_bonus(query_index);
    let by_query = title_match_score(song.title.as_str(), query.title.as_str());
    let by_title = title_match_score(song.title.as_str(), search_input.source_title.as_str());
    let by_artist = artist_match_score(&song.artists, borrowed(&search_input.source_artist));
    let sum = checked_sum(checked_sum(checked_sum(Some(ranked), by_query), by_title), by_artist);
    if sum.is_some() {
        Some(exact_song_score(song, query, query_index, search_input))
    } else {
        None
    }
}

/// The score of a song that the fuzzy query at `query_index` found at
/// `position`.
pub fn fuzzy_hit_score(song_title: &str, query: &str, position: usize, query_index: usize) -> (score:
    usize)
    requires
        fuzzy_points(song_title@, query@, position as nat, query_index as nat) <= usize::MAX,
    ensures
        score == fuzzy_points(song_title@, query@, position as nat, query_index as nat),
{
    20 + query_rank_bonus(query_index) + position_rank_bonus(position) + title_match_score(
        song_title,
        query,
    )
}

/// The score of a song that the fuzzy query at `query_index` found at
/// `position`, or nothing where it does not fit.
pub fn checked_fuzzy_hit_score(
    song_title: &str,
    query: &str,
    position: usize,
    query_index: usize,
) -> (score: Option<usize>)
    ensures
        score matches Some(score) ==> score == fuzzy_points(
            song_title@,
            query@,
            position as nat,
            query_index as nat,
        ),
        score is None <==> fuzzy_points(song_title@, query@, position as nat, query_index as nat)
            > usize::MAX,
{
    let ranked: usize = 20 + query_rank_bonus(query_index) + position_rank_bonus(position);
    if checked_sum(Some(ranked), title_match_score(song_title, query)).is_some() {
        Some(fuzzy_hit_score(song_title, query, position, query_index))
    } else {
        None
    }
}

// ---------------------------------------------------------------------------
// Found songs
// ---------------------------------------------------------------------------

/// A song that was found, its score, and the queries that found it.
#[derive(Debug)]
pub struct SongMatch {
    pub song: SongRecord,
    pub score: usize,
    pub matched_queries: TextSet,
}

/// What a `SongMatch` holds.
#[verifier::ext_equal]
pub struct SongMatchView {
    pub song: SongView,
    pub score: nat,
    pub matched_queries: Set<Seq<char>>,
}

impl View for SongMatch {
    type V = SongMatchView;

    open spec fn view(&self) -> SongMatchView {
        SongMatchView {
            song: self.song@,
            score: self.score as nat,
            matched_queries: self.matched_queries@,
        }
    }
}

/// What the found songs of a map hold, by the same keys.
pub open spec fn match_views(songs: Map<u64, SongMatch>) -> Map<u64, SongMatchView> {
    songs.map_values(|found: SongMatch| found@)
}

/// The score of the song with an id, 0 where it was not found yet.
pub open spec fn found_score(songs: Map<u64, SongMatchView>, id: u64) -> nat {
    if songs.contains_key(id) {
        songs[id].score
    } else {
        0
    }
}

/// The queries that found the song with an id.
pub open spec fn found_queries(songs: Map<u64, SongMatchView>, id: u64) -> Set<Seq<char>> {
    if songs.contains_key(id) {
        songs[id].matched_queries
    } else {
        Set::empty()
    }
}

/// The found songs after `song` was found once more, for `points`, by
/// `queries`: its newest record is kept, scores and queries add up.
pub open spec fn with_found_song(
    songs: Map<u64, SongMatchView>,
    song: SongView,
    points: nat,
    queries: Set<Seq<char>>,
) -> Map<u64, SongMatchView> {
    songs.insert(
        song.id,
        SongMatchView {
            song,
            score: found_score(songs, song.id) + points,
            matched_queries: found_queries(songs, song.id).union(queries),
        },
    )
}

/// It does not matter in which order two songs are found.
pub proof fn law_finds_commute(
    songs: Map<u64, SongMatchView>,
    first: SongView,
    first_points: nat,
    first_queries: Set<Seq<char>>,
    second: SongView,
    second_points: nat,
    second_queries: Set<Seq<char>>,
)
    requires
        first.id != second.id,
    ensures
        with_found_song(
            with_found_song(songs, first, first_points, first_queries),
            second,
            second_points,
            second_queries,
        ) == with_found_song(
            with_found_song(songs, second, second_points, second_queries),
            first,
            first_points,
            first_queries,
        ),
{
    assert(with_found_song(
        with_found_song(songs, first, first_points, first_queries),
        second,
        second_points,
        second_queries,
    ) =~= with_found_song(
        with_found_song(songs, second, second_points, second_queries),
        first,
        first_points,
        first_queries,
    ));
}

/// A song that is found twice has the points and the queries of both finds, and
/// its newer record.
pub proof fn law_finds_add_up(
    songs: Map<u64, SongMatchView>,
    first: SongView,
    first_points: nat,
    first_queries: Set<Seq<char>>,
    second: SongView,
    second_points: nat,
    second_queries: Set<Seq<char>>,
)
    requires
        first.id == second.id,
    ensures
        with_found_song(
            with_found_song(songs, first, first_points, first_queries),
            second,
            second_points,
            second_queries,
        ) == with_found_song(
            songs,
            second,
            first_points + second_points,
            first_queries.union(second_queries),
        ),
{
    let earlier = found_queries(songs, first.id);
    assert(earlier.union(first_queries).union(second_queries) =~= earlier.union(
        first_queries.union(second_queries),
    ));
    assert(with_found_song(
        with_found_song(songs, first, first_points, first_queries),
        second,
        second_points,
        second_queries,
    ) =~= with_found_song(
        songs,
        second,
        first_points + second_points,
        first_queries.union(second_queries),
    ));
}

fn take_found(songs: &mut HashMap<u64, SongMatch>, id: u64) -> (found: (usize, TextSet))
    ensures
        found.0 == found_score(match_views(old(songs)@), id),
        found.1@ == found_queries(match_views(old(songs)@), id),
        final(songs)@ == old(songs)@.remove(id),
{
    match songs.remove(&id) {
        Some(found) => (found.score, found.matched_queries),
        None => (0, TextSet::new()),
    }
}

fn put_found(
    songs: &mut HashMap<u64, SongMatch>,
    song: SongRecord,
    score: usize,
    matched_queries: TextSet,
)
    ensures
        match_views(final(songs)@) == match_views(old(songs)@).insert(
            song@.id,
            (SongMatchView {
                song: song@,
                score: score as nat,
                matched_queries: matched_queries@,
            }),
        ),
{
    let ghost before = songs@;
    let ghost added = SongMatch { song, score, matched_queries };
    songs.insert(song.id, SongMatch { song, score, matched_queries });
    assert(match_views(songs@) =~= match_views(before).insert(added.song.id, added@));
}

/// Adds a song that the exact query at `query_index` found.
pub fn merge_exact_song(
    songs: &mut HashMap<u64, SongMatch>,
    song: SongRecord,
    query: &ExactQuery,
    query_index: usize,
    search_input: &SearchInput,
)
    requires
        found_score(match_views(old(songs)@), song@.id) + exact_points(
            song@,
            query@,
            query_index as nat,
            search_input@,
        ) <= usize::MAX,
    ensures
        match_views(final(songs)@) == with_found_song(
            match_views(old(songs)@),
            song@,
            exact_points(song@, query@, query_index as nat, search_input@),
            set![query@.matched_query],
        ),
{
    let ghost before = songs@;
    let score = exact_song_score(&song, query, query_index, search_input);
    let (found, mut matched_queries) = take_found(songs, song.id);
    let ghost earlier = matched_queries@;
    matched_queries.insert(query.matched_query.clone());
    assert(matched_queries@ =~= earlier.union(set![query@.matched_query]));
    put_found(songs, song, found + score, matched_queries);
    assert(match_views(songs@) =~= with_found_song(
        match_views(before),
        song@,
        exact_points(song@, query@, query_index as nat, search_input@),
        set![query@.matched_query],
    ));
}

/// A song that fuzzy queries found.
#[derive(Debug)]
pub struct SearchSongHitAccumulator {
    pub id: u64,
    pub title: String,
    pub score: usize,
    pub matched_queries: TextSet,
}

/// What a `SearchSongHitAccumulator` holds.
#[verifier::ext_equal]
pub struct HitView {
    pub id: u64,
    pub title: Seq<char>,
    pub score: nat,
    pub matched_queries: Set<Seq<char>>,
}

impl View for SearchSongHitAccumulator {
    type V = HitView;

    open spec fn view(&self) -> HitView {
        HitView {
            id: self.id,
            title: self.title@,
            score: self.score as nat,
            matched_queries: self.matched_queries@,
        }
    }
}

/// Adds the record of a song that fuzzy queries found.
pub fn merge_fuzzy_song(
    songs: &mut HashMap<u64, SongMatch>,
    song: SongRecord,
    hit: SearchSongHitAccumulator,
    search_input: &SearchInput,
)
    requires
        found_score(match_views(old(songs)@), song@.id) + detail_points(
            song@,
            hit@.score,
            search_input@,
        ) <= usize::MAX,
    ensures
        match_views(final(songs)@) == with_found_song(
            match_views(old(songs)@),
            song@,
            detail_points(song@, hit@.score, search_input@),
            hit@.matched_queries,
        ),
{
    let ghost before = songs@;
    let score: usize = hit.score + title_match_score(
        song.title.as_str(),
        search_input.source_title.as_str(),
    ) + artist_match_score(&song.artists, borrowed(&search_input.source_artist));
    let (found, mut matched_queries) = take_found(songs, song.id);
    matched_queries.extend(&hit.matched_queries);
    put_found(songs, song, found + score, matched_queries);
    assert(match_views(songs@) =~= with_found_song(
        match_views(before),
        song@,
        detail_points(song@, hit@.score, search_input@),
        hit@.matched_queries,
    ));
}

// ---------------------------------------------------------------------------
// Songs of an exact query
// ---------------------------------------------------------------------------

/// The found songs after the exact query at `query_index` found a list of
/// songs, or nothing where a score does not fit.
pub open spec fn with_exact_songs(
    songs: Map<u64, SongMatchView>,
    list: Seq<SongView>,
    query: ExactQueryView,
    query_index: nat,
    input: SearchInputView,
) -> Option<Map<u64, SongMatchView>>
    decreases list.len(),
{
    if list.len() == 0 {
        Some(songs)
    } else {
        match with_exact_songs(songs, list.drop_last(), query, query_index, input) {
            Some(before) => {
                let song = list.last();
                let points = exact_points(song, query, query_index, input);
                if found_score(before, song.id) + points <= usize::MAX {
                    Some(with_found_song(before, song, points, set![query.matched_query]))
                } else {
                    None
                }
            },
            None => None,
        }
    }
}

proof fn lemma_exact_songs_prefix(
    songs: Map<u64, SongMatchView>,
    list: Seq<SongView>,
    query: ExactQueryView,
    query_index: nat,
    input: SearchInputView,
    count: int,
)
    requires
        0 <= count <= list.len(),
        with_exact_songs(songs, list.take(count), query, query_index, input) is None,
    ensures
        with_exact_songs(songs, list, query, query_index, input) is None,
    decreases list.len() - count,
{
    if count == list.len() {
        assert(list.take(count) =~= list);
    } else {
        assert(list.take(count + 1).drop_last() =~= list.take(count));
        lemma_exact_songs_prefix(songs, list, query, query_index, input, count + 1);
    }
}

fn found_score_of(songs: &HashMap<u64, SongMatch>, id: u64) -> (score: usize)
    ensures
        score == found_score(match_views(songs@), id),
{
    match songs.get(&id) {
        Some(found) => found.score,
        None => 0,
    }
}

/// Adds the songs that the exact query at `query_index` found, and says whether
/// all scores fit.
pub fn merge_exact_songs(
    songs: &mut HashMap<u64, SongMatch>,
    list: Vec<SongRecord>,
    query: &ExactQuery,
    query_index: usize,
    search_input: &SearchInput,
) -> (fits: bool)
    ensures
        fits <==> with_exact_songs(
            match_views(old(songs)@),
            song_views(list@),
            query@,
            query_index as nat,
            search_input@,
        ) is Some,
        fits ==> Some(match_views(final(songs)@)) == with_exact_songs(
            match_views(old(songs)@),
            song_views(list@),
            query@,
            query_index as nat,
            search_input@,
        ),
{
    let ghost before = match_views(songs@);
    let ghost records = list@;
    let ghost all = song_views(list@);
    assert(all.take(0) =~= Seq::empty());
    for song in it: list
        invariant
            it.seq() == records,
            all == song_views(records),
            before == match_views(old(songs)@),
            Some(match_views(songs@)) == with_exact_songs(
                before,
                all.take(it.index()),
                query@,
                query_index as nat,
                search_input@,
            ),
    {
        let ghost at = it.index();
        proof {
            assert(all.take(at + 1).drop_last() =~= all.take(at));
            assert(all.take(at + 1).last() == song@);
        }
        let earlier = found_score_of(songs, song.id);
        let fits = match checked_exact_song_score(&song, query, query_index, search_input) {
            Some(score) => earlier.checked_add(score).is_some(),
            None => false,
        };
        if !fits {
            proof {
                lemma_exact_songs_prefix(
                    before,
                    all,
                    query@,
                    query_index as nat,
                    search_input@,
                    at + 1,
                );
            }
            return false;
        }
        merge_exact_song(songs, song, query, query_index, search_input);
    }
    assert(all.take(all.len() as int) =~= all);
    true
}

/// Adds the record of a song that fuzzy queries found, and says whether its
/// score fits; where it does not, nothing changes.
pub fn checked_merge_fuzzy_song(
    songs: &mut HashMap<u64, SongMatch>,
    song: SongRecord,
    hit: SearchSongHitAccumulator,
    search_input: &SearchInput,
) -> (fits: bool)
    ensures
        fits <==> found_score(match_views(old(songs)@), song@.id) + detail_points(
            song@,
            hit@.score,
            search_input@,
        ) <= usize::MAX,
        fits ==> match_views(final(songs)@) == with_found_song(
            match_views(old(songs)@),
            song@,
            detail_points(song@, hit@.score, search_input@),
            hit@.matched_queries,
        ),
        !fits ==> final(songs)@ == old(songs)@,
{
    let earlier = found_score_of(songs, song.id);
    let by_title = title_match_score(song.title.as_str(), search_input.source_title.as_str());
    let by_artist = artist_match_score(&song.artists, borrowed(&search_input.source_artist));
    let sum = checked_sum(
        checked_sum(checked_sum(Some(hit.score), by_title), by_artist),
        earlier,
    );
    if sum.is_none() {
        return false;
    }
    merge_fuzzy_song(songs, song, hit, search_input);
    true
}

// ---------------------------------------------------------------------------
// Hits of fuzzy queries
// ---------------------------------------------------------------------------

/// What the hits of a map hold, by the same keys.
pub open spec fn accumulated_views(hits: Map<u64, SearchSongHitAccumulator>) -> Map<u64, HitView> {
    hits.map_values(|hit: SearchSongHitAccumulator| hit@)
}

/// The score of the song with an id, 0 where it was not found yet.
pub open spec fn hit_score(hits: Map<u64, HitView>, id: u64) -> nat {
    if hits.contains_key(id) {
        hits[id].score
    } else {
        0
    }
}

/// The queries that found the song with an id.
pub open spec fn hit_queries(hits: Map<u64, HitView>, id: u64) -> Set<Seq<char>> {
    if hits.contains_key(id) {
        hits[id].matched_queries
    } else {
        Set::empty()
    }
}

/// The hits after one more, for `points`: its newest title is kept, scores and
/// queries add up.
pub open spec fn with_hit(
    hits: Map<u64, HitView>,
    hit: SearchSongHitView,
    query: Seq<char>,
    points: nat,
) -> Map<u64, HitView> {
    hits.insert(
        hit.id,
        HitView {
            id: hit.id,
            title: hit.title,
            score: hit_score(hits, hit.id) + points,
            matched_queries: hit_queries(hits, hit.id).insert(query),
        },
    )
}

/// The hits after the fuzzy query at `query_index` found a list of songs, or
/// nothing where a score does not fit.
pub open spec fn with_hit_list(
    hits: Map<u64, HitView>,
    list: Seq<SearchSongHitView>,
    query: Seq<char>,
    query_index: nat,
) -> Option<Map<u64, HitView>>
    decreases list.len(),
{
    if list.len() == 0 {
        Some(hits)
    } else {
        match with_hit_list(hits, list.drop_last(), query, query_index) {
            Some(before) => {
                let hit = list.last();
                let points = fuzzy_points(
                    hit.title,
                    query,
                    (list.len() - 1) as nat,
                    query_index,
                );
                if hit_score(before, hit.id) + points <= usize::MAX {
                    Some(with_hit(before, hit, query, points))
                } else {
                    None
                }
            },
            None => None,
        }
    }
}

/// The songs of a fuzzy query that count.
pub open spec fn counted_hits(list: Seq<SearchSongHitView>) -> Seq<SearchSongHitView> {
    if list.len() > MAX_FUZZY_RESULTS_PER_QUERY {
        list.take(MAX_FUZZY_RESULTS_PER_QUERY as int)
    } else {
        list
    }
}

proof fn lemma_hit_list_prefix(
    hits: Map<u64, HitView>,
    list: Seq<SearchSongHitView>,
    query: Seq<char>,
    query_index: nat,
    count: int,
)
    requires
        0 <= count <= list.len(),
        with_hit_list(hits, list.take(count), query, query_index) is None,
    ensures
        with_hit_list(hits, list, query, query_index) is None,
    decreases list.len() - count,
{
    if count == list.len() {
        assert(list.take(count) =~= list);
    } else {
        assert(list.take(count + 1).drop_last() =~= list.take(count));
        lemma_hit_list_prefix(hits, list, query, query_index, count + 1);
    }
}

/// Adds a song that a fuzzy query found, and says whether its score fits; where
/// it does not, nothing is promised of the hits.
fn merge_hit(
    hits: &mut HashMap<u64, SearchSongHitAccumulator>,
    song: &SearchSongHit,
    query: &str,
    position: usize,
    query_index: usize,
) -> (fits: bool)
    ensures
        fits <==> hit_score(accumulated_views(old(hits)@), song@.id) + fuzzy_points(
            song@.title,
            query@,
            position as nat,
            query_index as nat,
        ) <= usize::MAX,
        fits ==> accumulated_views(final(hits)@) == with_hit(
            accumulated_views(old(hits)@),
            song@,
            query@,
            fuzzy_points(song@.title, query@, position as nat, query_index as nat),
        ),
{
    let ghost before = hits@;
    let (earlier, mut matched_queries) = match hits.remove(&song.id) {
        Some(hit) => (hit.score, hit.matched_queries),
        None => (0, TextSet::new()),
    };
    let points = match checked_fuzzy_hit_score(
        song.title.as_str(),
        query,
        position,
        query_index,
    ) {
        Some(points) => points,
        None => {
            return false;
        },
    };
    let score = match earlier.checked_add(points) {
        Some(score) => score,
        None => {
            return false;
        },
    };
    matched_queries.insert(query.to_string());
    let ghost added = SearchSongHitAccumulator {
        id: song.id,
        title: song.title,
        score,
        matched_queries,
    };
    hits.insert(
        song.id,
        SearchSongHitAccumulator {
            id: song.id,
            title: song.title.clone(),
            score,
            matched_queries,
        },
    );
    assert(accumulated_views(hits@) =~= accumulated_views(before).insert(song.id, added@));
    true
}

/// Adds the songs that the fuzzy query at `query_index` found, as far as they
/// count, and says whether all scores fit.
pub fn merge_hits(
    hits: &mut HashMap<u64, SearchSongHitAccumulator>,
    list: &Vec<SearchSongHit>,
    query: &str,
    query_index: usize,
) -> (fits: bool)
    ensures
        fits <==> with_hit_list(
            accumulated_views(old(hits)@),
            counted_hits(hit_views(list@)),
            query@,
            query_index as nat,
        ) is Some,
        fits ==> Some(accumulated_views(final(hits)@)) == with_hit_list(
            accumulated_views(old(hits)@),
            counted_hits(hit_views(list@)),
            query@,
            query_index as nat,
        ),
{
    let ghost before = accumulated_views(hits@);
    let ghost counted = counted_hits(hit_views(list@));
    let mut position: usize = 0;
    assert(counted.take(0) =~= Seq::empty());
    while position < list.len() && position < MAX_FUZZY_RESULTS_PER_QUERY
        invariant
            position <= counted.len(),
            counted == counted_hits(hit_views(list@)),
            before == accumulated_views(old(hits)@),
            Some(accumulated_views(hits@)) == with_hit_list(
                before,
                counted.take(position as int),
                query@,
                query_index as nat,
            ),
        decreases list@.len() - position,
    {
        proof {
            assert(counted.take(position + 1).drop_last() =~= counted.take(position as int));
            assert(counted.take(position + 1).last() == list@[position as int]@);
        }
        if !merge_hit(hits, &list[position], query, position, query_index) {
            proof {
                lemma_hit_list_prefix(
                    before,
                    counted,
                    query@,
                    query_index as nat,
                    position + 1,
                );
            }
            return false;
        }
        position = position + 1;
    }
    assert(counted.take(counted.len() as int) =~= counted);
    true
}

/// Whether a hit stands before another: the higher score first, then by title
/// and id.
pub open spec fn hit_before(left: HitView, right: HitView) -> bool {
    if left.score != right.score {
        left.score > right.score
    } else if left.title != right.title {
        text_before(left.title, right.title)
    } else {
        left.id < right.id
    }
}

proof fn lemma_hit_transitive(a: HitView, b: HitView, c: HitView)
    requires
        hit_before(a, b),
        hit_before(b, c),
    ensures
        hit_before(a, c),
{
    lemma_before_irreflexive(a.title);
    if text_before(a.title, b.title) && text_before(b.title, c.title) {
        lemma_before_transitive(a.title, b.title, c.title);
    }
}

impl Ranked for SearchSongHitAccumulator {
    open spec fn ranks_before(&self, other: &Self) -> bool {
        hit_before(self@, other@)
    }

    proof fn lemma_ranks_transitive(a: &Self, b: &Self, c: &Self) {
        lemma_hit_transitive(a@, b@, c@);
    }

    proof fn lemma_ranks_irreflexive(a: &Self) {
    }

    fn is_ranked_before(&self, other: &Self) -> (before: bool) {
        if self.score != other.score {
            return self.score > other.score;
        }
        if !same_text(self.title.as_str(), other.title.as_str()) {
            return is_before(self.title.as_str(), other.title.as_str());
        }
        self.id < other.id
    }
}

/// Whether hits stand under their ids.
pub open spec fn hits_keyed_by_id(hits: Map<u64, HitView>) -> bool {
    forall|id: u64| #[trigger] hits.contains_key(id) ==> hits[id].id == id
}

/// Whether `list` holds the hits of a map in their order.
pub open spec fn lists_hits(list: Seq<HitView>, hits: Map<u64, HitView>) -> bool {
    &&& forall|i: int, j: int|
        0 <= i < j < list.len() ==> hit_before(#[trigger] list[i], #[trigger] list[j])
    &&& list.to_set() == hits.values()
}

/// The hits of a map in their order.
pub open spec fn ranked_hits(hits: Map<u64, HitView>) -> Seq<HitView> {
    choose|list: Seq<HitView>| #[trigger] lists_hits(list, hits)
}

/// Only one list holds the hits of a map in their order.
pub proof fn lemma_ranked_hits(list: Seq<HitView>, hits: Map<u64, HitView>)
    requires
        lists_hits(list, hits),
    ensures
        ranked_hits(hits) == list,
{
    let ranked = ranked_hits(hits);
    assert(lists_hits(ranked, hits));
    let before = |a: HitView, b: HitView| hit_before(a, b);
    assert forall|a: HitView, b: HitView, c: HitView|
        #[trigger] before(a, b) && #[trigger] before(b, c) implies before(a, c) by {
        lemma_hit_transitive(a, b, c);
    }
    assert(strictly_sorted(ranked, before));
    assert(strictly_sorted(list, before));
    lemma_sorted_unique(ranked, list, before);
}

proof fn lemma_hit_total(a: HitView, b: HitView)
    requires
        a.id != b.id,
    ensures
        hit_before(a, b) || hit_before(b, a),
{
    if a.title != b.title {
        lemma_before_total(a.title, b.title);
    }
}

/// The place of a hit among others in their order.
proof fn lemma_hit_place(list: Seq<HitView>, hit: HitView) -> (at: int)
    requires
        forall|i: int, j: int|
            0 <= i < j < list.len() ==> hit_before(#[trigger] list[i], #[trigger] list[j]),
        forall|i: int| 0 <= i < list.len() ==> (#[trigger] list[i]).id != hit.id,
    ensures
        0 <= at <= list.len(),
        forall|k: int| 0 <= k < at ==> hit_before(#[trigger] list[k], hit),
        forall|k: int| at <= k < list.len() ==> hit_before(hit, #[trigger] list[k]),
    decreases list.len(),
{
    if list.len() == 0 {
        0
    } else {
        let last = list[list.len() - 1];
        lemma_hit_total(last, hit);
        if hit_before(last, hit) {
            assert forall|k: int| 0 <= k < list.len() implies hit_before(
                #[trigger] list[k],
                hit,
            ) by {
                if k < list.len() - 1 {
                    lemma_hit_transitive(list[k], last, hit);
                }
            }
            list.len() as int
        } else {
            let shorter = list.drop_last();
            assert forall|i: int, j: int| 0 <= i < j < shorter.len() implies hit_before(
                #[trigger] shorter[i],
                #[trigger] shorter[j],
            ) by {
                assert(hit_before(list[i], list[j]));
            }
            assert forall|i: int| 0 <= i < shorter.len() implies (#[trigger] shorter[i]).id
                != hit.id by {
                assert(shorter[i] == list[i]);
            }
            let at = lemma_hit_place(shorter, hit);
            assert forall|k: int| 0 <= k < at implies hit_before(#[trigger] list[k], hit) by {
                assert(shorter[k] == list[k]);
            }
            assert forall|k: int| at <= k < list.len() implies hit_before(
                hit,
                #[trigger] list[k],
            ) by {
                if k < shorter.len() {
                    assert(shorter[k] == list[k]);
                }
            }
            at
        }
    }
}

/// Hits that stand under their ids can be listed in their order.
pub proof fn lemma_ranked_hits_list(hits: Map<u64, HitView>)
    requires
        hits.dom().finite(),
        hits_keyed_by_id(hits),
    ensures
        lists_hits(ranked_hits(hits), hits),
    decreases hits.dom().len(),
{
    if hits.dom().len() == 0 {
        let list = Seq::<HitView>::empty();
        assert(list.to_set() =~= hits.values());
        assert(lists_hits(list, hits));
    } else {
        let id = hits.dom().choose();
        let hit = hits[id];
        let rest = hits.remove(id);
        assert(hits.contains_key(id));
        lemma_ranked_hits_list(rest);
        let list = ranked_hits(rest);
        assert forall|i: int| 0 <= i < list.len() implies (#[trigger] list[i]).id != hit.id by {
            assert(list.to_set().contains(list[i]));
            let other = choose|other: u64|
                rest.contains_key(other) && #[trigger] rest[other] == list[i];
            assert(hits.contains_key(other));
        }
        let at = lemma_hit_place(list, hit);
        let longer = list.insert(at, hit);
        assert forall|i: int, j: int| 0 <= i < j < longer.len() implies hit_before(
            #[trigger] longer[i],
            #[trigger] longer[j],
        ) by {
            let a = if i < at { i } else { i - 1 };
            let b = if j < at { j } else { j - 1 };
            if i != at {
                assert(longer[i] == list[a]);
            }
            if j != at {
                assert(longer[j] == list[b]);
            }
        }
        assert forall|other: HitView| longer.to_set().contains(other) == hits.values().contains(
            other,
        ) by {
            if longer.contains(other) {
                let k = longer.index_of(other);
                if k == at {
                    assert(hits[id] == other);
                } else {
                    assert(list[if k < at { k } else { k - 1 }] == other);
                    assert(rest.values().contains(other));
                    let key = choose|key: u64|
                        rest.contains_key(key) && #[trigger] rest[key] == other;
                    assert(hits.contains_key(key) && hits[key] == other);
                }
            }
            if hits.values().contains(other) {
                let key = choose|key: u64| hits.contains_key(key) && #[trigger] hits[key] == other;
                if key == id {
                    assert(longer[at] == other);
                } else {
                    assert(rest.contains_key(key) && rest[key] == other);
                    assert(rest.values().contains(other));
                    assert(list.to_set().contains(other));
                    let k = list.index_of(other);
                    assert(longer[if k < at { k } else { k + 1 }] == other);
                }
            }
        }
        assert(longer.to_set() =~= hits.values());
        assert(lists_hits(longer, hits));
    }
}

/// What the hits of a list hold.
pub open spec fn hit_list_views(hits: Seq<SearchSongHitAccumulator>) -> Seq<HitView> {
    Seq::new(hits.len(), |i: int| hits[i]@)
}

proof fn lemma_hits_listed(
    order: Seq<u64>,
    hits: Map<u64, HitView>,
    walked: Seq<SearchSongHitAccumulator>,
    sorted: Seq<SearchSongHitAccumulator>,
)
    requires
        walks(order, hits),
        hits_keyed_by_id(hits),
        walked.len() == order.len(),
        forall|i: int| 0 <= i < walked.len() ==> (#[trigger] walked[i])@ == hits[order[i]],
        sorted.to_multiset() == walked.to_multiset(),
        in_rank_order(sorted),
    ensures
        lists_hits(hit_list_views(sorted), hits),
{
    let list = hit_list_views(sorted);
    assert forall|i: int| 0 <= i < order.len() implies hits.contains_key(#[trigger] order[i]) by {
        assert(order.to_set().contains(order[i]));
    }
    assert(walked.no_duplicates()) by {
        assert forall|i: int, j: int|
            0 <= i < walked.len() && 0 <= j < walked.len() && i != j implies walked[i]
            != walked[j] by {
            assert(order[i] != order[j]);
            assert(walked[i]@.id == order[i] && walked[j]@.id == order[j]);
        }
    }
    lemma_same_multiset(walked, sorted);
    assert forall|i: int, j: int| 0 <= i < j < list.len() implies hit_before(
        #[trigger] list[i],
        #[trigger] list[j],
    ) by {
        assert(sorted[i] != sorted[j]);
        assert(!sorted[j].ranks_before(&sorted[i]));
        assert(sorted.contains(sorted[i]) && sorted.contains(sorted[j]));
        let a = walked.index_of(sorted[i]);
        let b = walked.index_of(sorted[j]);
        assert(walked[a]@.id == order[a] && walked[b]@.id == order[b]);
        if list[i].title != list[j].title {
            lemma_before_total(list[i].title, list[j].title);
        }
    }
    assert forall|hit: HitView| list.to_set().contains(hit) == hits.values().contains(hit) by {
        if list.contains(hit) {
            let i = list.index_of(hit);
            assert(sorted.contains(sorted[i]));
            let k = walked.index_of(sorted[i]);
            assert(walked[k]@ == hits[order[k]]);
            assert(hits.contains_key(order[k]));
        }
        if hits.values().contains(hit) {
            let id = choose|id: u64| hits.contains_key(id) && #[trigger] hits[id] == hit;
            assert(order.to_set().contains(id));
            let k = order.index_of(id);
            assert(walked.contains(walked[k]));
            let i = sorted.index_of(walked[k]);
            assert(list[i] == hit);
        }
    }
    assert(list.to_set() =~= hits.values());
}

/// The hits of a map in their order.
pub fn rank_hits(hits: HashMap<u64, SearchSongHitAccumulator>) -> (ranked: Vec<
    SearchSongHitAccumulator,
>)
    requires
        hits_keyed_by_id(accumulated_views(hits@)),
    ensures
        hit_list_views(ranked@) == ranked_hits(accumulated_views(hits@)),
        lists_hits(hit_list_views(ranked@), accumulated_views(hits@)),
{
    let ghost all = hits@;
    let ghost texts = accumulated_views(hits@);
    let order = walked_keys(&hits);
    let mut rest = hits;
    let mut walked: Vec<SearchSongHitAccumulator> = Vec::new();
    let mut i: usize = 0;
    while i < order.len()
        invariant
            i <= order@.len(),
            walks(order@, all),
            texts == accumulated_views(all),
            walked@.len() == i,
            forall|k: int| 0 <= k < i ==> (#[trigger] walked@[k])@ == texts[order@[k]],
            forall|k: int|
                i <= k < order@.len() ==> rest@.contains_key(#[trigger] order@[k])
                    && rest@[order@[k]] == all[order@[k]],
            forall|k: int| 0 <= k < order@.len() ==> all.contains_key(#[trigger] order@[k]),
        decreases order@.len() - i,
    {
        let id = order[i];
        assert(rest@.contains_key(order@[i as int]));
        match rest.remove(&id) {
            Some(hit) => {
                assert(hit@ == texts[id]);
                walked.push(hit);
            },
            None => {
                assert(false);
            },
        }
        i = i + 1;
    }
    let ghost list = walked@;
    let sorted = sort_by_rank(walked);
    proof {
        assert(texts.dom() =~= all.dom());
        lemma_hits_listed(order@, texts, list, sorted@);
        lemma_ranked_hits(hit_list_views(sorted@), texts);
    }
    sorted
}

// ---------------------------------------------------------------------------
// Laws of scores
// ---------------------------------------------------------------------------

/// The score of a song that an exact query found: 90 points and those for its titles
/// and artists, and 4 more for each place by which the query comes before the
/// seventh.
pub proof fn law_exact_scores(
    song: SongView,
    query: ExactQueryView,
    query_index: nat,
    input: SearchInputView,
)
    ensures
        query_index < 6 ==> exact_points(song, query, query_index, input) == exact_points(
            song,
            query,
            query_index + 1,
            input,
        ) + 4,
        query_index >= 6 ==> exact_points(song, query, query_index, input) == 90 + title_points(
            song.title,
            query.title,
        ) + title_points(song.title, input.source_title) + source_artist_points(
            song.artists,
            input.source_artist,
        ),
{
}

/// The score of a song that a fuzzy query found: 20 points and those for its title, 4
/// more for each place by which the query comes before the seventh, and 3 more for
/// each place by which the song does.
pub proof fn law_fuzzy_scores(title: Seq<char>, query: Seq<char>, position: nat, query_index: nat)
    ensures
        query_index < 6 ==> fuzzy_points(title, query, position, query_index) == fuzzy_points(
            title,
            query,
            position,
            query_index + 1,
        ) + 4,
        position < 6 ==> fuzzy_points(title, query, position, query_index) == fuzzy_points(
            title,
            query,
            position + 1,
            query_index,
        ) + 3,
        position >= 6 && query_index >= 6 ==> fuzzy_points(title, query, position, query_index)
            == 20 + title_points(title, query),
{
}

/// A song that was looked at keeps the points of the fuzzy queries, and gets those for
/// its title and its artists.
pub proof fn law_detail_scores(song: SongView, hit_score: nat, input: SearchInputView)
    ensures
        detail_points(song, hit_score, input) == hit_score + detail_points(song, 0, input),
        detail_points(song, 0, input) == title_points(song.title, input.source_title)
            + source_artist_points(song.artists, input.source_artist),
{
}

/// A song that is found has at least the points of the find, and is kept with its
/// record and the queries that found it; other songs stay as they are.
pub proof fn law_found_songs_are_kept(
    songs: Map<u64, SongMatchView>,
    song: SongView,
    points: nat,
    queries: Set<Seq<char>>,
    other: u64,
)
    ensures
        ({
            let after = with_found_song(songs, song, points, queries);
            &&& after.contains_key(song.id)
            &&& after[song.id].song == song
            &&& songs.contains_key(song.id) ==> after[song.id].score == songs[song.id].score
                + points && after[song.id].matched_queries =~= songs[song.id].matched_queries.union(
                queries,
            )
            &&& !songs.contains_key(song.id) ==> after[song.id].score == points
                && after[song.id].matched_queries =~= queries
            &&& other != song.id ==> after.contains_key(other) == songs.contains_key(other)
            &&& other != song.id && songs.contains_key(other) ==> after[other] == songs[other]
        }),
{
}

/// The songs of an exact query are all found, and no others are: what they are not
/// among stays as it was.
pub proof fn law_exact_songs_are_found(
    songs: Map<u64, SongMatchView>,
    list: Seq<SongView>,
    query: ExactQueryView,
    query_index: nat,
    input: SearchInputView,
    id: u64,
)
    ensures
        with_exact_songs(songs, list, query, query_index, input) matches Some(found) ==> {
            let among = exists|i: int| 0 <= i < list.len() && (#[trigger] list[i]).id == id;
            &&& found.contains_key(id) <==> songs.contains_key(id) || among
            &&& !among && songs.contains_key(id) ==> found[id] == songs[id]
            &&& among ==> found[id].matched_queries.contains(query.matched_query)
            &&& among && songs.contains_key(id) ==> found[id].score >= songs[id].score
        },
    decreases list.len(),
{
    if list.len() > 0 {
        let shorter = list.drop_last();
        law_exact_songs_are_found(songs, shorter, query, query_index, input, id);
        if exists|i: int| 0 <= i < shorter.len() && (#[trigger] shorter[i]).id == id {
            let i = choose|i: int| 0 <= i < shorter.len() && (#[trigger] shorter[i]).id == id;
            assert(list[i].id == id);
        }
        if list.last().id == id {
            assert(list[list.len() - 1].id == id);
        }
        if exists|i: int| 0 <= i < list.len() && (#[trigger] list[i]).id == id {
            let i = choose|i: int| 0 <= i < list.len() && (#[trigger] list[i]).id == id;
            if i < shorter.len() {
                assert(shorter[i].id == id);
            }
        }
    }
}

/// A song that an exact query found once gets the points of the find, and is kept with
/// its record.
pub proof fn law_exact_song_gets_its_points(
    songs: Map<u64, SongMatchView>,
    list: Seq<SongView>,
    query: ExactQueryView,
    query_index: nat,
    input: SearchInputView,
    at: int,
)
    requires
        0 <= at < list.len(),
        forall|i: int| 0 <= i < list.len() && i != at ==> (#[trigger] list[i]).id != list[at].id,
    ensures
        with_exact_songs(songs, list, query, query_index, input) matches Some(found) ==> {
            let song = list[at];
            let points = exact_points(song, query, query_index, input);
            &&& found.contains_key(song.id)
            &&& found[song.id].song == song
            &&& found[song.id].score == points + if songs.contains_key(song.id) {
                songs[song.id].score
            } else {
                0
            }
            &&& found[song.id].matched_queries =~= (if songs.contains_key(song.id) {
                songs[song.id].matched_queries
            } else {
                Set::empty()
            }).insert(query.matched_query)
        },
    decreases list.len(),
{
    let shorter = list.drop_last();
    let id = list[at].id;
    if at == list.len() - 1 {
        law_exact_songs_are_found(songs, shorter, query, query_index, input, id);
        assert forall|i: int| 0 <= i < shorter.len() implies (#[trigger] shorter[i]).id != id by {
            assert(shorter[i] == list[i]);
        }
    } else {
        assert forall|i: int| 0 <= i < shorter.len() && i != at implies (
        #[trigger] shorter[i]).id != shorter[at].id by {
            assert(shorter[i] == list[i]);
        }
        law_exact_song_gets_its_points(songs, shorter, query, query_index, input, at);
        assert(list[list.len() - 1].id != id);
    }
}

/// A list of songs is found song by song: nothing is lost but where a score does not
/// fit.
pub proof fn law_only_scores_that_do_not_fit_are_lost(
    songs: Map<u64, SongMatchView>,
    list: Seq<SongView>,
    query: ExactQueryView,
    query_index: nat,
    input: SearchInputView,
    song: SongView,
)
    ensures
        with_exact_songs(songs, Seq::empty(), query, query_index, input) == Some(songs),
        with_exact_songs(songs, list, query, query_index, input) matches Some(found) ==> (
        with_exact_songs(songs, list.push(song), query, query_index, input) is Some <==> (
        if found.contains_key(song.id) {
            found[song.id].score
        } else {
            0
        }) + exact_points(song, query, query_index, input) <= usize::MAX),
{
    assert(list.push(song).drop_last() =~= list);
}

/// The first six songs of a fuzzy query count.
pub proof fn law_first_six_hits_count(list: Seq<SearchSongHitView>)
    ensures
        counted_hits(list).len() == if list.len() < 6 {
            list.len()
        } else {
            6
        },
        forall|i: int|
            0 <= i < counted_hits(list).len() ==> #[trigger] counted_hits(list)[i] == list[i],
{
}

/// The songs of a fuzzy query are all among the hits, and what they are not among stays
/// as it was.
pub proof fn law_fuzzy_hits_are_found(
    hits: Map<u64, HitView>,
    list: Seq<SearchSongHitView>,
    query: Seq<char>,
    query_index: nat,
    id: u64,
)
    ensures
        with_hit_list(hits, list, query, query_index) matches Some(found) ==> {
            let among = exists|i: int| 0 <= i < list.len() && (#[trigger] list[i]).id == id;
            &&& found.contains_key(id) <==> hits.contains_key(id) || among
            &&& !among && hits.contains_key(id) ==> found[id] == hits[id]
            &&& among ==> found[id].id == id && found[id].matched_queries.contains(query)
            &&& among && hits.contains_key(id) ==> found[id].score >= hits[id].score
        },
    decreases list.len(),
{
    if list.len() > 0 {
        let shorter = list.drop_last();
        law_fuzzy_hits_are_found(hits, shorter, query, query_index, id);
        if exists|i: int| 0 <= i < shorter.len() && (#[trigger] shorter[i]).id == id {
            let i = choose|i: int| 0 <= i < shorter.len() && (#[trigger] shorter[i]).id == id;
            assert(list[i].id == id);
        }
        if list.last().id == id {
            assert(list[list.len() - 1].id == id);
        }
        if exists|i: int| 0 <= i < list.len() && (#[trigger] list[i]).id == id {
            let i = choose|i: int| 0 <= i < list.len() && (#[trigger] list[i]).id == id;
            if i < shorter.len() {
                assert(shorter[i].id == id);
            }
        }
    }
}

/// A song that a fuzzy query found once gets the points for its place, and is kept
/// under its title.
pub proof fn law_fuzzy_hit_gets_its_points(
    hits: Map<u64, HitView>,
    list: Seq<SearchSongHitView>,
    query: Seq<char>,
    query_index: nat,
    at: int,
)
    requires
        0 <= at < list.len(),
        forall|i: int| 0 <= i < list.len() && i != at ==> (#[trigger] list[i]).id != list[at].id,
    ensures
        with_hit_list(hits, list, query, query_index) matches Some(found) ==> {
            let hit = list[at];
            &&& found.contains_key(hit.id)
            &&& found[hit.id].title == hit.title
            &&& found[hit.id].score == fuzzy_points(hit.title, query, at as nat, query_index)
                + if hits.contains_key(hit.id) {
                hits[hit.id].score
            } else {
                0
            }
            &&& found[hit.id].matched_queries =~= (if hits.contains_key(hit.id) {
                hits[hit.id].matched_queries
            } else {
                Set::empty()
            }).insert(query)
        },
    decreases list.len(),
{
    let shorter = list.drop_last();
    let id = list[at].id;
    if at == list.len() - 1 {
        law_fuzzy_hits_are_found(hits, shorter, query, query_index, id);
        assert forall|i: int| 0 <= i < shorter.len() implies (#[trigger] shorter[i]).id != id by {
            assert(shorter[i] == list[i]);
        }
    } else {
        assert forall|i: int| 0 <= i < shorter.len() && i != at implies (
        #[trigger] shorter[i]).id != shorter[at].id by {
            assert(shorter[i] == list[i]);
        }
        law_fuzzy_hit_gets_its_points(hits, shorter, query, query_index, at);
        assert(list[list.len() - 1].id != id);
    }
}

/// The hits are ranked with the higher score first, then by title, and then by id; none
/// is left out and none is there twice.
pub proof fn law_ranked_hits(hits: Map<u64, HitView>)
    requires
        hits.dom().finite(),
        hits_keyed_by_id(hits),
    ensures
        forall|i: int, j: int|
            0 <= i < j < ranked_hits(hits).len() ==> {
                let first = #[trigger] ranked_hits(hits)[i];
                let second = #[trigger] ranked_hits(hits)[j];
                &&& first.score >= second.score
                &&& first.score == second.score ==> text_before(first.title, second.title) || (
                first.title == second.title && first.id < second.id)
            },
        forall|id: u64| #[trigger]
            hits.contains_key(id) ==> ranked_hits(hits).contains(hits[id]),
        forall|i: int|
            0 <= i < ranked_hits(hits).len() ==> hits.contains_key(
                (#[trigger] ranked_hits(hits)[i]).id,
            ) && hits[ranked_hits(hits)[i].id] == ranked_hits(hits)[i],
        ranked_hits(hits).len() == hits.dom().len(),
{
    lemma_ranked_hits_list(hits);
    let list = ranked_hits(hits);
    assert forall|i: int, j: int| 0 <= i < j < list.len() implies {
        let first = #[trigger] list[i];
        let second = #[trigger] list[j];
        &&& first.score >= second.score
        &&& first.score == second.score ==> text_before(first.title, second.title) || (first.title
            == second.title && first.id < second.id)
    } by {
        assert(hit_before(list[i], list[j]));
    }
    assert forall|id: u64| #[trigger] hits.contains_key(id) implies list.contains(hits[id]) by {
        assert(hits.values().contains(hits[id]));
        assert(list.to_set().contains(hits[id]));
    }
    assert forall|i: int| 0 <= i < list.len() implies hits.contains_key((#[trigger] list[i]).id)
        && hits[list[i].id] == list[i] by {
        assert(list.to_set().contains(list[i]));
        let id = choose|id: u64| hits.contains_key(id) && #[trigger] hits[id] == list[i];
        assert(hits[id].id == id);
    }
    let ids = Seq::new(list.len(), |i: int| list[i].id);
    assert(ids.no_duplicates()) by {
        assert forall|i: int, j: int|
            0 <= i < ids.len() && 0 <= j < ids.len() && i != j implies ids[i] != ids[j] by {
            if ids[i] == ids[j] {
                assert(list[i] == hits[list[i].id] && list[j] == hits[list[j].id]);
                lemma_before_irreflexive(list[i].title);
                if i < j {
                    assert(hit_before(list[i], list[j]));
                } else {
                    assert(hit_before(list[j], list[i]));
                }
            }
        }
    }
    assert forall|id: u64| ids.to_set().contains(id) == hits.dom().contains(id) by {
        if ids.contains(id) {
            let k = ids.index_of(id);
            assert(hits.contains_key(list[k].id));
        }
        if hits.contains_key(id) {
            let k = list.index_of(hits[id]);
            assert(ids[k] == id);
        }
    }
    assert(ids.to_set() =~= hits.dom());
    ids.unique_seq_to_set();
}

/// Where its score fits, one more song of an exact query is found like the others.
pub proof fn law_exact_songs_are_found_one_by_one(
    songs: Map<u64, SongMatchView>,
    list: Seq<SongView>,
    query: ExactQueryView,
    query_index: nat,
    input: SearchInputView,
    song: SongView,
)
    ensures
        with_exact_songs(songs, list, query, query_index, input) matches Some(found) ==> (
        with_exact_songs(songs, list.push(song), query, query_index, input) matches Some(more)
            ==> more == with_found_song(
            found,
            song,
            exact_points(song, query, query_index, input),
            set![query.matched_query],
        )),
        with_exact_songs(songs, list, query, query_index, input) is None ==> with_exact_songs(
            songs,
            list.push(song),
            query,
            query_index,
            input,
        ) is None,
{
    assert(list.push(song).drop_last() =~= list);
}

/// A hit of a fuzzy query has its newest title, and the points and queries of all its
/// finds; other hits stay as they are.
pub proof fn law_hits_are_kept(
    hits: Map<u64, HitView>,
    list: Seq<SearchSongHitView>,
    query: Seq<char>,
    query_index: nat,
    hit: SearchSongHitView,
    other: u64,
)
    ensures
        with_hit_list(hits, Seq::empty(), query, query_index) == Some(hits),
        with_hit_list(hits, list, query, query_index) matches Some(found) ==> {
            let points = fuzzy_points(hit.title, query, list.len(), query_index);
            let earlier = if found.contains_key(hit.id) {
                found[hit.id].score
            } else {
                0
            };
            &&& with_hit_list(hits, list.push(hit), query, query_index) is Some <==> earlier
                + points <= usize::MAX
            &&& with_hit_list(hits, list.push(hit), query, query_index) matches Some(more) ==> {
                &&& more.contains_key(hit.id)
                &&& more[hit.id].id == hit.id
                &&& more[hit.id].title == hit.title
                &&& more[hit.id].score == earlier + points
                &&& more[hit.id].matched_queries =~= (if found.contains_key(hit.id) {
                    found[hit.id].matched_queries
                } else {
                    Set::empty()
                }).insert(query)
                &&& other != hit.id ==> more.contains_key(other) == found.contains_key(other)
                &&& other != hit.id && found.contains_key(other) ==> more[other] == found[other]
            }
        },
        with_hit_list(hits, list, query, query_index) is None ==> with_hit_list(
            hits,
            list.push(hit),
            query,
            query_index,
        ) is None,
{
    assert(list.push(hit).drop_last() =~= list);
}

/// There are finitely many hits as long as finitely many are added.
pub proof fn lemma_hits_stay_finite(
    hits: Map<u64, HitView>,
    list: Seq<SearchSongHitView>,
    query: Seq<char>,
    query_index: nat,
)
    requires
        hits.dom().finite(),
    ensures
        with_hit_list(hits, list, query, query_index) matches Some(found)
            ==> found.dom().finite(),
    decreases list.len(),
{
    if list.len() > 0 {
        lemma_hits_stay_finite(hits, list.drop_last(), query, query_index);
    }
}

/// What was found holds what its fields hold.
pub proof fn law_finds_hold_their_fields(found: SongMatch, hit: SearchSongHitAccumulator)
    ensures
        found@.song == found.song@ && found@.score == found.score && found@.matched_queries
            == found.matched_queries@,
        hit@.id == hit.id && hit@.title == hit.title@ && hit@.score == hit.score
            && hit@.matched_queries == hit.matched_queries@,
{
}

/// What is found under an id is held under it, and nothing else is.
pub proof fn law_maps_hold_all(
    songs: Map<u64, SongMatch>,
    hits: Map<u64, SearchSongHitAccumulator>,
    id: u64,
)
    ensures
        match_views(songs).contains_key(id) <==> songs.contains_key(id),
        songs.contains_key(id) ==> match_views(songs)[id] == songs[id]@,
        accumulated_views(hits).contains_key(id) <==> hits.contains_key(id),
        hits.contains_key(id) ==> accumulated_views(hits)[id] == hits[id]@,
{
}

} // verus!

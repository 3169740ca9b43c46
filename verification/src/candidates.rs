//! From the songs that were found to candidates.

use std::collections::HashMap;

use vstd::prelude::*;

use crate::lookup::{
    api_theme_kind, candidate_views, source_views, theme_label, theme_priority, AnimeRecord,
    AnimeThemeRecord, AnimeThemeView, AnimeView, CandidateSource, CandidateSourceView, SongRecord,
    SongView, ThemeCandidate, ThemeCandidateView, ThemeKind,
};
use crate::order::{
    in_rank_order, is_before, lemma_before_irreflexive, lemma_before_total,
    lemma_before_transitive, sort_by_rank, sorted_listing, text_before, walked_keys, walks, Ranked,
    TextSet,
};
use crate::scoring::artist_names;
use crate::songs::{match_views, SongMatch, SongMatchView};
use crate::text::{join_strings, join_texts, joined2, same_text, views};

verus! {

broadcast use vstd::std_specs::hash::group_hash_axioms;

// ---------------------------------------------------------------------------
// Sources
// ---------------------------------------------------------------------------

/// How a song is named as a source: its title and its artists.
pub open spec fn song_source(song: SongView) -> Seq<char> {
    if song.artists.len() == 0 {
        "AnimeThemes: "@ + song.title
    } else {
        "AnimeThemes: "@ + song.title + " / "@ + join_texts(song.artists, ", "@)
    }
}

/// How a song is named as a source.
pub fn format_song_source(song: &SongRecord) -> (source: String)
    ensures
        source@ == song_source(song@),
{
    let titled = joined2("AnimeThemes: ", song.title.as_str());
    if song.artists.len() == 0 {
        return titled;
    }
    let mut names: Vec<String> = Vec::new();
    let mut i: usize = 0;
    while i < song.artists.len()
        invariant
            i <= song.artists@.len(),
            views(names@) == artist_names(song.artists@).take(i as int),
        decreases song.artists@.len() - i,
    {
        let ghost before = views(names@);
        names.push(song.artists[i].name.clone());
        assert(views(names@) =~= before.push(song.artists@[i as int].name@));
        assert(artist_names(song.artists@).take(i + 1) =~= before.push(
            song.artists@[i as int].name@,
        ));
        i = i + 1;
    }
    assert(artist_names(song.artists@).take(song.artists@.len() as int) =~= artist_names(
        song.artists@,
    ));
    let divided = joined2(titled.as_str(), " / ");
    let joined = join_strings(&names, ", ");
    joined2(divided.as_str(), joined.as_str())
}

/// The page of an anime.
pub open spec fn anime_page(anime: AnimeView) -> Seq<char> {
    "https://animethemes.moe/anime/"@ + anime.slug
}

/// The page of an anime.
pub fn anime_url(anime: &AnimeRecord) -> (url: String)
    ensures
        url@ == anime_page(anime@),
{
    joined2("https://animethemes.moe/anime/", anime.slug.as_str())
}

/// The first three texts of a list, or all where it is shorter.
pub open spec fn first_three(list: Seq<Seq<char>>) -> Seq<Seq<char>> {
    if list.len() > 3 {
        list.take(3)
    } else {
        list
    }
}

/// The first three queries of a set in ascending order.
pub open spec fn queries_summary(queries: Set<Seq<char>>) -> Seq<char> {
    join_texts(first_three(sorted_listing(queries)), " / "@)
}

/// The first three queries of a set in ascending order.
pub fn summarize_queries(queries: &TextSet) -> (summary: String)
    ensures
        summary@ == queries_summary(queries@),
{
    let mut values = queries.to_list();
    let ghost all = views(values@);
    if values.len() > 3 {
        values.truncate(3);
        assert(views(values@) =~= all.take(3));
    }
    join_strings(&values, " / ")
}

// ---------------------------------------------------------------------------
// Uses of songs as themes
// ---------------------------------------------------------------------------

/// What tells candidates apart: the title of the anime and the theme.
#[verifier::ext_equal]
pub struct CandidateKey {
    pub work_title: Seq<char>,
    pub kind: ThemeKind,
}

/// A use of a found song as the theme of an anime.
#[verifier::ext_equal]
pub struct ThemeUse {
    pub key: CandidateKey,
    pub source_key: (u64, u64),
    pub score: nat,
    pub source: CandidateSourceView,
}

/// The use that a theme of a found song is, where its anime is known.
pub open spec fn theme_use(found: SongMatchView, theme: AnimeThemeView) -> Option<ThemeUse> {
    match theme.anime {
        Some(anime) => Some(
            ThemeUse {
                key: CandidateKey {
                    work_title: anime.name,
                    kind: api_theme_kind(theme.theme_type),
                },
                source_key: (found.song.id, theme.id),
                score: found.score,
                source: CandidateSourceView {
                    page_title: song_source(found.song),
                    source_url: anime_page(anime),
                    matched_query: queries_summary(found.matched_queries),
                },
            },
        ),
        None => None,
    }
}

/// The uses that themes of a found song are, in their order.
pub open spec fn song_uses(found: SongMatchView, themes: Seq<AnimeThemeView>) -> Seq<ThemeUse>
    decreases themes.len(),
{
    if themes.len() == 0 {
        Seq::empty()
    } else {
        let before = song_uses(found, themes.drop_last());
        match theme_use(found, themes.last()) {
            Some(last) => before.push(last),
            None => before,
        }
    }
}

/// The uses of found songs, walked in the order of their keys in `order`.
pub open spec fn theme_uses(songs: Map<u64, SongMatchView>, order: Seq<u64>) -> Seq<ThemeUse>
    decreases order.len(),
{
    if order.len() == 0 {
        Seq::empty()
    } else {
        let found = songs[order.last()];
        theme_uses(songs, order.drop_last()) + song_uses(found, found.song.animethemes)
    }
}

/// Whether one of the uses has a source key.
pub open spec fn has_source_key(uses: Seq<ThemeUse>, source_key: (u64, u64)) -> bool {
    exists|i: int| 0 <= i < uses.len() && (#[trigger] uses[i]).source_key == source_key
}

/// The uses with a key, of those with the same source key only the first.
pub open spec fn distinct_uses(uses: Seq<ThemeUse>, key: CandidateKey) -> Seq<ThemeUse>
    decreases uses.len(),
{
    if uses.len() == 0 {
        Seq::empty()
    } else {
        let before = distinct_uses(uses.drop_last(), key);
        if uses.last().key == key && !has_source_key(before, uses.last().source_key) {
            before.push(uses.last())
        } else {
            before
        }
    }
}

/// The sum of the scores of uses.
pub open spec fn total_score(uses: Seq<ThemeUse>) -> nat
    decreases uses.len(),
{
    if uses.len() == 0 {
        0
    } else {
        total_score(uses.drop_last()) + uses.last().score
    }
}

/// The sources of uses.
pub open spec fn use_sources(uses: Seq<ThemeUse>) -> Seq<CandidateSourceView> {
    Seq::new(uses.len(), |i: int| uses[i].source)
}

/// The candidate with a key that uses speak for.
pub open spec fn candidate_of(uses: Seq<ThemeUse>, key: CandidateKey) -> ThemeCandidateView {
    let distinct = distinct_uses(uses, key);
    ThemeCandidateView {
        work_title: key.work_title,
        kind: key.kind,
        score: total_score(distinct),
        sources: use_sources(distinct),
    }
}

/// Whether uses speak for a candidate with a key.
pub open spec fn has_key(uses: Seq<ThemeUse>, key: CandidateKey) -> bool {
    exists|i: int| 0 <= i < uses.len() && (#[trigger] uses[i]).key == key
}

/// Whether the score of each candidate fits.
pub open spec fn scores_fit(uses: Seq<ThemeUse>) -> bool {
    forall|key: CandidateKey|
        #![trigger distinct_uses(uses, key)]
        total_score(distinct_uses(uses, key)) <= usize::MAX
}

/// What tells a candidate apart.
pub open spec fn key_of(candidate: ThemeCandidateView) -> CandidateKey {
    CandidateKey { work_title: candidate.work_title, kind: candidate.kind }
}

// ---------------------------------------------------------------------------
// The order of candidates
// ---------------------------------------------------------------------------

/// What the order of candidates goes by.
#[verifier::ext_equal]
pub struct CandidateRank {
    pub key: CandidateKey,
    pub score: nat,
    pub source_count: nat,
}

/// What the order of candidates goes by, of one candidate.
pub open spec fn rank_of(candidate: ThemeCandidateView) -> CandidateRank {
    CandidateRank {
        key: key_of(candidate),
        score: candidate.score,
        source_count: candidate.sources.len(),
    }
}

/// Whether a rank stands before another: the higher score first, then
/// openings and endings before other themes, then the one with more sources,
/// then by title and label.
pub open spec fn rank_before(left: CandidateRank, right: CandidateRank) -> bool {
    if left.score != right.score {
        left.score > right.score
    } else if theme_priority(left.key.kind) != theme_priority(right.key.kind) {
        theme_priority(left.key.kind) > theme_priority(right.key.kind)
    } else if left.source_count != right.source_count {
        left.source_count > right.source_count
    } else if left.key.work_title != right.key.work_title {
        text_before(left.key.work_title, right.key.work_title)
    } else {
        text_before(theme_label(left.key.kind), theme_label(right.key.kind))
    }
}

/// Whether a candidate stands before another.
pub open spec fn candidate_before(left: ThemeCandidateView, right: ThemeCandidateView) -> bool {
    rank_before(rank_of(left), rank_of(right))
}

proof fn lemma_label_order(left: ThemeKind, right: ThemeKind)
    ensures
        theme_label(left) == theme_label(right) ==> left == right,
{
    reveal_strlit("OP");
    reveal_strlit("ED");
    reveal_strlit("etc.");
    assert("OP"@[0] == 'O' && "ED"@[0] == 'E' && "etc."@[0] == 'e');
}

proof fn lemma_rank_transitive(a: CandidateRank, b: CandidateRank, c: CandidateRank)
    requires
        rank_before(a, b),
        rank_before(b, c),
    ensures
        rank_before(a, c),
{
    let (x, y, z) = (a.key.work_title, b.key.work_title, c.key.work_title);
    let (l, m, n) = (theme_label(a.key.kind), theme_label(b.key.kind), theme_label(c.key.kind));
    lemma_before_irreflexive(x);
    lemma_before_irreflexive(l);
    if text_before(x, y) && text_before(y, z) {
        lemma_before_transitive(x, y, z);
    }
    if text_before(l, m) && text_before(m, n) {
        lemma_before_transitive(l, m, n);
    }
}

proof fn lemma_rank_irreflexive(a: CandidateRank)
    ensures
        !rank_before(a, a),
{
    lemma_before_irreflexive(theme_label(a.key.kind));
}

/// Of two candidates for different keys one stands before the other.
pub proof fn lemma_candidate_total(a: ThemeCandidateView, b: ThemeCandidateView)
    requires
        key_of(a) != key_of(b),
    ensures
        candidate_before(a, b) || candidate_before(b, a),
{
    if a.work_title != b.work_title {
        lemma_before_total(a.work_title, b.work_title);
    } else {
        lemma_label_order(a.kind, b.kind);
        lemma_before_total(theme_label(a.kind), theme_label(b.kind));
    }
}

impl Ranked for ThemeCandidate {
    open spec fn ranks_before(&self, other: &Self) -> bool {
        candidate_before(self@, other@)
    }

    proof fn lemma_ranks_transitive(a: &Self, b: &Self, c: &Self) {
        lemma_rank_transitive(rank_of(a@), rank_of(b@), rank_of(c@));
    }

    proof fn lemma_ranks_irreflexive(a: &Self) {
        lemma_rank_irreflexive(rank_of(a@));
    }

    fn is_ranked_before(&self, other: &Self) -> (before: bool) {
        if self.score != other.score {
            return self.score > other.score;
        }
        let left_priority = self.kind.priority();
        let right_priority = other.kind.priority();
        if left_priority != right_priority {
            return left_priority > right_priority;
        }
        if self.sources.len() != other.sources.len() {
            return self.sources.len() > other.sources.len();
        }
        if !same_text(self.work_title.as_str(), other.work_title.as_str()) {
            return is_before(self.work_title.as_str(), other.work_title.as_str());
        }
        is_before(self.kind.label(), other.kind.label())
    }
}

// ---------------------------------------------------------------------------
// Gathering
// ---------------------------------------------------------------------------

/// Whether `list` holds the candidates that uses speak for, each once, in
/// order.
pub open spec fn lists_candidates(list: Seq<ThemeCandidateView>, uses: Seq<ThemeUse>) -> bool {
    &&& forall|i: int|
        0 <= i < list.len() ==> has_key(uses, key_of(#[trigger] list[i])) && list[i]
            == candidate_of(uses, key_of(list[i]))
    &&& forall|key: CandidateKey| #[trigger]
        has_key(uses, key) ==> exists|i: int|
            0 <= i < list.len() && key_of(#[trigger] list[i]) == key
    &&& forall|i: int, j: int|
        0 <= i < j < list.len() ==> candidate_before(#[trigger] list[i], #[trigger] list[j])
}

/// A candidate in the making.
struct CandidateAccumulator {
    work_title: String,
    kind: ThemeKind,
    score: usize,
    sources: Vec<CandidateSource>,
    source_keys: Vec<(u64, u64)>,
}

impl CandidateAccumulator {
    spec fn key(self) -> CandidateKey {
        CandidateKey { work_title: self.work_title@, kind: self.kind }
    }

    /// Whether this is what the distinct uses of its key come to.
    spec fn gathers(self, distinct: Seq<ThemeUse>) -> bool {
        &&& self.score == total_score(distinct)
        &&& source_views(self.sources@) == use_sources(distinct)
        &&& self.source_keys@ == Seq::new(distinct.len(), |i: int| distinct[i].source_key)
    }

    fn new(work_title: String, kind: ThemeKind) -> (accumulator: CandidateAccumulator)
        ensures
            accumulator.key() == (CandidateKey { work_title: work_title@, kind }),
            accumulator.gathers(Seq::empty()),
    {
        let accumulator = CandidateAccumulator {
            work_title,
            kind,
            score: 0,
            sources: Vec::new(),
            source_keys: Vec::new(),
        };
        assert(source_views(accumulator.sources@) =~= use_sources(Seq::empty()));
        assert(accumulator.source_keys@ =~= Seq::new(
            0,
            |i: int| Seq::<ThemeUse>::empty()[i].source_key,
        ));
        accumulator
    }
}

/// Whether there is one accumulator for each key of the uses, with what the
/// uses come to.
spec fn gathered(accumulators: Seq<CandidateAccumulator>, uses: Seq<ThemeUse>) -> bool {
    &&& forall|i: int|
        0 <= i < accumulators.len() ==> has_key(uses, (#[trigger] accumulators[i]).key())
            && accumulators[i].gathers(distinct_uses(uses, accumulators[i].key()))
    &&& forall|key: CandidateKey| #[trigger]
        has_key(uses, key) ==> exists|i: int|
            0 <= i < accumulators.len() && (#[trigger] accumulators[i]).key() == key
    &&& forall|i: int, j: int|
        0 <= i < j < accumulators.len() ==> (#[trigger] accumulators[i]).key()
            != (#[trigger] accumulators[j]).key()
}

proof fn lemma_has_key_push(uses: Seq<ThemeUse>, last: ThemeUse)
    ensures
        forall|key: CandidateKey| #[trigger]
            has_key(uses.push(last), key) == (has_key(uses, key) || last.key == key),
{
    assert forall|key: CandidateKey| #[trigger]
        has_key(uses.push(last), key) == (has_key(uses, key) || last.key == key) by {
        if has_key(uses, key) {
            let i = choose|i: int| 0 <= i < uses.len() && (#[trigger] uses[i]).key == key;
            assert(uses.push(last)[i].key == key);
        }
        if last.key == key {
            assert(uses.push(last)[uses.len() as int].key == key);
        }
        if has_key(uses.push(last), key) {
            let i = choose|i: int|
                0 <= i < uses.push(last).len() && (#[trigger] uses.push(last)[i]).key == key;
            if i < uses.len() {
                assert(uses[i].key == key);
            }
        }
    }
}

proof fn lemma_distinct_push(uses: Seq<ThemeUse>, last: ThemeUse, key: CandidateKey)
    ensures
        distinct_uses(uses.push(last), key) == if last.key == key && !has_source_key(
            distinct_uses(uses, key),
            last.source_key,
        ) {
            distinct_uses(uses, key).push(last)
        } else {
            distinct_uses(uses, key)
        },
{
    assert(uses.push(last).drop_last() =~= uses);
}

proof fn lemma_distinct_without_key(uses: Seq<ThemeUse>, key: CandidateKey)
    requires
        !has_key(uses, key),
    ensures
        distinct_uses(uses, key) == Seq::<ThemeUse>::empty(),
    decreases uses.len(),
{
    if uses.len() > 0 {
        assert(uses[uses.len() - 1].key != key);
        assert(uses =~= uses.drop_last().push(uses.last()));
        lemma_has_key_push(uses.drop_last(), uses.last());
        lemma_distinct_without_key(uses.drop_last(), key);
    }
}

/// The score that the uses of a key come to only grows with more uses.
proof fn lemma_total_grows(uses: Seq<ThemeUse>, more: Seq<ThemeUse>, key: CandidateKey)
    ensures
        total_score(distinct_uses(uses, key)) <= total_score(distinct_uses(uses + more, key)),
    decreases more.len(),
{
    if more.len() == 0 {
        assert(uses + more =~= uses);
    } else {
        let shorter = uses + more.drop_last();
        lemma_total_grows(uses, more.drop_last(), key);
        assert(uses + more =~= shorter.push(more.last()));
        lemma_distinct_push(shorter, more.last(), key);
        let before = distinct_uses(shorter, key);
        assert(before.push(more.last()).drop_last() =~= before);
    }
}

fn find_accumulator(
    accumulators: &Vec<CandidateAccumulator>,
    work_title: &str,
    kind: ThemeKind,
) -> (at: usize)
    ensures
        at <= accumulators@.len(),
        at < accumulators@.len() ==> accumulators@[at as int].key() == (CandidateKey {
            work_title: work_title@,
            kind,
        }),
        forall|i: int|
            0 <= i < at ==> (#[trigger] accumulators@[i]).key() != (CandidateKey {
                work_title: work_title@,
                kind,
            }),
{
    let mut at: usize = 0;
    while at < accumulators.len() && !(accumulators[at].kind == kind && same_text(
        accumulators[at].work_title.as_str(),
        work_title,
    ))
        invariant
            at <= accumulators@.len(),
            forall|i: int|
                0 <= i < at ==> (#[trigger] accumulators@[i]).key() != (CandidateKey {
                    work_title: work_title@,
                    kind,
                }),
        decreases accumulators@.len() - at,
    {
        at = at + 1;
    }
    at
}

fn has_pair(pairs: &Vec<(u64, u64)>, pair: (u64, u64)) -> (found: bool)
    ensures
        found == pairs@.contains(pair),
{
    let mut i: usize = 0;
    while i < pairs.len()
        invariant
            i <= pairs@.len(),
            forall|k: int| 0 <= k < i ==> #[trigger] pairs@[k] != pair,
        decreases pairs@.len() - i,
    {
        if pairs[i].0 == pair.0 && pairs[i].1 == pair.1 {
            assert(pairs@[i as int] == pair);
            return true;
        }
        i = i + 1;
    }
    false
}

proof fn lemma_gathers_source_key(
    accumulator: CandidateAccumulator,
    distinct: Seq<ThemeUse>,
    source_key: (u64, u64),
)
    requires
        accumulator.gathers(distinct),
    ensures
        accumulator.source_keys@.contains(source_key) == has_source_key(distinct, source_key),
{
    if accumulator.source_keys@.contains(source_key) {
        let i = accumulator.source_keys@.index_of(source_key);
        assert(distinct[i].source_key == source_key);
    }
    if has_source_key(distinct, source_key) {
        let i = choose|i: int|
            0 <= i < distinct.len() && (#[trigger] distinct[i]).source_key == source_key;
        assert(accumulator.source_keys@[i] == source_key);
    }
}

proof fn lemma_gathered_step(
    before: Seq<CandidateAccumulator>,
    after: Seq<CandidateAccumulator>,
    uses: Seq<ThemeUse>,
    last: ThemeUse,
    at: int,
)
    requires
        gathered(before, uses),
        0 <= at <= before.len(),
        at < before.len() ==> before[at].key() == last.key,
        forall|i: int| 0 <= i < at ==> (#[trigger] before[i]).key() != last.key,
        after.len() == if at < before.len() { before.len() } else { before.len() + 1 },
        forall|i: int| 0 <= i < before.len() && i != at ==> after[i] == #[trigger] before[i],
        after[at].key() == last.key,
        after[at].gathers(distinct_uses(uses.push(last), last.key)),
    ensures
        gathered(after, uses.push(last)),
{
    let longer = uses.push(last);
    lemma_has_key_push(uses, last);
    assert forall|i: int| 0 <= i < after.len() implies has_key(
        longer,
        (#[trigger] after[i]).key(),
    ) && after[i].gathers(distinct_uses(longer, after[i].key())) by {
        if i != at {
            assert(after[i] == before[i]);
            assert(before[i].key() != last.key) by {
                if i > at {
                    assert(before[at].key() != before[i].key());
                }
            }
            lemma_distinct_push(uses, last, before[i].key());
        }
    }
    assert forall|key: CandidateKey| #[trigger] has_key(longer, key) implies exists|i: int|
        0 <= i < after.len() && (#[trigger] after[i]).key() == key by {
        if key == last.key {
            assert(after[at].key() == key);
        } else {
            let i = choose|i: int|
                0 <= i < before.len() && (#[trigger] before[i]).key() == key;
            assert(after[i].key() == key);
        }
    }
    assert forall|i: int, j: int| 0 <= i < j < after.len() implies (#[trigger] after[i]).key()
        != (#[trigger] after[j]).key() by {
        if i != at {
            assert(after[i] == before[i]);
        }
        if j != at {
            assert(after[j] == before[j]);
            if i == at {
                assert(before[at].key() != before[j].key());
            }
        }
    }
}

/// Adds a use; where the score no longer fits, says so.
fn add_use(
    accumulators: &mut Vec<CandidateAccumulator>,
    found: &SongMatch,
    theme: &AnimeThemeRecord,
    anime: &AnimeRecord,
    Ghost(uses): Ghost<Seq<ThemeUse>>,
) -> (fits: bool)
    requires
        gathered(old(accumulators)@, uses),
        theme.anime == Some(*anime),
    ensures
        fits ==> gathered(final(accumulators)@, uses.push(theme_use(found@, theme@).unwrap())),
        !fits ==> !scores_fit(uses.push(theme_use(found@, theme@).unwrap())),
{
    let ghost last = theme_use(found@, theme@).unwrap();
    let ghost before = accumulators@;
    let kind = ThemeKind::from_api_type(theme.theme_type.as_str());
    let at = find_accumulator(accumulators, anime.name.as_str(), kind);
    let mut accumulator = CandidateAccumulator::new(anime.name.clone(), kind);
    if at < accumulators.len() {
        std::mem::swap(&mut accumulator, &mut accumulators[at]);
    }
    let ghost distinct = distinct_uses(uses, last.key);
    proof {
        if at == before.len() {
            if has_key(uses, last.key) {
                let i = choose|i: int|
                    0 <= i < before.len() && (#[trigger] before[i]).key() == last.key;
                assert(before[i].key() != last.key);
            }
            lemma_distinct_without_key(uses, last.key);
        }
        assert(accumulator.key() == last.key);
        assert(accumulator.gathers(distinct));
        lemma_gathers_source_key(accumulator, distinct, last.source_key);
        lemma_distinct_push(uses, last, last.key);
        assert(distinct.push(last).drop_last() =~= distinct);
    }
    let source_key = (found.song.id, theme.id);
    if !has_pair(&accumulator.source_keys, source_key) {
        let score = match accumulator.score.checked_add(found.score) {
            Some(score) => score,
            None => {
                return false;
            },
        };
        let ghost earlier = accumulator;
        accumulator.score = score;
        let source = CandidateSource {
            page_title: format_song_source(&found.song),
            source_url: anime_url(anime),
            matched_query: summarize_queries(&found.matched_queries),
        };
        assert(source@ == last.source);
        accumulator.sources.push(source);
        accumulator.source_keys.push(source_key);
        assert(source_views(accumulator.sources@) =~= source_views(earlier.sources@).push(
            last.source,
        ));
        assert(use_sources(distinct.push(last)) =~= use_sources(distinct).push(last.source));
        assert(source_views(accumulator.sources@) =~= use_sources(distinct.push(last)));
        assert(accumulator.source_keys@ =~= Seq::new(
            distinct.push(last).len(),
            |i: int| distinct.push(last)[i].source_key,
        ));
    }
    let ghost added = accumulator;
    if at < accumulators.len() {
        std::mem::swap(&mut accumulator, &mut accumulators[at]);
    } else {
        accumulators.push(accumulator);
    }
    proof {
        lemma_gathered_step(before, accumulators@, uses, last, at as int);
    }
    true
}

proof fn lemma_prefix_add<A>(first: Seq<A>, shorter: Seq<A>, longer: Seq<A>)
    requires
        shorter.is_prefix_of(longer),
    ensures
        (first + shorter).is_prefix_of(first + longer),
{
    assert((first + longer).subrange(0, (first + shorter).len() as int) =~= first + shorter) by {
        assert(shorter =~= longer.subrange(0, shorter.len() as int));
        assert forall|i: int| 0 <= i < shorter.len() implies shorter[i] == longer[i] by {
            assert(longer.subrange(0, shorter.len() as int)[i] == longer[i]);
        }
    }
}

proof fn lemma_prefix_transitive<A>(a: Seq<A>, b: Seq<A>, c: Seq<A>)
    requires
        a.is_prefix_of(b),
        b.is_prefix_of(c),
    ensures
        a.is_prefix_of(c),
{
    assert forall|i: int| 0 <= i < a.len() implies a[i] == c[i] by {
        assert(b.subrange(0, a.len() as int)[i] == b[i]);
        assert(c.subrange(0, b.len() as int)[i] == c[i]);
    }
    assert(c.subrange(0, a.len() as int) =~= a);
}

proof fn lemma_song_uses_prefix(found: SongMatchView, themes: Seq<AnimeThemeView>, count: int)
    requires
        0 <= count <= themes.len(),
    ensures
        song_uses(found, themes.take(count)).is_prefix_of(song_uses(found, themes)),
    decreases themes.len() - count,
{
    if count == themes.len() {
        assert(themes.take(count) =~= themes);
        assert(song_uses(found, themes).subrange(0, song_uses(found, themes).len() as int)
            =~= song_uses(found, themes));
    } else {
        let shorter = song_uses(found, themes.take(count));
        let longer = song_uses(found, themes.take(count + 1));
        assert(themes.take(count + 1).drop_last() =~= themes.take(count));
        assert(longer.subrange(0, shorter.len() as int) =~= shorter);
        lemma_song_uses_prefix(found, themes, count + 1);
        lemma_prefix_transitive(shorter, longer, song_uses(found, themes));
    }
}

proof fn lemma_theme_uses_prefix(songs: Map<u64, SongMatchView>, order: Seq<u64>, count: int)
    requires
        0 <= count <= order.len(),
    ensures
        theme_uses(songs, order.take(count)).is_prefix_of(theme_uses(songs, order)),
    decreases order.len() - count,
{
    if count == order.len() {
        assert(order.take(count) =~= order);
        assert(theme_uses(songs, order).subrange(0, theme_uses(songs, order).len() as int)
            =~= theme_uses(songs, order));
    } else {
        let shorter = theme_uses(songs, order.take(count));
        let longer = theme_uses(songs, order.take(count + 1));
        assert(order.take(count + 1).drop_last() =~= order.take(count));
        assert(longer.subrange(0, shorter.len() as int) =~= shorter);
        lemma_theme_uses_prefix(songs, order, count + 1);
        lemma_prefix_transitive(shorter, longer, theme_uses(songs, order));
    }
}

/// Scores that do not fit after some uses do not fit after more.
proof fn lemma_unfit_prefix(shorter: Seq<ThemeUse>, longer: Seq<ThemeUse>)
    requires
        shorter.is_prefix_of(longer),
        !scores_fit(shorter),
    ensures
        !scores_fit(longer),
{
    let key = choose|key: CandidateKey|
        #![trigger distinct_uses(shorter, key)]
        total_score(distinct_uses(shorter, key)) > usize::MAX;
    let more = longer.skip(shorter.len() as int);
    assert(longer =~= shorter + more) by {
        assert(longer.subrange(0, shorter.len() as int) =~= shorter);
        assert(longer.subrange(0, shorter.len() as int) + more =~= longer);
    }
    lemma_total_grows(shorter, more, key);
    assert(total_score(distinct_uses(longer, key)) > usize::MAX);
}

/// Scores that were gathered fit.
proof fn lemma_gathered_fits(accumulators: Seq<CandidateAccumulator>, uses: Seq<ThemeUse>)
    requires
        gathered(accumulators, uses),
    ensures
        scores_fit(uses),
{
    assert forall|key: CandidateKey|
        #![trigger distinct_uses(uses, key)]
        total_score(distinct_uses(uses, key)) <= usize::MAX by {
        if has_key(uses, key) {
            let i = choose|i: int|
                0 <= i < accumulators.len() && (#[trigger] accumulators[i]).key() == key;
            assert(accumulators[i].gathers(distinct_uses(uses, key)));
        } else {
            lemma_distinct_without_key(uses, key);
        }
    }
}

fn gather_song(
    accumulators: &mut Vec<CandidateAccumulator>,
    found: &SongMatch,
    Ghost(uses): Ghost<Seq<ThemeUse>>,
) -> (fits: bool)
    requires
        gathered(old(accumulators)@, uses),
    ensures
        fits ==> gathered(
            final(accumulators)@,
            uses + song_uses(found@, found@.song.animethemes),
        ),
        !fits ==> !scores_fit(uses + song_uses(found@, found@.song.animethemes)),
{
    let ghost themes = found@.song.animethemes;
    let mut i: usize = 0;
    assert(uses + song_uses(found@, themes.take(0)) =~= uses);
    while i < found.song.animethemes.len()
        invariant
            i <= found.song.animethemes@.len(),
            themes == found@.song.animethemes,
            gathered(accumulators@, uses + song_uses(found@, themes.take(i as int))),
        decreases found.song.animethemes@.len() - i,
    {
        let theme = &found.song.animethemes[i];
        let ghost so_far = uses + song_uses(found@, themes.take(i as int));
        proof {
            assert(themes.take(i + 1).drop_last() =~= themes.take(i as int));
            assert(themes.take(i + 1).last() == theme@);
        }
        match &theme.anime {
            Some(anime) => {
                let ghost last = theme_use(found@, theme@).unwrap();
                assert(uses + song_uses(found@, themes.take(i + 1)) =~= so_far.push(last));
                if !add_use(accumulators, found, theme, anime, Ghost(so_far)) {
                    proof {
                        lemma_song_uses_prefix(found@, themes, i + 1);
                        lemma_prefix_add(
                            uses,
                            song_uses(found@, themes.take(i + 1)),
                            song_uses(found@, themes),
                        );
                        lemma_unfit_prefix(so_far.push(last), uses + song_uses(found@, themes));
                    }
                    return false;
                }
            },
            None => {},
        }
        i = i + 1;
    }
    assert(themes.take(themes.len() as int) =~= themes);
    true
}

fn gather(songs: &HashMap<u64, SongMatch>, order: &Vec<u64>) -> (accumulators: Option<
    Vec<CandidateAccumulator>,
>)
    requires
        forall|i: int| 0 <= i < order@.len() ==> songs@.contains_key(#[trigger] order@[i]),
    ensures
        accumulators matches Some(accumulators) ==> gathered(
            accumulators@,
            theme_uses(match_views(songs@), order@),
        ),
        accumulators is Some <==> scores_fit(theme_uses(match_views(songs@), order@)),
{
    let ghost found_songs = match_views(songs@);
    let ghost uses = theme_uses(found_songs, order@);
    let mut accumulators: Vec<CandidateAccumulator> = Vec::new();
    let mut i: usize = 0;
    while i < order.len()
        invariant
            i <= order@.len(),
            found_songs == match_views(songs@),
            uses == theme_uses(found_songs, order@),
            forall|k: int| 0 <= k < order@.len() ==> songs@.contains_key(#[trigger] order@[k]),
            gathered(accumulators@, theme_uses(found_songs, order@.take(i as int))),
        decreases order@.len() - i,
    {
        let id = order[i];
        assert(songs@.contains_key(order@[i as int]));
        let ghost so_far = theme_uses(found_songs, order@.take(i as int));
        proof {
            assert(order@.take(i + 1).drop_last() =~= order@.take(i as int));
            assert(order@.take(i + 1).last() == id);
        }
        match songs.get(&id) {
            Some(found) => {
                assert(found_songs[id] == found@);
                if !gather_song(&mut accumulators, found, Ghost(so_far)) {
                    proof {
                        lemma_theme_uses_prefix(found_songs, order@, i + 1);
                        lemma_unfit_prefix(
                            theme_uses(found_songs, order@.take(i + 1)),
                            uses,
                        );
                    }
                    return None;
                }
            },
            None => {
                assert(false);
            },
        }
        i = i + 1;
    }
    assert(order@.take(order@.len() as int) =~= order@);
    proof {
        lemma_gathered_fits(accumulators@, uses);
    }
    Some(accumulators)
}

proof fn lemma_listed(
    accumulators: Seq<CandidateAccumulator>,
    candidates: Seq<ThemeCandidate>,
    sorted: Seq<ThemeCandidate>,
    uses: Seq<ThemeUse>,
)
    requires
        gathered(accumulators, uses),
        candidates.len() == accumulators.len(),
        forall|i: int|
            0 <= i < candidates.len() ==> (#[trigger] candidates[i])@ == candidate_of(
                uses,
                accumulators[i].key(),
            ),
        sorted.to_multiset() == candidates.to_multiset(),
        in_rank_order(sorted),
    ensures
        lists_candidates(candidate_views(sorted), uses),
{
    let list = candidate_views(sorted);
    assert forall|i: int, j: int|
        0 <= i < candidates.len() && 0 <= j < candidates.len() && i != j implies candidates[i]
        != candidates[j] by {
        assert(accumulators[i].key() != accumulators[j].key());
        assert(key_of(candidates[i]@) == accumulators[i].key());
        assert(key_of(candidates[j]@) == accumulators[j].key());
    }
    crate::order::lemma_same_multiset(candidates, sorted);
    assert forall|i: int| 0 <= i < list.len() implies has_key(uses, key_of(#[trigger] list[i]))
        && list[i] == candidate_of(uses, key_of(list[i])) by {
        assert(sorted.contains(sorted[i]));
        let k = candidates.index_of(sorted[i]);
        assert(candidates[k] == sorted[i]);
        assert(has_key(uses, accumulators[k].key()));
    }
    assert forall|key: CandidateKey| #[trigger] has_key(uses, key) implies exists|i: int|
        0 <= i < list.len() && key_of(#[trigger] list[i]) == key by {
        let k = choose|k: int|
            0 <= k < accumulators.len() && (#[trigger] accumulators[k]).key() == key;
        assert(candidates.contains(candidates[k]));
        let i = sorted.index_of(candidates[k]);
        assert(key_of(list[i]) == key);
    }
    assert forall|i: int, j: int| 0 <= i < j < list.len() implies candidate_before(
        #[trigger] list[i],
        #[trigger] list[j],
    ) by {
        assert(sorted[i] != sorted[j]);
        assert(!sorted[j].ranks_before(&sorted[i]));
        assert(sorted.contains(sorted[i]) && sorted.contains(sorted[j]));
        let a = candidates.index_of(sorted[i]);
        let b = candidates.index_of(sorted[j]);
        assert(candidates[a] == sorted[i] && candidates[b] == sorted[j]);
        assert(accumulators[a].key() != accumulators[b].key());
        lemma_candidate_total(list[i], list[j]);
    }
}

fn rank_gathered(
    accumulators: Vec<CandidateAccumulator>,
    Ghost(uses): Ghost<Seq<ThemeUse>>,
) -> (candidates: Vec<ThemeCandidate>)
    requires
        gathered(accumulators@, uses),
    ensures
        lists_candidates(candidate_views(candidates@), uses),
{
    let ghost all = accumulators@;
    let mut candidates: Vec<ThemeCandidate> = Vec::new();
    for accumulator in it: accumulators
        invariant
            it.seq() == all,
            gathered(all, uses),
            candidates@.len() == it.index(),
            forall|i: int|
                0 <= i < candidates@.len() ==> (#[trigger] candidates@[i])@ == candidate_of(
                    uses,
                    all[i].key(),
                ),
    {
        assert(accumulator == all[candidates@.len() as int]);
        candidates.push(
            ThemeCandidate {
                work_title: accumulator.work_title,
                kind: accumulator.kind,
                score: accumulator.score,
                sources: accumulator.sources,
            },
        );
    }
    let sorted = sort_by_rank(candidates);
    proof {
        lemma_listed(all, candidates@, sorted@, uses);
    }
    sorted
}

/// The candidates that found songs speak for, with the songs walked in a given
/// order.
pub fn build_candidates_in_order(songs: &HashMap<u64, SongMatch>, order: &Vec<u64>) -> (candidates:
    Option<Vec<ThemeCandidate>>)
    requires
        walks(order@, songs@),
    ensures
        candidates matches Some(candidates) ==> lists_candidates(
            candidate_views(candidates@),
            theme_uses(match_views(songs@), order@),
        ),
        candidates is Some <==> scores_fit(theme_uses(match_views(songs@), order@)),
{
    assert forall|i: int| 0 <= i < order@.len() implies songs@.contains_key(
        #[trigger] order@[i],
    ) by {
        assert(order@.to_set().contains(order@[i]));
    }
    match gather(songs, order) {
        Some(accumulators) => Some(
            rank_gathered(accumulators, Ghost(theme_uses(match_views(songs@), order@))),
        ),
        None => None,
    }
}

/// The candidates that found songs speak for.
pub fn build_candidates(songs: &HashMap<u64, SongMatch>) -> (candidates: Vec<ThemeCandidate>)
    requires
        forall|order: Seq<u64>| #[trigger]
            walks(order, songs@) ==> scores_fit(theme_uses(match_views(songs@), order)),
    ensures
        exists|order: Seq<u64>| #[trigger]
            walks(order, songs@) && lists_candidates(
                candidate_views(candidates@),
                theme_uses(match_views(songs@), order),
            ),
{
    let order = walked_keys(songs);
    match build_candidates_in_order(songs, &order) {
        Some(candidates) => {
            assert(walks(order@, songs@));
            candidates
        },
        None => {
            assert(walks(order@, songs@));
            assert(false);
            Vec::new()
        },
    }
}

/// The candidates that found songs speak for, or nothing where a score does
/// not fit.
pub fn checked_build_candidates(songs: &HashMap<u64, SongMatch>) -> (candidates: Option<
    Vec<ThemeCandidate>,
>)
    ensures
        exists|order: Seq<u64>| #[trigger]
            walks(order, songs@) && match candidates {
                Some(candidates) => scores_fit(theme_uses(match_views(songs@), order))
                    && lists_candidates(
                    candidate_views(candidates@),
                    theme_uses(match_views(songs@), order),
                ),
                None => !scores_fit(theme_uses(match_views(songs@), order)),
            },
{
    let order = walked_keys(songs);
    let candidates = build_candidates_in_order(songs, &order);
    assert(walks(order@, songs@));
    candidates
}

// ---------------------------------------------------------------------------
// How many candidates there are
// ---------------------------------------------------------------------------

/// The uses of the song with an id.
pub open spec fn uses_by_id(songs: Map<u64, SongMatchView>, id: u64) -> Seq<ThemeUse> {
    song_uses(songs[id], songs[id].song.animethemes)
}

/// The keys of all candidates that found songs speak for.
pub open spec fn candidate_keys(songs: Map<u64, SongMatchView>) -> Set<CandidateKey> {
    Set::new(
        |key: CandidateKey|
            exists|id: u64| songs.contains_key(id) && #[trigger] has_key(uses_by_id(songs, id), key),
    )
}

proof fn lemma_has_key_add(left: Seq<ThemeUse>, right: Seq<ThemeUse>, key: CandidateKey)
    ensures
        has_key(left + right, key) == (has_key(left, key) || has_key(right, key)),
{
    if has_key(left, key) {
        let i = choose|i: int| 0 <= i < left.len() && (#[trigger] left[i]).key == key;
        assert((left + right)[i].key == key);
    }
    if has_key(right, key) {
        let i = choose|i: int| 0 <= i < right.len() && (#[trigger] right[i]).key == key;
        assert((left + right)[left.len() + i].key == key);
    }
    if has_key(left + right, key) {
        let i = choose|i: int|
            0 <= i < (left + right).len() && (#[trigger] (left + right)[i]).key == key;
        if i < left.len() {
            assert(left[i].key == key);
        } else {
            assert(right[i - left.len()].key == key);
        }
    }
}

proof fn lemma_uses_key(songs: Map<u64, SongMatchView>, order: Seq<u64>, key: CandidateKey)
    ensures
        has_key(theme_uses(songs, order), key) <==> exists|id: u64|
            order.contains(id) && #[trigger] has_key(uses_by_id(songs, id), key),
    decreases order.len(),
{
    if order.len() > 0 {
        let shorter = order.drop_last();
        lemma_uses_key(songs, shorter, key);
        lemma_has_key_add(theme_uses(songs, shorter), uses_by_id(songs, order.last()), key);
        if has_key(theme_uses(songs, shorter), key) {
            let id = choose|id: u64|
                shorter.contains(id) && #[trigger] has_key(uses_by_id(songs, id), key);
            let k = shorter.index_of(id);
            assert(order[k] == id);
            assert(order.contains(id));
        }
        if has_key(uses_by_id(songs, order.last()), key) {
            assert(order[order.len() - 1] == order.last());
            assert(order.contains(order.last()));
        }
        if exists|id: u64| order.contains(id) && #[trigger] has_key(uses_by_id(songs, id), key) {
            let id = choose|id: u64|
                order.contains(id) && #[trigger] has_key(uses_by_id(songs, id), key);
            let k = order.index_of(id);
            if k < shorter.len() {
                assert(shorter[k] == id);
                assert(shorter.contains(id));
            }
        }
    }
}

proof fn lemma_walked_key(songs: Map<u64, SongMatchView>, order: Seq<u64>, key: CandidateKey)
    requires
        walks(order, songs),
    ensures
        has_key(theme_uses(songs, order), key) == candidate_keys(songs).contains(key),
{
    lemma_uses_key(songs, order, key);
    assert forall|id: u64| order.contains(id) == songs.contains_key(id) by {
        assert(order.to_set().contains(id) == songs.dom().contains(id));
    }
}

/// The title of an anime and a theme of it.
struct NamedTheme {
    work_title: String,
    kind: ThemeKind,
}

/// What tells the candidates of a list of names apart.
spec fn named_keys(names: Seq<NamedTheme>) -> Seq<CandidateKey> {
    Seq::new(
        names.len(),
        |i: int| CandidateKey { work_title: names[i].work_title@, kind: names[i].kind },
    )
}

/// Whether names list the keys of uses, each once.
spec fn names_keys(names: Seq<NamedTheme>, uses: Seq<ThemeUse>) -> bool {
    &&& named_keys(names).no_duplicates()
    &&& forall|key: CandidateKey| named_keys(names).contains(key) == #[trigger] has_key(uses, key)
}

fn note_theme(names: &mut Vec<NamedTheme>, found: &SongMatch, theme: &AnimeThemeRecord, Ghost(
    uses,
): Ghost<Seq<ThemeUse>>)
    requires
        names_keys(old(names)@, uses),
        theme@.anime is Some,
    ensures
        names_keys(final(names)@, uses.push(theme_use(found@, theme@).unwrap())),
{
    let ghost last = theme_use(found@, theme@).unwrap();
    let ghost before = named_keys(names@);
    let kind = ThemeKind::from_api_type(theme.theme_type.as_str());
    proof {
        lemma_has_key_push(uses, last);
    }
    if let Some(anime) = &theme.anime {
        let mut i: usize = 0;
        while i < names.len()
            invariant
                i <= names@.len(),
                before == named_keys(names@),
                last.key == (CandidateKey { work_title: anime.name@, kind }),
                forall|k: int| 0 <= k < i ==> #[trigger] before[k] != last.key,
                names_keys(names@, uses),
                forall|key: CandidateKey| #[trigger]
                    has_key(uses.push(last), key) == (has_key(uses, key) || last.key == key),
                last == theme_use(found@, theme@).unwrap(),
            decreases names@.len() - i,
        {
            if names[i].kind == kind && same_text(
                names[i].work_title.as_str(),
                anime.name.as_str(),
            ) {
                assert(before[i as int] == last.key);
                assert(before.contains(last.key));
                assert(names_keys(names@, uses.push(last)));
                return;
            }
            assert(before[i as int] != last.key);
            i = i + 1;
        }
        assert(!before.contains(last.key));
        names.push(NamedTheme { work_title: anime.name.clone(), kind });
        let ghost after = named_keys(names@);
        assert(after =~= before.push(last.key));
        proof {
            assert forall|key: CandidateKey| after.contains(key) == #[trigger] has_key(
                uses.push(last),
                key,
            ) by {
                if before.contains(key) {
                    let k = before.index_of(key);
                    assert(after[k] == key);
                }
                if key == last.key {
                    assert(after[before.len() as int] == key);
                }
                if after.contains(key) {
                    let k = after.index_of(key);
                    if k < before.len() {
                        assert(before[k] == key);
                    }
                }
            }
        }
    }
}

fn note_song(names: &mut Vec<NamedTheme>, found: &SongMatch, Ghost(uses): Ghost<Seq<ThemeUse>>)
    requires
        names_keys(old(names)@, uses),
    ensures
        names_keys(final(names)@, uses + song_uses(found@, found@.song.animethemes)),
{
    let ghost themes = found@.song.animethemes;
    let mut i: usize = 0;
    assert(uses + song_uses(found@, themes.take(0)) =~= uses);
    while i < found.song.animethemes.len()
        invariant
            i <= found.song.animethemes@.len(),
            themes == found@.song.animethemes,
            names_keys(names@, uses + song_uses(found@, themes.take(i as int))),
        decreases found.song.animethemes@.len() - i,
    {
        let theme = &found.song.animethemes[i];
        let ghost so_far = uses + song_uses(found@, themes.take(i as int));
        proof {
            assert(themes.take(i + 1).drop_last() =~= themes.take(i as int));
            assert(themes.take(i + 1).last() == theme@);
        }
        if theme.anime.is_some() {
            let ghost last = theme_use(found@, theme@).unwrap();
            assert(uses + song_uses(found@, themes.take(i + 1)) =~= so_far.push(last));
            note_theme(names, found, theme, Ghost(so_far));
        }
        i = i + 1;
    }
    assert(themes.take(themes.len() as int) =~= themes);
}

/// The number of candidates that found songs speak for.
pub fn count_candidates(songs: &HashMap<u64, SongMatch>) -> (count: usize)
    ensures
        candidate_keys(match_views(songs@)).finite(),
        count == candidate_keys(match_views(songs@)).len(),
{
    let order = walked_keys(songs);
    let ghost found_songs = match_views(songs@);
    let mut names: Vec<NamedTheme> = Vec::new();
    assert(walks(order@, found_songs)) by {
        assert(found_songs.dom() =~= songs@.dom());
    }
    let mut i: usize = 0;
    assert forall|key: CandidateKey| named_keys(names@).contains(key) == #[trigger] has_key(
        theme_uses(found_songs, order@.take(0)),
        key,
    ) by {}
    while i < order.len()
        invariant
            i <= order@.len(),
            found_songs == match_views(songs@),
            walks(order@, found_songs),
            found_songs.dom() == songs@.dom(),
            names_keys(names@, theme_uses(found_songs, order@.take(i as int))),
        decreases order@.len() - i,
    {
        let id = order[i];
        let ghost so_far = theme_uses(found_songs, order@.take(i as int));
        proof {
            assert(order@.to_set().contains(order@[i as int]));
            assert(order@.take(i + 1).drop_last() =~= order@.take(i as int));
            assert(order@.take(i + 1).last() == id);
        }
        match songs.get(&id) {
            Some(found) => {
                assert(found_songs[id] == found@);
                note_song(&mut names, found, Ghost(so_far));
            },
            None => {
                assert(false);
            },
        }
        i = i + 1;
    }
    assert(order@.take(order@.len() as int) =~= order@);
    proof {
        let keys = named_keys(names@);
        assert forall|key: CandidateKey| keys.to_set().contains(key) == candidate_keys(
            found_songs,
        ).contains(key) by {
            lemma_walked_key(found_songs, order@, key);
            assert(keys.contains(key) == has_key(theme_uses(found_songs, order@), key));
        }
        assert(keys.to_set() =~= candidate_keys(found_songs));
        keys.unique_seq_to_set();
    }
    names.len()
}

// ---------------------------------------------------------------------------
// Laws
// ---------------------------------------------------------------------------

/// The ranks of a list of candidates.
pub open spec fn ranks(list: Seq<ThemeCandidateView>) -> Seq<CandidateRank> {
    Seq::new(list.len(), |i: int| rank_of(list[i]))
}

proof fn lemma_same_ranks(left: Seq<CandidateRank>, right: Seq<CandidateRank>)
    requires
        forall|i: int, j: int|
            0 <= i < j < left.len() ==> rank_before(#[trigger] left[i], #[trigger] left[j]),
        forall|i: int, j: int|
            0 <= i < j < right.len() ==> rank_before(#[trigger] right[i], #[trigger] right[j]),
        forall|i: int| 0 <= i < left.len() ==> right.contains(#[trigger] left[i]),
        forall|i: int| 0 <= i < right.len() ==> left.contains(#[trigger] right[i]),
    ensures
        left == right,
{
    let before = |a: CandidateRank, b: CandidateRank| rank_before(a, b);
    assert forall|a: CandidateRank| !#[trigger] before(a, a) by {
        lemma_rank_irreflexive(a);
    }
    assert forall|a: CandidateRank, b: CandidateRank, c: CandidateRank|
        #[trigger] before(a, b) && #[trigger] before(b, c) implies before(a, c) by {
        lemma_rank_transitive(a, b, c);
    }
    assert(crate::order::strictly_sorted(left, before));
    assert(crate::order::strictly_sorted(right, before));
    assert forall|rank: CandidateRank| left.to_set().contains(rank) == right.to_set().contains(
        rank,
    ) by {
        if left.contains(rank) {
            assert(right.contains(left[left.index_of(rank)]));
        }
        if right.contains(rank) {
            assert(left.contains(right[right.index_of(rank)]));
        }
    }
    assert(left.to_set() =~= right.to_set());
    crate::order::lemma_sorted_unique(left, right, before);
}

/// Uses determine the list of the candidates that they speak for.
pub proof fn law_uses_determine_candidates(
    left: Seq<ThemeCandidateView>,
    right: Seq<ThemeCandidateView>,
    uses: Seq<ThemeUse>,
)
    requires
        lists_candidates(left, uses),
        lists_candidates(right, uses),
    ensures
        left == right,
{
    assert forall|i: int| 0 <= i < left.len() implies ranks(right).contains(
        #[trigger] ranks(left)[i],
    ) by {
        let j = choose|j: int|
            0 <= j < right.len() && key_of(#[trigger] right[j]) == key_of(left[i]);
        assert(ranks(right)[j] == ranks(left)[i]);
    }
    assert forall|i: int| 0 <= i < right.len() implies ranks(left).contains(
        #[trigger] ranks(right)[i],
    ) by {
        let j = choose|j: int|
            0 <= j < left.len() && key_of(#[trigger] left[j]) == key_of(right[i]);
        assert(ranks(left)[j] == ranks(right)[i]);
    }
    lemma_ranks_sorted(left, uses);
    lemma_ranks_sorted(right, uses);
    lemma_same_ranks(ranks(left), ranks(right));
    assert forall|i: int| 0 <= i < left.len() implies left[i] == right[i] by {
        assert(ranks(left)[i] == ranks(right)[i]);
        assert(key_of(left[i]) == key_of(right[i]));
    }
    assert(left =~= right);
}

/// There are as many candidates as keys that found songs speak for.
pub proof fn law_candidate_count(
    list: Seq<ThemeCandidateView>,
    songs: Map<u64, SongMatchView>,
    order: Seq<u64>,
)
    requires
        walks(order, songs),
        lists_candidates(list, theme_uses(songs, order)),
    ensures
        candidate_keys(songs).finite(),
        list.len() == candidate_keys(songs).len(),
{
    let keys = Seq::new(list.len(), |i: int| key_of(list[i]));
    assert(keys.no_duplicates()) by {
        assert forall|i: int, j: int|
            0 <= i < keys.len() && 0 <= j < keys.len() && i != j implies keys[i] != keys[j] by {
            lemma_rank_irreflexive(rank_of(list[i]));
            if i < j {
                assert(candidate_before(list[i], list[j]));
            } else {
                assert(candidate_before(list[j], list[i]));
            }
        }
    }
    assert forall|key: CandidateKey| keys.to_set().contains(key) == candidate_keys(
        songs,
    ).contains(key) by {
        lemma_walked_key(songs, order, key);
        if keys.contains(key) {
            let i = keys.index_of(key);
            assert(has_key(theme_uses(songs, order), key_of(list[i])));
        }
        if has_key(theme_uses(songs, order), key) {
            let i = choose|i: int| 0 <= i < list.len() && key_of(#[trigger] list[i]) == key;
            assert(keys[i] == key);
        }
    }
    assert(keys.to_set() =~= candidate_keys(songs));
    keys.unique_seq_to_set();
}

/// Every candidate has a source.
pub proof fn law_candidates_have_sources(
    list: Seq<ThemeCandidateView>,
    uses: Seq<ThemeUse>,
    at: int,
)
    requires
        lists_candidates(list, uses),
        0 <= at < list.len(),
    ensures
        list[at].sources.len() > 0,
{
    lemma_distinct_with_key(uses, key_of(list[at]));
}

proof fn lemma_distinct_with_key(uses: Seq<ThemeUse>, key: CandidateKey)
    requires
        has_key(uses, key),
    ensures
        distinct_uses(uses, key).len() > 0,
    decreases uses.len(),
{
    assert(uses =~= uses.drop_last().push(uses.last()));
    lemma_has_key_push(uses.drop_last(), uses.last());
    if has_key(uses.drop_last(), key) {
        lemma_distinct_with_key(uses.drop_last(), key);
    }
}

/// Whether found songs stand under their ids.
pub open spec fn keyed_by_id(songs: Map<u64, SongMatchView>) -> bool {
    forall|id: u64| #[trigger] songs.contains_key(id) ==> songs[id].song.id == id
}

/// The distinct uses with a key, song by song.
spec fn distinct_by_song(songs: Map<u64, SongMatchView>, order: Seq<u64>, key: CandidateKey) -> Seq<
    ThemeUse,
>
    decreases order.len(),
{
    if order.len() == 0 {
        Seq::empty()
    } else {
        distinct_by_song(songs, order.drop_last(), key) + distinct_uses(
            uses_by_id(songs, order.last()),
            key,
        )
    }
}

proof fn lemma_has_source_key_add(left: Seq<ThemeUse>, right: Seq<ThemeUse>, source_key: (u64, u64))
    ensures
        has_source_key(left + right, source_key) == (has_source_key(left, source_key)
            || has_source_key(right, source_key)),
{
    if has_source_key(left, source_key) {
        let i = choose|i: int|
            0 <= i < left.len() && (#[trigger] left[i]).source_key == source_key;
        assert((left + right)[i].source_key == source_key);
    }
    if has_source_key(right, source_key) {
        let i = choose|i: int|
            0 <= i < right.len() && (#[trigger] right[i]).source_key == source_key;
        assert((left + right)[left.len() + i].source_key == source_key);
    }
    if has_source_key(left + right, source_key) {
        let i = choose|i: int|
            0 <= i < (left + right).len() && (#[trigger] (left + right)[i]).source_key
                == source_key;
        if i < left.len() {
            assert(left[i].source_key == source_key);
        } else {
            assert(right[i - left.len()].source_key == source_key);
        }
    }
}

proof fn lemma_distinct_source_key(uses: Seq<ThemeUse>, key: CandidateKey, source_key: (u64, u64))
    requires
        has_source_key(distinct_uses(uses, key), source_key),
    ensures
        has_source_key(uses, source_key),
    decreases uses.len(),
{
    if uses.len() > 0 {
        let shorter = uses.drop_last();
        let before = distinct_uses(shorter, key);
        assert(uses =~= shorter + seq![uses.last()]);
        lemma_has_source_key_add(shorter, seq![uses.last()], source_key);
        assert(before.push(uses.last()) =~= before + seq![uses.last()]);
        lemma_has_source_key_add(before, seq![uses.last()], source_key);
        if has_source_key(before, source_key) {
            lemma_distinct_source_key(shorter, key, source_key);
        }
    }
}

/// Uses with other source keys do not change each other's distinct uses.
proof fn lemma_distinct_add(left: Seq<ThemeUse>, right: Seq<ThemeUse>, key: CandidateKey)
    requires
        forall|i: int|
            0 <= i < right.len() ==> !has_source_key(left, (#[trigger] right[i]).source_key),
    ensures
        distinct_uses(left + right, key) == distinct_uses(left, key) + distinct_uses(right, key),
    decreases right.len(),
{
    if right.len() == 0 {
        assert(left + right =~= left);
        assert(distinct_uses(left, key) + distinct_uses(right, key) =~= distinct_uses(left, key));
    } else {
        let shorter = right.drop_last();
        let last = right.last();
        assert forall|i: int| 0 <= i < shorter.len() implies !has_source_key(
            left,
            (#[trigger] shorter[i]).source_key,
        ) by {
            assert(shorter[i] == right[i]);
        }
        lemma_distinct_add(left, shorter, key);
        assert(left + right =~= (left + shorter).push(last));
        assert(right =~= shorter.push(last));
        lemma_distinct_push(left + shorter, last, key);
        lemma_distinct_push(shorter, last, key);
        let a = distinct_uses(left, key);
        let b = distinct_uses(shorter, key);
        lemma_has_source_key_add(a, b, last.source_key);
        assert(right[right.len() - 1] == last);
        if has_source_key(a, last.source_key) {
            lemma_distinct_source_key(left, key, last.source_key);
        }
        assert((a + b).push(last) =~= a + b.push(last));
    }
}

proof fn lemma_song_source_keys(found: SongMatchView, themes: Seq<AnimeThemeView>)
    ensures
        forall|i: int|
            0 <= i < song_uses(found, themes).len() ==> (#[trigger] song_uses(
                found,
                themes,
            )[i]).source_key.0 == found.song.id,
    decreases themes.len(),
{
    if themes.len() > 0 {
        lemma_song_source_keys(found, themes.drop_last());
        let before = song_uses(found, themes.drop_last());
        assert forall|i: int| 0 <= i < song_uses(found, themes).len() implies (
        #[trigger] song_uses(found, themes)[i]).source_key.0 == found.song.id by {
            if i < before.len() {
                assert(song_uses(found, themes)[i] == before[i]);
            }
        }
    }
}

proof fn lemma_walk_source_keys(songs: Map<u64, SongMatchView>, order: Seq<u64>)
    requires
        keyed_by_id(songs),
        forall|i: int| 0 <= i < order.len() ==> songs.contains_key(#[trigger] order[i]),
    ensures
        forall|i: int|
            0 <= i < theme_uses(songs, order).len() ==> order.contains(
                (#[trigger] theme_uses(songs, order)[i]).source_key.0,
            ),
    decreases order.len(),
{
    if order.len() > 0 {
        let shorter = order.drop_last();
        let last = order.last();
        assert forall|i: int| 0 <= i < shorter.len() implies songs.contains_key(
            #[trigger] shorter[i],
        ) by {
            assert(shorter[i] == order[i]);
        }
        lemma_walk_source_keys(songs, shorter);
        lemma_song_source_keys(songs[last], songs[last].song.animethemes);
        assert(songs.contains_key(order[order.len() - 1]));
        let before = theme_uses(songs, shorter);
        let all = theme_uses(songs, order);
        assert forall|i: int| 0 <= i < all.len() implies order.contains(
            (#[trigger] all[i]).source_key.0,
        ) by {
            if i < before.len() {
                assert(all[i] == before[i]);
                let k = shorter.index_of(before[i].source_key.0);
                assert(order[k] == before[i].source_key.0);
            } else {
                assert(all[i] == uses_by_id(songs, last)[i - before.len()]);
                assert(order[order.len() - 1] == last);
            }
        }
    }
}

proof fn lemma_distinct_by_song(songs: Map<u64, SongMatchView>, order: Seq<u64>, key: CandidateKey)
    requires
        keyed_by_id(songs),
        order.no_duplicates(),
        forall|i: int| 0 <= i < order.len() ==> songs.contains_key(#[trigger] order[i]),
    ensures
        distinct_uses(theme_uses(songs, order), key) == distinct_by_song(songs, order, key),
    decreases order.len(),
{
    if order.len() > 0 {
        let shorter = order.drop_last();
        let last = order.last();
        assert forall|i: int| 0 <= i < shorter.len() implies songs.contains_key(
            #[trigger] shorter[i],
        ) by {
            assert(shorter[i] == order[i]);
        }
        lemma_distinct_by_song(songs, shorter, key);
        lemma_walk_source_keys(songs, shorter);
        lemma_song_source_keys(songs[last], songs[last].song.animethemes);
        assert(songs.contains_key(order[order.len() - 1]));
        let left = theme_uses(songs, shorter);
        let right = uses_by_id(songs, last);
        assert forall|i: int| 0 <= i < right.len() implies !has_source_key(
            left,
            (#[trigger] right[i]).source_key,
        ) by {
            assert(right[i].source_key.0 == last);
            if has_source_key(left, right[i].source_key) {
                let k = choose|k: int|
                    0 <= k < left.len() && (#[trigger] left[k]).source_key
                        == right[i].source_key;
                assert(shorter.contains(left[k].source_key.0));
                let at = shorter.index_of(last);
                assert(order[at] == order[order.len() - 1]);
            }
        }
        lemma_distinct_add(left, right, key);
    }
}

proof fn lemma_total_add(left: Seq<ThemeUse>, right: Seq<ThemeUse>)
    ensures
        total_score(left + right) == total_score(left) + total_score(right),
    decreases right.len(),
{
    if right.len() == 0 {
        assert(left + right =~= left);
    } else {
        lemma_total_add(left, right.drop_last());
        assert((left + right).drop_last() =~= left + right.drop_last());
    }
}

proof fn lemma_sources_add(left: Seq<ThemeUse>, right: Seq<ThemeUse>)
    ensures
        use_sources(left + right).to_multiset() == use_sources(left).to_multiset().add(
            use_sources(right).to_multiset(),
        ),
{
    assert(use_sources(left + right) =~= use_sources(left) + use_sources(right));
    vstd::seq_lib::lemma_multiset_commutative(use_sources(left), use_sources(right));
}

/// Taking one song out of a walk takes its uses out of what the walk gives.
proof fn lemma_walk_remove(
    songs: Map<u64, SongMatchView>,
    order: Seq<u64>,
    key: CandidateKey,
    at: int,
)
    requires
        0 <= at < order.len(),
    ensures
        total_score(distinct_by_song(songs, order, key)) == total_score(
            distinct_by_song(songs, order.remove(at), key),
        ) + total_score(distinct_uses(uses_by_id(songs, order[at]), key)),
        use_sources(distinct_by_song(songs, order, key)).to_multiset() == use_sources(
            distinct_by_song(songs, order.remove(at), key),
        ).to_multiset().add(
            use_sources(distinct_uses(uses_by_id(songs, order[at]), key)).to_multiset(),
        ),
    decreases order.len(),
{
    broadcast use vstd::multiset::group_multiset_axioms;

    let last = order.len() - 1;
    let shorter = order.drop_last();
    let last_part = distinct_uses(uses_by_id(songs, order.last()), key);
    let before = distinct_by_song(songs, shorter, key);
    lemma_total_add(before, last_part);
    lemma_sources_add(before, last_part);
    if at == last {
        assert(order.remove(at) =~= shorter);
    } else {
        lemma_walk_remove(songs, shorter, key, at);
        let rest = order.remove(at);
        assert(rest.drop_last() =~= shorter.remove(at));
        assert(rest.last() == order.last());
        let rest_before = distinct_by_song(songs, shorter.remove(at), key);
        lemma_total_add(rest_before, last_part);
        lemma_sources_add(rest_before, last_part);
        let a = use_sources(rest_before).to_multiset();
        let b = use_sources(distinct_uses(uses_by_id(songs, order[at]), key)).to_multiset();
        let c = use_sources(last_part).to_multiset();
        assert(a.add(b).add(c) =~= a.add(c).add(b));
    }
}

proof fn lemma_walks_agree(
    songs: Map<u64, SongMatchView>,
    left: Seq<u64>,
    right: Seq<u64>,
    key: CandidateKey,
)
    requires
        left.no_duplicates(),
        right.no_duplicates(),
        left.to_set() == right.to_set(),
    ensures
        total_score(distinct_by_song(songs, left, key)) == total_score(
            distinct_by_song(songs, right, key),
        ),
        use_sources(distinct_by_song(songs, left, key)).to_multiset() == use_sources(
            distinct_by_song(songs, right, key),
        ).to_multiset(),
    decreases left.len(),
{
    left.unique_seq_to_set();
    right.unique_seq_to_set();
    if left.len() == 0 {
        assert(left =~= right);
    } else {
        let last = left.last();
        assert(left[left.len() - 1] == last);
        assert(left.to_set().contains(last));
        assert(right.to_set().contains(last));
        let at = right.index_of(last);
        let shorter = left.drop_last();
        let rest = right.remove(at);
        assert(left.remove(left.len() - 1) =~= shorter);
        assert forall|id: u64| shorter.to_set().contains(id) == rest.to_set().contains(id) by {
            if shorter.contains(id) {
                let k = shorter.index_of(id);
                assert(left[k] == id && id != last);
                assert(left.to_set().contains(id));
                let m = right.index_of(id);
                assert(rest[if m < at { m } else { m - 1 }] == id);
            }
            if rest.contains(id) {
                let k = rest.index_of(id);
                let m = if k < at { k } else { k + 1 };
                assert(right[m] == id && m != at);
                assert(id != last);
                assert(right.to_set().contains(id));
                assert(left.contains(id));
                let n = left.index_of(id);
                assert(shorter[n] == id);
            }
        }
        assert(shorter.to_set() =~= rest.to_set());
        assert(rest.no_duplicates()) by {
            assert forall|i: int, j: int|
                0 <= i < rest.len() && 0 <= j < rest.len() && i != j implies rest[i]
                != rest[j] by {
                let a = if i < at { i } else { i + 1 };
                let b = if j < at { j } else { j + 1 };
                assert(right[a] != right[b]);
            }
        }
        lemma_walks_agree(songs, shorter, rest, key);
        lemma_walk_remove(songs, left, key, left.len() - 1);
        lemma_walk_remove(songs, right, key, at);
    }
}

/// Whether two lists hold the same candidates in the same order, with the same
/// sources in any order.
pub open spec fn same_candidates(
    left: Seq<ThemeCandidateView>,
    right: Seq<ThemeCandidateView>,
) -> bool {
    &&& left.len() == right.len()
    &&& forall|i: int|
        #![trigger left[i]]
        #![trigger right[i]]
        0 <= i < left.len() ==> rank_of(left[i]) == rank_of(right[i])
            && left[i].sources.to_multiset() == right[i].sources.to_multiset()
}

/// Two walks of the same songs speak for the same candidate with a key.
proof fn lemma_key_agrees(
    songs: Map<u64, SongMatchView>,
    left_order: Seq<u64>,
    right_order: Seq<u64>,
    key: CandidateKey,
)
    requires
        keyed_by_id(songs),
        walks(left_order, songs),
        walks(right_order, songs),
    ensures
        has_key(theme_uses(songs, left_order), key) == has_key(
            theme_uses(songs, right_order),
            key,
        ),
        rank_of(candidate_of(theme_uses(songs, left_order), key)) == rank_of(
            candidate_of(theme_uses(songs, right_order), key),
        ),
        candidate_of(theme_uses(songs, left_order), key).sources.to_multiset() == candidate_of(
            theme_uses(songs, right_order),
            key,
        ).sources.to_multiset(),
{
    lemma_walk_in_songs(songs, left_order);
    lemma_walk_in_songs(songs, right_order);
    lemma_walked_key(songs, left_order, key);
    lemma_walked_key(songs, right_order, key);
    lemma_distinct_by_song(songs, left_order, key);
    lemma_distinct_by_song(songs, right_order, key);
    lemma_walks_agree(songs, left_order, right_order, key);
    vstd::seq_lib::to_multiset_len(candidate_of(theme_uses(songs, left_order), key).sources);
    vstd::seq_lib::to_multiset_len(candidate_of(theme_uses(songs, right_order), key).sources);
}

proof fn lemma_ranks_contained(
    songs: Map<u64, SongMatchView>,
    left_order: Seq<u64>,
    right_order: Seq<u64>,
    left: Seq<ThemeCandidateView>,
    right: Seq<ThemeCandidateView>,
    at: int,
)
    requires
        keyed_by_id(songs),
        walks(left_order, songs),
        walks(right_order, songs),
        lists_candidates(left, theme_uses(songs, left_order)),
        lists_candidates(right, theme_uses(songs, right_order)),
        0 <= at < left.len(),
    ensures
        ranks(right).contains(ranks(left)[at]),
{
    let key = key_of(left[at]);
    lemma_key_agrees(songs, left_order, right_order, key);
    assert(has_key(theme_uses(songs, left_order), key));
    assert(has_key(theme_uses(songs, right_order), key));
    let j = choose|j: int| 0 <= j < right.len() && key_of(#[trigger] right[j]) == key;
    assert(right[j] == candidate_of(theme_uses(songs, right_order), key));
    assert(ranks(right)[j] == ranks(left)[at]);
}

proof fn lemma_ranks_sorted(list: Seq<ThemeCandidateView>, uses: Seq<ThemeUse>)
    requires
        lists_candidates(list, uses),
    ensures
        forall|i: int, j: int|
            0 <= i < j < ranks(list).len() ==> rank_before(
                #[trigger] ranks(list)[i],
                #[trigger] ranks(list)[j],
            ),
{
    assert forall|i: int, j: int| 0 <= i < j < ranks(list).len() implies rank_before(
        #[trigger] ranks(list)[i],
        #[trigger] ranks(list)[j],
    ) by {
        assert(candidate_before(list[i], list[j]));
    }
}

/// The order in which found songs are walked does not matter: the candidates,
/// their scores and their order are the same, and so are the sources of each
/// but for their order.
pub proof fn law_walk_order_does_not_matter(
    songs: Map<u64, SongMatchView>,
    left_order: Seq<u64>,
    right_order: Seq<u64>,
    left: Seq<ThemeCandidateView>,
    right: Seq<ThemeCandidateView>,
)
    requires
        keyed_by_id(songs),
        walks(left_order, songs),
        walks(right_order, songs),
        lists_candidates(left, theme_uses(songs, left_order)),
        lists_candidates(right, theme_uses(songs, right_order)),
    ensures
        same_candidates(left, right),
{
    assert forall|i: int| 0 <= i < ranks(left).len() implies ranks(right).contains(
        #[trigger] ranks(left)[i],
    ) by {
        lemma_ranks_contained(songs, left_order, right_order, left, right, i);
    }
    assert forall|i: int| 0 <= i < ranks(right).len() implies ranks(left).contains(
        #[trigger] ranks(right)[i],
    ) by {
        lemma_ranks_contained(songs, right_order, left_order, right, left, i);
    }
    lemma_ranks_sorted(left, theme_uses(songs, left_order));
    lemma_ranks_sorted(right, theme_uses(songs, right_order));
    lemma_same_ranks(ranks(left), ranks(right));
    assert(ranks(left).len() == left.len() && ranks(right).len() == right.len());
    assert forall|i: int|
        #![trigger left[i]]
        #![trigger right[i]]
        0 <= i < left.len() implies rank_of(left[i]) == rank_of(right[i])
        && left[i].sources.to_multiset() == right[i].sources.to_multiset() by {
        assert(ranks(left)[i] == ranks(right)[i]);
        lemma_key_agrees(songs, left_order, right_order, key_of(left[i]));
    }
}

proof fn lemma_walk_in_songs(songs: Map<u64, SongMatchView>, order: Seq<u64>)
    requires
        walks(order, songs),
    ensures
        forall|i: int| 0 <= i < order.len() ==> songs.contains_key(#[trigger] order[i]),
{
    assert forall|i: int| 0 <= i < order.len() implies songs.contains_key(#[trigger] order[i]) by {
        assert(order.to_set().contains(order[i]));
    }
}

/// Nor does it matter for whether the scores fit.
pub proof fn law_walk_order_does_not_matter_for_fit(
    songs: Map<u64, SongMatchView>,
    left_order: Seq<u64>,
    right_order: Seq<u64>,
)
    requires
        keyed_by_id(songs),
        walks(left_order, songs),
        walks(right_order, songs),
    ensures
        scores_fit(theme_uses(songs, left_order)) == scores_fit(theme_uses(songs, right_order)),
{
    let left_uses = theme_uses(songs, left_order);
    let right_uses = theme_uses(songs, right_order);
    lemma_walk_in_songs(songs, left_order);
    lemma_walk_in_songs(songs, right_order);
    assert forall|key: CandidateKey|
        #![trigger distinct_uses(left_uses, key)]
        #![trigger distinct_uses(right_uses, key)]
        total_score(distinct_uses(left_uses, key)) == total_score(
            distinct_uses(right_uses, key),
        ) by {
        lemma_distinct_by_song(songs, left_order, key);
        lemma_distinct_by_song(songs, right_order, key);
        lemma_walks_agree(songs, left_order, right_order, key);
    }
}

// ---------------------------------------------------------------------------
// Laws of the list of candidates
// ---------------------------------------------------------------------------

/// Of two candidates in the list the one with the higher score stands first. Of
/// the same score, openings and endings stand before other themes; then the one
/// with more sources stands first; and then the one with the earlier title.
pub proof fn law_higher_scores_stand_first(
    list: Seq<ThemeCandidateView>,
    uses: Seq<ThemeUse>,
    first: int,
    second: int,
)
    requires
        lists_candidates(list, uses),
        0 <= first < second < list.len(),
    ensures
        list[first].score >= list[second].score,
        list[first].score == list[second].score && list[first].kind is Other
            ==> list[second].kind is Other,
        list[first].score == list[second].score && (list[first].kind is Other <==> list[second].kind
            is Other) ==> list[first].sources.len() >= list[second].sources.len(),
        list[first].score == list[second].score && (list[first].kind is Other <==> list[second].kind
            is Other) && list[first].sources.len() == list[second].sources.len() ==> text_before(
            list[first].work_title,
            list[second].work_title,
        ) || (list[first].work_title == list[second].work_title && list[first].kind is Ending
            && list[second].kind is Opening),
{
    assert(candidate_before(list[first], list[second]));
    reveal_strlit("OP");
    reveal_strlit("ED");
    reveal_strlit("etc.");
    lemma_before_irreflexive(theme_label(list[first].kind));
    assert("OP"@[0] == 'O' && "ED"@[0] == 'E');
}

/// No two candidates in the list are for the same anime and theme.
pub proof fn law_candidates_are_distinct(
    list: Seq<ThemeCandidateView>,
    uses: Seq<ThemeUse>,
    first: int,
    second: int,
)
    requires
        lists_candidates(list, uses),
        0 <= first < second < list.len(),
    ensures
        list[first].work_title != list[second].work_title || list[first].kind
            != list[second].kind,
{
    assert(candidate_before(list[first], list[second]));
    assert(list[first] == candidate_of(uses, key_of(list[first])));
    assert(list[second] == candidate_of(uses, key_of(list[second])));
    lemma_rank_irreflexive(rank_of(list[first]));
}

/// Whether a theme is that of an anime: it names the anime, and is an opening
/// for the type `OP`, an ending for `ED`, and another theme for other types.
pub open spec fn is_theme_of(theme: AnimeThemeView, work_title: Seq<char>, kind: ThemeKind) -> bool {
    &&& theme.anime matches Some(anime) && anime.name == work_title
    &&& kind is Opening <==> theme.theme_type == seq!['O', 'P']
    &&& kind is Ending <==> theme.theme_type == seq!['E', 'D']
}

/// Whether a song has a theme of an anime under an id.
pub open spec fn has_theme(song: SongView, work_title: Seq<char>, kind: ThemeKind, id: u64) -> bool {
    exists|k: int|
        0 <= k < song.animethemes.len() && (#[trigger] song.animethemes[k]).id == id && is_theme_of(
            song.animethemes[k],
            work_title,
            kind,
        )
}

/// The ids of the themes of a song that are those of an anime.
pub open spec fn theme_ids(song: SongView, work_title: Seq<char>, kind: ThemeKind) -> Set<u64> {
    Set::new(|id: u64| has_theme(song, work_title, kind, id))
}

proof fn lemma_type_of_theme(value: Seq<char>)
    ensures
        api_theme_kind(value) is Opening <==> value == seq!['O', 'P'],
        api_theme_kind(value) is Ending <==> value == seq!['E', 'D'],
{
    reveal_strlit("OP");
    reveal_strlit("ED");
    assert("OP"@ =~= seq!['O', 'P']);
    assert("ED"@ =~= seq!['E', 'D']);
    assert("OP"@[0] == 'O' && "ED"@[0] == 'E');
}

proof fn lemma_use_of_theme(found: SongMatchView, theme: AnimeThemeView, key: CandidateKey)
    ensures
        is_theme_of(theme, key.work_title, key.kind) <==> theme_use(found, theme) is Some
            && theme_use(found, theme).unwrap().key == key,
{
    lemma_type_of_theme(theme.theme_type);
}

proof fn lemma_song_has_key(
    found: SongMatchView,
    themes: Seq<AnimeThemeView>,
    key: CandidateKey,
)
    ensures
        has_key(song_uses(found, themes), key) <==> exists|k: int|
            0 <= k < themes.len() && is_theme_of(#[trigger] themes[k], key.work_title, key.kind),
    decreases themes.len(),
{
    if themes.len() > 0 {
        let shorter = themes.drop_last();
        let last = themes.last();
        let before = song_uses(found, shorter);
        lemma_song_has_key(found, shorter, key);
        lemma_use_of_theme(found, last, key);
        if let Some(use_of_last) = theme_use(found, last) {
            lemma_has_key_push(before, use_of_last);
        }
        if has_key(before, key) {
            let k = choose|k: int|
                0 <= k < shorter.len() && is_theme_of(
                    #[trigger] shorter[k],
                    key.work_title,
                    key.kind,
                );
            assert(is_theme_of(themes[k], key.work_title, key.kind));
        }
        if is_theme_of(last, key.work_title, key.kind) {
            assert(is_theme_of(themes[themes.len() - 1], key.work_title, key.kind));
        }
        if exists|k: int|
            0 <= k < themes.len() && is_theme_of(#[trigger] themes[k], key.work_title, key.kind) {
            let k = choose|k: int|
                0 <= k < themes.len() && is_theme_of(
                    #[trigger] themes[k],
                    key.work_title,
                    key.kind,
                );
            if k < shorter.len() {
                assert(is_theme_of(shorter[k], key.work_title, key.kind));
            }
        }
    } else {
        assert(!has_key(song_uses(found, themes), key));
    }
}

/// Every theme of a found song whose anime is known has its candidate in the
/// list.
pub proof fn law_every_theme_has_its_candidate(
    list: Seq<ThemeCandidateView>,
    songs: Map<u64, SongMatchView>,
    order: Seq<u64>,
    id: u64,
    at: int,
    work_title: Seq<char>,
    kind: ThemeKind,
)
    requires
        walks(order, songs),
        lists_candidates(list, theme_uses(songs, order)),
        songs.contains_key(id),
        0 <= at < songs[id].song.animethemes.len(),
        is_theme_of(songs[id].song.animethemes[at], work_title, kind),
    ensures
        exists|i: int|
            0 <= i < list.len() && (#[trigger] list[i]).work_title == work_title && list[i].kind
                == kind,
{
    let key = CandidateKey { work_title, kind };
    lemma_song_has_key(songs[id], songs[id].song.animethemes, key);
    assert(has_key(uses_by_id(songs, id), key));
    lemma_walked_key(songs, order, key);
    let i = choose|i: int| 0 <= i < list.len() && key_of(#[trigger] list[i]) == key;
    assert(list[i].work_title == work_title);
}

/// Every candidate in the list is for an anime and theme of a found song.
pub proof fn law_every_candidate_has_a_theme(
    list: Seq<ThemeCandidateView>,
    songs: Map<u64, SongMatchView>,
    order: Seq<u64>,
    at: int,
) -> (place: (u64, int))
    requires
        walks(order, songs),
        lists_candidates(list, theme_uses(songs, order)),
        0 <= at < list.len(),
    ensures
        songs.contains_key(place.0),
        0 <= place.1 < songs[place.0].song.animethemes.len(),
        is_theme_of(
            songs[place.0].song.animethemes[place.1],
            list[at].work_title,
            list[at].kind,
        ),
{
    let key = key_of(list[at]);
    assert(has_key(theme_uses(songs, order), key));
    lemma_walked_key(songs, order, key);
    let id = choose|id: u64|
        songs.contains_key(id) && #[trigger] has_key(uses_by_id(songs, id), key);
    let themes = songs[id].song.animethemes;
    lemma_song_has_key(songs[id], themes, key);
    let k = choose|k: int|
        0 <= k < themes.len() && is_theme_of(#[trigger] themes[k], key.work_title, key.kind);
    (id, k)
}

/// The scores of the songs with these keys, each as often as the song has themes
/// of an anime.
pub open spec fn spoken_score(
    songs: Map<u64, SongMatchView>,
    order: Seq<u64>,
    work_title: Seq<char>,
    kind: ThemeKind,
) -> nat
    decreases order.len(),
{
    if order.len() == 0 {
        0
    } else {
        let found = songs[order.last()];
        spoken_score(songs, order.drop_last(), work_title, kind) + found.score * theme_ids(
            found.song,
            work_title,
            kind,
        ).len()
    }
}

/// The number of themes of an anime that the songs with these keys have.
pub open spec fn spoken_count(
    songs: Map<u64, SongMatchView>,
    order: Seq<u64>,
    work_title: Seq<char>,
    kind: ThemeKind,
) -> nat
    decreases order.len(),
{
    if order.len() == 0 {
        0
    } else {
        let found = songs[order.last()];
        spoken_count(songs, order.drop_last(), work_title, kind) + theme_ids(
            found.song,
            work_title,
            kind,
        ).len()
    }
}

/// The ids of themes of a list that are those of an anime.
spec fn listed_ids(themes: Seq<AnimeThemeView>, key: CandidateKey) -> Set<u64>
    decreases themes.len(),
{
    if themes.len() == 0 {
        Set::empty()
    } else if is_theme_of(themes.last(), key.work_title, key.kind) {
        listed_ids(themes.drop_last(), key).insert(themes.last().id)
    } else {
        listed_ids(themes.drop_last(), key)
    }
}

proof fn lemma_listed_ids(themes: Seq<AnimeThemeView>, key: CandidateKey, id: u64)
    ensures
        listed_ids(themes, key).finite(),
        listed_ids(themes, key).contains(id) <==> exists|k: int|
            0 <= k < themes.len() && (#[trigger] themes[k]).id == id && is_theme_of(
                themes[k],
                key.work_title,
                key.kind,
            ),
    decreases themes.len(),
{
    if themes.len() > 0 {
        let shorter = themes.drop_last();
        lemma_listed_ids(shorter, key, id);
        if listed_ids(shorter, key).contains(id) {
            let k = choose|k: int|
                0 <= k < shorter.len() && (#[trigger] shorter[k]).id == id && is_theme_of(
                    shorter[k],
                    key.work_title,
                    key.kind,
                );
            assert(themes[k].id == id);
        }
        if themes.last().id == id && is_theme_of(themes.last(), key.work_title, key.kind) {
            assert(themes[themes.len() - 1].id == id);
        }
        if exists|k: int|
            0 <= k < themes.len() && (#[trigger] themes[k]).id == id && is_theme_of(
                themes[k],
                key.work_title,
                key.kind,
            ) {
            let k = choose|k: int|
                0 <= k < themes.len() && (#[trigger] themes[k]).id == id && is_theme_of(
                    themes[k],
                    key.work_title,
                    key.kind,
                );
            if k < shorter.len() {
                assert(shorter[k].id == id);
            }
        }
    }
}

proof fn lemma_listed_ids_of_song(song: SongView, key: CandidateKey)
    ensures
        listed_ids(song.animethemes, key) == theme_ids(song, key.work_title, key.kind),
        theme_ids(song, key.work_title, key.kind).finite(),
{
    let ids = theme_ids(song, key.work_title, key.kind);
    assert forall|id: u64| listed_ids(song.animethemes, key).contains(id) == ids.contains(id) by {
        lemma_listed_ids(song.animethemes, key, id);
    }
    lemma_listed_ids(song.animethemes, key, 0);
    assert(listed_ids(song.animethemes, key) =~= ids);
}

proof fn lemma_song_speaks(found: SongMatchView, themes: Seq<AnimeThemeView>, key: CandidateKey)
    ensures
        total_score(distinct_uses(song_uses(found, themes), key)) == found.score * listed_ids(
            themes,
            key,
        ).len(),
        distinct_uses(song_uses(found, themes), key).len() == listed_ids(themes, key).len(),
        forall|id: u64| #[trigger]
            listed_ids(themes, key).contains(id) <==> has_source_key(
                distinct_uses(song_uses(found, themes), key),
                (found.song.id, id),
            ),
    decreases themes.len(),
{
    lemma_listed_ids(themes, key, 0);
    if themes.len() > 0 {
        let shorter = themes.drop_last();
        let last = themes.last();
        let before = song_uses(found, shorter);
        let distinct = distinct_uses(before, key);
        lemma_song_speaks(found, shorter, key);
        lemma_listed_ids(shorter, key, last.id);
        lemma_use_of_theme(found, last, key);
        match theme_use(found, last) {
            Some(added) => {
                lemma_distinct_push(before, added, key);
                if added.key == key && !has_source_key(distinct, added.source_key) {
                    assert(distinct.push(added).drop_last() =~= distinct);
                    assert(distinct.push(added) =~= distinct + seq![added]);
                    assert forall|id: u64| #[trigger]
                        listed_ids(themes, key).contains(id) <==> has_source_key(
                        distinct.push(added),
                        (found.song.id, id),
                    ) by {
                        lemma_has_source_key_add(distinct, seq![added], (found.song.id, id));
                        assert(seq![added][0] == added);
                        assert(listed_ids(shorter, key).contains(id) <==> has_source_key(
                            distinct,
                            (found.song.id, id),
                        ));
                    }
                    let count = listed_ids(shorter, key).len();
                    assert(found.score * (count + 1) == found.score * count + found.score)
                        by (nonlinear_arith);
                } else if added.key == key {
                    assert(listed_ids(shorter, key).contains(last.id));
                    assert(listed_ids(themes, key) =~= listed_ids(shorter, key));
                }
            },
            None => {},
        }
    }
}

proof fn lemma_walk_speaks(songs: Map<u64, SongMatchView>, order: Seq<u64>, key: CandidateKey)
    ensures
        total_score(distinct_by_song(songs, order, key)) == spoken_score(
            songs,
            order,
            key.work_title,
            key.kind,
        ),
        distinct_by_song(songs, order, key).len() == spoken_count(
            songs,
            order,
            key.work_title,
            key.kind,
        ),
    decreases order.len(),
{
    if order.len() > 0 {
        let found = songs[order.last()];
        lemma_walk_speaks(songs, order.drop_last(), key);
        lemma_song_speaks(found, found.song.animethemes, key);
        lemma_listed_ids_of_song(found.song, key);
        lemma_total_add(
            distinct_by_song(songs, order.drop_last(), key),
            distinct_uses(uses_by_id(songs, order.last()), key),
        );
    }
}

/// The score of a candidate is the sum of the scores of the found songs, each as
/// often as the song has themes of the anime; and it has one source for each of
/// those themes.
pub proof fn law_scores_add_up(
    list: Seq<ThemeCandidateView>,
    songs: Map<u64, SongMatchView>,
    order: Seq<u64>,
    at: int,
)
    requires
        keyed_by_id(songs),
        walks(order, songs),
        lists_candidates(list, theme_uses(songs, order)),
        0 <= at < list.len(),
    ensures
        list[at].score == spoken_score(songs, order, list[at].work_title, list[at].kind),
        list[at].sources.len() == spoken_count(songs, order, list[at].work_title, list[at].kind),
{
    let key = key_of(list[at]);
    lemma_walk_in_songs(songs, order);
    lemma_distinct_by_song(songs, order, key);
    lemma_walk_speaks(songs, order, key);
    assert(list[at] == candidate_of(theme_uses(songs, order), key));
}

/// Whether a source is that of a theme of a found song: it names the title of the
/// song and its artists, the page of the anime, and the queries that found it.
pub open spec fn is_source_of(
    source: CandidateSourceView,
    found: SongMatchView,
    theme: AnimeThemeView,
) -> bool {
    &&& source.page_title == "AnimeThemes: "@ + found.song.title + if found.song.artists.len() == 0 {
        Seq::empty()
    } else {
        " / "@ + join_texts(found.song.artists, ", "@)
    }
    &&& theme.anime matches Some(anime) && source.source_url == "https://animethemes.moe/anime/"@
        + anime.slug
    &&& source.matched_query == queries_summary(found.matched_queries)
}

proof fn lemma_song_sources(found: SongMatchView, themes: Seq<AnimeThemeView>, at: int) -> (k: int)
    requires
        0 <= at < song_uses(found, themes).len(),
    ensures
        0 <= k < themes.len(),
        theme_use(found, themes[k]) == Some(song_uses(found, themes)[at]),
    decreases themes.len(),
{
    let shorter = themes.drop_last();
    let before = song_uses(found, shorter);
    if themes.len() > 0 && at < before.len() {
        let k = lemma_song_sources(found, shorter, at);
        assert(themes[k] == shorter[k]);
        k
    } else {
        themes.len() - 1
    }
}

proof fn lemma_walk_uses(songs: Map<u64, SongMatchView>, order: Seq<u64>, at: int) -> (place: (
    int,
    int,
))
    requires
        0 <= at < theme_uses(songs, order).len(),
    ensures
        0 <= place.0 < order.len(),
        0 <= place.1 < songs[order[place.0]].song.animethemes.len(),
        theme_use(
            songs[order[place.0]],
            songs[order[place.0]].song.animethemes[place.1],
        ) == Some(theme_uses(songs, order)[at]),
    decreases order.len(),
{
    let before = theme_uses(songs, order.drop_last());
    if order.len() > 0 && at < before.len() {
        lemma_walk_uses(songs, order.drop_last(), at)
    } else {
        let found = songs[order.last()];
        let k = lemma_song_sources(found, found.song.animethemes, at - before.len());
        (order.len() - 1, k)
    }
}

proof fn lemma_distinct_among(uses: Seq<ThemeUse>, key: CandidateKey, at: int) -> (k: int)
    requires
        0 <= at < distinct_uses(uses, key).len(),
    ensures
        0 <= k < uses.len(),
        uses[k] == distinct_uses(uses, key)[at],
        uses[k].key == key,
    decreases uses.len(),
{
    let shorter = uses.drop_last();
    if uses.len() > 0 && at < distinct_uses(shorter, key).len() {
        lemma_distinct_among(shorter, key, at)
    } else {
        uses.len() - 1
    }
}

/// Every source of a candidate is that of a theme of a found song, and the theme is
/// that of the candidate.
pub proof fn law_sources_name_the_songs(
    list: Seq<ThemeCandidateView>,
    songs: Map<u64, SongMatchView>,
    order: Seq<u64>,
    at: int,
    source: int,
) -> (place: (u64, int))
    requires
        walks(order, songs),
        lists_candidates(list, theme_uses(songs, order)),
        0 <= at < list.len(),
        0 <= source < list[at].sources.len(),
    ensures
        songs.contains_key(place.0),
        0 <= place.1 < songs[place.0].song.animethemes.len(),
        is_theme_of(
            songs[place.0].song.animethemes[place.1],
            list[at].work_title,
            list[at].kind,
        ),
        is_source_of(
            list[at].sources[source],
            songs[place.0],
            songs[place.0].song.animethemes[place.1],
        ),
{
    let uses = theme_uses(songs, order);
    let key = key_of(list[at]);
    assert(list[at] == candidate_of(uses, key));
    let k = lemma_distinct_among(uses, key, source);
    let place = lemma_walk_uses(songs, order, k);
    let id = order[place.0];
    lemma_walk_in_songs(songs, order);
    let theme = songs[id].song.animethemes[place.1];
    lemma_use_of_theme(songs[id], theme, key);
    let page = list[at].sources[source].page_title;
    assert(page =~= "AnimeThemes: "@ + songs[id].song.title + if songs[id].song.artists.len() == 0 {
        Seq::empty()
    } else {
        " / "@ + join_texts(songs[id].song.artists, ", "@)
    });
    (id, place.1)
}

/// The summary of queries names them in ascending order, and no more than three.
pub proof fn law_summaries_are_ascending(queries: Set<Seq<char>>)
    requires
        queries.finite(),
    ensures
        exists|shown: Seq<Seq<char>>|
            {
                &&& #[trigger] join_texts(shown, " / "@) == queries_summary(queries)
                &&& shown.len() == if queries.len() < 3 {
                    queries.len()
                } else {
                    3
                }
                &&& forall|i: int| 0 <= i < shown.len() ==> queries.contains(#[trigger] shown[i])
                &&& forall|i: int, j: int|
                    0 <= i < j < shown.len() ==> text_before(#[trigger] shown[i], #[trigger] shown[j])
                &&& forall|query: Seq<char>, i: int|
                    #[trigger] queries.contains(query) && 0 <= i < shown.len() && text_before(
                        query,
                        #[trigger] shown[i],
                    ) ==> shown.contains(query)
            },
{
    crate::order::lemma_listing_exists(queries);
    let all = sorted_listing(queries);
    let shown = first_three(all);
    crate::order::lemma_ascending_distinct(all);
    all.unique_seq_to_set();
    assert forall|i: int| 0 <= i < shown.len() implies queries.contains(#[trigger] shown[i]) by {
        assert(all.to_set().contains(all[i]));
    }
    assert forall|i: int, j: int| 0 <= i < j < shown.len() implies text_before(
        #[trigger] shown[i],
        #[trigger] shown[j],
    ) by {
        assert(text_before(all[i], all[j]));
    }
    assert forall|query: Seq<char>, i: int|
        #[trigger] queries.contains(query) && 0 <= i < shown.len() && text_before(
            query,
            #[trigger] shown[i],
        ) implies shown.contains(query) by {
        assert(all.to_set().contains(query));
        let k = all.index_of(query);
        if k > i {
            assert(text_before(all[i], all[k]));
            lemma_before_transitive(all[i], all[k], all[i]);
            lemma_before_irreflexive(all[i]);
        } else if k == i {
            lemma_before_irreflexive(all[i]);
        }
        assert(shown[k] == query);
    }
    assert(join_texts(shown, " / "@) == queries_summary(queries));
}

/// There is a candidate for each anime and theme that a found song has, and for no
/// others.
pub proof fn law_candidate_keys(
    songs: Map<u64, SongMatchView>,
    work_title: Seq<char>,
    kind: ThemeKind,
)
    ensures
        candidate_keys(songs).contains(CandidateKey { work_title, kind }) <==> exists|id: u64, k: int|
            {
                &&& songs.contains_key(id)
                &&& 0 <= k < songs[id].song.animethemes.len()
                &&& is_theme_of(#[trigger] songs[id].song.animethemes[k], work_title, kind)
            },
{
    let key = CandidateKey { work_title, kind };
    if candidate_keys(songs).contains(key) {
        let id = choose|id: u64|
            songs.contains_key(id) && #[trigger] has_key(uses_by_id(songs, id), key);
        let themes = songs[id].song.animethemes;
        lemma_song_has_key(songs[id], themes, key);
        let k = choose|k: int|
            0 <= k < themes.len() && is_theme_of(#[trigger] themes[k], work_title, kind);
        assert(is_theme_of(songs[id].song.animethemes[k], work_title, kind));
    }
    if exists|id: u64, k: int|
        {
            &&& songs.contains_key(id)
            &&& 0 <= k < songs[id].song.animethemes.len()
            &&& is_theme_of(#[trigger] songs[id].song.animethemes[k], work_title, kind)
        } {
        let (id, k) = choose|id: u64, k: int|
            {
                &&& songs.contains_key(id)
                &&& 0 <= k < songs[id].song.animethemes.len()
                &&& is_theme_of(#[trigger] songs[id].song.animethemes[k], work_title, kind)
            };
        lemma_song_has_key(songs[id], songs[id].song.animethemes, key);
        assert(has_key(uses_by_id(songs, id), key));
    }
}

/// The scores fit where the sum of the scores of each candidate does.
pub proof fn law_scores_that_fit(songs: Map<u64, SongMatchView>, order: Seq<u64>)
    requires
        keyed_by_id(songs),
        walks(order, songs),
    ensures
        scores_fit(theme_uses(songs, order)) <==> forall|work_title: Seq<char>, kind: ThemeKind|
            #[trigger] spoken_score(songs, order, work_title, kind) <= usize::MAX,
{
    let uses = theme_uses(songs, order);
    lemma_walk_in_songs(songs, order);
    assert forall|key: CandidateKey|
        #![trigger distinct_uses(uses, key)]
        total_score(distinct_uses(uses, key)) == spoken_score(
            songs,
            order,
            key.work_title,
            key.kind,
        ) by {
        lemma_distinct_by_song(songs, order, key);
        lemma_walk_speaks(songs, order, key);
    }
    if scores_fit(uses) {
        assert forall|work_title: Seq<char>, kind: ThemeKind| #[trigger]
            spoken_score(songs, order, work_title, kind) <= usize::MAX by {
            let key = CandidateKey { work_title, kind };
            assert(total_score(distinct_uses(uses, key)) <= usize::MAX);
        }
    }
}

proof fn lemma_use_is_there(found: SongMatchView, themes: Seq<AnimeThemeView>, at: int) -> (k: int)
    requires
        0 <= at < themes.len(),
        theme_use(found, themes[at]) is Some,
    ensures
        0 <= k < song_uses(found, themes).len(),
        Some(song_uses(found, themes)[k]) == theme_use(found, themes[at]),
    decreases themes.len(),
{
    let shorter = themes.drop_last();
    if at < shorter.len() {
        let k = lemma_use_is_there(found, shorter, at);
        assert(song_uses(found, themes)[k] == song_uses(found, shorter)[k]);
        k
    } else {
        song_uses(found, shorter).len() as int
    }
}

proof fn lemma_walked_use_is_there(
    songs: Map<u64, SongMatchView>,
    order: Seq<u64>,
    place: int,
    at: int,
) -> (k: int)
    requires
        0 <= place < order.len(),
        0 <= at < songs[order[place]].song.animethemes.len(),
        theme_use(songs[order[place]], songs[order[place]].song.animethemes[at]) is Some,
    ensures
        0 <= k < theme_uses(songs, order).len(),
        Some(theme_uses(songs, order)[k]) == theme_use(
            songs[order[place]],
            songs[order[place]].song.animethemes[at],
        ),
    decreases order.len(),
{
    let before = theme_uses(songs, order.drop_last());
    if place < order.len() - 1 {
        lemma_walked_use_is_there(songs, order.drop_last(), place, at)
    } else {
        let found = songs[order.last()];
        let k = lemma_use_is_there(found, found.song.animethemes, at);
        before.len() + k
    }
}

proof fn lemma_distinct_has_source_key(uses: Seq<ThemeUse>, key: CandidateKey, at: int) -> (k: int)
    requires
        0 <= at < uses.len(),
        uses[at].key == key,
    ensures
        0 <= k < distinct_uses(uses, key).len(),
        distinct_uses(uses, key)[k].source_key == uses[at].source_key,
    decreases uses.len(),
{
    let shorter = uses.drop_last();
    let before = distinct_uses(shorter, key);
    if at < shorter.len() {
        let k = lemma_distinct_has_source_key(shorter, key, at);
        assert(distinct_uses(uses, key)[k] == before[k]);
        k
    } else if has_source_key(before, uses[at].source_key) {
        choose|i: int|
            0 <= i < before.len() && (#[trigger] before[i]).source_key == uses[at].source_key
    } else {
        before.len() as int
    }
}

/// Each theme of each found song is named by a source of its candidate: the one for
/// this song and, where the song has several themes of the anime under one id, for one
/// of these.
pub proof fn law_every_theme_is_named(
    list: Seq<ThemeCandidateView>,
    songs: Map<u64, SongMatchView>,
    order: Seq<u64>,
    at: int,
    id: u64,
    theme: int,
) -> (place: (int, int))
    requires
        keyed_by_id(songs),
        walks(order, songs),
        lists_candidates(list, theme_uses(songs, order)),
        0 <= at < list.len(),
        songs.contains_key(id),
        0 <= theme < songs[id].song.animethemes.len(),
        is_theme_of(songs[id].song.animethemes[theme], list[at].work_title, list[at].kind),
    ensures
        0 <= place.0 < list[at].sources.len(),
        0 <= place.1 < songs[id].song.animethemes.len(),
        songs[id].song.animethemes[place.1].id == songs[id].song.animethemes[theme].id,
        is_theme_of(songs[id].song.animethemes[place.1], list[at].work_title, list[at].kind),
        is_source_of(
            list[at].sources[place.0],
            songs[id],
            songs[id].song.animethemes[place.1],
        ),
{
    let uses = theme_uses(songs, order);
    let key = key_of(list[at]);
    assert(list[at] == candidate_of(uses, key));
    lemma_walk_in_songs(songs, order);
    assert(order.to_set().contains(id));
    let walked = order.index_of(id);
    lemma_use_of_theme(songs[id], songs[id].song.animethemes[theme], key);
    let k = lemma_walked_use_is_there(songs, order, walked, theme);
    let source = lemma_distinct_has_source_key(uses, key, k);
    let among = lemma_distinct_among(uses, key, source);
    let found = lemma_walk_uses(songs, order, among);
    assert(songs.contains_key(order[found.0]));
    assert(order[found.0] == id);
    lemma_use_of_theme(songs[id], songs[id].song.animethemes[found.1], key);
    let page = list[at].sources[source].page_title;
    assert(page =~= "AnimeThemes: "@ + songs[id].song.title + if songs[id].song.artists.len() == 0 {
        Seq::empty()
    } else {
        " / "@ + join_texts(songs[id].song.artists, ", "@)
    });
    (source, found.1)
}

} // verus!

//! Anime themes, and what is asked of AnimeThemes about a file.

use vstd::prelude::*;

use crate::file_name::{SearchInput, SearchInputView};
use crate::order::TextSet;
use crate::scoring::{
    artist_match_score, artist_names, lookup_normal, normalized_lookup_text, source_artist_points,
    ArtistRecord,
};
use crate::text::{
    joined2, optional_str_view, optional_view, same_text, trim_text, trimmed, views,
};

verus! {

/// How many exact queries are made for a file.
pub const MAX_EXACT_QUERIES: usize = 6;

/// How many songs an exact query asks for.
pub const MAX_EXACT_RESULTS_PER_QUERY: usize = 8;

/// How many fuzzy queries are made for a file.
pub const MAX_FUZZY_QUERIES: usize = 4;

/// How many songs of a fuzzy query count.
pub const MAX_FUZZY_RESULTS_PER_QUERY: usize = 6;

/// How many songs that fuzzy queries found are looked at in detail.
pub const MAX_FUZZY_DETAIL_REQUESTS: usize = 8;

/// With how many candidates the search is content.
pub const DESIRED_CANDIDATE_COUNT: usize = 8;

// ---------------------------------------------------------------------------
// Themes and candidates
// ---------------------------------------------------------------------------

/// What a theme song is of an anime.
#[derive(Debug, Clone, Copy, PartialEq, Eq, Hash, Structural)]
pub enum ThemeKind {
    Opening,
    Ending,
    Other,
}

/// The label of a theme.
pub open spec fn theme_label(kind: ThemeKind) -> Seq<char> {
    match kind {
        ThemeKind::Opening => "OP"@,
        ThemeKind::Ending => "ED"@,
        ThemeKind::Other => "etc."@,
    }
}

/// What a theme song is by its type in the AnimeThemes API.
pub open spec fn api_theme_kind(value: Seq<char>) -> ThemeKind {
    if value == "OP"@ {
        ThemeKind::Opening
    } else if value == "ED"@ {
        ThemeKind::Ending
    } else {
        ThemeKind::Other
    }
}

/// The weight of a theme among candidates of the same score.
pub open spec fn theme_priority(kind: ThemeKind) -> nat {
    match kind {
        ThemeKind::Opening => 1,
        ThemeKind::Ending => 1,
        ThemeKind::Other => 0,
    }
}

impl ThemeKind {
    /// The label of a theme.
    pub fn label(self) -> (label: &'static str)
        ensures
            label@ == theme_label(self),
    {
        match self {
            ThemeKind::Opening => "OP",
            ThemeKind::Ending => "ED",
            ThemeKind::Other => "etc.",
        }
    }

    /// The weight of a theme among candidates of the same score.
    pub fn priority(self) -> (priority: usize)
        ensures
            priority == theme_priority(self),
    {
        match self {
            ThemeKind::Opening | ThemeKind::Ending => 1,
            ThemeKind::Other => 0,
        }
    }

    /// What a theme song is by its type in the AnimeThemes API.
    pub fn from_api_type(value: &str) -> (kind: ThemeKind)
        ensures
            kind == api_theme_kind(value@),
    {
        proof {
            reveal_strlit("OP");
            reveal_strlit("ED");
        }
        if same_text(value, "OP") {
            ThemeKind::Opening
        } else if same_text(value, "ED") {
            ThemeKind::Ending
        } else {
            ThemeKind::Other
        }
    }
}

/// A song that speaks for a candidate.
#[derive(Debug)]
pub struct CandidateSource {
    pub page_title: String,
    pub source_url: String,
    pub matched_query: String,
}

/// What a `CandidateSource` holds.
#[verifier::ext_equal]
pub struct CandidateSourceView {
    pub page_title: Seq<char>,
    pub source_url: Seq<char>,
    pub matched_query: Seq<char>,
}

impl View for CandidateSource {
    type V = CandidateSourceView;

    open spec fn view(&self) -> CandidateSourceView {
        CandidateSourceView {
            page_title: self.page_title@,
            source_url: self.source_url@,
            matched_query: self.matched_query@,
        }
    }
}

/// What the sources of a list hold.
pub open spec fn source_views(sources: Seq<CandidateSource>) -> Seq<CandidateSourceView> {
    Seq::new(sources.len(), |i: int| sources[i]@)
}

/// An anime and a theme of it that a file may hold.
#[derive(Debug)]
pub struct ThemeCandidate {
    pub work_title: String,
    pub kind: ThemeKind,
    pub score: usize,
    pub sources: Vec<CandidateSource>,
}

/// What a `ThemeCandidate` holds.
#[verifier::ext_equal]
pub struct ThemeCandidateView {
    pub work_title: Seq<char>,
    pub kind: ThemeKind,
    pub score: nat,
    pub sources: Seq<CandidateSourceView>,
}

impl View for ThemeCandidate {
    type V = ThemeCandidateView;

    open spec fn view(&self) -> ThemeCandidateView {
        ThemeCandidateView {
            work_title: self.work_title@,
            kind: self.kind,
            score: self.score as nat,
            sources: source_views(self.sources@),
        }
    }
}

/// What the candidates of a list hold.
pub open spec fn candidate_views(candidates: Seq<ThemeCandidate>) -> Seq<ThemeCandidateView> {
    Seq::new(candidates.len(), |i: int| candidates[i]@)
}

/// How an anime and its theme are written: the title and the label in
/// brackets.
pub open spec fn labelled(work_title: Seq<char>, kind: ThemeKind) -> Seq<char> {
    work_title + " ["@ + theme_label(kind) + "]"@
}

impl ThemeCandidate {
    /// How a candidate is written: the title and the label in brackets.
    pub fn formatted_label(&self) -> (label: String)
        ensures
            label@ == labelled(self@.work_title, self@.kind),
    {
        let opened = joined2(self.work_title.as_str(), " [");
        let labelled = joined2(opened.as_str(), self.kind.label());
        joined2(labelled.as_str(), "]")
    }
}

impl Clone for CandidateSource {
    fn clone(&self) -> (copy: CandidateSource)
        ensures
            copy@ == self@,
    {
        CandidateSource {
            page_title: self.page_title.clone(),
            source_url: self.source_url.clone(),
            matched_query: self.matched_query.clone(),
        }
    }
}

impl Clone for ThemeCandidate {
    fn clone(&self) -> (copy: ThemeCandidate)
        ensures
            copy@ == self@,
    {
        let mut sources: Vec<CandidateSource> = Vec::new();
        let mut i: usize = 0;
        while i < self.sources.len()
            invariant
                i <= self.sources@.len(),
                source_views(sources@) == source_views(self.sources@).take(i as int),
            decreases self.sources@.len() - i,
        {
            let ghost before = source_views(sources@);
            sources.push(self.sources[i].clone());
            assert(source_views(sources@) =~= before.push(self.sources@[i as int]@));
            assert(source_views(self.sources@).take(i + 1) =~= before.push(
                self.sources@[i as int]@,
            ));
            i = i + 1;
        }
        assert(source_views(self.sources@).take(self.sources@.len() as int) =~= source_views(
            self.sources@,
        ));
        ThemeCandidate {
            work_title: self.work_title.clone(),
            kind: self.kind,
            score: self.score,
            sources,
        }
    }
}

// ---------------------------------------------------------------------------
// Songs
// ---------------------------------------------------------------------------

/// An anime.
#[derive(Debug)]
pub struct AnimeRecord {
    pub name: String,
    pub slug: String,
}

/// What an `AnimeRecord` holds.
#[verifier::ext_equal]
pub struct AnimeView {
    pub name: Seq<char>,
    pub slug: Seq<char>,
}

impl View for AnimeRecord {
    type V = AnimeView;

    open spec fn view(&self) -> AnimeView {
        AnimeView { name: self.name@, slug: self.slug@ }
    }
}

/// A use of a song as the theme of an anime.
#[derive(Debug)]
pub struct AnimeThemeRecord {
    pub id: u64,
    pub theme_type: String,
    pub anime: Option<AnimeRecord>,
}

/// What an `AnimeThemeRecord` holds.
#[verifier::ext_equal]
pub struct AnimeThemeView {
    pub id: u64,
    pub theme_type: Seq<char>,
    pub anime: Option<AnimeView>,
}

impl View for AnimeThemeRecord {
    type V = AnimeThemeView;

    open spec fn view(&self) -> AnimeThemeView {
        AnimeThemeView {
            id: self.id,
            theme_type: self.theme_type@,
            anime: match self.anime {
                Some(anime) => Some(anime@),
                None => None,
            },
        }
    }
}

/// What the themes of a list hold.
pub open spec fn theme_views(themes: Seq<AnimeThemeRecord>) -> Seq<AnimeThemeView> {
    Seq::new(themes.len(), |i: int| themes[i]@)
}

/// A song with its artists and the anime that it is a theme of.
#[derive(Debug)]
pub struct SongRecord {
    pub id: u64,
    pub title: String,
    pub animethemes: Vec<AnimeThemeRecord>,
    pub artists: Vec<ArtistRecord>,
}

/// What a `SongRecord` holds.
#[verifier::ext_equal]
pub struct SongView {
    pub id: u64,
    pub title: Seq<char>,
    pub animethemes: Seq<AnimeThemeView>,
    pub artists: Seq<Seq<char>>,
}

impl View for SongRecord {
    type V = SongView;

    open spec fn view(&self) -> SongView {
        SongView {
            id: self.id,
            title: self.title@,
            animethemes: theme_views(self.animethemes@),
            artists: artist_names(self.artists@),
        }
    }
}

/// What the songs of a list hold.
pub open spec fn song_views(songs: Seq<SongRecord>) -> Seq<SongView> {
    Seq::new(songs.len(), |i: int| songs[i]@)
}

/// A song that a fuzzy query found.
#[derive(Debug)]
pub struct SearchSongHit {
    pub id: u64,
    pub title: String,
}

/// What a `SearchSongHit` holds.
#[verifier::ext_equal]
pub struct SearchSongHitView {
    pub id: u64,
    pub title: Seq<char>,
}

impl View for SearchSongHit {
    type V = SearchSongHitView;

    open spec fn view(&self) -> SearchSongHitView {
        SearchSongHitView { id: self.id, title: self.title@ }
    }
}

/// What the hits of a list hold.
pub open spec fn hit_views(hits: Seq<SearchSongHit>) -> Seq<SearchSongHitView> {
    Seq::new(hits.len(), |i: int| hits[i]@)
}

/// Whether a song is by an artist, as far as the names tell.
pub open spec fn is_song_by(artist: Seq<char>) -> spec_fn(SongView) -> bool {
    |song: SongView| source_artist_points(song.artists, Some(artist)) > 0
}

/// The songs by an artist, in their order, or all songs where none is.
pub open spec fn preferred_songs(songs: Seq<SongView>, artist: Option<Seq<char>>) -> Seq<SongView> {
    match artist {
        Some(artist) => {
            let matched = songs.filter(is_song_by(artist));
            if matched.len() == 0 {
                songs
            } else {
                matched
            }
        },
        None => songs,
    }
}

proof fn lemma_filter_step(songs: Seq<SongView>, artist: Seq<char>, count: int)
    requires
        0 <= count < songs.len(),
    ensures
        songs.take(count + 1).filter(is_song_by(artist)) == if is_song_by(artist)(songs[count]) {
            songs.take(count).filter(is_song_by(artist)).push(songs[count])
        } else {
            songs.take(count).filter(is_song_by(artist))
        },
{
    reveal(Seq::filter);
    assert(songs.take(count + 1).drop_last() =~= songs.take(count));
}

/// The songs by an artist, in their order, or all songs where none is.
pub fn prefer_artist_matches(songs: Vec<SongRecord>, artist: Option<&str>) -> (preferred: Vec<
    SongRecord,
>)
    ensures
        song_views(preferred@) == preferred_songs(
            song_views(songs@),
            optional_str_view(artist),
        ),
{
    let name = match artist {
        Some(name) => name,
        None => {
            return songs;
        },
    };
    let ghost all = song_views(songs@);
    let mut flags: Vec<bool> = Vec::new();
    let mut any = false;
    let mut i: usize = 0;
    assert(all.take(0).filter(is_song_by(name@)) =~= Seq::<SongView>::empty()) by {
        reveal(Seq::filter);
    }
    while i < songs.len()
        invariant
            i <= songs@.len(),
            all == song_views(songs@),
            flags@.len() == i,
            forall|k: int| 0 <= k < i ==> #[trigger] flags@[k] == is_song_by(name@)(all[k]),
            any == (all.take(i as int).filter(is_song_by(name@)).len() > 0),
        decreases songs@.len() - i,
    {
        let matched = artist_match_score(&songs[i].artists, Some(name)) > 0;
        proof {
            lemma_filter_step(all, name@, i as int);
        }
        flags.push(matched);
        any = any || matched;
        i = i + 1;
    }
    assert(all.take(all.len() as int) =~= all);
    if !any {
        return songs;
    }
    let mut preferred: Vec<SongRecord> = Vec::new();
    assert(all.take(0).filter(is_song_by(name@)) =~= song_views(preferred@)) by {
        reveal(Seq::filter);
    }
    let total: usize = songs.len();
    let mut k: usize = 0;
    let ghost records = songs@;
    for song in it: songs
        invariant
            it.seq() == records,
            k == it.index(),
            total == records.len(),
            all == song_views(records),
            flags@.len() == records.len(),
            forall|j: int|
                0 <= j < flags@.len() ==> #[trigger] flags@[j] == is_song_by(name@)(all[j]),
            song_views(preferred@) == all.take(k as int).filter(is_song_by(name@)),
    {
        proof {
            lemma_filter_step(all, name@, k as int);
            assert(song == records[k as int]);
        }
        if flags[k] {
            let ghost before = song_views(preferred@);
            let ghost view = song@;
            preferred.push(song);
            assert(song_views(preferred@) =~= before.push(view));
        }
        k = k + 1;
    }
    preferred
}

// ---------------------------------------------------------------------------
// Queries
// ---------------------------------------------------------------------------

/// A query for songs by their exact title.
#[derive(Debug)]
pub struct ExactQuery {
    pub title: String,
    pub matched_query: String,
    pub artist: Option<String>,
}

/// What an `ExactQuery` holds.
#[verifier::ext_equal]
pub struct ExactQueryView {
    pub title: Seq<char>,
    pub matched_query: Seq<char>,
    pub artist: Option<Seq<char>>,
}

impl View for ExactQuery {
    type V = ExactQueryView;

    open spec fn view(&self) -> ExactQueryView {
        ExactQueryView {
            title: self.title@,
            matched_query: self.matched_query@,
            artist: optional_view(self.artist),
        }
    }
}

/// What the queries of a list hold.
pub open spec fn query_views(queries: Seq<ExactQuery>) -> Seq<ExactQueryView> {
    Seq::new(queries.len(), |i: int| queries[i]@)
}

/// How an exact query is shown: its title and, where there is one, its artist.
pub open spec fn shown_query(title: Seq<char>, artist: Option<Seq<char>>) -> Seq<char> {
    match artist {
        Some(artist) => title + " "@ + artist,
        None => title,
    }
}

/// How an exact query is shown: its title and, where there is one, its artist.
pub fn format_exact_matched_query(title: &str, artist: Option<&str>) -> (shown: String)
    ensures
        shown@ == shown_query(title@, optional_str_view(artist)),
{
    match artist {
        Some(artist) => {
            let spaced = joined2(title, " ");
            joined2(spaced.as_str(), artist)
        },
        None => title.to_string(),
    }
}

/// The exact queries for titles by an artist.
pub open spec fn titled_queries(titles: Seq<Seq<char>>, artist: Option<Seq<char>>) -> Seq<
    ExactQueryView,
> {
    Seq::new(
        titles.len(),
        |i: int|
            ExactQueryView {
                title: titles[i],
                matched_query: shown_query(titles[i], artist),
                artist,
            },
    )
}

/// The exact queries for a file: its titles by its artist, and then, where it
/// has an artist, its titles by anyone.
pub open spec fn exact_queries(input: SearchInputView) -> Seq<ExactQueryView> {
    let by_artist = titled_queries(input.title_queries, input.source_artist);
    if input.source_artist is Some {
        by_artist + titled_queries(input.title_queries, None)
    } else {
        by_artist
    }
}

fn push_titled_queries(queries: &mut Vec<ExactQuery>, titles: &Vec<String>, artist: Option<&str>)
    ensures
        query_views(final(queries)@) == query_views(old(queries)@) + titled_queries(
            views(titles@),
            optional_str_view(artist),
        ),
{
    let ghost before = query_views(queries@);
    let ghost more = titled_queries(views(titles@), optional_str_view(artist));
    let mut i: usize = 0;
    assert(before + more.take(0) =~= before);
    while i < titles.len()
        invariant
            i <= titles@.len(),
            more == titled_queries(views(titles@), optional_str_view(artist)),
            query_views(queries@) == before + more.take(i as int),
        decreases titles@.len() - i,
    {
        let title = titles[i].as_str();
        let owned_artist = match artist {
            Some(artist) => Some(artist.to_string()),
            None => None,
        };
        let ghost so_far = query_views(queries@);
        queries.push(
            ExactQuery {
                title: title.to_string(),
                matched_query: format_exact_matched_query(title, artist),
                artist: owned_artist,
            },
        );
        assert(query_views(queries@) =~= so_far.push(more[i as int]));
        assert(before + more.take(i + 1) =~= so_far.push(more[i as int]));
        i = i + 1;
    }
    assert(more.take(more.len() as int) =~= more);
}

/// The exact queries for a file.
pub fn build_exact_queries(search_input: &SearchInput) -> (queries: Vec<ExactQuery>)
    ensures
        query_views(queries@) == exact_queries(search_input@),
{
    let mut queries: Vec<ExactQuery> = Vec::new();
    match &search_input.source_artist {
        Some(artist) => {
            push_titled_queries(&mut queries, &search_input.title_queries, Some(artist.as_str()));
            push_titled_queries(&mut queries, &search_input.title_queries, None);
        },
        None => {
            push_titled_queries(&mut queries, &search_input.title_queries, None);
        },
    }
    assert(query_views(queries@) =~= exact_queries(search_input@));
    queries
}

/// The fuzzy queries after one more: a query that says what none before it
/// says is added, a blank one is not.
pub open spec fn with_fuzzy_query(queries: Seq<Seq<char>>, query: Seq<char>) -> Seq<Seq<char>> {
    if trimmed(query).len() > 0 && !normal_forms(queries).contains(lookup_normal(query)) {
        queries.push(query)
    } else {
        queries
    }
}

/// What a list of queries says, each in normal form.
pub open spec fn normal_forms(queries: Seq<Seq<char>>) -> Seq<Seq<char>> {
    Seq::new(queries.len(), |i: int| lookup_normal(queries[i]))
}

/// The fuzzy queries out of a list: those that are not blank, and of those
/// with the same normal form the first.
pub open spec fn fuzzy_queries(queries: Seq<Seq<char>>) -> Seq<Seq<char>>
    decreases queries.len(),
{
    if queries.len() == 0 {
        Seq::empty()
    } else {
        with_fuzzy_query(fuzzy_queries(queries.drop_last()), queries.last())
    }
}

/// The fuzzy queries for a file.
pub fn build_fuzzy_queries(search_input: &SearchInput) -> (queries: Vec<String>)
    ensures
        views(queries@) == fuzzy_queries(search_input@.search_queries),
{
    let ghost all = search_input@.search_queries;
    let mut queries: Vec<String> = Vec::new();
    let mut seen = TextSet::new();
    let mut i: usize = 0;
    assert(all.take(0) =~= Seq::<Seq<char>>::empty());
    assert(views(queries@) =~= fuzzy_queries(all.take(0)));
    assert(normal_forms(views(queries@)).to_set() =~= Set::<Seq<char>>::empty());
    while i < search_input.search_queries.len()
        invariant
            i <= search_input.search_queries@.len(),
            all == views(search_input.search_queries@),
            views(queries@) == fuzzy_queries(all.take(i as int)),
            seen@ == normal_forms(views(queries@)).to_set(),
        decreases search_input.search_queries@.len() - i,
    {
        let query = search_input.search_queries[i].as_str();
        let ghost before = views(queries@);
        proof {
            assert(all.take(i + 1).drop_last() =~= all.take(i as int));
            assert(all.take(i + 1).last() == query@);
            assert(normal_forms(before).to_set().contains(lookup_normal(query@))
                == normal_forms(before).contains(lookup_normal(query@)));
        }
        if !trim_text(query).as_str().is_empty() {
            if seen.insert(normalized_lookup_text(query)) {
                queries.push(query.to_string());
                proof {
                    assert(views(queries@) =~= before.push(query@));
                    let forms = normal_forms(views(queries@));
                    assert(forms =~= normal_forms(before).push(lookup_normal(query@)));
                    assert(forms.take(before.len() as int) =~= normal_forms(before));
                    assert(forms.take(before.len() as int + 1) =~= forms);
                    crate::order::lemma_take_to_set(forms, before.len() as int);
                }
            } else {
                assert(seen@ =~= normal_forms(before).to_set());
            }
        }
        i = i + 1;
    }
    assert(all.take(all.len() as int) =~= all);
    queries
}

/// The queries by the artist of a file come before those by anyone.
pub proof fn law_artist_queries_come_first(input: SearchInputView, at: int)
    requires
        0 <= at < exact_queries(input).len(),
    ensures
        at < input.title_queries.len() ==> exact_queries(input)[at].artist == input.source_artist
            && exact_queries(input)[at].title == input.title_queries[at],
        at >= input.title_queries.len() ==> exact_queries(input)[at].artist is None
            && exact_queries(input)[at].title == input.title_queries[at
            - input.title_queries.len()],
{
}

/// Fuzzy queries are among the queries of a file, none is blank, and no two say
/// the same.
pub proof fn law_fuzzy_queries_say_different_things(queries: Seq<Seq<char>>)
    ensures
        normal_forms(fuzzy_queries(queries)).no_duplicates(),
        forall|i: int|
            0 <= i < fuzzy_queries(queries).len() ==> trimmed(
                #[trigger] fuzzy_queries(queries)[i],
            ).len() > 0 && queries.contains(fuzzy_queries(queries)[i]),
        forall|i: int|
            0 <= i < queries.len() && trimmed(#[trigger] queries[i]).len() > 0 ==> normal_forms(
                fuzzy_queries(queries),
            ).contains(lookup_normal(queries[i])),
    decreases queries.len(),
{
    if queries.len() > 0 {
        let shorter = queries.drop_last();
        let before = fuzzy_queries(shorter);
        let after = fuzzy_queries(queries);
        let last = queries.last();
        law_fuzzy_queries_say_different_things(shorter);
        assert(queries[queries.len() - 1] == last);
        let (forms_before, forms) = (normal_forms(before), normal_forms(after));
        assert forall|i: int| 0 <= i < after.len() implies trimmed(#[trigger] after[i]).len() > 0
            && queries.contains(after[i]) by {
            if i < before.len() {
                assert(after[i] == before[i]);
                let k = shorter.index_of(before[i]);
                assert(queries[k] == before[i]);
            }
        }
        assert forall|i: int, j: int|
            0 <= i < forms.len() && 0 <= j < forms.len() && i != j implies forms[i]
            != forms[j] by {
            if i < before.len() {
                assert(forms[i] == forms_before[i]);
                assert(forms_before.contains(forms_before[i]));
            }
            if j < before.len() {
                assert(forms[j] == forms_before[j]);
                assert(forms_before.contains(forms_before[j]));
            }
        }
        assert forall|i: int|
            0 <= i < queries.len() && trimmed(#[trigger] queries[i]).len() > 0 implies forms.contains(
            lookup_normal(queries[i]),
        ) by {
            let form = lookup_normal(queries[i]);
            if i < shorter.len() {
                assert(shorter[i] == queries[i]);
            }
            if forms_before.contains(form) {
                let k = forms_before.index_of(form);
                assert(forms[k] == form);
            } else {
                assert(forms[before.len() as int] == form);
            }
        }
    }
}

// ---------------------------------------------------------------------------
// Laws of themes and queries
// ---------------------------------------------------------------------------

/// A theme of the type `OP` is an opening, one of the type `ED` an ending, and one of
/// any other type another theme.
pub proof fn law_theme_types(value: Seq<char>)
    ensures
        api_theme_kind(value) is Opening <==> value == seq!['O', 'P'],
        api_theme_kind(value) is Ending <==> value == seq!['E', 'D'],
{
    reveal_strlit("OP");
    reveal_strlit("ED");
    assert("OP"@ =~= seq!['O', 'P']);
    assert("ED"@ =~= seq!['E', 'D']);
    assert("OP"@[0] == 'O' && "ED"@[0] == 'E');
}

/// A candidate is written as its title, a space, and in square brackets `OP`, `ED` or
/// `etc.`.
pub proof fn law_labels(work_title: Seq<char>)
    ensures
        labelled(work_title, ThemeKind::Opening) == work_title + seq![' ', '[', 'O', 'P', ']'],
        labelled(work_title, ThemeKind::Ending) == work_title + seq![' ', '[', 'E', 'D', ']'],
        labelled(work_title, ThemeKind::Other) == work_title + seq![
            ' ',
            '[',
            'e',
            't',
            'c',
            '.',
            ']',
        ],
{
    reveal_strlit("OP");
    reveal_strlit("ED");
    reveal_strlit("etc.");
    reveal_strlit(" [");
    reveal_strlit("]");
    assert(labelled(work_title, ThemeKind::Opening) =~= work_title + seq![' ', '[', 'O', 'P', ']']);
    assert(labelled(work_title, ThemeKind::Ending) =~= work_title + seq![' ', '[', 'E', 'D', ']']);
    assert(labelled(work_title, ThemeKind::Other) =~= work_title + seq![
        ' ',
        '[',
        'e',
        't',
        'c',
        '.',
        ']',
    ]);
}

/// Each title of a file is asked for once where the file has no artist. Where it has
/// one, each is asked for first for songs by the artist, shown with the artist's name
/// behind the title, and then for songs by anyone.
pub proof fn law_exact_queries(input: SearchInputView, at: int)
    requires
        0 <= at < input.title_queries.len(),
    ensures
        ({
            let titles = input.title_queries;
            let queries = exact_queries(input);
            match input.source_artist {
                Some(artist) => {
                    &&& queries.len() == 2 * titles.len()
                    &&& queries[at].title == titles[at]
                    &&& queries[at].artist == Some(artist)
                    &&& queries[at].matched_query == titles[at] + seq![' '] + artist
                    &&& queries[titles.len() + at].title == titles[at]
                    &&& queries[titles.len() + at].artist is None
                    &&& queries[titles.len() + at].matched_query == titles[at]
                },
                None => {
                    &&& queries.len() == titles.len()
                    &&& queries[at].title == titles[at]
                    &&& queries[at].artist is None
                    &&& queries[at].matched_query == titles[at]
                },
            }
        }),
{
    reveal_strlit(" ");
    assert(" "@ =~= seq![' ']);
}

/// One more query is added to the fuzzy queries where it is not blank and says
/// something else than each query before it that is not blank.
pub proof fn law_fuzzy_queries_grow(queries: Seq<Seq<char>>, query: Seq<char>)
    ensures
        fuzzy_queries(Seq::empty()) == Seq::<Seq<char>>::empty(),
        fuzzy_queries(queries.push(query)) == if trimmed(query).len() > 0 && (forall|i: int|
            0 <= i < queries.len() && trimmed(#[trigger] queries[i]).len() > 0 ==> lookup_normal(
                queries[i],
            ) != lookup_normal(query)) {
            fuzzy_queries(queries).push(query)
        } else {
            fuzzy_queries(queries)
        },
{
    assert(queries.push(query).drop_last() =~= queries);
    law_fuzzy_queries_say_different_things(queries);
    let found = fuzzy_queries(queries);
    let forms = normal_forms(found);
    let form = lookup_normal(query);
    if forms.contains(form) {
        let k = forms.index_of(form);
        assert(queries.contains(found[k]));
        let i = queries.index_of(found[k]);
        assert(queries[i] == found[k]);
        assert(trimmed(queries[i]).len() > 0 && lookup_normal(queries[i]) == form);
    } else {
        assert forall|i: int|
            0 <= i < queries.len() && trimmed(#[trigger] queries[i]).len() > 0 implies lookup_normal(
            queries[i],
        ) != form by {
            assert(forms.contains(lookup_normal(queries[i])));
        }
    }
}

/// The first query that is not blank is the first fuzzy query.
pub proof fn law_first_fuzzy_query(queries: Seq<Seq<char>>, at: int)
    requires
        0 <= at <= queries.len(),
        forall|i: int| 0 <= i < at ==> trimmed(#[trigger] queries[i]).len() == 0,
        at < queries.len() ==> trimmed(queries[at]).len() > 0,
    ensures
        at == queries.len() ==> fuzzy_queries(queries).len() == 0,
        at < queries.len() ==> fuzzy_queries(queries).len() > 0 && fuzzy_queries(queries)[0]
            == queries[at],
    decreases queries.len(),
{
    if queries.len() > 0 {
        let shorter = queries.drop_last();
        assert(queries =~= shorter.push(queries.last()));
        law_fuzzy_queries_grow(shorter, queries.last());
        if at < queries.len() - 1 {
            assert forall|i: int| 0 <= i < at implies trimmed(#[trigger] shorter[i]).len() == 0 by {
                assert(shorter[i] == queries[i]);
            }
            law_first_fuzzy_query(shorter, at);
        } else {
            assert forall|i: int| 0 <= i < shorter.len() implies trimmed(
                #[trigger] shorter[i],
            ).len() == 0 by {
                assert(shorter[i] == queries[i]);
            }
            law_first_fuzzy_query(shorter, shorter.len() as int);
            if at == queries.len() {
                assert(trimmed(queries[queries.len() - 1]).len() == 0);
            }
        }
    }
}

/// Of the songs that a query found, those count whose artists get points for the
/// artist of the query, in their order; all do where there is no such song, or no
/// artist.
pub proof fn law_songs_by_the_artist_count(songs: Seq<SongView>, artist: Seq<char>)
    ensures
        ({
            let by_artist = songs.filter(
                |song: SongView| source_artist_points(song.artists, Some(artist)) > 0,
            );
            preferred_songs(songs, Some(artist)) == if by_artist.len() > 0 {
                by_artist
            } else {
                songs
            }
        }),
        preferred_songs(songs, None) == songs,
{
    let by = |song: SongView| source_artist_points(song.artists, Some(artist)) > 0;
    assert(by =~= is_song_by(artist));
}

// ---------------------------------------------------------------------------
// Laws of what records hold
// ---------------------------------------------------------------------------

/// A song holds its id, its title, all its themes and the names of all its artists.
pub proof fn law_song_holds_its_record(song: SongRecord)
    ensures
        song@.id == song.id,
        song@.title == song.title@,
        song@.animethemes.len() == song.animethemes@.len(),
        forall|i: int|
            0 <= i < song.animethemes@.len() ==> #[trigger] song@.animethemes[i]
                == song.animethemes@[i]@,
        song@.artists.len() == song.artists@.len(),
        forall|i: int|
            0 <= i < song.artists@.len() ==> #[trigger] song@.artists[i] == song.artists@[i].name@,
{
}

/// A theme holds its id, its type, and its anime where it has one, by name and slug.
pub proof fn law_theme_holds_its_record(theme: AnimeThemeRecord)
    ensures
        theme@.id == theme.id,
        theme@.theme_type == theme.theme_type@,
        theme.anime is None ==> theme@.anime is None,
        theme.anime matches Some(anime) ==> theme@.anime == Some(
            AnimeView { name: anime.name@, slug: anime.slug@ },
        ),
{
}

/// A candidate holds its title, its theme, its score and all its sources.
pub proof fn law_candidate_holds_its_parts(candidate: ThemeCandidate, hit: SearchSongHit)
    ensures
        candidate@.work_title == candidate.work_title@,
        candidate@.kind == candidate.kind,
        candidate@.score == candidate.score,
        candidate@.sources.len() == candidate.sources@.len(),
        forall|i: int|
            0 <= i < candidate.sources@.len() ==> (#[trigger] candidate@.sources[i]).page_title
                == candidate.sources@[i].page_title@ && candidate@.sources[i].source_url
                == candidate.sources@[i].source_url@ && candidate@.sources[i].matched_query
                == candidate.sources@[i].matched_query@,
        hit@.id == hit.id,
        hit@.title == hit.title@,
{
}

/// Lists of candidates, songs and hits hold all that is in them, in order.
pub proof fn law_lists_hold_all(
    candidates: Seq<ThemeCandidate>,
    songs: Seq<SongRecord>,
    hits: Seq<SearchSongHit>,
    at: int,
)
    ensures
        candidate_views(candidates).len() == candidates.len(),
        0 <= at < candidates.len() ==> candidate_views(candidates)[at] == candidates[at]@,
        song_views(songs).len() == songs.len(),
        0 <= at < songs.len() ==> song_views(songs)[at] == songs[at]@,
        hit_views(hits).len() == hits.len(),
        0 <= at < hits.len() ==> hit_views(hits)[at] == hits[at]@,
{
}

} // verus!

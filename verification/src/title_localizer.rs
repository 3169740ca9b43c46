//! Japanese titles for anime, out of AniList.

use vstd::prelude::*;

use crate::scoring::{
    is_within, law_points_of_two_texts, lookup_normal, match_points, normalized_lookup_text,
    score_match, shared_words,
};
use crate::text::{chars_of, optional_view, trim_text, trimmed, views};
use crate::title_cache::{copied, TitleCache};

verus! {

/// The query for a title.
pub const SEARCH_QUERY: &'static str = r#"
query ($search: String) {
  page: Page(page: 1, perPage: 5) {
    media(search: $search, type: ANIME) {
      siteUrl
      title {
        native
        romaji
        english
      }
      synonyms
    }
  }
}
"#;

// ---------------------------------------------------------------------------
// Japanese text
// ---------------------------------------------------------------------------

/// Whether a character is Japanese: kana, half-width katakana, or a CJK
/// ideograph.
pub open spec fn is_japanese(c: char) -> bool {
    ||| '\u{3040}' <= c <= '\u{309F}'
    ||| '\u{30A0}' <= c <= '\u{30FF}'
    ||| '\u{31F0}' <= c <= '\u{31FF}'
    ||| '\u{3400}' <= c <= '\u{4DBF}'
    ||| '\u{4E00}' <= c <= '\u{9FFF}'
    ||| '\u{FF66}' <= c <= '\u{FF9D}'
}

/// Whether a text has a Japanese character.
pub open spec fn has_japanese(text: Seq<char>) -> bool {
    exists|i: int| 0 <= i < text.len() && is_japanese(#[trigger] text[i])
}

/// Whether a character is Japanese.
pub fn is_japanese_character(character: char) -> (japanese: bool)
    ensures
        japanese == is_japanese(character),
{
    ('\u{3040}' <= character && character <= '\u{309F}') || ('\u{30A0}' <= character && character
        <= '\u{30FF}') || ('\u{31F0}' <= character && character <= '\u{31FF}') || ('\u{3400}'
        <= character && character <= '\u{4DBF}') || ('\u{4E00}' <= character && character
        <= '\u{9FFF}') || ('\u{FF66}' <= character && character <= '\u{FF9D}')
}

/// Whether a text has a Japanese character.
pub fn contains_japanese(value: &str) -> (found: bool)
    ensures
        found == has_japanese(value@),
{
    let chars = chars_of(value);
    let mut i: usize = 0;
    while i < chars.len()
        invariant
            i <= chars@.len(),
            chars@ == value@,
            forall|k: int| 0 <= k < i ==> !is_japanese(#[trigger] value@[k]),
        decreases chars@.len() - i,
    {
        if is_japanese_character(chars[i]) {
            assert(is_japanese(value@[i as int]));
            return true;
        }
        i = i + 1;
    }
    false
}

/// Whether `char::is_alphabetic` holds of a character.
pub uninterp spec fn alphabetic(c: char) -> bool;

/// Whether a character is an ASCII letter.
pub open spec fn is_ascii_letter(c: char) -> bool {
    'A' <= c <= 'Z' || 'a' <= c <= 'z'
}

/// `char::is_alphabetic`: whether a character has the Unicode property
/// Alphabetic. Trusted are that this depends on the character alone, and that
/// the ASCII characters with it are the letters.
#[verifier::external_body]
fn is_alphabetic_character(character: char) -> (found: bool)
    ensures
        found == alphabetic(character),
        character <= '\u{7F}' ==> found == is_ascii_letter(character),
{
    character.is_alphabetic()
}

/// Whether a title is worth looking up: it has letters and is not Japanese.
pub open spec fn wants_localizing(title: Seq<char>) -> bool {
    !has_japanese(title) && exists|i: int| 0 <= i < title.len() && alphabetic(#[trigger] title[i])
}

/// Whether a title is worth looking up.
pub fn should_localize(title: &str) -> (wanted: bool)
    ensures
        wanted == wants_localizing(title@),
        (forall|i: int| 0 <= i < title@.len() ==> #[trigger] title@[i] <= '\u{7F}') ==> wanted
            == exists|i: int| 0 <= i < title@.len() && is_ascii_letter(#[trigger] title@[i]),
{
    let chars = chars_of(title);
    let mut found = false;
    let mut i: usize = 0;
    while i < chars.len()
        invariant
            i <= chars@.len(),
            chars@ == title@,
            found == exists|k: int| 0 <= k < i && alphabetic(#[trigger] title@[k]),
            (forall|k: int| 0 <= k < title@.len() ==> #[trigger] title@[k] <= '\u{7F}') ==> found
                == exists|k: int| 0 <= k < i && is_ascii_letter(#[trigger] title@[k]),
        decreases chars@.len() - i,
    {
        let here = is_alphabetic_character(chars[i]);
        assert(here == alphabetic(title@[i as int]));
        if here {
            assert(alphabetic(title@[i as int]));
            found = true;
        }
        i = i + 1;
    }
    if contains_japanese(title) {
        return false;
    }
    found
}

// ---------------------------------------------------------------------------
// Which title is meant
// ---------------------------------------------------------------------------

/// The points for two titles.
pub open spec fn similarity(left: Seq<char>, right: Seq<char>) -> nat {
    match_points(lookup_normal(left), lookup_normal(right), 100, 65, 14)
}

/// The points for two titles.
pub fn title_similarity_score(left: &str, right: &str) -> (score: usize)
    ensures
        score == similarity(left@, right@),
{
    let left = normalized_lookup_text(left);
    let right = normalized_lookup_text(right);
    score_match(left.as_str(), right.as_str(), 100, 65, 14)
}

/// The titles of an anime in AniList.
#[derive(Debug)]
pub struct AniListTitle {
    pub native: Option<String>,
    pub romaji: Option<String>,
    pub english: Option<String>,
}

/// An anime in AniList.
#[derive(Debug)]
pub struct AniListMedia {
    pub title: AniListTitle,
    pub synonyms: Vec<String>,
}

/// A page of anime in AniList.
#[derive(Debug)]
pub struct GraphQlPage {
    pub media: Vec<AniListMedia>,
}

/// The data of a response of AniList.
#[derive(Debug)]
pub struct GraphQlData {
    pub page: Option<GraphQlPage>,
}

/// A response of AniList.
#[derive(Debug)]
pub struct GraphQlResponse {
    pub data: Option<GraphQlData>,
}

/// What an `AniListMedia` holds.
#[verifier::ext_equal]
pub struct MediaView {
    pub native: Option<Seq<char>>,
    pub romaji: Option<Seq<char>>,
    pub english: Option<Seq<char>>,
    pub synonyms: Seq<Seq<char>>,
}

impl View for AniListMedia {
    type V = MediaView;

    open spec fn view(&self) -> MediaView {
        MediaView {
            native: optional_view(self.title.native),
            romaji: optional_view(self.title.romaji),
            english: optional_view(self.title.english),
            synonyms: views(self.synonyms@),
        }
    }
}

/// What the anime of a list hold.
pub open spec fn media_views(media: Seq<AniListMedia>) -> Seq<MediaView> {
    Seq::new(media.len(), |i: int| media[i]@)
}

impl View for GraphQlResponse {
    type V = Seq<MediaView>;

    /// The anime of a response, none where it has no data or no page.
    open spec fn view(&self) -> Seq<MediaView> {
        match self.data {
            Some(data) => match data.page {
                Some(page) => media_views(page.media@),
                None => Seq::empty(),
            },
            None => Seq::empty(),
        }
    }
}

/// An optional text as a list.
pub open spec fn as_list(text: Option<Seq<char>>) -> Seq<Seq<char>> {
    match text {
        Some(text) => seq![text],
        None => Seq::empty(),
    }
}

/// All names of an anime.
pub open spec fn media_names(media: MediaView) -> Seq<Seq<char>> {
    as_list(media.romaji) + as_list(media.english) + as_list(media.native) + media.synonyms
}

/// The points of the name that is most like a title.
pub open spec fn best_similarity(title: Seq<char>, names: Seq<Seq<char>>) -> nat
    decreases names.len(),
{
    if names.len() == 0 {
        0
    } else {
        let before = best_similarity(title, names.drop_last());
        let last = similarity(title, names.last());
        if last > before {
            last
        } else {
            before
        }
    }
}

/// The points of an anime for a title; a Japanese native title counts.
pub open spec fn media_points(title: Seq<char>, media: MediaView) -> nat {
    let japanese = match media.native {
        Some(native) => has_japanese(native),
        None => false,
    };
    best_similarity(title, media_names(media)) + if japanese {
        5nat
    } else {
        0
    }
}

proof fn lemma_best_step(title: Seq<char>, names: Seq<Seq<char>>, name: Seq<char>)
    ensures
        best_similarity(title, names.push(name)) == if similarity(title, name) > best_similarity(
            title,
            names,
        ) {
            similarity(title, name)
        } else {
            best_similarity(title, names)
        },
{
    assert(names.push(name).drop_last() =~= names);
}

fn raise_best(best: usize, title: &str, name: &Option<String>, Ghost(names): Ghost<
    Seq<Seq<char>>,
>) -> (raised: usize)
    requires
        best == best_similarity(title@, names),
    ensures
        raised == best_similarity(title@, names + as_list(optional_view(*name))),
{
    match name {
        Some(name) => {
            proof {
                lemma_best_step(title@, names, name@);
                assert(names + as_list(Some(name@)) =~= names.push(name@));
            }
            let score = title_similarity_score(title, name.as_str());
            if score > best {
                score
            } else {
                best
            }
        },
        None => {
            assert(names + as_list(None) =~= names);
            best
        },
    }
}

fn best_name_score(original_title: &str, media: &AniListMedia) -> (best: usize)
    ensures
        best == best_similarity(original_title@, media_names(media@)),
{
    let ghost title = original_title@;
    let ghost romaji = as_list(media@.romaji);
    let ghost english = romaji + as_list(media@.english);
    let ghost native = english + as_list(media@.native);
    assert(Seq::<Seq<char>>::empty() + romaji =~= romaji);
    let best = raise_best(0, original_title, &media.title.romaji, Ghost(Seq::empty()));
    let best = raise_best(best, original_title, &media.title.english, Ghost(romaji));
    let mut best = raise_best(best, original_title, &media.title.native, Ghost(english));
    let ghost synonyms = media@.synonyms;
    let mut i: usize = 0;
    assert(native + synonyms.take(0) =~= native);
    while i < media.synonyms.len()
        invariant
            i <= media.synonyms@.len(),
            synonyms == views(media.synonyms@),
            title == original_title@,
            best == best_similarity(title, native + synonyms.take(i as int)),
        decreases media.synonyms@.len() - i,
    {
        let score = title_similarity_score(original_title, media.synonyms[i].as_str());
        proof {
            lemma_best_step(title, native + synonyms.take(i as int), synonyms[i as int]);
            assert((native + synonyms.take(i as int)).push(synonyms[i as int]) =~= native
                + synonyms.take(i + 1));
        }
        if score > best {
            best = score;
        }
        i = i + 1;
    }
    assert(native + synonyms.take(synonyms.len() as int) =~= media_names(media@));
    best
}

fn has_japanese_native(media: &AniListMedia) -> (japanese: bool)
    ensures
        japanese == match media@.native {
            Some(native) => has_japanese(native),
            None => false,
        },
{
    match &media.title.native {
        Some(native) => contains_japanese(native.as_str()),
        None => false,
    }
}

/// The points of an anime for a title.
pub fn media_match_score(original_title: &str, media: &AniListMedia) -> (score: usize)
    requires
        media_points(original_title@, media@) <= usize::MAX,
    ensures
        score == media_points(original_title@, media@),
{
    let best = best_name_score(original_title, media);
    if has_japanese_native(media) {
        best + 5
    } else {
        best
    }
}

/// The points of an anime for a title, or nothing where they do not fit.
pub fn checked_media_match_score(original_title: &str, media: &AniListMedia) -> (score: Option<
    usize,
>)
    ensures
        score matches Some(score) ==> score == media_points(original_title@, media@),
        score is None <==> media_points(original_title@, media@) > usize::MAX,
{
    let best = best_name_score(original_title, media);
    if best <= usize::MAX - 5 || !has_japanese_native(media) {
        Some(media_match_score(original_title, media))
    } else {
        None
    }
}

/// Whether the points of all anime of a list fit.
pub open spec fn points_fit(title: Seq<char>, media: Seq<MediaView>) -> bool {
    forall|i: int| 0 <= i < media.len() ==> media_points(title, #[trigger] media[i]) <= usize::MAX
}

/// Whether the anime at `at` is the first with the most points for a title.
pub open spec fn is_best_media(title: Seq<char>, media: Seq<MediaView>, at: int) -> bool {
    &&& 0 <= at < media.len()
    &&& forall|i: int|
        0 <= i < media.len() ==> media_points(title, #[trigger] media[i]) <= media_points(
            title,
            media[at],
        )
    &&& forall|i: int|
        0 <= i < at ==> media_points(title, #[trigger] media[i]) < media_points(title, media[at])
}

/// The Japanese title that an anime has for a title, where it is meant well
/// enough and says something new.
pub open spec fn native_title(title: Seq<char>, media: MediaView) -> Option<Seq<char>> {
    match media.native {
        Some(native) => {
            let native = trimmed(native);
            if media_points(title, media) >= 50 && native.len() > 0 && has_japanese(native)
                && lookup_normal(native) != lookup_normal(title) {
                Some(native)
            } else {
                None
            }
        },
        None => None,
    }
}

/// The Japanese title among those of a list of anime: that of the first anime
/// with the most points.
pub open spec fn localized_title(title: Seq<char>, media: Seq<MediaView>) -> Option<Seq<char>> {
    if media.len() == 0 {
        None
    } else {
        native_title(title, media[choose|at: int| is_best_media(title, media, at)])
    }
}

/// A list with anime has a first one with the most points.
pub proof fn lemma_best_media_exists(title: Seq<char>, media: Seq<MediaView>) -> (at: int)
    requires
        media.len() > 0,
    ensures
        is_best_media(title, media, at),
    decreases media.len(),
{
    let last = media.len() - 1;
    if last == 0 {
        0
    } else {
        let shorter = media.drop_last();
        let best = lemma_best_media_exists(title, shorter);
        assert forall|i: int| 0 <= i < last implies media_points(title, #[trigger] media[i])
            <= media_points(title, media[best]) by {
            assert(media[i] == shorter[i]);
        }
        assert forall|i: int| 0 <= i < best implies media_points(title, #[trigger] media[i])
            < media_points(title, media[best]) by {
            assert(media[i] == shorter[i]);
        }
        if media_points(title, media[last]) > media_points(title, media[best]) {
            last
        } else {
            best
        }
    }
}

/// There is only one first anime with the most points.
pub proof fn lemma_best_media_unique(title: Seq<char>, media: Seq<MediaView>, at: int)
    requires
        is_best_media(title, media, at),
    ensures
        (choose|best: int| is_best_media(title, media, best)) == at,
{
    let best = choose|best: int| is_best_media(title, media, best);
    assert(is_best_media(title, media, best));
    if best < at {
        assert(media_points(title, media[best]) < media_points(title, media[at]));
        assert(media_points(title, media[at]) <= media_points(title, media[best]));
    } else if at < best {
        assert(media_points(title, media[at]) < media_points(title, media[best]));
        assert(media_points(title, media[best]) <= media_points(title, media[at]));
    }
}

fn select_native(original_title: &str, media: &AniListMedia, score: usize) -> (title: Option<
    String,
>)
    requires
        score == media_points(original_title@, media@),
    ensures
        optional_view(title) == native_title(original_title@, media@),
{
    if score < 50 {
        return None;
    }
    let native = match &media.title.native {
        Some(native) => trim_text(native.as_str()),
        None => {
            return None;
        },
    };
    if native.as_str().is_empty() || !contains_japanese(native.as_str()) {
        return None;
    }
    if normalized_lookup_text(native.as_str()) == normalized_lookup_text(original_title) {
        return None;
    }
    Some(native)
}

fn select_from_media(original_title: &str, media: &Vec<AniListMedia>) -> (title: Option<String>)
    requires
        points_fit(original_title@, media_views(media@)),
    ensures
        optional_view(title) == localized_title(original_title@, media_views(media@)),
{
    let ghost all = media_views(media@);
    let ghost wanted = original_title@;
    if media.len() == 0 {
        return None;
    }
    let mut best: usize = 0;
    assert(media_points(wanted, all[0]) <= usize::MAX);
    let mut best_score: usize = media_match_score(original_title, &media[0]);
    let mut i: usize = 1;
    while i < media.len()
        invariant
            0 < i <= media@.len(),
            best < i,
            all == media_views(media@),
            wanted == original_title@,
            points_fit(wanted, all),
            best_score == media_points(wanted, all[best as int]),
            forall|k: int|
                0 <= k < i ==> media_points(wanted, #[trigger] all[k]) <= best_score,
            forall|k: int| 0 <= k < best ==> media_points(wanted, #[trigger] all[k]) < best_score,
        decreases media@.len() - i,
    {
        assert(media_points(wanted, all[i as int]) <= usize::MAX);
        let score = media_match_score(original_title, &media[i]);
        if score > best_score {
            best = i;
            best_score = score;
        }
        i = i + 1;
    }
    proof {
        assert(is_best_media(wanted, all, best as int));
        lemma_best_media_unique(wanted, all, best as int);
    }
    select_native(original_title, &media[best], best_score)
}

/// The Japanese title that a response has for a title.
pub fn select_localized_title(original_title: &str, response: &GraphQlResponse) -> (title: Option<
    String,
>)
    requires
        points_fit(original_title@, response@),
    ensures
        optional_view(title) == localized_title(original_title@, response@),
{
    match &response.data {
        Some(data) => match &data.page {
            Some(page) => select_from_media(original_title, &page.media),
            None => None,
        },
        None => None,
    }
}

fn all_points_fit(original_title: &str, media: &Vec<AniListMedia>) -> (fit: bool)
    ensures
        fit == points_fit(original_title@, media_views(media@)),
{
    let ghost all = media_views(media@);
    let mut i: usize = 0;
    while i < media.len()
        invariant
            i <= media@.len(),
            all == media_views(media@),
            forall|k: int|
                0 <= k < i ==> media_points(original_title@, #[trigger] all[k]) <= usize::MAX,
        decreases media@.len() - i,
    {
        let score = checked_media_match_score(original_title, &media[i]);
        assert(all[i as int] == media@[i as int]@);
        if score.is_none() {
            return false;
        }
        i = i + 1;
    }
    true
}

/// The Japanese title that a response has for a title, or nothing at all where
/// the points of an anime do not fit.
pub fn checked_select_localized_title(original_title: &str, response: &GraphQlResponse) -> (title:
    Option<Option<String>>)
    ensures
        title matches Some(title) ==> optional_view(title) == localized_title(
            original_title@,
            response@,
        ),
        title is Some <==> points_fit(original_title@, response@),
{
    let fit = match &response.data {
        Some(data) => match &data.page {
            Some(page) => all_points_fit(original_title, &page.media),
            None => true,
        },
        None => true,
    };
    if fit {
        Some(select_localized_title(original_title, response))
    } else {
        None
    }
}

/// A title that was found is Japanese, says something else than the title that
/// was looked up, and is not looked up itself.
pub proof fn law_localized_title_is_japanese(title: Seq<char>, media: Seq<MediaView>)
    ensures
        localized_title(title, media) matches Some(found) ==> has_japanese(found) && found.len()
            > 0 && lookup_normal(found) != lookup_normal(title) && !wants_localizing(found),
{
}

// ---------------------------------------------------------------------------
// Looking titles up
// ---------------------------------------------------------------------------

/// A request to AniList.
#[derive(Debug)]
pub struct GraphQlRequest {
    pub query: String,
    pub search: String,
}

/// What is to be done about a title.
#[derive(Debug)]
pub enum LocalizeStep {
    /// Nothing: this is its Japanese title, or there is none.
    Known(Option<String>),
    /// AniList is to be asked.
    Ask(GraphQlRequest),
}

/// What a `LocalizeStep` holds.
pub enum LocalizeStepView {
    Known(Option<Seq<char>>),
    Ask { query: Seq<char>, search: Seq<char> },
}

impl View for LocalizeStep {
    type V = LocalizeStepView;

    open spec fn view(&self) -> LocalizeStepView {
        match self {
            LocalizeStep::Known(title) => LocalizeStepView::Known(optional_view(*title)),
            LocalizeStep::Ask(request) => LocalizeStepView::Ask {
                query: request.query@,
                search: request.search@,
            },
        }
    }
}

/// What is to be done about a title, with what was looked up before.
pub open spec fn localize_step(
    cache: Map<Seq<char>, Option<Seq<char>>>,
    title: Seq<char>,
) -> LocalizeStepView {
    if !wants_localizing(title) {
        LocalizeStepView::Known(None)
    } else if cache.contains_key(lookup_normal(title)) {
        LocalizeStepView::Known(cache[lookup_normal(title)])
    } else {
        LocalizeStepView::Ask { query: SEARCH_QUERY@, search: title }
    }
}

/// What was looked up, after AniList answered for a title.
pub open spec fn with_answer(
    cache: Map<Seq<char>, Option<Seq<char>>>,
    title: Seq<char>,
    media: Seq<MediaView>,
) -> Map<Seq<char>, Option<Seq<char>>> {
    cache.insert(lookup_normal(title), localized_title(title, media))
}

/// Looks up Japanese titles.
#[derive(Debug)]
pub struct TitleLocalizer {
    cache: TitleCache,
}

impl View for TitleLocalizer {
    type V = Map<Seq<char>, Option<Seq<char>>>;

    /// What was looked up before.
    closed spec fn view(&self) -> Map<Seq<char>, Option<Seq<char>>> {
        self.cache@
    }
}

impl TitleLocalizer {
    /// A localizer that knows what `cache` holds.
    pub fn new(cache: TitleCache) -> (localizer: TitleLocalizer)
        ensures
            localizer@ == cache@,
    {
        TitleLocalizer { cache }
    }

    /// What is to be done about a title.
    pub fn localize_title(&self, title: &str) -> (step: LocalizeStep)
        ensures
            step@ == localize_step(self@, title@),
    {
        if !should_localize(title) {
            return LocalizeStep::Known(None);
        }
        let cache_key = normalized_lookup_text(title);
        match self.cache.get(cache_key.as_str()) {
            Some(cached) => LocalizeStep::Known(cached),
            None => LocalizeStep::Ask(
                GraphQlRequest { query: SEARCH_QUERY.to_string(), search: title.to_string() },
            ),
        }
    }

    /// Takes the answer of AniList for a title: its Japanese title, if any, which
    /// is known from then on. Where the points of an anime do not fit, there is
    /// no result and nothing changes.
    pub fn accept_answer(&mut self, title: &str, response: &GraphQlResponse) -> (localized: Option<
        Option<String>,
    >)
        ensures
            localized is Some <==> points_fit(title@, response@),
            localized matches Some(localized) ==> {
                &&& optional_view(localized) == localized_title(title@, response@)
                &&& final(self)@ == with_answer(old(self)@, title@, response@)
            },
            localized is None ==> final(self)@ == old(self)@,
    {
        match checked_select_localized_title(title, response) {
            Some(localized) => {
                self.cache.put(normalized_lookup_text(title), copied(&localized));
                Some(localized)
            },
            None => None,
        }
    }

    /// What was looked up before.
    pub fn cache(&self) -> (cache: &TitleCache)
        ensures
            cache@ == self@,
    {
        &self.cache
    }
}

/// A title for which AniList answered is not asked for again: the answer is
/// known, under each way of writing the title that has the same normal form.
pub proof fn law_answers_are_remembered(
    cache: Map<Seq<char>, Option<Seq<char>>>,
    title: Seq<char>,
    media: Seq<MediaView>,
    again: Seq<char>,
)
    requires
        wants_localizing(again),
        lookup_normal(again) == lookup_normal(title),
    ensures
        localize_step(with_answer(cache, title, media), again) == LocalizeStepView::Known(
            localized_title(title, media),
        ),
{
}

/// An answer for a title changes nothing for titles with another normal form.
pub proof fn law_answers_leave_other_titles(
    cache: Map<Seq<char>, Option<Seq<char>>>,
    title: Seq<char>,
    media: Seq<MediaView>,
    other: Seq<char>,
)
    requires
        lookup_normal(other) != lookup_normal(title),
    ensures
        localize_step(with_answer(cache, title, media), other) == localize_step(cache, other),
{
}

// ---------------------------------------------------------------------------
// Laws of the choice of a title
// ---------------------------------------------------------------------------

/// Hiragana, katakana, half-width katakana and CJK ideographs are Japanese; other
/// characters are not.
pub proof fn law_japanese_characters(c: char)
    ensures
        is_japanese(c) <==> {
            let code = c as u32;
            ||| 0x3040 <= code <= 0x30FF
            ||| 0x31F0 <= code <= 0x31FF
            ||| 0x3400 <= code <= 0x4DBF
            ||| 0x4E00 <= code <= 0x9FFF
            ||| 0xFF66 <= code <= 0xFF9D
        },
{
}

/// A text is Japanese where one of its parts is.
pub proof fn law_japanese_texts(left: Seq<char>, c: char, right: Seq<char>)
    ensures
        has_japanese(left + seq![c] + right) <==> has_japanese(left) || is_japanese(c)
            || has_japanese(right),
        !has_japanese(Seq::empty()),
{
    let text = left + seq![c] + right;
    if has_japanese(left) {
        let i = choose|i: int| 0 <= i < left.len() && is_japanese(#[trigger] left[i]);
        assert(is_japanese(text[i]));
    }
    if is_japanese(c) {
        assert(is_japanese(text[left.len() as int]));
    }
    if has_japanese(right) {
        let i = choose|i: int| 0 <= i < right.len() && is_japanese(#[trigger] right[i]);
        assert(is_japanese(text[left.len() + 1 + i]));
    }
    if has_japanese(text) {
        let i = choose|i: int| 0 <= i < text.len() && is_japanese(#[trigger] text[i]);
        if i < left.len() {
            assert(is_japanese(left[i]));
        } else if i > left.len() {
            assert(is_japanese(right[i - left.len() - 1]));
        }
    }
}

/// A title is looked up where it has a letter and no Japanese character, and only
/// there.
pub proof fn law_which_titles_are_looked_up(title: Seq<char>, at: int)
    requires
        0 <= at < title.len(),
    ensures
        is_japanese(title[at]) ==> !wants_localizing(title),
        alphabetic(title[at]) && (forall|i: int|
            0 <= i < title.len() ==> !is_japanese(#[trigger] title[i])) ==> wants_localizing(
            title,
        ),
        (forall|i: int| 0 <= i < title.len() ==> !alphabetic(#[trigger] title[i]))
            ==> !wants_localizing(title),
{
}

/// Two titles get 100 points where they say the same, 65 where one stands in the
/// other, and else 14 for each word that they share.
pub proof fn law_similarity(left: Seq<char>, right: Seq<char>)
    ensures
        ({
            let (one, two) = (lookup_normal(left), lookup_normal(right));
            &&& one.len() == 0 || two.len() == 0 ==> similarity(left, right) == 0
            &&& one.len() > 0 && one == two ==> similarity(left, right) == 100
            &&& one.len() > 0 && two.len() > 0 && one != two && is_within(one, two)
                ==> similarity(left, right) == 65
            &&& one.len() > 0 && two.len() > 0 && !is_within(one, two) && shared_words(
                one,
                two,
            ).len() * 14 <= usize::MAX ==> similarity(left, right) == shared_words(one, two).len()
                * 14
        }),
{
    law_points_of_two_texts(lookup_normal(left), lookup_normal(right), 100, 65, 14);
}

proof fn lemma_best_similarity(title: Seq<char>, names: Seq<Seq<char>>)
    ensures
        forall|i: int|
            0 <= i < names.len() ==> best_similarity(title, names) >= similarity(
                title,
                #[trigger] names[i],
            ),
        names.len() == 0 ==> best_similarity(title, names) == 0,
        names.len() > 0 ==> exists|i: int|
            0 <= i < names.len() && best_similarity(title, names) == similarity(
                title,
                #[trigger] names[i],
            ),
    decreases names.len(),
{
    if names.len() > 0 {
        let shorter = names.drop_last();
        lemma_best_similarity(title, shorter);
        let best = best_similarity(title, names);
        assert forall|i: int| 0 <= i < names.len() implies best >= similarity(
            title,
            #[trigger] names[i],
        ) by {
            if i < shorter.len() {
                assert(shorter[i] == names[i]);
            }
        }
        if best == similarity(title, names.last()) {
            assert(best == similarity(title, names[names.len() - 1]));
        } else if shorter.len() > 0 {
            let i = choose|i: int|
                0 <= i < shorter.len() && best_similarity(title, shorter) == similarity(
                    title,
                    #[trigger] shorter[i],
                );
            assert(best == similarity(title, names[i]));
        } else {
            assert(best == 0 && similarity(title, names[0]) <= 0);
            assert(best == similarity(title, names[0]));
        }
    }
}

/// Whether a text is one of the names of an anime: its romaji, English or native
/// title, or a synonym.
pub open spec fn is_name_of(media: MediaView, name: Seq<char>) -> bool {
    ||| media.romaji == Some(name)
    ||| media.english == Some(name)
    ||| media.native == Some(name)
    ||| media.synonyms.contains(name)
}

/// The points that an anime has for its native title being Japanese.
pub open spec fn native_bonus(media: MediaView) -> nat {
    match media.native {
        Some(native) => if has_japanese(native) {
            5
        } else {
            0
        },
        None => 0,
    }
}

proof fn lemma_names_of_media(media: MediaView, name: Seq<char>)
    ensures
        media_names(media).contains(name) <==> is_name_of(media, name),
{
    let (romaji, english, native) = (
        as_list(media.romaji),
        as_list(media.english),
        as_list(media.native),
    );
    let names = media_names(media);
    if media.romaji == Some(name) {
        assert(names[0] == name);
    }
    if media.english == Some(name) {
        assert(names[romaji.len() as int] == name);
    }
    if media.native == Some(name) {
        assert(names[(romaji.len() + english.len()) as int] == name);
    }
    if media.synonyms.contains(name) {
        let k = media.synonyms.index_of(name);
        assert(names[romaji.len() + english.len() + native.len() + k] == name);
    }
    if names.contains(name) {
        let k = names.index_of(name);
        if k >= romaji.len() + english.len() + native.len() {
            assert(media.synonyms[k - romaji.len() - english.len() - native.len()] == name);
        }
    }
}

/// The points of an anime are at least the similarity of the title to each of its
/// names: to the romaji title, the English title and the native title where they
/// are there, and to every synonym.
pub proof fn law_every_name_counts(title: Seq<char>, media: MediaView)
    ensures
        media.romaji matches Some(romaji) ==> media_points(title, media) >= similarity(
            title,
            romaji,
        ),
        media.english matches Some(english) ==> media_points(title, media) >= similarity(
            title,
            english,
        ),
        media.native matches Some(native) ==> media_points(title, media) >= similarity(
            title,
            native,
        ),
        forall|i: int|
            0 <= i < media.synonyms.len() ==> media_points(title, media) >= similarity(
                title,
                #[trigger] media.synonyms[i],
            ),
        forall|name: Seq<char>| #[trigger]
            is_name_of(media, name) ==> media_points(title, media) >= similarity(title, name)
                + native_bonus(media),
{
    let names = media_names(media);
    lemma_best_similarity(title, names);
    assert forall|name: Seq<char>| #[trigger]
        is_name_of(media, name) implies media_points(title, media) >= similarity(title, name)
        + native_bonus(media) by {
        lemma_names_of_media(media, name);
        let k = names.index_of(name);
        assert(names[k] == name);
    }
    if let Some(romaji) = media.romaji {
        assert(is_name_of(media, romaji));
    }
    if let Some(english) = media.english {
        assert(is_name_of(media, english));
    }
    if let Some(native) = media.native {
        assert(is_name_of(media, native));
    }
    assert forall|i: int| 0 <= i < media.synonyms.len() implies media_points(title, media)
        >= similarity(title, #[trigger] media.synonyms[i]) by {
        assert(is_name_of(media, media.synonyms[i]));
    }
}

/// The points of an anime are those of one of its names, with 5 more where its native
/// title is Japanese; an anime without names has none.
pub proof fn law_points_are_those_of_a_name(title: Seq<char>, media: MediaView)
    ensures
        (exists|name: Seq<char>| #[trigger]
            is_name_of(media, name) && media_points(title, media) == similarity(title, name)
                + native_bonus(media)) || ((forall|name: Seq<char>| !#[trigger]
            is_name_of(media, name)) && media_points(title, media) == 0),
{
    let names = media_names(media);
    lemma_best_similarity(title, names);
    if names.len() > 0 {
        let i = choose|i: int|
            0 <= i < names.len() && best_similarity(title, names) == similarity(
                title,
                #[trigger] names[i],
            );
        assert(names.contains(names[i]));
        lemma_names_of_media(media, names[i]);
        assert(is_name_of(media, names[i]));
    } else {
        assert forall|name: Seq<char>| !#[trigger] is_name_of(media, name) by {
            lemma_names_of_media(media, name);
        }
        if let Some(native) = media.native {
            assert(is_name_of(media, native));
        }
    }
}

/// An anime of which one name says the same as a title has at least 100 points for
/// it.
pub proof fn law_same_name_gets_full_points(title: Seq<char>, media: MediaView, name: Seq<char>)
    requires
        is_name_of(media, name),
        lookup_normal(name) == lookup_normal(title),
        lookup_normal(title).len() > 0,
    ensures
        media_points(title, media) >= 100,
{
    law_every_name_counts(title, media);
    law_similarity(title, name);
}

/// The title that is found is the native title, without white space around it, of
/// the first anime with the most points, where those are 50 at least, the title is
/// Japanese, and it says something else than the title that is looked up. Otherwise
/// none is found.
pub proof fn law_best_anime_gives_the_title(title: Seq<char>, media: Seq<MediaView>, at: int)
    requires
        0 <= at < media.len(),
        forall|i: int|
            0 <= i < media.len() ==> media_points(title, #[trigger] media[i]) <= media_points(
                title,
                media[at],
            ),
        forall|i: int|
            0 <= i < at ==> media_points(title, #[trigger] media[i]) < media_points(
                title,
                media[at],
            ),
    ensures
        media[at].native matches Some(native) ==> localized_title(title, media) == if media_points(
            title,
            media[at],
        ) >= 50 && has_japanese(trimmed(native)) && lookup_normal(trimmed(native))
            != lookup_normal(title) {
            Some(trimmed(native))
        } else {
            None
        },
        media[at].native is None ==> localized_title(title, media) is None,
{
    assert(is_best_media(title, media, at));
    lemma_best_media_unique(title, media, at);
}

/// Where there are no anime, no title is found.
pub proof fn law_no_anime_no_title(title: Seq<char>)
    ensures
        localized_title(title, Seq::empty()) is None,
{
}

/// An anime that alone has a name that says the same as the title gives its native
/// title, where that is Japanese and says something else.
pub proof fn law_same_name_gives_the_native_title(
    title: Seq<char>,
    media: MediaView,
    name: Seq<char>,
    native: Seq<char>,
)
    requires
        is_name_of(media, name),
        lookup_normal(name) == lookup_normal(title),
        lookup_normal(title).len() > 0,
        media.native == Some(native),
        has_japanese(trimmed(native)),
        lookup_normal(trimmed(native)) != lookup_normal(title),
    ensures
        localized_title(title, seq![media]) == Some(trimmed(native)),
{
    law_same_name_gets_full_points(title, media, name);
    law_best_anime_gives_the_title(title, seq![media], 0);
}

/// A title that is to be looked up and was not looked up before is asked for as it
/// is; one that was is not asked for; and one that is not to be looked up has no
/// other title.
pub proof fn law_what_is_asked(
    cache: Map<Seq<char>, Option<Seq<char>>>,
    title: Seq<char>,
)
    ensures
        wants_localizing(title) && !cache.contains_key(lookup_normal(title)) ==> localize_step(
            cache,
            title,
        ) == (LocalizeStepView::Ask { query: SEARCH_QUERY@, search: title }),
        wants_localizing(title) && cache.contains_key(lookup_normal(title)) ==> localize_step(
            cache,
            title,
        ) == LocalizeStepView::Known(cache[lookup_normal(title)]),
        !wants_localizing(title) ==> localize_step(cache, title) == LocalizeStepView::Known(None),
{
}

// ---------------------------------------------------------------------------
// Laws of what is read
// ---------------------------------------------------------------------------

/// What an anime of a response holds are its three titles, where they are there, and all
/// its synonyms.
pub proof fn law_media_holds_its_titles(media: AniListMedia)
    ensures
        media.title.native matches Some(native) ==> media@.native == Some(native@),
        media.title.native is None ==> media@.native is None,
        media.title.romaji matches Some(romaji) ==> media@.romaji == Some(romaji@),
        media.title.romaji is None ==> media@.romaji is None,
        media.title.english matches Some(english) ==> media@.english == Some(english@),
        media.title.english is None ==> media@.english is None,
        media@.synonyms.len() == media.synonyms@.len(),
        forall|i: int|
            0 <= i < media.synonyms@.len() ==> #[trigger] media@.synonyms[i] == media.synonyms@[i]@,
{
}

/// What a response holds are all anime of its page; without data or a page it holds
/// none.
pub proof fn law_response_holds_its_media(response: GraphQlResponse)
    ensures
        response.data is None ==> response@.len() == 0,
        response.data matches Some(data) ==> data.page is None ==> response@.len() == 0,
        response.data matches Some(data) ==> (data.page matches Some(page) ==> response@.len()
            == page.media@.len() && forall|i: int|
            0 <= i < page.media@.len() ==> #[trigger] response@[i] == page.media@[i]@),
{
}

/// The points of a list of anime fit where those of each of them do.
pub proof fn law_points_that_fit(title: Seq<char>, media: Seq<MediaView>)
    ensures
        points_fit(title, media) <==> forall|i: int|
            0 <= i < media.len() ==> media_points(title, #[trigger] media[i]) <= usize::MAX,
{
}

/// AniList is asked for the titles and synonyms of the first five anime that a search
/// finds.
pub proof fn law_what_the_query_is()
    ensures
        SEARCH_QUERY@ == r#"
query ($search: String) {
  page: Page(page: 1, perPage: 5) {
    media(search: $search, type: ANIME) {
      siteUrl
      title {
        native
        romaji
        english
      }
      synonyms
    }
  }
}
"#@,
{
}

} // verus!

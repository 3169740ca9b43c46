//! From the tags of an audio file to what is searched for.

use vstd::prelude::*;

use crate::audio_file::UnsupportedFile;
use crate::order::{
    ascending, lemma_ascending_distinct, lemma_listing_exists, sorted_listing, text_before, TextSet,
};
use crate::patterns::{
    collapse_white_space, is_noise_at, is_single_spaced, law_noise_becomes_a_space,
    law_squeezed_words_come_in_a_row, lemma_part_is_single_spaced, lemma_squeezed_is_single_spaced,
    lemma_squeezed_stays, replace_all, replace_first, squeezed, white_class, without_bracketed,
    without_noise, without_track_number, BRACKETED_TEXT, LEADING_TRACK_NUMBER, TITLE_NOISE,
};
use crate::tags::{
    first_text, frame_text, m4a_album_artist, m4a_artist, m4a_texts, m4a_title, mp3_artist,
    mp3_frames, mp3_title,
};
use crate::text::{
    byte_len, contains_text, has_bare_ends, has_bytes, is_white, joined2, law_part_is_found,
    law_text_is_split_at_the_separator, lemma_trimmed_part, lemma_trimmed_stays, occurs_at,
    optional_str_view, optional_view, replace_char, split_at_text, split_text, text_contains,
    trim_text, trimmed, views, with_replaced,
};

verus! {

// ---------------------------------------------------------------------------
// Normal form of titles
// ---------------------------------------------------------------------------

/// The normal form of a title: underscores and dots count as spaces, runs of
/// white space as one space, and none at either end.
pub open spec fn normalized(text: Seq<char>) -> Seq<char> {
    let spaced = with_replaced(
        with_replaced(with_replaced(text, '_', ' '), '　', ' '),
        '.',
        ' ',
    );
    trimmed(squeezed(spaced, white_class()))
}

/// Whether a text holds none of the characters that count as spaces, has single
/// spaces, and none at either end.
pub open spec fn is_normal(text: Seq<char>) -> bool {
    &&& forall|i: int|
        0 <= i < text.len() ==> (#[trigger] text[i]) != '_' && text[i] != '　' && text[i] != '.'
    &&& is_single_spaced(text, white_class())
    &&& has_bare_ends(text)
}

/// The normal form of a title is what it says, and its own normal form.
pub proof fn law_normal_form_stays(text: Seq<char>)
    ensures
        is_normal(normalized(text)),
        normalized(normalized(text)) == normalized(text),
{
    let spaced = with_replaced(
        with_replaced(with_replaced(text, '_', ' '), '　', ' '),
        '.',
        ' ',
    );
    let single = squeezed(spaced, white_class());
    let normal = normalized(text);
    lemma_squeezed_is_single_spaced(spaced, white_class());
    let part = lemma_trimmed_part(single);
    lemma_part_is_single_spaced(single, white_class(), part.0, part.1);
    assert forall|i: int| 0 <= i < normal.len() implies (#[trigger] normal[i]) != '_' && normal[i]
        != '　' && normal[i] != '.' by {
        assert(normal[i] == single[part.0 + i]);
        if normal[i] != ' ' {
            let k = spaced.index_of(normal[i]);
            assert(spaced[k] == normal[i]);
        }
    }
    lemma_normal_stays(normal);
}

proof fn lemma_normal_stays(text: Seq<char>)
    requires
        is_normal(text),
    ensures
        normalized(text) == text,
{
    assert(with_replaced(text, '_', ' ') =~= text);
    assert(with_replaced(text, '　', ' ') =~= text);
    assert(with_replaced(text, '.', ' ') =~= text);
    lemma_squeezed_stays(text, white_class());
    lemma_trimmed_stays(text);
}

/// A title without its track number and bracketed texts, in normal form.
pub open spec fn cleaned(text: Seq<char>) -> Seq<char> {
    normalized(without_bracketed(without_track_number(text)))
}

/// A title without the words that name a mix or a cut, in normal form.
pub open spec fn denoised(text: Seq<char>) -> Seq<char> {
    normalized(without_noise(text))
}

/// The normal form of a title.
pub fn normalize_text(value: &str) -> (out: String)
    ensures
        out@ == normalized(value@),
{
    let no_underscores = replace_char(value, '_', ' ');
    let no_wide_spaces = replace_char(no_underscores.as_str(), '　', ' ');
    let no_dots = replace_char(no_wide_spaces.as_str(), '.', ' ');
    let collapsed = collapse_white_space(no_dots.as_str());
    trim_text(collapsed.as_str())
}

/// A title without its track number.
pub fn strip_leading_track_number(value: &str) -> (out: String)
    ensures
        out@ == without_track_number(value@),
{
    replace_first(LEADING_TRACK_NUMBER, value, "")
}

/// A title without its track number and bracketed texts, in normal form.
pub fn clean_title(value: &str) -> (out: String)
    ensures
        out@ == cleaned(value@),
{
    let without_track = strip_leading_track_number(value);
    let without_brackets = replace_all(BRACKETED_TEXT, without_track.as_str(), " ");
    normalize_text(without_brackets.as_str())
}

/// A title without the words that name a mix or a cut, in normal form.
pub fn strip_title_noise(value: &str) -> (out: String)
    ensures
        out@ == denoised(value@),
{
    let stripped = replace_all(TITLE_NOISE, value, " ");
    normalize_text(stripped.as_str())
}

// ---------------------------------------------------------------------------
// Queries from a title
// ---------------------------------------------------------------------------

/// Whether a text is long enough to search for: two bytes.
pub open spec fn is_searchable(text: Seq<char>) -> bool {
    byte_len(text) >= 2
}

/// `queries` with the normal form of `value`, where it is long enough.
pub open spec fn with_query(queries: Set<Seq<char>>, value: Seq<char>) -> Set<Seq<char>> {
    if is_searchable(normalized(value)) {
        queries.insert(normalized(value))
    } else {
        queries
    }
}

/// `queries` with the normal forms of all `values` that are long enough.
pub open spec fn with_queries(queries: Set<Seq<char>>, values: Seq<Seq<char>>) -> Set<Seq<char>>
    decreases values.len(),
{
    if values.len() == 0 {
        queries
    } else {
        with_query(with_queries(queries, values.drop_last()), values.last())
    }
}

/// The forms in which a piece of a title is searched for.
pub open spec fn piece_shapes(piece: Seq<char>) -> Seq<Seq<char>> {
    seq![piece, cleaned(piece), denoised(piece), denoised(cleaned(piece))]
}

/// The forms in which all pieces are searched for.
pub open spec fn pieces_shapes(pieces: Seq<Seq<char>>) -> Seq<Seq<char>>
    decreases pieces.len(),
{
    if pieces.len() == 0 {
        Seq::empty()
    } else {
        pieces_shapes(pieces.drop_last()) + piece_shapes(pieces.last())
    }
}

/// The forms of the pieces into which `separator` parts a title, if it does.
pub open spec fn separated_shapes(title: Seq<char>, separator: Seq<char>) -> Seq<Seq<char>> {
    if contains_text(title, separator) {
        pieces_shapes(split_text(title, separator))
    } else {
        Seq::empty()
    }
}

/// The forms in which a title is searched for: the title without its track
/// number, cleaned, without noise, and the pieces between its separators.
pub open spec fn title_shapes(title: Seq<char>) -> Seq<Seq<char>> {
    let bare = without_track_number(title);
    seq![bare, cleaned(title), denoised(bare), denoised(cleaned(title))] + separated_shapes(
        bare,
        " - "@,
    ) + separated_shapes(bare, " – "@) + separated_shapes(bare, " — "@) + separated_shapes(
        bare,
        "_"@,
    ) + separated_shapes(bare, "／"@) + separated_shapes(bare, "/"@)
}

/// The queries made from a title.
pub open spec fn title_query_set(title: Seq<char>) -> Set<Seq<char>> {
    with_queries(Set::empty(), title_shapes(title))
}

proof fn lemma_with_queries_add(
    queries: Set<Seq<char>>,
    first: Seq<Seq<char>>,
    second: Seq<Seq<char>>,
)
    ensures
        with_queries(with_queries(queries, first), second) == with_queries(
            queries,
            first + second,
        ),
    decreases second.len(),
{
    if second.len() == 0 {
        assert(first + second =~= first);
    } else {
        lemma_with_queries_add(queries, first, second.drop_last());
        assert((first + second).drop_last() =~= first + second.drop_last());
        assert((first + second).last() == second.last());
    }
}

/// Adds the normal form of `value` to `queries` where it is long enough.
pub fn push_query(queries: &mut TextSet, value: &str)
    ensures
        final(queries)@ == with_query(old(queries)@, value@),
{
    let normal = normalize_text(value);
    if has_bytes(normal.as_str(), 2) {
        queries.insert(normal);
    }
}

fn push_four(queries: &mut TextSet, a: &str, b: &str, c: &str, d: &str)
    ensures
        final(queries)@ == with_queries(old(queries)@, seq![a@, b@, c@, d@]),
{
    let ghost start = queries@;
    push_query(queries, a);
    push_query(queries, b);
    push_query(queries, c);
    push_query(queries, d);
    proof {
        reveal_with_fuel(with_queries, 5);
        let all = seq![a@, b@, c@, d@];
        assert(all.drop_last() =~= seq![a@, b@, c@]);
        assert(all.drop_last().drop_last() =~= seq![a@, b@]);
        assert(all.drop_last().drop_last().drop_last() =~= seq![a@]);
        assert(all.drop_last().drop_last().drop_last().drop_last() =~= Seq::<Seq<char>>::empty());
    }
}

fn push_piece(queries: &mut TextSet, piece: &str)
    ensures
        final(queries)@ == with_queries(old(queries)@, piece_shapes(piece@)),
{
    let clean = clean_title(piece);
    let plain = strip_title_noise(piece);
    let clean_plain = strip_title_noise(clean.as_str());
    push_four(queries, piece, clean.as_str(), plain.as_str(), clean_plain.as_str());
}

fn push_separated(queries: &mut TextSet, title: &str, separator: &str)
    requires
        separator@.len() > 0,
    ensures
        final(queries)@ == with_queries(old(queries)@, separated_shapes(title@, separator@)),
{
    if !text_contains(title, separator) {
        return;
    }
    let pieces = split_at_text(title, separator);
    let ghost texts = views(pieces@);
    let ghost start = queries@;
    let mut i: usize = 0;
    assert(texts.take(0) =~= Seq::<Seq<char>>::empty());
    while i < pieces.len()
        invariant
            i <= pieces@.len(),
            texts == views(pieces@),
            queries@ == with_queries(start, pieces_shapes(texts.take(i as int))),
        decreases pieces@.len() - i,
    {
        push_piece(queries, pieces[i].as_str());
        proof {
            let next = texts.take(i + 1);
            assert(next.drop_last() =~= texts.take(i as int));
            assert(next.last() == pieces@[i as int]@);
            lemma_with_queries_add(
                start,
                pieces_shapes(texts.take(i as int)),
                piece_shapes(next.last()),
            );
        }
        i = i + 1;
    }
    assert(texts.take(texts.len() as int) =~= texts);
}

/// The queries made from a title, in ascending order.
pub fn build_search_queries_from_title(title: &str) -> (queries: Vec<String>)
    ensures
        views(queries@) == sorted_listing(title_query_set(title@)),
        ascending(views(queries@)),
        views(queries@).to_set() == title_query_set(title@),
{
    let bare = strip_leading_track_number(title);
    let clean = clean_title(title);
    let plain = strip_title_noise(bare.as_str());
    let clean_plain = strip_title_noise(clean.as_str());
    let mut queries = TextSet::new();
    let ghost mut shapes = seq![bare@, clean@, plain@, clean_plain@];
    push_four(
        &mut queries,
        bare.as_str(),
        clean.as_str(),
        plain.as_str(),
        clean_plain.as_str(),
    );
    proof {
        reveal_strlit(" - ");
        reveal_strlit(" – ");
        reveal_strlit(" — ");
        reveal_strlit("_");
        reveal_strlit("／");
        reveal_strlit("/");
        let s0 = shapes;
        let s1 = s0 + separated_shapes(bare@, " - "@);
        let s2 = s1 + separated_shapes(bare@, " – "@);
        let s3 = s2 + separated_shapes(bare@, " — "@);
        let s4 = s3 + separated_shapes(bare@, "_"@);
        let s5 = s4 + separated_shapes(bare@, "／"@);
        lemma_with_queries_add(Set::empty(), s0, separated_shapes(bare@, " - "@));
        lemma_with_queries_add(Set::empty(), s1, separated_shapes(bare@, " – "@));
        lemma_with_queries_add(Set::empty(), s2, separated_shapes(bare@, " — "@));
        lemma_with_queries_add(Set::empty(), s3, separated_shapes(bare@, "_"@));
        lemma_with_queries_add(Set::empty(), s4, separated_shapes(bare@, "／"@));
        lemma_with_queries_add(Set::empty(), s5, separated_shapes(bare@, "/"@));
    }
    push_separated(&mut queries, bare.as_str(), " - ");
    push_separated(&mut queries, bare.as_str(), " – ");
    push_separated(&mut queries, bare.as_str(), " — ");
    push_separated(&mut queries, bare.as_str(), "_");
    push_separated(&mut queries, bare.as_str(), "／");
    push_separated(&mut queries, bare.as_str(), "/");
    queries.to_list()
}

// ---------------------------------------------------------------------------
// Queries from titles and artist
// ---------------------------------------------------------------------------

/// `queries` with the normal form of `value` at the end, where it is long
/// enough and not yet there.
pub open spec fn with_unique_query(queries: Seq<Seq<char>>, value: Seq<char>) -> Seq<Seq<char>> {
    let normal = normalized(value);
    if is_searchable(normal) && !queries.contains(normal) {
        queries.push(normal)
    } else {
        queries
    }
}

/// The normal forms of `values` that are long enough, each once, in the order
/// in which they come first.
pub open spec fn unique_queries(values: Seq<Seq<char>>) -> Seq<Seq<char>>
    decreases values.len(),
{
    if values.len() == 0 {
        Seq::empty()
    } else {
        with_unique_query(unique_queries(values.drop_last()), values.last())
    }
}

/// Each title with the artist behind it and before it.
pub open spec fn artist_values(titles: Seq<Seq<char>>, artist: Seq<char>) -> Seq<Seq<char>>
    decreases titles.len(),
{
    if titles.len() == 0 {
        Seq::empty()
    } else {
        let title = titles.last();
        artist_values(titles.drop_last(), artist).push(title + " "@ + artist).push(
            artist + " "@ + title,
        )
    }
}

/// What is searched for: the titles with the artist, where there is one, and
/// then the titles alone.
pub open spec fn search_values(titles: Seq<Seq<char>>, artist: Option<Seq<char>>) -> Seq<
    Seq<char>,
> {
    match artist {
        Some(artist) if is_searchable(normalized(artist)) => artist_values(
            titles,
            normalized(artist),
        ) + titles,
        _ => titles,
    }
}

fn contains_query(queries: &Vec<String>, value: &String) -> (found: bool)
    ensures
        found == views(queries@).contains(value@),
{
    let mut i: usize = 0;
    while i < queries.len()
        invariant
            i <= queries@.len(),
            forall|k: int| 0 <= k < i ==> views(queries@)[k] != value@,
        decreases queries@.len() - i,
    {
        if queries[i] == *value {
            assert(views(queries@)[i as int] == value@);
            return true;
        }
        i = i + 1;
    }
    false
}

/// Adds the normal form of `value` to `queries` where it is long enough and not
/// yet there.
pub fn push_unique_query(queries: &mut Vec<String>, value: &str)
    ensures
        views(final(queries)@) == with_unique_query(views(old(queries)@), value@),
{
    let normal = normalize_text(value);
    if !has_bytes(normal.as_str(), 2) {
        return;
    }
    if !contains_query(queries, &normal) {
        let ghost before = views(queries@);
        let ghost added = normal@;
        queries.push(normal);
        assert(views(queries@) =~= before.push(added));
    }
}

fn push_artist_queries(queries: &mut Vec<String>, titles: &Vec<String>, artist: &str)
    requires
        views(old(queries)@) == Seq::<Seq<char>>::empty(),
    ensures
        views(final(queries)@) == unique_queries(artist_values(views(titles@), artist@)),
{
    let ghost texts = views(titles@);
    let mut i: usize = 0;
    assert(texts.take(0) =~= Seq::<Seq<char>>::empty());
    while i < titles.len()
        invariant
            i <= titles@.len(),
            texts == views(titles@),
            views(queries@) == unique_queries(artist_values(texts.take(i as int), artist@)),
        decreases titles@.len() - i,
    {
        let behind = joined2(joined2(titles[i].as_str(), " ").as_str(), artist);
        let before = joined2(joined2(artist, " ").as_str(), titles[i].as_str());
        push_unique_query(queries, behind.as_str());
        push_unique_query(queries, before.as_str());
        proof {
            let next = texts.take(i + 1);
            assert(next.drop_last() =~= texts.take(i as int));
            assert(next.last() == titles@[i as int]@);
            let done = artist_values(next.drop_last(), artist@);
            let one = done.push(behind@);
            let two = one.push(before@);
            assert(one.drop_last() =~= done);
            assert(two.drop_last() =~= one);
            assert(artist_values(next, artist@) == two);
            assert(unique_queries(one) == with_unique_query(unique_queries(done), behind@));
            assert(unique_queries(two) == with_unique_query(unique_queries(one), before@));
        }
        i = i + 1;
    }
    assert(texts.take(texts.len() as int) =~= texts);
}

fn push_title_queries(queries: &mut Vec<String>, titles: &Vec<String>, done: Ghost<Seq<Seq<char>>>)
    requires
        views(old(queries)@) == unique_queries(done@),
    ensures
        views(final(queries)@) == unique_queries(done@ + views(titles@)),
{
    let ghost texts = views(titles@);
    let mut i: usize = 0;
    assert(done@ + texts.take(0) =~= done@);
    while i < titles.len()
        invariant
            i <= titles@.len(),
            texts == views(titles@),
            views(queries@) == unique_queries(done@ + texts.take(i as int)),
        decreases titles@.len() - i,
    {
        push_unique_query(queries, titles[i].as_str());
        proof {
            let next = done@ + texts.take(i + 1);
            assert(next.drop_last() =~= done@ + texts.take(i as int));
            assert(next.last() == titles@[i as int]@);
        }
        i = i + 1;
    }
    assert(texts.take(texts.len() as int) =~= texts);
}

/// What is searched for, from the queries of a title and the artist.
pub fn build_search_queries(title_queries: &Vec<String>, artist: Option<&str>) -> (queries: Vec<
    String,
>)
    ensures
        views(queries@) == unique_queries(
            search_values(views(title_queries@), optional_str_view(artist)),
        ),
{
    let mut queries: Vec<String> = Vec::new();
    let ghost mut done = Seq::<Seq<char>>::empty();
    assert(views(queries@) =~= Seq::<Seq<char>>::empty());
    if let Some(artist) = artist {
        let normal = normalize_text(artist);
        if has_bytes(normal.as_str(), 2) {
            push_artist_queries(&mut queries, title_queries, normal.as_str());
            proof {
                done = artist_values(views(title_queries@), normal@);
            }
        }
    }
    push_title_queries(&mut queries, title_queries, Ghost(done));
    assert(Seq::<Seq<char>>::empty() + views(title_queries@) =~= views(title_queries@));
    queries
}

// ---------------------------------------------------------------------------
// The tags of a file
// ---------------------------------------------------------------------------

/// What came of looking at an audio file: its tag, or why there is none.
pub enum AudioSource {
    Unsupported(UnsupportedFile),
    Mp3(Result<id3::Tag, String>),
    M4a(Result<mp4ameta::Tag, String>),
}

/// Why a file gives nothing to search for.
#[derive(Debug)]
pub enum SourceError {
    Unsupported(UnsupportedFile),
    Unreadable(String),
    NoTitle,
    EmptyTitle,
    NoQueries,
}

/// Why a file gives nothing to search for, with the reason as text.
pub enum SourceErrorView {
    Unsupported,
    Unreadable(Seq<char>),
    NoTitle,
    EmptyTitle,
    NoQueries,
}

impl View for SourceError {
    type V = SourceErrorView;

    open spec fn view(&self) -> SourceErrorView {
        match self {
            SourceError::Unsupported(_) => SourceErrorView::Unsupported,
            SourceError::Unreadable(reason) => SourceErrorView::Unreadable(reason@),
            SourceError::NoTitle => SourceErrorView::NoTitle,
            SourceError::EmptyTitle => SourceErrorView::EmptyTitle,
            SourceError::NoQueries => SourceErrorView::NoQueries,
        }
    }
}

/// What the user is told of an error.
pub open spec fn source_error_message(error: SourceErrorView) -> Seq<char> {
    match error {
        SourceErrorView::Unsupported => "mp3 / m4a ファイルのみ対応しています"@,
        SourceErrorView::Unreadable(reason) => reason,
        SourceErrorView::NoTitle => "タイトルタグが見つかりません"@,
        SourceErrorView::EmptyTitle => "タイトルタグが空です"@,
        SourceErrorView::NoQueries => "タイトルタグから検索語を作れませんでした"@,
    }
}

impl SourceError {
    /// What the user is told.
    pub fn message(&self) -> (message: String)
        ensures
            message@ == source_error_message(self@),
    {
        match self {
            SourceError::Unsupported(unsupported) => unsupported.message().to_string(),
            SourceError::Unreadable(reason) => reason.clone(),
            SourceError::NoTitle => "タイトルタグが見つかりません".to_string(),
            SourceError::EmptyTitle => "タイトルタグが空です".to_string(),
            SourceError::NoQueries => "タイトルタグから検索語を作れませんでした".to_string(),
        }
    }
}

/// The title and the artist of a file, in normal form.
pub struct MetadataView {
    pub title: Seq<char>,
    pub artist: Option<Seq<char>>,
}

/// The title and the artist that a tag gives, in normal form. The title must be
/// there and hold something; an artist that holds nothing counts as none.
pub open spec fn metadata_of(title: Option<Seq<char>>, artist: Option<Seq<char>>) -> Result<
    MetadataView,
    SourceErrorView,
> {
    match title {
        None => Err(SourceErrorView::NoTitle),
        Some(title) => if normalized(title).len() == 0 {
            Err(SourceErrorView::EmptyTitle)
        } else {
            Ok(
                MetadataView {
                    title: normalized(title),
                    artist: match artist {
                        Some(artist) if normalized(artist).len() > 0 => Some(normalized(artist)),
                        _ => None,
                    },
                },
            )
        },
    }
}

/// The first of two texts that is there.
pub open spec fn either_text(first: Option<Seq<char>>, second: Option<Seq<char>>) -> Option<
    Seq<char>,
> {
    match first {
        Some(_) => first,
        None => second,
    }
}

/// The title and the artist of an ID3 tag.
pub open spec fn mp3_metadata(tag: id3::Tag) -> Result<MetadataView, SourceErrorView> {
    metadata_of(frame_text(mp3_frames(tag), "TIT2"@), frame_text(mp3_frames(tag), "TPE1"@))
}

/// The title and the artist, or else the album artist, of MPEG-4 metadata.
pub open spec fn m4a_metadata(tag: mp4ameta::Tag) -> Result<MetadataView, SourceErrorView> {
    metadata_of(
        first_text(m4a_texts(tag, "©nam"@)),
        either_text(first_text(m4a_texts(tag, "©ART"@)), first_text(m4a_texts(tag, "aART"@))),
    )
}

/// The title and the artist of a file.
pub open spec fn source_metadata(source: AudioSource) -> Result<MetadataView, SourceErrorView> {
    match source {
        AudioSource::Unsupported(_) => Err(SourceErrorView::Unsupported),
        AudioSource::Mp3(Ok(tag)) => mp3_metadata(tag),
        AudioSource::Mp3(Err(reason)) => Err(SourceErrorView::Unreadable(reason@)),
        AudioSource::M4a(Ok(tag)) => m4a_metadata(tag),
        AudioSource::M4a(Err(reason)) => Err(SourceErrorView::Unreadable(reason@)),
    }
}

/// What a pair of title and artist says.
pub open spec fn metadata_view(metadata: Result<(String, Option<String>), SourceError>) -> Result<
    MetadataView,
    SourceErrorView,
> {
    match metadata {
        Ok((title, artist)) => Ok(MetadataView { title: title@, artist: optional_view(artist) }),
        Err(error) => Err(error@),
    }
}

/// The title and the artist that a tag gives, in normal form.
pub fn normalize_metadata(title: Option<String>, artist: Option<String>) -> (metadata: Result<
    (String, Option<String>),
    SourceError,
>)
    ensures
        metadata_view(metadata) == metadata_of(optional_view(title), optional_view(artist)),
{
    let source_title = match title {
        Some(title) => normalize_text(title.as_str()),
        None => {
            return Err(SourceError::NoTitle);
        },
    };
    if source_title.as_str().is_empty() {
        return Err(SourceError::EmptyTitle);
    }
    let source_artist = match artist {
        Some(artist) => {
            let normal = normalize_text(artist.as_str());
            if normal.as_str().is_empty() {
                None
            } else {
                Some(normal)
            }
        },
        None => None,
    };
    Ok((source_title, source_artist))
}

/// The title and the artist of an ID3 tag.
pub fn read_mp3_metadata(tag: &id3::Tag) -> (metadata: Result<
    (String, Option<String>),
    SourceError,
>)
    ensures
        metadata_view(metadata) == mp3_metadata(*tag),
{
    normalize_metadata(mp3_title(tag), mp3_artist(tag))
}

/// The title and the artist, or else the album artist, of MPEG-4 metadata.
pub fn read_m4a_metadata(tag: &mp4ameta::Tag) -> (metadata: Result<
    (String, Option<String>),
    SourceError,
>)
    ensures
        metadata_view(metadata) == m4a_metadata(*tag),
{
    let artist = match m4a_artist(tag) {
        Some(artist) => Some(artist),
        None => m4a_album_artist(tag),
    };
    normalize_metadata(m4a_title(tag), artist)
}

/// The title and the artist of a file.
pub fn read_metadata(source: &AudioSource) -> (metadata: Result<
    (String, Option<String>),
    SourceError,
>)
    ensures
        metadata_view(metadata) == source_metadata(*source),
{
    match source {
        AudioSource::Unsupported(unsupported) => Err(SourceError::Unsupported(*unsupported)),
        AudioSource::Mp3(Ok(tag)) => read_mp3_metadata(tag),
        AudioSource::Mp3(Err(reason)) => Err(SourceError::Unreadable(reason.clone())),
        AudioSource::M4a(Ok(tag)) => read_m4a_metadata(tag),
        AudioSource::M4a(Err(reason)) => Err(SourceError::Unreadable(reason.clone())),
    }
}

// ---------------------------------------------------------------------------
// What is searched for
// ---------------------------------------------------------------------------

/// What is searched for, for one file.
pub struct SearchInput {
    pub source_title: String,
    pub source_artist: Option<String>,
    pub title_queries: Vec<String>,
    pub search_queries: Vec<String>,
}

/// What is searched for, as texts.
pub struct SearchInputView {
    pub source_title: Seq<char>,
    pub source_artist: Option<Seq<char>>,
    pub title_queries: Seq<Seq<char>>,
    pub search_queries: Seq<Seq<char>>,
}

impl View for SearchInput {
    type V = SearchInputView;

    open spec fn view(&self) -> SearchInputView {
        SearchInputView {
            source_title: self.source_title@,
            source_artist: optional_view(self.source_artist),
            title_queries: views(self.title_queries@),
            search_queries: views(self.search_queries@),
        }
    }
}

/// What is searched for, from the title and the artist of a file.
pub open spec fn search_input_of(metadata: MetadataView) -> Result<
    SearchInputView,
    SourceErrorView,
> {
    let title_queries = sorted_listing(title_query_set(metadata.title));
    if title_query_set(metadata.title) == Set::<Seq<char>>::empty() {
        Err(SourceErrorView::NoQueries)
    } else {
        Ok(
            SearchInputView {
                source_title: metadata.title,
                source_artist: metadata.artist,
                title_queries,
                search_queries: unique_queries(search_values(title_queries, metadata.artist)),
            },
        )
    }
}

/// What is searched for, for a file.
pub open spec fn source_search_input(source: AudioSource) -> Result<
    SearchInputView,
    SourceErrorView,
> {
    match source_metadata(source) {
        Ok(metadata) => search_input_of(metadata),
        Err(error) => Err(error),
    }
}

/// What is searched for, for a file.
pub fn build_search_input(source: &AudioSource) -> (input: Result<SearchInput, SourceError>)
    ensures
        match input {
            Ok(input) => source_search_input(*source) == Ok::<_, SourceErrorView>(input@),
            Err(error) => source_search_input(*source) == Err::<SearchInputView, _>(error@),
        },
{
    let (source_title, source_artist) = match read_metadata(source) {
        Ok(metadata) => metadata,
        Err(error) => {
            return Err(error);
        },
    };
    let title_queries = build_search_queries_from_title(source_title.as_str());
    let search_queries = match &source_artist {
        Some(artist) => build_search_queries(&title_queries, Some(artist.as_str())),
        None => build_search_queries(&title_queries, None),
    };
    if title_queries.len() == 0 {
        assert(views(title_queries@).to_set() =~= Set::<Seq<char>>::empty());
        return Err(SourceError::NoQueries);
    }
    assert(views(title_queries@).to_set().contains(title_queries@[0]@)) by {
        assert(views(title_queries@)[0] == title_queries@[0]@);
    }
    Ok(SearchInput { source_title, source_artist, title_queries, search_queries })
}

// ---------------------------------------------------------------------------
// Laws of queries
// ---------------------------------------------------------------------------

/// Whether a text can be a query: it is in normal form and long enough.
pub open spec fn is_query(text: Seq<char>) -> bool {
    normalized(text) == text && is_searchable(text)
}

proof fn lemma_with_queries(queries: Set<Seq<char>>, values: Seq<Seq<char>>)
    requires
        queries.finite(),
        forall|text: Seq<char>| #[trigger] queries.contains(text) ==> is_query(text),
    ensures
        with_queries(queries, values).finite(),
        forall|text: Seq<char>| #[trigger]
            with_queries(queries, values).contains(text) ==> is_query(text),
    decreases values.len(),
{
    if values.len() > 0 {
        let before = with_queries(queries, values.drop_last());
        lemma_with_queries(queries, values.drop_last());
        law_normal_form_stays(values.last());
        assert forall|text: Seq<char>| #[trigger]
            with_queries(queries, values).contains(text) implies is_query(text) by {
            if !before.contains(text) {
                assert(text == normalized(values.last()));
            }
        }
    }
}

proof fn lemma_unique_queries(values: Seq<Seq<char>>)
    ensures
        unique_queries(values).no_duplicates(),
        forall|i: int|
            0 <= i < unique_queries(values).len() ==> is_query(
                #[trigger] unique_queries(values)[i],
            ),
        forall|i: int|
            0 <= i < values.len() && is_searchable(normalized(values[i])) ==> unique_queries(
                values,
            ).contains(normalized(#[trigger] values[i])),
    decreases values.len(),
{
    if values.len() > 0 {
        let shorter = values.drop_last();
        let before = unique_queries(shorter);
        let after = unique_queries(values);
        lemma_unique_queries(shorter);
        law_normal_form_stays(values.last());
        assert forall|i: int| 0 <= i < after.len() implies is_query(#[trigger] after[i]) by {
            if i < before.len() {
                assert(after[i] == before[i]);
            }
        }
        assert forall|i: int|
            0 <= i < values.len() && is_searchable(normalized(values[i])) implies after.contains(
            normalized(#[trigger] values[i]),
        ) by {
            let normal = normalized(values[i]);
            if i < shorter.len() {
                assert(shorter[i] == values[i]);
                let k = before.index_of(normal);
                assert(after[k] == normal);
            } else if before.contains(normal) {
                let k = before.index_of(normal);
                assert(after[k] == normal);
            } else {
                assert(after[before.len() as int] == normal);
            }
        }
        assert forall|i: int, j: int|
            0 <= i < after.len() && 0 <= j < after.len() && i != j implies after[i] != after[j] by {
            if i < before.len() {
                assert(after[i] == before[i]);
                assert(before.contains(before[i]));
            }
            if j < before.len() {
                assert(after[j] == before[j]);
                assert(before.contains(before[j]));
            }
        }
    }
}

/// What is searched for, for a file, are queries in normal form that are long
/// enough, none of them twice; there is one at least; and the title alone is
/// searched for in each of its forms.
pub proof fn law_search_input_holds_queries(metadata: MetadataView)
    ensures
        search_input_of(metadata) matches Ok(input) ==> {
            &&& input.title_queries.len() > 0
            &&& input.title_queries.no_duplicates()
            &&& input.search_queries.no_duplicates()
            &&& forall|i: int|
                0 <= i < input.title_queries.len() ==> is_query(#[trigger] input.title_queries[i])
            &&& forall|i: int|
                0 <= i < input.search_queries.len() ==> is_query(
                    #[trigger] input.search_queries[i],
                )
            &&& forall|i: int|
                0 <= i < input.title_queries.len() ==> input.search_queries.contains(
                    #[trigger] input.title_queries[i],
                )
        },
{
    if let Ok(input) = search_input_of(metadata) {
        let titles = input.title_queries;
        lemma_with_queries(Set::empty(), title_shapes(metadata.title));
        lemma_listing_exists(title_query_set(metadata.title));
        lemma_ascending_distinct(titles);
        assert(titles.to_set() == title_query_set(metadata.title));
        if titles.len() == 0 {
            assert(titles.to_set() =~= Set::<Seq<char>>::empty());
        }
        let values = search_values(titles, metadata.artist);
        lemma_unique_queries(values);
        assert forall|i: int| 0 <= i < titles.len() implies is_query(#[trigger] titles[i]) by {
            assert(titles.to_set().contains(titles[i]));
        }
        assert forall|i: int| 0 <= i < titles.len() implies input.search_queries.contains(
            #[trigger] titles[i],
        ) by {
            assert(is_query(titles[i]));
            let at = values.len() - titles.len() + i;
            assert(values[at] == titles[i]);
        }
    }
}

// ---------------------------------------------------------------------------
// Laws of titles
// ---------------------------------------------------------------------------

/// Whether a character counts as a space in a title.
pub open spec fn counts_as_space(c: char) -> bool {
    is_white(c) || c == '_' || c == '.'
}

spec fn spaced(text: Seq<char>) -> Seq<char> {
    with_replaced(with_replaced(with_replaced(text, '_', ' '), '　', ' '), '.', ' ')
}

/// What stands on both sides of a space, an underscore or a dot comes one after the
/// other in the normal form of a title, with one space between.
pub proof fn law_normal_titles_go_word_by_word(left: Seq<char>, c: char, right: Seq<char>)
    requires
        counts_as_space(c),
    ensures
        normalized(left + seq![c] + right) == if normalized(left).len() == 0 {
            normalized(right)
        } else if normalized(right).len() == 0 {
            normalized(left)
        } else {
            normalized(left) + seq![' '] + normalized(right)
        },
{
    let whole = left + seq![c] + right;
    let one = if c == '_' || c == '　' || c == '.' {
        ' '
    } else {
        c
    };
    assert(is_white(' '));
    assert(spaced(whole) =~= spaced(left) + seq![one] + spaced(right));
    law_squeezed_words_come_in_a_row(spaced(left), one, spaced(right), white_class());
}

/// A text without spaces, underscores and dots is its own normal form.
pub proof fn law_words_are_normal(text: Seq<char>)
    requires
        forall|i: int| 0 <= i < text.len() ==> !counts_as_space(#[trigger] text[i]),
    ensures
        normalized(text) == text,
{
    assert(is_normal(text)) by {
        assert forall|i: int| 0 <= i < text.len() implies (#[trigger] text[i]) != '_' && text[i]
            != '　' && text[i] != '.' by {
            assert(!counts_as_space(text[i]));
        }
        assert forall|i: int| 0 <= i < text.len() && white_class()(
            #[trigger] text[i],
        ) implies text[i] == ' ' by {
            assert(!counts_as_space(text[i]));
        }
        assert forall|i: int, j: int|
            0 <= i < text.len() && j == i + 1 && j < text.len() implies !(white_class()(
            #[trigger] text[i],
        ) && white_class()(#[trigger] text[j])) by {
            assert(!counts_as_space(text[i]));
        }
        if text.len() > 0 {
            assert(!counts_as_space(text[0]));
            assert(!counts_as_space(text[text.len() - 1]));
        }
    }
    lemma_normal_stays(text);
}

/// A title is cleaned of its track number first, and then of texts in brackets.
pub proof fn law_cleaned_titles(title: Seq<char>, bare: Seq<char>)
    requires
        without_track_number(title) == bare,
    ensures
        cleaned(title) == normalized(without_bracketed(bare)),
{
}

/// A title without noise stays, in normal form; noise is left out of it.
pub proof fn law_titles_without_noise(title: Seq<char>)
    ensures
        denoised(title) == normalized(without_noise(title)),
        (forall|from: int, to: int| !#[trigger] is_noise_at(title, from, to)) ==> denoised(title)
            == normalized(title),
{
    if forall|from: int, to: int| !#[trigger] is_noise_at(title, from, to) {
        law_noise_becomes_a_space(title, 0, title.len() as int);
        assert(title.skip(0) =~= title);
    }
}

proof fn lemma_wide_character(c: char)
    ensures
        c > '\u{7F}' <==> c as u32 > 0x7F,
{
}

/// A text is long enough to search for with two characters, or with one that takes more
/// than one byte.
pub proof fn law_searchable_texts(text: Seq<char>)
    ensures
        text.len() >= 2 ==> is_searchable(text),
        text.len() == 1 ==> is_searchable(text) == (text[0] > '\u{7F}'),
        text.len() == 0 ==> !is_searchable(text),
{
    reveal_with_fuel(vstd::utf8::encode_utf8, 3);
    if text.len() >= 1 {
        vstd::utf8::char_is_scalar(text[0]);
        let rest = text.drop_first();
        if text.len() >= 2 {
            vstd::utf8::char_is_scalar(text[1]);
            assert(rest[0] == text[1]);
            assert(vstd::utf8::encode_scalar(text[0] as u32).len() >= 1);
            assert(vstd::utf8::encode_scalar(text[1] as u32).len() >= 1);
        } else {
            let code = text[0] as u32;
            lemma_wide_character(text[0]);
            assert(vstd::utf8::encode_utf8(rest).len() == 0);
            assert(byte_len(text) == vstd::utf8::encode_scalar(code).len());
            assert(code > 0x7F ==> !vstd::utf8::has_width_1_encoding(code));
            assert(code <= 0x7F ==> vstd::utf8::has_width_1_encoding(code));
        }
    }
}

/// The texts at which a title is parted.
pub open spec fn title_separators() -> Seq<Seq<char>> {
    seq![
        seq![' ', '-', ' '],
        seq![' ', '–', ' '],
        seq![' ', '—', ' '],
        seq!['_'],
        seq!['／'],
        seq!['/'],
    ]
}

/// Whether a value is a piece of a title as it is, cleaned, without noise, or both.
pub open spec fn is_form_of(value: Seq<char>, piece: Seq<char>) -> bool {
    ||| value == piece
    ||| value == cleaned(piece)
    ||| value == denoised(piece)
    ||| value == denoised(cleaned(piece))
}

/// Whether a value is a form of one of the pieces into which a title is parted.
pub open spec fn is_form_of_piece(value: Seq<char>, bare: Seq<char>) -> bool {
    exists|i: int, k: int|
        #![trigger split_text(bare, title_separators()[i])[k]]
        0 <= i < title_separators().len() && contains_text(bare, title_separators()[i]) && 0 <= k
            < split_text(bare, title_separators()[i]).len() && is_form_of(
            value,
            split_text(bare, title_separators()[i])[k],
        )
}

/// Whether a value is one of those that are searched for, for a title: the title without
/// its track number, cleaned, without noise, or both; or a form of one of its pieces.
pub open spec fn is_value_of_title(value: Seq<char>, title: Seq<char>) -> bool {
    let bare = without_track_number(title);
    ||| value == bare
    ||| value == cleaned(title)
    ||| value == denoised(bare)
    ||| value == denoised(cleaned(title))
    ||| is_form_of_piece(value, bare)
}

proof fn lemma_with_queries_contains(
    queries: Set<Seq<char>>,
    values: Seq<Seq<char>>,
    query: Seq<char>,
)
    ensures
        with_queries(queries, values).contains(query) <==> queries.contains(query) || (
        is_searchable(query) && exists|i: int|
            0 <= i < values.len() && normalized(#[trigger] values[i]) == query),
    decreases values.len(),
{
    if values.len() > 0 {
        let shorter = values.drop_last();
        lemma_with_queries_contains(queries, shorter, query);
        if exists|i: int| 0 <= i < shorter.len() && normalized(#[trigger] shorter[i]) == query {
            let i = choose|i: int|
                0 <= i < shorter.len() && normalized(#[trigger] shorter[i]) == query;
            assert(normalized(values[i]) == query);
        }
        if normalized(values.last()) == query {
            assert(normalized(values[values.len() - 1]) == query);
        }
        if exists|i: int| 0 <= i < values.len() && normalized(#[trigger] values[i]) == query {
            let i = choose|i: int|
                0 <= i < values.len() && normalized(#[trigger] values[i]) == query;
            if i < shorter.len() {
                assert(normalized(shorter[i]) == query);
            }
        }
    }
}

proof fn lemma_piece_shapes(piece: Seq<char>, value: Seq<char>)
    ensures
        piece_shapes(piece).contains(value) <==> is_form_of(value, piece),
{
    let shapes = piece_shapes(piece);
    assert(shapes[0] == piece && shapes[1] == cleaned(piece) && shapes[2] == denoised(piece)
        && shapes[3] == denoised(cleaned(piece)));
    if shapes.contains(value) {
        let k = shapes.index_of(value);
        assert(k == 0 || k == 1 || k == 2 || k == 3);
    }
}

proof fn lemma_pieces_shapes(pieces: Seq<Seq<char>>, value: Seq<char>)
    ensures
        pieces_shapes(pieces).contains(value) <==> exists|k: int|
            0 <= k < pieces.len() && is_form_of(value, #[trigger] pieces[k]),
    decreases pieces.len(),
{
    if pieces.len() > 0 {
        let shorter = pieces.drop_last();
        let before = pieces_shapes(shorter);
        let last = piece_shapes(pieces.last());
        lemma_pieces_shapes(shorter, value);
        lemma_piece_shapes(pieces.last(), value);
        lemma_add_contains(before, last, value);
        if before.contains(value) {
            let k = choose|k: int|
                0 <= k < shorter.len() && is_form_of(value, #[trigger] shorter[k]);
            assert(is_form_of(value, pieces[k]));
        }
        if last.contains(value) {
            assert(is_form_of(value, pieces[pieces.len() - 1]));
        }
        if exists|k: int| 0 <= k < pieces.len() && is_form_of(value, #[trigger] pieces[k]) {
            let k = choose|k: int|
                0 <= k < pieces.len() && is_form_of(value, #[trigger] pieces[k]);
            if k < shorter.len() {
                assert(is_form_of(value, shorter[k]));
            }
        }
    }
}

proof fn lemma_add_contains(left: Seq<Seq<char>>, right: Seq<Seq<char>>, value: Seq<char>)
    ensures
        (left + right).contains(value) <==> left.contains(value) || right.contains(value),
{
    if left.contains(value) {
        let k = left.index_of(value);
        assert((left + right)[k] == value);
    }
    if right.contains(value) {
        let k = right.index_of(value);
        assert((left + right)[left.len() + k] == value);
    }
    if (left + right).contains(value) {
        let k = (left + right).index_of(value);
        if k < left.len() {
            assert(left[k] == value);
        } else {
            assert(right[k - left.len()] == value);
        }
    }
}

proof fn lemma_title_shapes(title: Seq<char>, value: Seq<char>)
    ensures
        title_shapes(title).contains(value) <==> is_value_of_title(value, title),
{
    let bare = without_track_number(title);
    let separators = title_separators();
    reveal_strlit(" - ");
    reveal_strlit(" – ");
    reveal_strlit(" — ");
    reveal_strlit("_");
    reveal_strlit("／");
    reveal_strlit("/");
    assert(" - "@ =~= separators[0] && " – "@ =~= separators[1] && " — "@ =~= separators[2]
        && "_"@ =~= separators[3] && "／"@ =~= separators[4] && "/"@ =~= separators[5]);
    let first = seq![bare, cleaned(title), denoised(bare), denoised(cleaned(title))];
    assert(first[0] == bare && first[1] == cleaned(title) && first[2] == denoised(bare) && first[3]
        == denoised(cleaned(title)));
    if first.contains(value) {
        let k = first.index_of(value);
        assert(k == 0 || k == 1 || k == 2 || k == 3);
    }
    let s0 = separated_shapes(bare, separators[0]);
    let s1 = separated_shapes(bare, separators[1]);
    let s2 = separated_shapes(bare, separators[2]);
    let s3 = separated_shapes(bare, separators[3]);
    let s4 = separated_shapes(bare, separators[4]);
    let s5 = separated_shapes(bare, separators[5]);
    lemma_add_contains(first, s0, value);
    lemma_add_contains(first + s0, s1, value);
    lemma_add_contains(first + s0 + s1, s2, value);
    lemma_add_contains(first + s0 + s1 + s2, s3, value);
    lemma_add_contains(first + s0 + s1 + s2 + s3, s4, value);
    lemma_add_contains(first + s0 + s1 + s2 + s3 + s4, s5, value);
    assert(title_shapes(title) == first + s0 + s1 + s2 + s3 + s4 + s5);
    assert forall|i: int| 0 <= i < 6 implies (separated_shapes(
        bare,
        #[trigger] separators[i],
    ).contains(value) <==> contains_text(bare, separators[i]) && exists|k: int|
        0 <= k < split_text(bare, separators[i]).len() && is_form_of(
            value,
            #[trigger] split_text(bare, separators[i])[k],
        )) by {
        lemma_pieces_shapes(split_text(bare, separators[i]), value);
    }
    assert(s0 == separated_shapes(bare, separators[0]) && s1 == separated_shapes(
        bare,
        separators[1],
    ) && s2 == separated_shapes(bare, separators[2]) && s3 == separated_shapes(
        bare,
        separators[3],
    ) && s4 == separated_shapes(bare, separators[4]) && s5 == separated_shapes(
        bare,
        separators[5],
    ));
    if is_form_of_piece(value, bare) {
        let (i, k) = choose|i: int, k: int|
            #![trigger split_text(bare, separators[i])[k]]
            0 <= i < separators.len() && contains_text(bare, separators[i]) && 0 <= k < split_text(
                bare,
                separators[i],
            ).len() && is_form_of(value, split_text(bare, separators[i])[k]);
        assert(separated_shapes(bare, separators[i]).contains(value));
        assert(i == 0 || i == 1 || i == 2 || i == 3 || i == 4 || i == 5);
    }
    assert forall|i: int| 0 <= i < 6 && separated_shapes(bare, #[trigger] separators[i]).contains(
        value,
    ) implies is_form_of_piece(value, bare) by {
        let k = choose|k: int|
            0 <= k < split_text(bare, separators[i]).len() && is_form_of(
                value,
                #[trigger] split_text(bare, separators[i])[k],
            );
        assert(is_form_of(value, split_text(bare, title_separators()[i])[k]));
    }
}

/// The queries for a title are the normal forms, as far as they are long enough, of the
/// title without its track number, cleaned, without noise, or both, and of its pieces in
/// the same forms; and no others.
pub proof fn law_queries_of_a_title(title: Seq<char>, query: Seq<char>)
    ensures
        title_query_set(title).contains(query) <==> is_searchable(query) && exists|value: Seq<
            char,
        >| #[trigger] is_value_of_title(value, title) && normalized(value) == query,
{
    let shapes = title_shapes(title);
    lemma_with_queries_contains(Set::empty(), shapes, query);
    if exists|i: int| 0 <= i < shapes.len() && normalized(#[trigger] shapes[i]) == query {
        let i = choose|i: int| 0 <= i < shapes.len() && normalized(#[trigger] shapes[i]) == query;
        assert(shapes.contains(shapes[i]));
        lemma_title_shapes(title, shapes[i]);
        assert(is_value_of_title(shapes[i], title));
    }
    if exists|value: Seq<char>| #[trigger]
        is_value_of_title(value, title) && normalized(value) == query {
        let value = choose|value: Seq<char>| #[trigger]
            is_value_of_title(value, title) && normalized(value) == query;
        lemma_title_shapes(title, value);
        let i = shapes.index_of(value);
        assert(normalized(shapes[i]) == query);
    }
}

/// Both parts of a title with one of the separators between them are searched for, where
/// they are long enough, and so is the whole.
pub proof fn law_parts_of_a_title_are_searched_for(
    title: Seq<char>,
    separator: int,
    part: Seq<char>,
    rest: Seq<char>,
)
    requires
        0 <= separator < title_separators().len(),
        without_track_number(title) == part + title_separators()[separator] + rest,
        forall|k: int|
            0 <= k < part.len() ==> !occurs_at(
                part + title_separators()[separator] + rest,
                title_separators()[separator],
                k,
            ),
        !contains_text(rest, title_separators()[separator]),
    ensures
        is_searchable(normalized(part)) ==> title_query_set(title).contains(normalized(part)),
        is_searchable(normalized(rest)) ==> title_query_set(title).contains(normalized(rest)),
        is_searchable(normalized(without_track_number(title))) ==> title_query_set(
            title,
        ).contains(normalized(without_track_number(title))),
{
    let between = title_separators()[separator];
    let bare = without_track_number(title);
    let separators = title_separators();
    assert(separators[0].len() > 0 && separators[1].len() > 0 && separators[2].len() > 0
        && separators[3].len() > 0 && separators[4].len() > 0 && separators[5].len() > 0);
    assert(separator == 0 || separator == 1 || separator == 2 || separator == 3 || separator == 4
        || separator == 5);
    law_part_is_found(part, between, rest);
    law_text_is_split_at_the_separator(part, between, rest);
    let pieces = split_text(bare, between);
    assert(pieces =~= seq![part, rest]);
    assert(is_form_of(part, split_text(bare, title_separators()[separator])[0]));
    assert(is_form_of(rest, split_text(bare, title_separators()[separator])[1]));
    assert(is_form_of_piece(part, bare) && is_form_of_piece(rest, bare));
    assert(is_value_of_title(part, title) && is_value_of_title(rest, title)
        && is_value_of_title(bare, title));
    law_queries_of_a_title(title, normalized(part));
    law_queries_of_a_title(title, normalized(rest));
    law_queries_of_a_title(title, normalized(bare));
}

proof fn lemma_artist_values(titles: Seq<Seq<char>>, artist: Seq<char>)
    ensures
        artist_values(titles, artist).len() == 2 * titles.len(),
        forall|i: int|
            0 <= i < titles.len() ==> artist_values(titles, artist)[2 * i] == #[trigger] titles[i]
                + seq![' '] + artist && artist_values(titles, artist)[2 * i + 1] == artist + seq![
                ' ',
            ] + titles[i],
    decreases titles.len(),
{
    reveal_strlit(" ");
    assert(" "@ =~= seq![' ']);
    if titles.len() > 0 {
        let shorter = titles.drop_last();
        lemma_artist_values(shorter, artist);
        let before = artist_values(shorter, artist);
        let after = artist_values(titles, artist);
        assert forall|i: int| 0 <= i < titles.len() implies after[2 * i] == #[trigger] titles[i]
            + seq![' '] + artist && after[2 * i + 1] == artist + seq![' '] + titles[i] by {
            if i < shorter.len() {
                assert(shorter[i] == titles[i]);
                assert(after[2 * i] == before[2 * i]);
                assert(after[2 * i + 1] == before[2 * i + 1]);
            }
        }
    }
}

/// With an artist who is long enough to search for, each title is searched for with the
/// artist behind it and before it, and after all of these alone; without one, the titles
/// are searched for alone.
pub proof fn law_what_is_searched_for(
    titles: Seq<Seq<char>>,
    artist: Option<Seq<char>>,
    at: int,
)
    requires
        0 <= at < titles.len(),
    ensures
        ({
            let values = search_values(titles, artist);
            match artist {
                Some(artist) if is_searchable(normalized(artist)) => {
                    &&& values.len() == 3 * titles.len()
                    &&& values[2 * at] == titles[at] + seq![' '] + normalized(artist)
                    &&& values[2 * at + 1] == normalized(artist) + seq![' '] + titles[at]
                    &&& values[2 * titles.len() + at] == titles[at]
                },
                _ => values == titles,
            }
        }),
{
    if let Some(name) = artist {
        lemma_artist_values(titles, normalized(name));
    }
}

/// One more value is added to the queries in its normal form, where that is long enough
/// and not yet there.
pub proof fn law_queries_grow(values: Seq<Seq<char>>, value: Seq<char>)
    ensures
        unique_queries(Seq::empty()) == Seq::<Seq<char>>::empty(),
        unique_queries(values.push(value)) == if is_searchable(normalized(value)) && (forall|
            i: int,
        | 0 <= i < values.len() ==> normalized(#[trigger] values[i]) != normalized(value)) {
            unique_queries(values).push(normalized(value))
        } else {
            unique_queries(values)
        },
{
    assert(values.push(value).drop_last() =~= values);
    let normal = normalized(value);
    lemma_unique_queries(values);
    if is_searchable(normal) {
        if unique_queries(values).contains(normal) {
            lemma_unique_among(values, normal);
        } else {
            assert forall|i: int| 0 <= i < values.len() implies normalized(#[trigger] values[i])
                != normal by {
                if normalized(values[i]) == normal {
                    assert(unique_queries(values).contains(normalized(values[i])));
                }
            }
        }
    }
}

proof fn lemma_unique_among(values: Seq<Seq<char>>, query: Seq<char>)
    requires
        unique_queries(values).contains(query),
    ensures
        exists|i: int| 0 <= i < values.len() && normalized(#[trigger] values[i]) == query,
    decreases values.len(),
{
    if values.len() > 0 {
        let shorter = values.drop_last();
        if unique_queries(shorter).contains(query) {
            lemma_unique_among(shorter, query);
            let i = choose|i: int|
                0 <= i < shorter.len() && normalized(#[trigger] shorter[i]) == query;
            assert(normalized(values[i]) == query);
        } else {
            let k = unique_queries(values).index_of(query);
            if k < unique_queries(shorter).len() {
                assert(unique_queries(shorter)[k] == query);
            }
            assert(normalized(values[values.len() - 1]) == query);
        }
    }
}

/// The first query of a file with an artist is its first title with the artist behind
/// it.
pub proof fn law_title_and_artist_come_first(titles: Seq<Seq<char>>, artist: Seq<char>)
    requires
        titles.len() > 0,
        is_searchable(normalized(artist)),
        is_searchable(normalized(titles[0] + seq![' '] + normalized(artist))),
    ensures
        unique_queries(search_values(titles, Some(artist))).len() > 0,
        unique_queries(search_values(titles, Some(artist)))[0] == normalized(
            titles[0] + seq![' '] + normalized(artist),
        ),
{
    law_what_is_searched_for(titles, Some(artist), 0);
    let values = search_values(titles, Some(artist));
    lemma_first_unique(values);
}

proof fn lemma_first_unique(values: Seq<Seq<char>>)
    requires
        values.len() > 0,
        is_searchable(normalized(values[0])),
    ensures
        unique_queries(values).len() > 0,
        unique_queries(values)[0] == normalized(values[0]),
    decreases values.len(),
{
    let shorter = values.drop_last();
    if shorter.len() > 0 {
        assert(shorter[0] == values[0]);
        lemma_first_unique(shorter);
    } else {
        assert(shorter =~= Seq::<Seq<char>>::empty());
        assert(unique_queries(shorter) =~= Seq::<Seq<char>>::empty());
    }
}

/// A file is searched for by its title in normal form, where it has one that holds
/// something; an artist counts where it holds something.
pub proof fn law_metadata(title: Option<Seq<char>>, artist: Option<Seq<char>>)
    ensures
        title is None ==> metadata_of(title, artist) == Err::<MetadataView, _>(
            SourceErrorView::NoTitle,
        ),
        title matches Some(text) ==> normalized(text).len() == 0 ==> metadata_of(title, artist)
            == Err::<MetadataView, _>(SourceErrorView::EmptyTitle),
        title matches Some(text) ==> normalized(text).len() > 0 ==> {
            &&& metadata_of(title, artist) matches Ok(metadata)
            &&& metadata.title == normalized(text)
            &&& artist is None ==> metadata.artist is None
            &&& artist matches Some(name) ==> metadata.artist == if normalized(name).len() > 0 {
                Some(normalized(name))
            } else {
                None
            }
        },
{
}

/// The title and the artist of an ID3 tag are those of the frames `TIT2` and `TPE1`.
pub proof fn law_mp3_metadata(tag: id3::Tag)
    ensures
        mp3_metadata(tag) == metadata_of(
            frame_text(mp3_frames(tag), seq!['T', 'I', 'T', '2']),
            frame_text(mp3_frames(tag), seq!['T', 'P', 'E', '1']),
        ),
{
    reveal_strlit("TIT2");
    reveal_strlit("TPE1");
    assert("TIT2"@ =~= seq!['T', 'I', 'T', '2']);
    assert("TPE1"@ =~= seq!['T', 'P', 'E', '1']);
}

/// The title and the artist of MPEG-4 metadata are its first texts under `©nam` and
/// `©ART`; without an artist the album artist under `aART` counts.
pub proof fn law_m4a_metadata(tag: mp4ameta::Tag)
    ensures
        ({
            let titles = m4a_texts(tag, seq!['©', 'n', 'a', 'm']);
            let artists = m4a_texts(tag, seq!['©', 'A', 'R', 'T']);
            let album_artists = m4a_texts(tag, seq!['a', 'A', 'R', 'T']);
            m4a_metadata(tag) == metadata_of(
                if titles.len() > 0 {
                    Some(titles[0])
                } else {
                    None
                },
                if artists.len() > 0 {
                    Some(artists[0])
                } else if album_artists.len() > 0 {
                    Some(album_artists[0])
                } else {
                    None
                },
            )
        }),
{
    reveal_strlit("©nam");
    reveal_strlit("©ART");
    reveal_strlit("aART");
    assert("©nam"@ =~= seq!['©', 'n', 'a', 'm']);
    assert("©ART"@ =~= seq!['©', 'A', 'R', 'T']);
    assert("aART"@ =~= seq!['a', 'A', 'R', 'T']);
}

/// The metadata of a file are those of its tag; without a tag it is said why.
pub proof fn law_source_metadata(source: AudioSource)
    ensures
        source is Unsupported ==> source_metadata(source) == Err::<MetadataView, _>(
            SourceErrorView::Unsupported,
        ),
        source matches AudioSource::Mp3(Ok(tag)) ==> source_metadata(source) == mp3_metadata(tag),
        source matches AudioSource::M4a(Ok(tag)) ==> source_metadata(source) == m4a_metadata(tag),
        source matches AudioSource::Mp3(Err(reason)) ==> source_metadata(source) == Err::<
            MetadataView,
            _,
        >(SourceErrorView::Unreadable(reason@)),
        source matches AudioSource::M4a(Err(reason)) ==> source_metadata(source) == Err::<
            MetadataView,
            _,
        >(SourceErrorView::Unreadable(reason@)),
{
}

/// What is searched for goes by the title and the artist of a file: its titles in
/// ascending order, and these with the artist. A file without queries is an error, and no
/// other is.
pub proof fn law_search_input(metadata: MetadataView)
    ensures
        search_input_of(metadata) is Err <==> forall|query: Seq<char>|
            !#[trigger] title_query_set(metadata.title).contains(query),
        search_input_of(metadata) matches Err(error) ==> error is NoQueries,
        search_input_of(metadata) matches Ok(input) ==> {
            &&& input.source_title == metadata.title
            &&& input.source_artist == metadata.artist
            &&& forall|i: int, j: int|
                0 <= i < j < input.title_queries.len() ==> text_before(
                    #[trigger] input.title_queries[i],
                    #[trigger] input.title_queries[j],
                )
            &&& forall|query: Seq<char>|
                input.title_queries.contains(query) <==> #[trigger] title_query_set(
                    metadata.title,
                ).contains(query)
            &&& input.search_queries == unique_queries(
                search_values(input.title_queries, metadata.artist),
            )
        },
{
    let queries = title_query_set(metadata.title);
    if forall|query: Seq<char>| !#[trigger] queries.contains(query) {
        assert(queries =~= Set::empty());
    }
    if let Ok(input) = search_input_of(metadata) {
        lemma_with_queries(Set::empty(), title_shapes(metadata.title));
        lemma_listing_exists(queries);
        assert forall|query: Seq<char>|
            input.title_queries.contains(query) <==> #[trigger] queries.contains(query) by {
            assert(input.title_queries.to_set().contains(query) == queries.contains(query));
        }
        assert forall|i: int, j: int| 0 <= i < j < input.title_queries.len() implies text_before(
            #[trigger] input.title_queries[i],
            #[trigger] input.title_queries[j],
        ) by {
            assert(ascending(input.title_queries));
        }
    }
}

/// What is said of tags that cannot be searched with.
pub proof fn law_what_is_said_of_tags(unsupported: UnsupportedFile, reason: String)
    ensures
        source_error_message(SourceError::Unsupported(unsupported)@)
            == "mp3 / m4a ファイルのみ対応しています"@,
        source_error_message(SourceError::Unreadable(reason)@) == reason@,
        source_error_message(SourceError::NoTitle@) == "タイトルタグが見つかりません"@,
        source_error_message(SourceError::EmptyTitle@) == "タイトルタグが空です"@,
        source_error_message(SourceError::NoQueries@)
            == "タイトルタグから検索語を作れませんでした"@,
{
}

/// What is searched with holds its title, its artist where there is one, and all its
/// queries.
pub proof fn law_search_input_holds_its_fields(input: SearchInput)
    ensures
        input@.source_title == input.source_title@,
        input.source_artist matches Some(artist) ==> input@.source_artist == Some(artist@),
        input.source_artist is None ==> input@.source_artist is None,
        input@.title_queries.len() == input.title_queries@.len(),
        forall|i: int|
            0 <= i < input.title_queries@.len() ==> #[trigger] input@.title_queries[i]
                == input.title_queries@[i]@,
        input@.search_queries.len() == input.search_queries@.len(),
        forall|i: int|
            0 <= i < input.search_queries@.len() ==> #[trigger] input@.search_queries[i]
                == input.search_queries@[i]@,
{
}

} // verus!

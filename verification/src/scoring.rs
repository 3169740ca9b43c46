//! How well titles and artists match.

use vstd::prelude::*;

use crate::order::TextSet;
use crate::patterns::{
    collapse_separators, collapse_white_space, is_separator, is_single_spaced,
    law_squeezed_words_come_in_a_row, law_squeezing_keeps_the_rest, lemma_part_is_single_spaced,
    lemma_squeezed_is_single_spaced, lemma_squeezed_stays, separator_class, squeezed, white_class,
};
use crate::text::{
    all_ascii, ascii_lowered, contains_text, has_bare_ends, is_white, law_found_part_is_there,
    law_part_is_found, law_pieces_make_up_the_text, law_trimmed_text_is_the_middle,
    lemma_split_char_add, lemma_split_char_nonempty, lemma_split_char_single, lemma_trimmed_part,
    lemma_trimmed_stays, same_text, split_at_char, split_char, text_contains, trim_text, trimmed,
    views,
};

verus! {

// ---------------------------------------------------------------------------
// Normal form for comparison
// ---------------------------------------------------------------------------

/// What `str::to_lowercase` makes of a text.
pub uninterp spec fn lowercase(text: Seq<char>) -> Seq<char>;

/// `str::to_lowercase`: the lower-case form of a text. Trusted are that it
/// depends on the text alone, and that in a text of ASCII characters each
/// capital becomes its small letter.
#[verifier::external_body]
pub(crate) fn lowercase_text(text: &str) -> (lowered: String)
    ensures
        lowered@ == lowercase(text@),
        all_ascii(text@) ==> lowered@ == ascii_lowered(text@),
{
    text.to_lowercase()
}

/// The normal form in which titles are compared: in lower case, with each run
/// of separators as one space and none at either end.
pub open spec fn lookup_normal(text: Seq<char>) -> Seq<char> {
    spaced_words(lowercase(text))
}

/// A text with each run of separators as one space and none at either end.
pub open spec fn spaced_words(text: Seq<char>) -> Seq<char> {
    trimmed(squeezed(squeezed(text, separator_class()), white_class()))
}

/// The words between the spaces of a text.
pub open spec fn words(text: Seq<char>) -> Set<Seq<char>> {
    split_char(text, ' ').to_set().remove(Seq::<char>::empty())
}

/// Separating words a second time changes nothing.
pub proof fn law_separated_words_stay(text: Seq<char>)
    ensures
        spaced_words(spaced_words(text)) == spaced_words(text),
        is_single_spaced(spaced_words(text), separator_class()),
        has_bare_ends(spaced_words(text)),
{
    let separated = squeezed(text, separator_class());
    let once = spaced_words(text);
    lemma_squeezed_is_single_spaced(text, separator_class());
    assert(is_single_spaced(separated, white_class())) by {
        assert forall|i: int| 0 <= i < separated.len() && white_class()(
            #[trigger] separated[i],
        ) implies separated[i] == ' ' by {
            assert(separator_class()(separated[i]));
        }
        assert forall|i: int, j: int|
            0 <= i < separated.len() && j == i + 1 && j < separated.len() implies !(white_class()(
            #[trigger] separated[i],
        ) && white_class()(#[trigger] separated[j])) by {
            assert(!(separator_class()(separated[i]) && separator_class()(separated[j])));
        }
    }
    lemma_squeezed_stays(separated, white_class());
    let part = lemma_trimmed_part(separated);
    lemma_part_is_single_spaced(separated, separator_class(), part.0, part.1);
    lemma_part_is_single_spaced(separated, white_class(), part.0, part.1);
    lemma_squeezed_stays(once, separator_class());
    lemma_squeezed_stays(once, white_class());
    lemma_trimmed_stays(once);
}

/// A text with each run of separators as one space and none at either end.
pub fn separate_words(value: &str) -> (out: String)
    ensures
        out@ == spaced_words(value@),
{
    let separated = collapse_separators(value);
    let collapsed = collapse_white_space(separated.as_str());
    trim_text(collapsed.as_str())
}

/// The normal form in which titles are compared.
pub fn normalized_lookup_text(value: &str) -> (out: String)
    ensures
        out@ == lookup_normal(value@),
        all_ascii(value@) ==> out@ == spaced_words(ascii_lowered(value@)),
{
    let lowered = lowercase_text(value);
    separate_words(lowered.as_str())
}

/// The words between the spaces of a text.
pub fn token_set(value: &str) -> (tokens: TextSet)
    ensures
        tokens@ == words(value@),
{
    let pieces = split_at_char(value, ' ');
    let ghost texts = views(pieces@);
    let mut tokens = TextSet::new();
    let mut i: usize = 0;
    assert(texts.take(0).to_set().remove(Seq::<char>::empty()) =~= Set::<Seq<char>>::empty());
    while i < pieces.len()
        invariant
            i <= pieces@.len(),
            texts == views(pieces@),
            tokens@ == texts.take(i as int).to_set().remove(Seq::<char>::empty()),
        decreases pieces@.len() - i,
    {
        proof {
            crate::order::lemma_take_to_set(texts, i as int);
        }
        let ghost before = tokens@;
        let ghost piece = pieces@[i as int]@;
        if !pieces[i].as_str().is_empty() {
            tokens.insert(pieces[i].clone());
            assert(piece != Seq::<char>::empty());
            assert(tokens@ =~= texts.take(i + 1).to_set().remove(Seq::<char>::empty()));
        } else {
            assert(piece =~= Seq::<char>::empty());
            assert(tokens@ =~= texts.take(i + 1).to_set().remove(Seq::<char>::empty()));
        }
        i = i + 1;
    }
    assert(texts.take(texts.len() as int) =~= texts);
    tokens
}

// ---------------------------------------------------------------------------
// Points
// ---------------------------------------------------------------------------

/// A number, or the largest `usize` where it is larger.
pub open spec fn saturated(value: nat) -> nat {
    if value <= usize::MAX {
        value
    } else {
        usize::MAX as nat
    }
}

/// The points for two texts in normal form: `equal` for the same text,
/// `contained` where one stands in the other, and else `shared` for each word
/// that both have. A text that holds nothing gets none.
pub open spec fn match_points(
    left: Seq<char>,
    right: Seq<char>,
    equal: nat,
    contained: nat,
    shared: nat,
) -> nat {
    if left.len() == 0 || right.len() == 0 {
        0
    } else if left == right {
        equal
    } else if contains_text(left, right) || contains_text(right, left) {
        contained
    } else {
        saturated(words(left).intersect(words(right)).len() * shared)
    }
}

/// The points for two texts in normal form.
pub fn score_match(
    left: &str,
    right: &str,
    equal: usize,
    contained: usize,
    shared: usize,
) -> (score: usize)
    ensures
        score == match_points(left@, right@, equal as nat, contained as nat, shared as nat),
{
    if left.is_empty() || right.is_empty() {
        return 0;
    }
    if same_text(left, right) {
        return equal;
    }
    if text_contains(left, right) || text_contains(right, left) {
        return contained;
    }
    let left_tokens = token_set(left);
    let right_tokens = token_set(right);
    let overlap = left_tokens.overlap(&right_tokens);
    match overlap.checked_mul(shared) {
        Some(score) => score,
        None => usize::MAX,
    }
}

/// The points for a title of a song against a title that is searched for.
pub open spec fn title_points(song_title: Seq<char>, candidate: Seq<char>) -> nat {
    match_points(lookup_normal(song_title), lookup_normal(candidate), 45, 20, 6)
}

/// It does not matter which of two texts is which.
pub proof fn law_match_points_are_symmetric(
    left: Seq<char>,
    right: Seq<char>,
    equal: nat,
    contained: nat,
    shared: nat,
)
    ensures
        match_points(left, right, equal, contained, shared) == match_points(
            right,
            left,
            equal,
            contained,
            shared,
        ),
{
    assert(words(left).intersect(words(right)) =~= words(right).intersect(words(left)));
}

/// Titles with the same normal form get the points for the same title, unless
/// that form holds nothing.
pub proof fn law_same_titles_get_full_points(left: Seq<char>, right: Seq<char>)
    requires
        lookup_normal(left) == lookup_normal(right),
        lookup_normal(left).len() > 0,
    ensures
        title_points(left, right) == 45,
{
}

/// The points for a title of a song against a title that is searched for.
pub fn title_match_score(song_title: &str, candidate: &str) -> (score: usize)
    ensures
        score == title_points(song_title@, candidate@),
{
    let song = normalized_lookup_text(song_title);
    let needle = normalized_lookup_text(candidate);
    score_match(song.as_str(), needle.as_str(), 45, 20, 6)
}

/// The points for the names of artists against a name in normal form: those of
/// the first name that is the same or stands in it or around it.
pub open spec fn artist_points(artists: Seq<Seq<char>>, needle: Seq<char>) -> nat
    decreases artists.len(),
{
    if artists.len() == 0 {
        0
    } else {
        let candidate = lookup_normal(artists[0]);
        if candidate.len() == 0 {
            artist_points(artists.drop_first(), needle)
        } else if candidate == needle {
            30
        } else if contains_text(candidate, needle) || contains_text(needle, candidate) {
            15
        } else {
            artist_points(artists.drop_first(), needle)
        }
    }
}

/// The points for the artists of a song against the artist of a file.
pub open spec fn source_artist_points(
    artists: Seq<Seq<char>>,
    source_artist: Option<Seq<char>>,
) -> nat {
    match source_artist {
        Some(artist) if lookup_normal(artist).len() > 0 => artist_points(
            artists,
            lookup_normal(artist),
        ),
        _ => 0,
    }
}

/// An artist of a song.
#[derive(Debug)]
pub struct ArtistRecord {
    pub name: String,
}

/// The names of artists.
pub open spec fn artist_names(artists: Seq<ArtistRecord>) -> Seq<Seq<char>> {
    Seq::new(artists.len(), |i: int| artists[i].name@)
}

/// The points for the artists of a song against the artist of a file.
pub fn artist_match_score(artists: &Vec<ArtistRecord>, source_artist: Option<&str>) -> (score:
    usize)
    ensures
        score == source_artist_points(
            artist_names(artists@),
            crate::text::optional_str_view(source_artist),
        ),
        score <= 30,
{
    let needle = match source_artist {
        Some(artist) => normalized_lookup_text(artist),
        None => {
            return 0;
        },
    };
    if needle.as_str().is_empty() {
        return 0;
    }
    let ghost names = artist_names(artists@);
    let mut i: usize = 0;
    assert(names.skip(0) =~= names);
    while i < artists.len()
        invariant
            i <= artists@.len(),
            names == artist_names(artists@),
            artist_points(names, needle@) == artist_points(names.skip(i as int), needle@),
            source_artist matches Some(artist) && needle@ == lookup_normal(artist@),
            needle@.len() > 0,
        decreases artists@.len() - i,
    {
        let candidate = normalized_lookup_text(artists[i].name.as_str());
        proof {
            assert(names.skip(i as int)[0] == artists@[i as int].name@);
            assert(names.skip(i as int).drop_first() =~= names.skip(i + 1));
        }
        if !candidate.as_str().is_empty() {
            if candidate == needle {
                return 30;
            }
            if text_contains(candidate.as_str(), needle.as_str()) || text_contains(
                needle.as_str(),
                candidate.as_str(),
            ) {
                return 15;
            }
        }
        i = i + 1;
    }
    0
}

/// The points for the place of a query among the queries.
pub open spec fn query_points(query_index: nat) -> nat {
    if query_index < 6 {
        ((6 - query_index) * 4) as nat
    } else {
        0
    }
}

/// The points for the place of a song among the results of a query.
pub open spec fn position_points(position: nat) -> nat {
    if position < 6 {
        ((6 - position) * 3) as nat
    } else {
        0
    }
}

/// The points for the place of a query among the queries.
pub fn query_rank_bonus(query_index: usize) -> (bonus: usize)
    ensures
        bonus == query_points(query_index as nat),
{
    crate::lookup::MAX_EXACT_QUERIES.saturating_sub(query_index) * 4
}

/// The points for the place of a song among the results of a query.
pub fn position_rank_bonus(position: usize) -> (bonus: usize)
    ensures
        bonus == position_points(position as nat),
{
    crate::lookup::MAX_FUZZY_RESULTS_PER_QUERY.saturating_sub(position) * 3
}

// ---------------------------------------------------------------------------
// Laws of the normal form
// ---------------------------------------------------------------------------

proof fn lemma_squeezed_separators(text: Seq<char>)
    ensures
        spaced_words(text) == trimmed(squeezed(text, separator_class())),
        is_single_spaced(squeezed(text, separator_class()), separator_class()),
        is_single_spaced(squeezed(text, separator_class()), white_class()),
{
    let separated = squeezed(text, separator_class());
    lemma_squeezed_is_single_spaced(text, separator_class());
    assert(is_single_spaced(separated, white_class())) by {
        assert forall|i: int| 0 <= i < separated.len() && white_class()(
            #[trigger] separated[i],
        ) implies separated[i] == ' ' by {
            assert(separator_class()(separated[i]));
        }
        assert forall|i: int, j: int|
            0 <= i < separated.len() && j == i + 1 && j < separated.len() implies !(white_class()(
            #[trigger] separated[i],
        ) && white_class()(#[trigger] separated[j])) by {
            assert(!(separator_class()(separated[i]) && separator_class()(separated[j])));
        }
    }
    lemma_squeezed_stays(separated, white_class());
}

/// The words on both sides of a separator come one after the other, with one
/// space between them.
pub proof fn law_words_come_in_a_row(left: Seq<char>, separator: char, right: Seq<char>)
    requires
        is_separator(separator),
    ensures
        spaced_words(left + seq![separator] + right) == if spaced_words(left).len() == 0 {
            spaced_words(right)
        } else if spaced_words(right).len() == 0 {
            spaced_words(left)
        } else {
            spaced_words(left) + seq![' '] + spaced_words(right)
        },
{
    lemma_squeezed_separators(left);
    lemma_squeezed_separators(right);
    lemma_squeezed_separators(left + seq![separator] + right);
    law_squeezed_words_come_in_a_row(left, separator, right, separator_class());
}

proof fn lemma_words_without_separators(text: Seq<char>)
    requires
        forall|i: int| 0 <= i < text.len() ==> !is_separator(#[trigger] text[i]),
    ensures
        spaced_words(text) == text,
{
    lemma_squeezed_stays(text, separator_class());
    lemma_squeezed_stays(text, white_class());
    lemma_trimmed_stays(text);
}

/// A text of one word, in whatever script, is in normal form when it is in lower
/// case.
pub proof fn law_normal_form_of_a_word(text: Seq<char>)
    requires
        forall|i: int| 0 <= i < lowercase(text).len() ==> !is_separator(
            #[trigger] lowercase(text)[i],
        ),
    ensures
        lookup_normal(text) == lowercase(text),
{
    lemma_words_without_separators(lowercase(text));
}

/// The normal form of two texts with a separator between them is that of both, with
/// one space between them where both have words. This holds where the lower-case
/// form of the whole is that of its parts, as it is in texts without case.
pub proof fn law_normal_form_goes_word_by_word(
    left: Seq<char>,
    separator: char,
    right: Seq<char>,
    whole: Seq<char>,
)
    requires
        is_separator(separator),
        lowercase(whole) == lowercase(left) + seq![separator] + lowercase(right),
    ensures
        lookup_normal(whole) == if lookup_normal(left).len() == 0 {
            lookup_normal(right)
        } else if lookup_normal(right).len() == 0 {
            lookup_normal(left)
        } else {
            lookup_normal(left) + seq![' '] + lookup_normal(right)
        },
{
    law_words_come_in_a_row(lowercase(left), separator, lowercase(right));
}

/// A text without case, such as one of kana and ideographs, and without separators
/// is its own normal form.
pub proof fn law_texts_without_case_stay(text: Seq<char>)
    requires
        lowercase(text) == text,
        forall|i: int| 0 <= i < text.len() ==> !is_separator(#[trigger] text[i]),
    ensures
        lookup_normal(text) == text,
{
    law_normal_form_of_a_word(text);
}

/// The normal form keeps every character of the lower-case form that is no
/// separator, in whatever script.
pub proof fn law_normal_form_keeps_characters(text: Seq<char>, c: char)
    requires
        lowercase(text).contains(c),
        !is_separator(c),
    ensures
        lookup_normal(text).contains(c),
{
    let lowered = lowercase(text);
    law_squeezing_keeps_the_rest(lowered, separator_class(), c);
    lemma_squeezed_separators(lowered);
    let separated = squeezed(lowered, separator_class());
    let around = law_trimmed_text_is_the_middle(separated);
    let k = separated.index_of(c);
    let start = around.0.len() as int;
    let middle = lookup_normal(text);
    assert(middle == trimmed(separated));
    if k < start {
        assert(is_white(around.0[k]));
    } else if k >= start + middle.len() {
        assert(is_white(around.1[k - start - middle.len()]));
    } else {
        assert(middle[k - start] == c);
    }
}

/// Whether a text says something: it has a character that is no separator.
pub open spec fn says_something(text: Seq<char>) -> bool {
    exists|i: int| 0 <= i < lowercase(text).len() && !is_separator(#[trigger] lowercase(text)[i])
}

/// Case does not matter: texts with the same lower-case form have the same normal
/// form. One that says something is as much like each of them as can be.
pub proof fn law_case_does_not_matter(left: Seq<char>, right: Seq<char>)
    requires
        lowercase(left) == lowercase(right),
    ensures
        lookup_normal(left) == lookup_normal(right),
        says_something(left) ==> lookup_normal(left).len() > 0,
        says_something(left) ==> title_points(left, right) == 45,
        says_something(left) ==> source_artist_points(seq![left], Some(right)) == 30,
{
    if says_something(left) {
        let lowered = lowercase(left);
        let i = choose|i: int| 0 <= i < lowered.len() && !is_separator(#[trigger] lowered[i]);
        assert(lowered.contains(lowered[i]));
        law_normal_form_keeps_characters(left, lowered[i]);
        assert(lookup_normal(left).len() > 0);
        assert(seq![left][0] == left);
    }
}

/// A title of characters without case, at least one of which is no separator, has a
/// normal form and gets full points against itself.
pub proof fn law_titles_without_case_match_themselves(title: Seq<char>, at: int)
    requires
        lowercase(title) == title,
        0 <= at < title.len(),
        !is_separator(title[at]),
    ensures
        lookup_normal(title).len() > 0,
        lookup_normal(title).contains(title[at]),
        title_points(title, title) == 45,
        source_artist_points(seq![title], Some(title)) == 30,
{
    assert(title.contains(title[at]));
    law_normal_form_keeps_characters(title, title[at]);
    law_case_does_not_matter(title, title);
}

/// The normal form holds no separators but single spaces between words.
pub proof fn law_normal_form_is_single_spaced(text: Seq<char>, at: int)
    requires
        0 <= at < lookup_normal(text).len(),
        is_separator(lookup_normal(text)[at]),
    ensures
        lookup_normal(text)[at] == ' ',
        0 < at < lookup_normal(text).len() - 1,
        !is_separator(lookup_normal(text)[at - 1]),
        !is_separator(lookup_normal(text)[at + 1]),
{
    let normal = lookup_normal(text);
    law_separated_words_stay(lowercase(text));
    assert(separator_class()(normal[at]));
    assert(is_white(' '));
    if at > 0 {
        assert(!(separator_class()(normal[at - 1]) && separator_class()(normal[at])));
    }
    if at + 1 < normal.len() {
        assert(!(separator_class()(normal[at]) && separator_class()(normal[at + 1])));
    }
}

// ---------------------------------------------------------------------------
// Laws of points
// ---------------------------------------------------------------------------

/// Whether a text has a word: it stands alone, or with spaces around it.
pub open spec fn has_word(text: Seq<char>, word: Seq<char>) -> bool {
    &&& word.len() > 0
    &&& !word.contains(' ')
    &&& exists|left: Seq<char>, right: Seq<char>|
        {
            &&& text == #[trigger] (left + word + right)
            &&& left.len() == 0 || left.last() == ' '
            &&& right.len() == 0 || right[0] == ' '
        }
}

proof fn lemma_piece_is_word(text: Seq<char>, at: int) -> (around: (Seq<char>, Seq<char>))
    requires
        0 <= at < split_char(text, ' ').len(),
    ensures
        text == around.0 + split_char(text, ' ')[at] + around.1,
        around.0.len() == 0 || around.0.last() == ' ',
        around.1.len() == 0 || around.1[0] == ' ',
        at == split_char(text, ' ').len() - 1 <==> around.1.len() == 0,
    decreases text.len(),
{
    lemma_split_char_nonempty(text, ' ');
    let pieces = split_char(text, ' ');
    if text.len() == 0 {
        let none = Seq::<char>::empty();
        assert(text =~= none + pieces[at] + none);
        (none, none)
    } else {
        let shorter = text.drop_last();
        let before = split_char(shorter, ' ');
        lemma_split_char_nonempty(shorter, ' ');
        let c = text.last();
        if at < before.len() - 1 || (c == ' ' && at < before.len()) {
            let (left, right) = lemma_piece_is_word(shorter, at);
            assert(pieces[at] == before[at]);
            assert(text =~= shorter.push(c));
            assert(shorter == left + before[at] + right);
            assert((left + before[at] + right).push(c) =~= left + before[at] + right.push(c));
            (left, right.push(c))
        } else if c == ' ' {
            assert(text =~= text + pieces[at] + Seq::<char>::empty());
            (text, Seq::empty())
        } else {
            let (left, right) = lemma_piece_is_word(shorter, before.len() - 1);
            assert(pieces[at] == before.last().push(c));
            assert(text =~= shorter.push(c));
            assert(shorter =~= left + before.last());
            assert((left + before.last()).push(c) =~= left + before.last().push(c)
                + Seq::<char>::empty());
            (left, Seq::empty())
        }
    }
}

proof fn lemma_word_is_piece(left: Seq<char>, word: Seq<char>, right: Seq<char>)
    requires
        !word.contains(' '),
        left.len() == 0 || left.last() == ' ',
        right.len() == 0 || right[0] == ' ',
    ensures
        split_char(left + word + right, ' ').contains(word),
{
    let text = left + word + right;
    lemma_split_char_single(word, ' ');
    lemma_split_char_add(left, word, ' ');
    lemma_split_char_add(left + word, right, ' ');
    lemma_split_char_nonempty(left, ' ');
    lemma_split_char_nonempty(right, ' ');
    assert(split_char(left, ' ').last() =~= Seq::<char>::empty()) by {
        if left.len() > 0 {
            lemma_split_char_nonempty(left.drop_last(), ' ');
        }
    }
    assert(split_char(right, ' ')[0] =~= Seq::<char>::empty()) by {
        if right.len() > 0 {
            let rest = right.drop_first();
            assert(right =~= seq![' '] + rest);
            lemma_split_char_add(seq![' '], rest, ' ');
            assert(seq![' '].drop_last() =~= Seq::<char>::empty());
            let alone = split_char(seq![' '], ' ');
            assert(split_char(Seq::<char>::empty(), ' ') =~= seq![Seq::<char>::empty()]);
            assert(alone =~= seq![Seq::<char>::empty(), Seq::<char>::empty()]);
        }
    }
    let middle = split_char(left + word, ' ');
    assert(middle.last() =~= word);
    let at = middle.len() - 1;
    assert(split_char(text, ' ')[at] =~= word);
}

/// The words of a text are those that it has.
pub proof fn law_words_of_a_text(text: Seq<char>, word: Seq<char>)
    ensures
        words(text).contains(word) <==> has_word(text, word),
        words(text).finite(),
{
    let pieces = split_char(text, ' ');
    assert(pieces.to_set().finite());
    if words(text).contains(word) {
        assert(pieces.contains(word));
        let at = pieces.index_of(word);
        let around = lemma_piece_is_word(text, at);
        law_pieces_make_up_the_text(text, ' ');
        assert(!pieces[at].contains(' '));
        if word.len() == 0 {
            assert(word =~= Seq::<char>::empty());
        }
        assert(text == around.0 + word + around.1);
    }
    if has_word(text, word) {
        let (left, right) = choose|left: Seq<char>, right: Seq<char>|
            {
                &&& text == #[trigger] (left + word + right)
                &&& left.len() == 0 || left.last() == ' '
                &&& right.len() == 0 || right[0] == ' '
            };
        lemma_word_is_piece(left, word, right);
        assert(pieces.to_set().contains(word));
        assert(word != Seq::<char>::empty());
    }
}

/// Whether one of two texts stands in the other.
pub open spec fn is_within(left: Seq<char>, right: Seq<char>) -> bool {
    exists|before: Seq<char>, after: Seq<char>|
        left == #[trigger] (before + right + after) || right == before + left + after
}

proof fn lemma_within(left: Seq<char>, right: Seq<char>)
    ensures
        is_within(left, right) <==> contains_text(left, right) || contains_text(right, left),
{
    if is_within(left, right) {
        let (before, after) = choose|before: Seq<char>, after: Seq<char>|
            left == #[trigger] (before + right + after) || right == before + left + after;
        if left == before + right + after {
            law_part_is_found(before, right, after);
        } else {
            law_part_is_found(before, left, after);
        }
    }
    if contains_text(left, right) {
        let around = law_found_part_is_there(left, right);
        assert(left == around.0 + right + around.1);
    } else if contains_text(right, left) {
        let around = law_found_part_is_there(right, left);
        assert(right == around.0 + left + around.1);
        let other = around.0 + right + around.1;
        assert(is_within(left, right));
    }
}

/// The words that two texts share.
pub open spec fn shared_words(left: Seq<char>, right: Seq<char>) -> Set<Seq<char>> {
    Set::new(|word: Seq<char>| has_word(left, word) && has_word(right, word))
}

/// Two texts in normal form of which one holds nothing get no points; the same text
/// gets those for the same; texts of which one stands in the other get those for
/// that; and others get points for each word that they share.
pub proof fn law_points_of_two_texts(
    left: Seq<char>,
    right: Seq<char>,
    equal: nat,
    contained: nat,
    shared: nat,
)
    ensures
        ({
            let points = match_points(left, right, equal, contained, shared);
            &&& left.len() == 0 || right.len() == 0 ==> points == 0
            &&& left.len() > 0 && left == right ==> points == equal
            &&& left.len() > 0 && right.len() > 0 && left != right && is_within(left, right)
                ==> points == contained
            &&& left.len() > 0 && right.len() > 0 && !is_within(left, right) && shared_words(
                left,
                right,
            ).len() * shared <= usize::MAX ==> points == shared_words(left, right).len() * shared
        }),
{
    lemma_within(left, right);
    assert forall|word: Seq<char>| words(left).intersect(words(right)).contains(word)
        == shared_words(left, right).contains(word) by {
        law_words_of_a_text(left, word);
        law_words_of_a_text(right, word);
    }
    assert(words(left).intersect(words(right)) =~= shared_words(left, right));
    if left == right && left.len() > 0 {
        assert(left =~= Seq::<char>::empty() + right + Seq::<char>::empty());
    }
}

/// Two titles get 45 points where they say the same, 20 where one stands in the
/// other, and else 6 for each word that they share.
pub proof fn law_title_points(left: Seq<char>, right: Seq<char>)
    ensures
        ({
            let (one, two) = (lookup_normal(left), lookup_normal(right));
            &&& one.len() == 0 || two.len() == 0 ==> title_points(left, right) == 0
            &&& one.len() > 0 && one == two ==> title_points(left, right) == 45
            &&& one.len() > 0 && two.len() > 0 && one != two && is_within(one, two)
                ==> title_points(left, right) == 20
            &&& one.len() > 0 && two.len() > 0 && !is_within(one, two) && shared_words(
                one,
                two,
            ).len() * 6 <= usize::MAX ==> title_points(left, right) == shared_words(one, two).len()
                * 6
        }),
{
    law_points_of_two_texts(lookup_normal(left), lookup_normal(right), 45, 20, 6);
}

/// Whether the name of an artist has to do with another, both in normal form: they
/// are the same, or one stands in the other.
pub open spec fn is_related(name: Seq<char>, wanted: Seq<char>) -> bool {
    name.len() > 0 && is_within(name, wanted)
}

/// The artists of a song get points by the first of them that has to do with the
/// artist of the file: 30 where the names say the same, and else 15. They get none
/// where none of them has, or where the file has no artist.
pub proof fn law_artist_points(artists: Seq<Seq<char>>, artist: Seq<char>, at: int)
    requires
        0 <= at <= artists.len(),
        lookup_normal(artist).len() > 0,
        forall|i: int|
            0 <= i < at ==> !is_related(
                lookup_normal(#[trigger] artists[i]),
                lookup_normal(artist),
            ),
        at < artists.len() ==> is_related(lookup_normal(artists[at]), lookup_normal(artist)),
    ensures
        source_artist_points(artists, Some(artist)) == if at == artists.len() {
            0nat
        } else if lookup_normal(artists[at]) == lookup_normal(artist) {
            30
        } else {
            15
        },
        source_artist_points(artists, None) == 0,
    decreases artists.len(),
{
    if artists.len() > 0 {
        let name = lookup_normal(artists[0]);
        let wanted = lookup_normal(artist);
        lemma_within(name, wanted);
        if at > 0 {
            assert(!is_related(lookup_normal(artists[0]), wanted));
            let rest = artists.drop_first();
            assert forall|i: int| 0 <= i < at - 1 implies !is_related(
                lookup_normal(#[trigger] rest[i]),
                wanted,
            ) by {
                assert(rest[i] == artists[i + 1]);
            }
            law_artist_points(rest, artist, at - 1);
            if name == wanted {
                assert(name =~= Seq::<char>::empty() + wanted + Seq::<char>::empty());
            }
        }
    }
}

/// An artist of whom nothing is left in normal form gets no points.
pub proof fn law_blank_artists_get_no_points(artists: Seq<Seq<char>>, artist: Seq<char>)
    requires
        lookup_normal(artist).len() == 0,
    ensures
        source_artist_points(artists, Some(artist)) == 0,
{
}

/// Each place among the queries is worth 4 points more than the next, and each place
/// among the results of a query 3 points more; from the seventh on they are worth
/// none.
pub proof fn law_earlier_places_are_worth_more(place: nat)
    ensures
        place < 6 ==> query_points(place) == query_points(place + 1) + 4,
        place < 6 ==> position_points(place) == position_points(place + 1) + 3,
        place >= 6 ==> query_points(place) == 0 && position_points(place) == 0,
{
}

} // verus!

//! The regular expressions by which titles and comments are read, and the
//! calls into the `regex` crate that apply them.

use regex::Regex;
use vstd::prelude::*;

use crate::text::{
    ascii_lower, ascii_lowered, has_bare_ends, is_ascii_digit, is_blank, is_white,
    law_trimmed_text_is_the_middle, law_trimming_takes_white_space, trimmed,
};

verus! {

/// A run of white space.
pub const MULTI_SPACE: &'static str = r"\s+";

/// A run of white space and punctuation that separates words.
pub const NORMALIZE_SEPARATORS: &'static str = r#"[\s_\-／/・:;!?,\(\)\[\]【】"'`\.]+"#;

/// A short text in brackets.
pub const BRACKETED_TEXT: &'static str = r"[\(\[【][^)\]】]{0,80}[\)\]】]";

/// A track number at the start of a title, with what separates it.
pub const LEADING_TRACK_NUMBER: &'static str = r"^\s*\d{1,3}[\s._-]+";

/// Words that name a mix or a cut of a song and not the song.
pub const TITLE_NOISE: &'static str = r"(?ix)
        \b(
            inst(?:rumental)? |
            off[\s-]?vocal |
            no[\s-]?limiter |
            tv[\s-]?size |
            anime[\s-]?size |
            short[\s-]?(?:ver|version) |
            long[\s-]?(?:ver|version) |
            edit[\s-]?(?:ver|version)
        )\b
    ";

/// A line that names a work and, in brackets, the kind of its theme.
pub const THEME_LINE: &'static str = r"(?i)^.+\s\[(OP|ED|etc\.|その他)\]$";

/// A decimal digit of any script.
pub const DIGIT: &'static str = r"\d";

/// A character that belongs to a word, of any script.
pub const WORD: &'static str = r"\w";

// ---------------------------------------------------------------------------
// What the patterns stand for
// ---------------------------------------------------------------------------

/// White space, as a class of characters.
pub open spec fn white_class() -> spec_fn(char) -> bool {
    |c: char| is_white(c)
}

/// White space and the punctuation that separates words.
pub open spec fn is_separator(c: char) -> bool {
    ||| is_white(c)
    ||| c == '_' || c == '-' || c == '／' || c == '/' || c == '・'
    ||| c == ':' || c == ';' || c == '!' || c == '?' || c == ','
    ||| c == '(' || c == ')' || c == '[' || c == ']' || c == '【' || c == '】'
    ||| c == '"' || c == '\'' || c == '`' || c == '.'
}

/// Separators, as a class of characters.
pub open spec fn separator_class() -> spec_fn(char) -> bool {
    |c: char| is_separator(c)
}

/// `text` with each longest run of characters of `class` replaced by one space.
pub open spec fn squeezed(text: Seq<char>, class: spec_fn(char) -> bool) -> Seq<char>
    decreases text.len(),
{
    if text.len() == 0 {
        Seq::empty()
    } else {
        let before = squeezed(text.drop_last(), class);
        if !class(text.last()) {
            before.push(text.last())
        } else if text.len() >= 2 && class(text[text.len() - 2]) {
            before
        } else {
            before.push(' ')
        }
    }
}

/// Whether the characters of `class` in `text` are single spaces.
pub open spec fn is_single_spaced(text: Seq<char>, class: spec_fn(char) -> bool) -> bool {
    &&& forall|i: int| 0 <= i < text.len() && class(#[trigger] text[i]) ==> text[i] == ' '
    &&& forall|i: int, j: int|
        0 <= i < text.len() && j == i + 1 && j < text.len() ==> !(class(#[trigger] text[i])
            && class(#[trigger] text[j]))
}

/// Squeezing leaves single spaces, and no character that was not there.
pub proof fn lemma_squeezed_is_single_spaced(text: Seq<char>, class: spec_fn(char) -> bool)
    requires
        class(' '),
    ensures
        is_single_spaced(squeezed(text, class), class),
        text.len() > 0 ==> squeezed(text, class).len() > 0 && class(squeezed(text, class).last())
            == class(text.last()),
        forall|i: int|
            0 <= i < squeezed(text, class).len() ==> (#[trigger] squeezed(text, class)[i]) == ' '
                || (text.contains(squeezed(text, class)[i]) && !class(squeezed(text, class)[i])),
    decreases text.len(),
{
    if text.len() > 0 {
        let shorter = text.drop_last();
        let before = squeezed(shorter, class);
        let after = squeezed(text, class);
        lemma_squeezed_is_single_spaced(shorter, class);
        if text.len() >= 2 {
            assert(shorter.last() == text[text.len() - 2]);
        }
        assert forall|i: int| 0 <= i < after.len() implies (#[trigger] after[i]) == ' ' || (
        text.contains(after[i]) && !class(after[i])) by {
            if i < before.len() {
                assert(after[i] == before[i]);
                if before[i] != ' ' {
                    let k = shorter.index_of(before[i]);
                    assert(text[k] == before[i]);
                }
            } else {
                assert(text[text.len() - 1] == text.last());
            }
        }
        assert forall|i: int| 0 <= i < after.len() && class(#[trigger] after[i]) implies after[i]
            == ' ' by {
            if i < before.len() {
                assert(after[i] == before[i]);
            }
        }
        assert forall|i: int, j: int|
            0 <= i < after.len() && j == i + 1 && j < after.len() implies !(class(
            #[trigger] after[i],
        ) && class(#[trigger] after[j])) by {
            if j < before.len() {
                assert(after[i] == before[i] && after[j] == before[j]);
            } else {
                assert(after[i] == before.last());
            }
        }
    }
}

/// A text with single spaces is squeezed.
pub proof fn lemma_squeezed_stays(text: Seq<char>, class: spec_fn(char) -> bool)
    requires
        is_single_spaced(text, class),
    ensures
        squeezed(text, class) == text,
    decreases text.len(),
{
    if text.len() > 0 {
        let shorter = text.drop_last();
        assert(is_single_spaced(shorter, class)) by {
            assert forall|i: int| 0 <= i < shorter.len() && class(
                #[trigger] shorter[i],
            ) implies shorter[i] == ' ' by {
                assert(shorter[i] == text[i]);
            }
            assert forall|i: int, j: int|
                0 <= i < shorter.len() && j == i + 1 && j < shorter.len() implies !(class(
                #[trigger] shorter[i],
            ) && class(#[trigger] shorter[j])) by {
                assert(shorter[i] == text[i] && shorter[j] == text[j]);
            }
        }
        lemma_squeezed_stays(shorter, class);
        assert(text[text.len() - 1] == text.last());
        if text.len() >= 2 {
            assert(!(class(text[text.len() - 2]) && class(text[text.len() - 1])));
        }
        assert(text =~= shorter.push(text.last()));
    } else {
        assert(squeezed(text, class) =~= text);
    }
}

/// A part of a text with single spaces has single spaces.
pub proof fn lemma_part_is_single_spaced(
    text: Seq<char>,
    class: spec_fn(char) -> bool,
    from: int,
    to: int,
)
    requires
        is_single_spaced(text, class),
        0 <= from <= to <= text.len(),
    ensures
        is_single_spaced(text.subrange(from, to), class),
{
    let part = text.subrange(from, to);
    assert forall|i: int| 0 <= i < part.len() && class(#[trigger] part[i]) implies part[i]
        == ' ' by {
        assert(part[i] == text[from + i]);
    }
    assert forall|i: int, j: int|
        0 <= i < part.len() && j == i + 1 && j < part.len() implies !(class(#[trigger] part[i])
        && class(#[trigger] part[j])) by {
        assert(part[i] == text[from + i] && part[j] == text[from + j]);
    }
}

/// The number of characters of `class` with which `text` begins.
pub open spec fn run_len(text: Seq<char>, class: spec_fn(char) -> bool) -> nat
    decreases text.len(),
{
    if text.len() > 0 && class(text[0]) {
        1 + run_len(text.drop_first(), class)
    } else {
        0
    }
}

/// Decimal digits of any script. Beyond ASCII they are those that `\d` matches.
pub open spec fn digit_class() -> spec_fn(char) -> bool {
    |c: char|
        if c <= '\u{7F}' {
            is_ascii_digit(c)
        } else {
            pattern_matches(DIGIT@, seq![c])
        }
}

/// What may stand between a track number and a title.
pub open spec fn track_separator_class() -> spec_fn(char) -> bool {
    |c: char| is_white(c) || c == '.' || c == '_' || c == '-'
}

/// `text` without a leading track number of one to three digits and the
/// separators that follow it.
pub open spec fn without_track_number(text: Seq<char>) -> Seq<char> {
    let space = run_len(text, white_class()) as int;
    let digits = run_len(text.skip(space), digit_class()) as int;
    let separators = run_len(text.skip(space + digits), track_separator_class()) as int;
    if 1 <= digits <= 3 && separators >= 1 {
        text.skip(space + digits + separators)
    } else {
        text
    }
}

/// The brackets that open a bracketed text.
pub open spec fn is_opening(c: char) -> bool {
    c == '(' || c == '[' || c == '【'
}

/// Every character but the brackets that close a bracketed text.
pub open spec fn inner_class() -> spec_fn(char) -> bool {
    |c: char| c != ')' && c != ']' && c != '】'
}

/// The length of the bracketed text with which `text` begins, 0 where it begins
/// with none: an opening bracket, at most 80 characters that close nothing, and
/// a closing bracket. The brackets need not be of one kind.
pub open spec fn bracketed_len(text: Seq<char>) -> nat {
    let inner = run_len(text.drop_first(), inner_class());
    if text.len() > 0 && is_opening(text[0]) && inner <= 80 && inner + 1 < text.len() {
        inner + 2
    } else {
        0
    }
}

/// `text` with each bracketed text, from the left, replaced by one space.
pub open spec fn without_bracketed(text: Seq<char>) -> Seq<char>
    decreases text.len(),
{
    if text.len() == 0 {
        Seq::empty()
    } else if bracketed_len(text) > 0 {
        seq![' '] + without_bracketed(text.skip(bracketed_len(text) as int))
    } else {
        seq![text[0]] + without_bracketed(text.drop_first())
    }
}

/// Characters that belong to words. Beyond ASCII they are those that `\w` matches.
pub open spec fn is_word_char(c: char) -> bool {
    if c <= '\u{7F}' {
        is_ascii_digit(c) || c == '_' || ('a' <= ascii_lower(c) && ascii_lower(c) <= 'z')
    } else {
        pattern_matches(WORD@, seq![c])
    }
}

/// Whether a word begins or ends at position `at`.
pub open spec fn is_word_boundary(text: Seq<char>, at: int) -> bool {
    let before = at > 0 && is_word_char(text[at - 1]);
    let after = at < text.len() && is_word_char(text[at]);
    before != after
}

/// `text` in lower case, as far as the noise words go: the long s counts as one.
pub open spec fn folded(text: Seq<char>) -> Seq<char> {
    Seq::new(
        text.len(),
        |i: int|
            if text[i] == 'ſ' {
                's'
            } else {
                ascii_lower(text[i])
            },
    )
}

/// Whether `text` is two words, written together or with one space or hyphen
/// between them.
pub open spec fn is_word_pair(text: Seq<char>, first: Seq<char>, second: Seq<char>) -> bool {
    let gap = first.len() as int;
    ||| text == first + second
    ||| {
        &&& gap < text.len()
        &&& text.take(gap) == first
        &&& is_white(text[gap]) || text[gap] == '-'
        &&& text.skip(gap + 1) == second
    }
}

/// The words and pairs of words that name a mix or a cut, in any case.
pub open spec fn is_noise(text: Seq<char>) -> bool {
    let word = folded(text);
    ||| word == "inst"@
    ||| word == "instrumental"@
    ||| is_word_pair(word, "off"@, "vocal"@)
    ||| is_word_pair(word, "no"@, "limiter"@)
    ||| is_word_pair(word, "tv"@, "size"@)
    ||| is_word_pair(word, "anime"@, "size"@)
    ||| is_word_pair(word, "short"@, "ver"@)
    ||| is_word_pair(word, "short"@, "version"@)
    ||| is_word_pair(word, "long"@, "ver"@)
    ||| is_word_pair(word, "long"@, "version"@)
    ||| is_word_pair(word, "edit"@, "ver"@)
    ||| is_word_pair(word, "edit"@, "version"@)
}

/// Whether the characters of `text` from `from` up to `to` are noise that
/// stands on its own.
pub open spec fn is_noise_at(text: Seq<char>, from: int, to: int) -> bool {
    &&& 0 <= from < to <= text.len()
    &&& is_noise(text.subrange(from, to))
    &&& is_word_boundary(text, from)
    &&& is_word_boundary(text, to)
}

/// `text` from position `from` on with noise, from the left, replaced by one
/// space each. At most one noise begins at a position.
pub open spec fn without_noise_from(text: Seq<char>, from: int) -> Seq<char>
    decreases text.len() - from,
{
    let to = choose|to: int| is_noise_at(text, from, to);
    if from < 0 || from >= text.len() {
        Seq::empty()
    } else if is_noise_at(text, from, to) {
        seq![' '] + without_noise_from(text, to)
    } else {
        seq![text[from]] + without_noise_from(text, from + 1)
    }
}

/// `text` with noise replaced by spaces.
pub open spec fn without_noise(text: Seq<char>) -> Seq<char> {
    without_noise_from(text, 0)
}

/// What may stand in the brackets at the end of a theme line, in any case.
pub open spec fn is_theme_tag(tag: Seq<char>) -> bool {
    let lowered = ascii_lowered(tag);
    lowered == "op"@ || lowered == "ed"@ || lowered == "etc."@ || lowered == "その他"@
}

/// Whether `text` is a name, white space and a theme tag in square brackets,
/// the name on one line and the white space at position `cut`.
pub open spec fn is_labelled_at(text: Seq<char>, cut: int) -> bool {
    &&& 1 <= cut
    &&& cut + 3 <= text.len()
    &&& is_white(text[cut])
    &&& text[cut + 1] == '['
    &&& text.last() == ']'
    &&& is_theme_tag(text.subrange(cut + 2, text.len() - 1))
    &&& forall|k: int| 0 <= k < cut ==> #[trigger] text[k] != '\n'
}

/// Whether `text` is a name, white space and a theme tag in square brackets.
pub open spec fn is_labelled(text: Seq<char>) -> bool {
    exists|cut: int| is_labelled_at(text, cut)
}

// ---------------------------------------------------------------------------
// The calls into `regex`
// ---------------------------------------------------------------------------

/// What `Regex::is_match` says of `text` for a pattern.
pub uninterp spec fn pattern_matches(pattern: Seq<char>, text: Seq<char>) -> bool;

/// `Regex::replace_all`: replaces every match of `pattern`, from the left and
/// without overlap. Trusted is what comes out where white space, separators,
/// bracketed texts or noise are replaced by spaces; it is called for nothing
/// else.
#[verifier::external_body]
pub(crate) fn replace_all(pattern: &str, text: &str, replacement: &str) -> (out: String)
    requires
        pattern@ == MULTI_SPACE@ || pattern@ == NORMALIZE_SEPARATORS@ || pattern@
            == BRACKETED_TEXT@ || pattern@ == TITLE_NOISE@,
        replacement@ == " "@,
    ensures
        pattern@ == MULTI_SPACE@ ==> out@ == squeezed(text@, white_class()),
        pattern@ == NORMALIZE_SEPARATORS@ ==> out@ == squeezed(text@, separator_class()),
        pattern@ == BRACKETED_TEXT@ ==> out@ == without_bracketed(text@),
        pattern@ == TITLE_NOISE@ ==> out@ == without_noise(text@),
{
    Regex::new(pattern).expect("valid regex").replace_all(text, replacement).into_owned()
}

/// `Regex::replace`: replaces the leftmost match of `pattern`, if there is one.
/// Trusted is what comes out where a leading track number is removed; it is
/// called for nothing else.
#[verifier::external_body]
pub(crate) fn replace_first(pattern: &str, text: &str, replacement: &str) -> (out: String)
    requires
        pattern@ == LEADING_TRACK_NUMBER@,
        replacement@ == ""@,
    ensures
        out@ == without_track_number(text@),
{
    Regex::new(pattern).expect("valid regex").replace(text, replacement).into_owned()
}

/// `Regex::is_match`: whether `pattern` matches anywhere in `text`. Trusted are
/// that the answer depends on the two arguments alone, and what it is for theme
/// lines.
#[verifier::external_body]
pub(crate) fn is_match(pattern: &str, text: &str) -> (found: bool)
    requires
        pattern@ == THEME_LINE@ || pattern@ == DIGIT@ || pattern@ == WORD@,
    ensures
        found == pattern_matches(pattern@, text@),
        pattern@ == THEME_LINE@ ==> found == is_labelled(text@),
{
    Regex::new(pattern).expect("valid regex").is_match(text)
}

/// `text` with each run of white space replaced by one space.
pub fn collapse_white_space(text: &str) -> (out: String)
    ensures
        out@ == squeezed(text@, white_class()),
{
    replace_all(MULTI_SPACE, text, " ")
}

/// `text` with each run of separators replaced by one space.
pub fn collapse_separators(text: &str) -> (out: String)
    ensures
        out@ == squeezed(text@, separator_class()),
{
    replace_all(NORMALIZE_SEPARATORS, text, " ")
}

// ---------------------------------------------------------------------------
// Laws of squeezing
// ---------------------------------------------------------------------------

/// Two texts in a row are squeezed one after the other; a run that goes on from
/// the first into the second is one space.
pub proof fn law_squeezed_in_a_row(
    left: Seq<char>,
    right: Seq<char>,
    class: spec_fn(char) -> bool,
)
    ensures
        squeezed(left + right, class) == squeezed(left, class) + if left.len() > 0 && right.len()
            > 0 && class(left.last()) && class(right[0]) {
            squeezed(right, class).drop_first()
        } else {
            squeezed(right, class)
        },
        right.len() > 0 ==> squeezed(right, class).len() > 0 && squeezed(right, class)[0] == if class(
            right[0],
        ) {
            ' '
        } else {
            right[0]
        },
    decreases right.len(),
{
    if right.len() == 0 {
        assert(left + right =~= left);
        assert(squeezed(left, class) + squeezed(right, class) =~= squeezed(left, class));
    } else {
        let shorter = right.drop_last();
        let whole = left + right;
        law_squeezed_in_a_row(left, shorter, class);
        assert(whole.drop_last() =~= left + shorter);
        assert(whole.last() == right.last());
        let one = squeezed(left, class);
        let two = squeezed(right, class);
        if shorter.len() == 0 {
            assert(right.drop_last() =~= Seq::<char>::empty());
            assert(left + shorter =~= left);
            assert(squeezed(shorter, class) =~= Seq::<char>::empty());
            if left.len() > 0 {
                assert(whole[whole.len() - 2] == left.last());
            }
            assert(squeezed(whole, class) =~= one + if left.len() > 0 && class(left.last())
                && class(right[0]) {
                two.drop_first()
            } else {
                two
            });
        } else {
            assert(whole[whole.len() - 2] == right[right.len() - 2]);
            assert(shorter[0] == right[0]);
            let before = squeezed(shorter, class);
            assert(squeezed(whole, class) =~= one + if left.len() > 0 && class(left.last())
                && class(right[0]) {
                two.drop_first()
            } else {
                two
            });
        }
    }
}

/// Whatever is not of the class stays when a text is squeezed.
pub proof fn law_squeezing_keeps_the_rest(text: Seq<char>, class: spec_fn(char) -> bool, c: char)
    requires
        text.contains(c),
        !class(c),
    ensures
        squeezed(text, class).contains(c),
    decreases text.len(),
{
    let at = text.index_of(c);
    let after = squeezed(text, class);
    if at == text.len() - 1 {
        assert(after[after.len() - 1] == c);
    } else {
        let shorter = text.drop_last();
        assert(shorter[at] == c);
        law_squeezing_keeps_the_rest(shorter, class, c);
        let k = squeezed(shorter, class).index_of(c);
        assert(after[k] == c);
    }
}

/// What separates words: white space and these punctuation marks.
pub proof fn law_separators(c: char)
    ensures
        is_separator(c) <==> is_white(c) || seq![
            '_',
            '-',
            '／',
            '/',
            '・',
            ':',
            ';',
            '!',
            '?',
            ',',
            '(',
            ')',
            '[',
            ']',
            '【',
            '】',
            '"',
            '\'',
            '`',
            '.',
        ].contains(c),
{
    let marks = seq![
        '_',
        '-',
        '／',
        '/',
        '・',
        ':',
        ';',
        '!',
        '?',
        ',',
        '(',
        ')',
        '[',
        ']',
        '【',
        '】',
        '"',
        '\'',
        '`',
        '.',
    ];
    assert(marks[0] == '_' && marks[1] == '-' && marks[2] == '／' && marks[3] == '/' && marks[4]
        == '・' && marks[5] == ':' && marks[6] == ';' && marks[7] == '!' && marks[8] == '?'
        && marks[9] == ',' && marks[10] == '(' && marks[11] == ')' && marks[12] == '['
        && marks[13] == ']' && marks[14] == '【' && marks[15] == '】' && marks[16] == '"'
        && marks[17] == '\'' && marks[18] == '`' && marks[19] == '.');
    if marks.contains(c) {
        let k = marks.index_of(c);
        assert(marks[k] == c);
    }
}

/// Whether white space is of a class.
pub open spec fn holds_white_space(class: spec_fn(char) -> bool) -> bool {
    forall|c: char| is_white(c) ==> #[trigger] class(c)
}

/// What is left of a squeezed text between the spaces at its ends.
proof fn lemma_squeezed_around(text: Seq<char>, class: spec_fn(char) -> bool) -> (around: (
    Seq<char>,
    Seq<char>,
))
    requires
        holds_white_space(class),
    ensures
        squeezed(text, class) == around.0 + trimmed(squeezed(text, class)) + around.1,
        is_blank(around.0) && around.0.len() <= 1,
        is_blank(around.1) && around.1.len() <= 1,
        trimmed(squeezed(text, class)).len() == 0 ==> around.0.len() + around.1.len() <= 1,
        has_bare_ends(trimmed(squeezed(text, class))),
{
    assert(is_white(' '));
    lemma_squeezed_is_single_spaced(text, class);
    let separated = squeezed(text, class);
    let around = law_trimmed_text_is_the_middle(separated);
    let middle = trimmed(separated);
    let end = (around.0.len() + middle.len()) as int;
    assert forall|i: int, j: int|
        0 <= i < separated.len() && j == i + 1 && j < separated.len() implies !(is_white(
        #[trigger] separated[i],
    ) && is_white(#[trigger] separated[j])) by {
        assert(!(class(separated[i]) && class(separated[j])));
    }
    if around.0.len() > 1 {
        assert(separated[0] == around.0[0] && separated[1] == around.0[1]);
    }
    if around.1.len() > 1 {
        assert(separated[end] == around.1[0] && separated[end + 1] == around.1[1]);
    }
    if middle.len() == 0 && around.0.len() == 1 && around.1.len() == 1 {
        assert(separated[0] == around.0[0] && separated[1] == around.1[0]);
    }
    around
}

/// What a text with a character of the class at its end is squeezed to.
proof fn lemma_squeezed_front(left: Seq<char>, c: char, class: spec_fn(char) -> bool) -> (before:
    Seq<char>)
    requires
        holds_white_space(class),
        class(c),
    ensures
        squeezed(left.push(c), class) == before + trimmed(squeezed(left, class)) + seq![' '],
        is_blank(before),
{
    let separated = squeezed(left, class);
    let words = trimmed(separated);
    let space = seq![' '];
    let front = left.push(c);
    assert(is_white(' '));
    let (before, after) = lemma_squeezed_around(left, class);
    lemma_squeezed_is_single_spaced(left, class);
    assert(front.drop_last() =~= left);
    if left.len() > 0 {
        assert(front[front.len() - 2] == left.last());
    }
    if left.len() == 0 {
        assert(squeezed(front, class) =~= before + words + space);
        before
    } else if class(left.last()) {
        assert(class(separated[separated.len() - 1]));
        assert(separated.last() == ' ');
        if after.len() > 0 {
            assert(after =~= space);
            before
        } else if words.len() > 0 {
            assert(separated.last() == words.last());
            before
        } else {
            assert(before.len() == 1);
            assert(separated =~= space);
            assert(separated =~= Seq::<char>::empty() + words + space);
            Seq::empty()
        }
    } else {
        assert(!class(separated.last()));
        if after.len() > 0 {
            assert(separated.last() == after[after.len() - 1]);
            assert(is_white(after[after.len() - 1]));
        }
        assert(separated =~= before + words);
        assert(squeezed(front, class) =~= before + words + space);
        before
    }
}

/// What a text behind a character of the class is squeezed to.
proof fn lemma_squeezed_rest(right: Seq<char>, class: spec_fn(char) -> bool) -> (after: Seq<char>)
    requires
        holds_white_space(class),
    ensures
        (if right.len() > 0 && class(right[0]) {
            squeezed(right, class).drop_first()
        } else {
            squeezed(right, class)
        }) == trimmed(squeezed(right, class)) + after,
        is_blank(after),
{
    let separated = squeezed(right, class);
    let words = trimmed(separated);
    assert(is_white(' '));
    let (before, after) = lemma_squeezed_around(right, class);
    law_squeezed_in_a_row(Seq::empty(), right, class);
    if right.len() == 0 {
        assert(separated =~= words + after);
        after
    } else if class(right[0]) {
        assert(separated[0] == ' ');
        if before.len() > 0 {
            assert(separated.drop_first() =~= words + after);
            after
        } else if words.len() > 0 {
            assert(separated[0] == words[0]);
            after
        } else {
            assert(separated.drop_first() =~= words + Seq::<char>::empty());
            Seq::empty()
        }
    } else {
        if before.len() > 0 {
            assert(separated[0] == before[0]);
            assert(is_white(before[0]));
            assert(class(before[0]));
        }
        assert(separated =~= words + after);
        after
    }
}

/// Squeezed and trimmed, what stands on both sides of a character of the class comes
/// one after the other, with one space between.
pub proof fn law_squeezed_words_come_in_a_row(
    left: Seq<char>,
    c: char,
    right: Seq<char>,
    class: spec_fn(char) -> bool,
)
    requires
        holds_white_space(class),
        class(c),
    ensures
        ({
            let before = trimmed(squeezed(left, class));
            let after = trimmed(squeezed(right, class));
            trimmed(squeezed(left + seq![c] + right, class)) == if before.len() == 0 {
                after
            } else if after.len() == 0 {
                before
            } else {
                before + seq![' '] + after
            }
        }),
{
    let front = left.push(c);
    let whole = left + seq![c] + right;
    let space = seq![' '];
    let (nl, nr) = (trimmed(squeezed(left, class)), trimmed(squeezed(right, class)));
    let around_left = lemma_squeezed_around(left, class);
    let around_right = lemma_squeezed_around(right, class);
    let before = lemma_squeezed_front(left, c, class);
    let after = lemma_squeezed_rest(right, class);
    law_squeezed_in_a_row(front, right, class);
    assert(whole =~= front + right);
    let separated = squeezed(whole, class);
    assert(separated == before + nl + space + (nr + after));
    assert(is_blank(space));
    if nl.len() > 0 && nr.len() > 0 {
        law_trimming_takes_white_space(before, nl + space + nr, after);
        assert(separated =~= before + (nl + space + nr) + after);
    } else if nl.len() > 0 {
        assert(is_blank(space + after));
        law_trimming_takes_white_space(before, nl, space + after);
        assert(separated =~= before + nl + (space + after));
    } else {
        assert(is_blank(before + space));
        law_trimming_takes_white_space(before + space, nr, after);
        assert(separated =~= before + space + nr + after);
    }
}

// ---------------------------------------------------------------------------
// Laws of track numbers, brackets and noise
// ---------------------------------------------------------------------------

proof fn lemma_run(prefix: Seq<char>, rest: Seq<char>, class: spec_fn(char) -> bool)
    requires
        forall|i: int| 0 <= i < prefix.len() ==> class(#[trigger] prefix[i]),
        rest.len() > 0 ==> !class(rest[0]),
    ensures
        run_len(prefix + rest, class) == prefix.len(),
    decreases prefix.len(),
{
    if prefix.len() == 0 {
        assert(prefix + rest =~= rest);
    } else {
        let shorter = prefix.drop_first();
        assert(class(prefix[0]));
        assert forall|i: int| 0 <= i < shorter.len() implies class(#[trigger] shorter[i]) by {
            assert(shorter[i] == prefix[i + 1]);
        }
        lemma_run(shorter, rest, class);
        assert((prefix + rest).drop_first() =~= shorter + rest);
    }
}

/// Whether a character may stand between a track number and a title.
pub open spec fn follows_track_number(c: char) -> bool {
    is_white(c) || c == '.' || c == '_' || c == '-'
}

/// One to three digits at the start of a title are taken off with the white space before
/// them and all separators behind them.
pub proof fn law_track_numbers_are_taken_off(
    space: Seq<char>,
    digits: Seq<char>,
    separators: Seq<char>,
    rest: Seq<char>,
)
    requires
        is_blank(space),
        1 <= digits.len() <= 3,
        forall|i: int| 0 <= i < digits.len() ==> '0' <= #[trigger] digits[i] <= '9',
        separators.len() > 0,
        separators[0] <= '\u{7F}',
        forall|i: int| 0 <= i < separators.len() ==> follows_track_number(#[trigger] separators[i]),
        rest.len() > 0 ==> !follows_track_number(rest[0]),
    ensures
        without_track_number(space + digits + separators + rest) == rest,
{
    let text = space + digits + separators + rest;
    let behind_space = digits + (separators + rest);
    let behind_digits = separators + rest;
    assert(text =~= space + behind_space);
    assert(behind_space[0] == digits[0]);
    assert('0' <= digits[0] <= '9');
    lemma_run(space, behind_space, white_class());
    assert(text.skip(space.len() as int) =~= behind_space);
    assert(behind_digits[0] == separators[0]);
    assert(follows_track_number(separators[0]));
    lemma_run(digits, behind_digits, digit_class());
    assert(text.skip((space.len() + digits.len()) as int) =~= behind_digits);
    assert forall|i: int| 0 <= i < separators.len() implies track_separator_class()(
        #[trigger] separators[i],
    ) by {
        assert(follows_track_number(separators[i]));
    }
    lemma_run(separators, rest, track_separator_class());
    assert(text.skip((space.len() + digits.len() + separators.len()) as int) =~= rest);
}

/// Without such digits, with more of them, or without separators behind them, a title
/// stays as it is.
pub proof fn law_other_titles_keep_their_start(
    space: Seq<char>,
    digits: Seq<char>,
    rest: Seq<char>,
)
    requires
        is_blank(space),
        forall|i: int| 0 <= i < digits.len() ==> '0' <= #[trigger] digits[i] <= '9',
        rest.len() > 0 ==> rest[0] <= '\u{7F}' && !('0' <= rest[0] <= '9'),
        digits.len() == 0 && rest.len() > 0 ==> !is_white(rest[0]),
        digits.len() == 0 || digits.len() > 3 || rest.len() == 0 || !follows_track_number(rest[0]),
    ensures
        without_track_number(space + digits + rest) == space + digits + rest,
{
    let text = space + digits + rest;
    let behind_space = digits + rest;
    assert(text =~= space + behind_space);
    if digits.len() > 0 {
        assert(behind_space[0] == digits[0]);
        assert('0' <= digits[0] <= '9');
    } else if rest.len() > 0 {
        assert(behind_space[0] == rest[0]);
    }
    lemma_run(space, behind_space, white_class());
    assert(text.skip(space.len() as int) =~= behind_space);
    lemma_run(digits, rest, digit_class());
    assert(text.skip((space.len() + digits.len()) as int) =~= rest);
    lemma_run(Seq::empty(), rest, digit_class());
    if rest.len() > 0 && !follows_track_number(rest[0]) {
        assert(!track_separator_class()(rest[0]));
        lemma_run(Seq::empty(), rest, track_separator_class());
        assert(Seq::<char>::empty() + rest =~= rest);
    }
}

/// Whether a character closes a bracketed text.
pub open spec fn closes_bracket(c: char) -> bool {
    c == ')' || c == ']' || c == '】'
}

/// A text in brackets of at most 80 characters becomes one space, and the rest follows.
pub proof fn law_bracketed_text_becomes_a_space(
    open: char,
    inner: Seq<char>,
    close: char,
    rest: Seq<char>,
)
    requires
        open == '(' || open == '[' || open == '【',
        inner.len() <= 80,
        forall|i: int| 0 <= i < inner.len() ==> !closes_bracket(#[trigger] inner[i]),
        closes_bracket(close),
    ensures
        without_bracketed(seq![open] + inner + seq![close] + rest) == seq![' ']
            + without_bracketed(rest),
{
    let text = seq![open] + inner + seq![close] + rest;
    let tail = seq![close] + rest;
    assert(text.drop_first() =~= inner + tail);
    assert forall|i: int| 0 <= i < inner.len() implies inner_class()(#[trigger] inner[i]) by {
        assert(!closes_bracket(inner[i]));
    }
    assert(tail[0] == close);
    lemma_run(inner, tail, inner_class());
    assert(bracketed_len(text) == inner.len() + 2);
    assert(text.skip((inner.len() + 2) as int) =~= rest);
}

/// Every other character stays: one that opens no bracketed text, and one behind which
/// none closes within 80 characters.
pub proof fn law_other_characters_stay(c: char, rest: Seq<char>)
    requires
        (c != '(' && c != '[' && c != '【') || (forall|i: int|
            0 <= i < rest.len() && i <= 80 ==> !closes_bracket(#[trigger] rest[i])),
    ensures
        without_bracketed(seq![c] + rest) == seq![c] + without_bracketed(rest),
        without_bracketed(Seq::empty()) == Seq::<char>::empty(),
{
    let text = seq![c] + rest;
    assert(text.drop_first() =~= rest);
    assert(text[0] == c);
    let run = run_len(rest, inner_class());
    lemma_run_bounds(rest, inner_class());
    if run <= 80 && run < rest.len() {
        assert(closes_bracket(rest[run as int]));
    }
}

proof fn lemma_run_bounds(text: Seq<char>, class: spec_fn(char) -> bool)
    ensures
        run_len(text, class) <= text.len(),
        run_len(text, class) < text.len() ==> !class(text[run_len(text, class) as int]),
    decreases text.len(),
{
    if text.len() > 0 && class(text[0]) {
        let rest = text.drop_first();
        lemma_run_bounds(rest, class);
        if run_len(rest, class) < rest.len() {
            assert(rest[run_len(rest, class) as int] == text[(run_len(rest, class) + 1) as int]);
        }
    }
}

/// The pairs of words that name a mix or a cut.
pub open spec fn noise_pairs() -> Seq<(Seq<char>, Seq<char>)> {
    seq![
        ("off"@, "vocal"@),
        ("no"@, "limiter"@),
        ("tv"@, "size"@),
        ("anime"@, "size"@),
        ("short"@, "ver"@),
        ("short"@, "version"@),
        ("long"@, "ver"@),
        ("long"@, "version"@),
        ("edit"@, "ver"@),
        ("edit"@, "version"@),
    ]
}

/// Noise is `inst`, `instrumental`, and the pairs of words that name a mix or a cut, in
/// any case, written together or with a space or hyphen between them.
pub proof fn law_noise_words(text: Seq<char>)
    ensures
        is_noise(text) <==> {
            ||| folded(text) == "inst"@
            ||| folded(text) == "instrumental"@
            ||| exists|i: int|
                0 <= i < noise_pairs().len() && is_word_pair(
                    folded(text),
                    (#[trigger] noise_pairs()[i]).0,
                    noise_pairs()[i].1,
                )
        },
{
    let word = folded(text);
    let pairs = noise_pairs();
    assert(pairs.len() == 10);
    assert(pairs[0] == ("off"@, "vocal"@) && pairs[1] == ("no"@, "limiter"@) && pairs[2] == (
        "tv"@,
        "size"@,
    ) && pairs[3] == ("anime"@, "size"@) && pairs[4] == ("short"@, "ver"@) && pairs[5] == (
        "short"@,
        "version"@,
    ) && pairs[6] == ("long"@, "ver"@) && pairs[7] == ("long"@, "version"@) && pairs[8] == (
        "edit"@,
        "ver"@,
    ) && pairs[9] == ("edit"@, "version"@));
    if exists|i: int|
        0 <= i < pairs.len() && is_word_pair(word, (#[trigger] pairs[i]).0, pairs[i].1) {
        let i = choose|i: int|
            0 <= i < pairs.len() && is_word_pair(word, (#[trigger] pairs[i]).0, pairs[i].1);
        assert(i == 0 || i == 1 || i == 2 || i == 3 || i == 4 || i == 5 || i == 6 || i == 7 || i
            == 8 || i == 9);
    }
    if is_noise(text) && word != "inst"@ && word != "instrumental"@ {
        if is_word_pair(word, "off"@, "vocal"@) {
            assert(is_word_pair(word, pairs[0].0, pairs[0].1));
        } else if is_word_pair(word, "no"@, "limiter"@) {
            assert(is_word_pair(word, pairs[1].0, pairs[1].1));
        } else if is_word_pair(word, "tv"@, "size"@) {
            assert(is_word_pair(word, pairs[2].0, pairs[2].1));
        } else if is_word_pair(word, "anime"@, "size"@) {
            assert(is_word_pair(word, pairs[3].0, pairs[3].1));
        } else if is_word_pair(word, "short"@, "ver"@) {
            assert(is_word_pair(word, pairs[4].0, pairs[4].1));
        } else if is_word_pair(word, "short"@, "version"@) {
            assert(is_word_pair(word, pairs[5].0, pairs[5].1));
        } else if is_word_pair(word, "long"@, "ver"@) {
            assert(is_word_pair(word, pairs[6].0, pairs[6].1));
        } else if is_word_pair(word, "long"@, "version"@) {
            assert(is_word_pair(word, pairs[7].0, pairs[7].1));
        } else if is_word_pair(word, "edit"@, "ver"@) {
            assert(is_word_pair(word, pairs[8].0, pairs[8].1));
        } else {
            assert(is_word_pair(word, pairs[9].0, pairs[9].1));
        }
    }
}

/// A text up to the first noise stays, noise becomes one space, and without noise a text
/// stays as it is.
pub proof fn law_noise_becomes_a_space(text: Seq<char>, from: int, at: int)
    requires
        0 <= from <= at <= text.len(),
        forall|k: int, to: int| from <= k < at ==> !#[trigger] is_noise_at(text, k, to),
    ensures
        without_noise_from(text, from) == text.subrange(from, at) + without_noise_from(text, at),
        at == text.len() ==> without_noise_from(text, from) == text.skip(from),
        (exists|to: int| is_noise_at(text, at, to)) ==> exists|to: int| #[trigger]
            is_noise_at(text, at, to) && without_noise_from(text, at) == seq![' ']
                + without_noise_from(text, to),
        without_noise(text) == without_noise_from(text, 0),
    decreases at - from,
{
    if from == at {
        assert(text.subrange(from, at) + without_noise_from(text, at) =~= without_noise_from(
            text,
            at,
        ));
        if at == text.len() {
            assert(without_noise_from(text, at) =~= text.skip(from));
        }
        if exists|to: int| is_noise_at(text, at, to) {
            let to = choose|to: int| is_noise_at(text, at, to);
            assert(is_noise_at(text, at, to));
        }
    } else {
        law_noise_becomes_a_space(text, from + 1, at);
        let to = choose|to: int| is_noise_at(text, from, to);
        assert(!is_noise_at(text, from, to));
        assert(text.subrange(from, at) =~= seq![text[from]] + text.subrange(from + 1, at));
        assert(without_noise_from(text, from) =~= text.subrange(from, at) + without_noise_from(
            text,
            at,
        ));
        if at == text.len() {
            assert(text.skip(from) =~= seq![text[from]] + text.skip(from + 1));
        }
    }
}

/// The patterns that texts are searched for.
pub proof fn law_patterns()
    ensures
        MULTI_SPACE@ == r"\s+"@,
        NORMALIZE_SEPARATORS@ == r#"[\s_\-／/・:;!?,\(\)\[\]【】"'`\.]+"#@,
        BRACKETED_TEXT@ == r"[\(\[【][^)\]】]{0,80}[\)\]】]"@,
        LEADING_TRACK_NUMBER@ == r"^\s*\d{1,3}[\s._-]+"@,
        TITLE_NOISE@ == r"(?ix)
        \b(
            inst(?:rumental)? |
            off[\s-]?vocal |
            no[\s-]?limiter |
            tv[\s-]?size |
            anime[\s-]?size |
            short[\s-]?(?:ver|version) |
            long[\s-]?(?:ver|version) |
            edit[\s-]?(?:ver|version)
        )\b
    "@,
        THEME_LINE@ == r"(?i)^.+\s\[(OP|ED|etc\.|その他)\]$"@,
        DIGIT@ == r"\d"@,
        WORD@ == r"\w"@,
{
}

} // verus!

//! Text as a sequence of characters: trimming, splitting, joining, searching
//! and decimal numbers.

use vstd::prelude::*;

verus! {

/// Appends one character: `String::push`. The text afterwards is the text
/// before with the character at its end.
pub assume_specification[ String::push ](text: &mut String, c: char)
    ensures
        final(text)@ == old(text)@.push(c),
;

// ---------------------------------------------------------------------------
// Characters
// ---------------------------------------------------------------------------

/// The characters with the Unicode property `White_Space`.
pub open spec fn is_white(c: char) -> bool {
    let u = c as u32;
    ||| 0x9 <= u <= 0xD
    ||| u == 0x20
    ||| u == 0x85
    ||| u == 0xA0
    ||| u == 0x1680
    ||| 0x2000 <= u <= 0x200A
    ||| 0x2028 <= u <= 0x2029
    ||| u == 0x202F
    ||| u == 0x205F
    ||| u == 0x3000
}

/// Whether `c` has the Unicode property `White_Space`.
pub fn is_white_space(c: char) -> (white: bool)
    ensures
        white == is_white(c),
{
    let u: u32 = c as u32;
    (0x9 <= u && u <= 0xD) || u == 0x20 || u == 0x85 || u == 0xA0 || u == 0x1680
        || (0x2000 <= u && u <= 0x200A) || (0x2028 <= u && u <= 0x2029) || u == 0x202F
        || u == 0x205F || u == 0x3000
}

/// The lower-case form of an ASCII capital; every other character itself.
pub open spec fn ascii_lower(c: char) -> char {
    if 'A' <= c && c <= 'Z' {
        ((c as u32 + 32) as u32) as char
    } else {
        c
    }
}

/// `text` with every ASCII capital in lower case.
pub open spec fn ascii_lowered(text: Seq<char>) -> Seq<char> {
    Seq::new(text.len(), |i: int| ascii_lower(text[i]))
}

/// Whether every character is ASCII.
pub open spec fn all_ascii(text: Seq<char>) -> bool {
    forall|i: int| 0 <= i < text.len() ==> #[trigger] text[i] <= '\u{7F}'
}

/// `text` with every `from` replaced by `to`.
pub open spec fn with_replaced(text: Seq<char>, from: char, to: char) -> Seq<char> {
    Seq::new(
        text.len(),
        |i: int|
            if text[i] == from {
                to
            } else {
                text[i]
            },
    )
}

/// The number of bytes of `text` in UTF-8.
pub open spec fn byte_len(text: Seq<char>) -> nat {
    vstd::utf8::encode_utf8(text).len()
}

/// The texts of a list of strings.
pub open spec fn views(list: Seq<String>) -> Seq<Seq<char>> {
    Seq::new(list.len(), |i: int| list[i]@)
}

/// The text of an optional string.
pub open spec fn optional_view(text: Option<String>) -> Option<Seq<char>> {
    match text {
        Some(text) => Some(text@),
        None => None,
    }
}

/// The text of an optional string slice.
pub open spec fn optional_str_view(text: Option<&str>) -> Option<Seq<char>> {
    match text {
        Some(text) => Some(text@),
        None => None,
    }
}

/// The characters of `text`, in order.
pub fn chars_of(text: &str) -> (chars: Vec<char>)
    ensures
        chars@ == text@,
{
    let mut chars: Vec<char> = Vec::new();
    for c in it: text.chars()
        invariant
            chars@ == it.seq().take(it.index()),
            it.seq() == text@,
    {
        chars.push(c);
    }
    chars
}

/// The characters from `from` up to, not including, `to`, as a string.
pub fn range_text(chars: &Vec<char>, from: usize, to: usize) -> (text: String)
    requires
        from <= to <= chars@.len(),
    ensures
        text@ == chars@.subrange(from as int, to as int),
{
    let mut text = String::new();
    let mut i: usize = from;
    while i < to
        invariant
            from <= i <= to <= chars@.len(),
            text@ == chars@.subrange(from as int, i as int),
        decreases to - i,
    {
        text.push(chars[i]);
        i = i + 1;
        assert(chars@.subrange(from as int, i as int).drop_last() =~= chars@.subrange(
            from as int,
            i - 1,
        ));
    }
    text
}

/// Whether two texts are the same.
pub fn same_text(left: &str, right: &str) -> (same: bool)
    ensures
        same == (left@ == right@),
{
    left.to_string() == right.to_string()
}

/// `left` followed by `right`.
pub fn joined2(left: &str, right: &str) -> (text: String)
    ensures
        text@ == left@ + right@,
{
    let mut text = left.to_string();
    text.append(right);
    text
}

/// `text` with every ASCII capital in lower case.
pub fn ascii_lower_text(text: &str) -> (lowered: String)
    ensures
        lowered@ == ascii_lowered(text@),
{
    let chars = chars_of(text);
    let mut lowered = String::new();
    for i in 0..chars.len()
        invariant
            chars@ == text@,
            lowered@ == ascii_lowered(text@).take(i as int),
    {
        let c = chars[i];
        if 'A' <= c && c <= 'Z' {
            lowered.push((c as u8 + 32) as char);
        } else {
            lowered.push(c);
        }
    }
    lowered
}

/// `text` with every `from` replaced by `to`.
pub fn replace_char(text: &str, from: char, to: char) -> (replaced: String)
    ensures
        replaced@ == with_replaced(text@, from, to),
{
    let chars = chars_of(text);
    let mut replaced = String::new();
    for i in 0..chars.len()
        invariant
            chars@ == text@,
            replaced@ == with_replaced(text@, from, to).take(i as int),
    {
        if chars[i] == from {
            replaced.push(to);
        } else {
            replaced.push(chars[i]);
        }
    }
    replaced
}

/// Whether `text` has at least `count` bytes in UTF-8.
pub fn has_bytes(text: &str, count: usize) -> (enough: bool)
    ensures
        enough == (byte_len(text@) >= count),
{
    text.as_bytes().len() >= count
}

// ---------------------------------------------------------------------------
// Trimming
// ---------------------------------------------------------------------------

/// `text` without the white space at its start.
pub open spec fn trimmed_start(text: Seq<char>) -> Seq<char>
    decreases text.len(),
{
    if text.len() > 0 && is_white(text[0]) {
        trimmed_start(text.drop_first())
    } else {
        text
    }
}

/// `text` without the white space at its end.
pub open spec fn trimmed_end(text: Seq<char>) -> Seq<char>
    decreases text.len(),
{
    if text.len() > 0 && is_white(text.last()) {
        trimmed_end(text.drop_last())
    } else {
        text
    }
}

/// `text` without the white space at its start and at its end.
pub open spec fn trimmed(text: Seq<char>) -> Seq<char> {
    trimmed_end(trimmed_start(text))
}

proof fn lemma_trimmed_start_at(text: Seq<char>, from: int)
    requires
        0 <= from <= text.len(),
        forall|k: int| 0 <= k < from ==> is_white(#[trigger] text[k]),
        from < text.len() ==> !is_white(text[from]),
    ensures
        trimmed_start(text) == text.skip(from),
    decreases from,
{
    if from == 0 {
        assert(text.skip(0) =~= text);
    } else {
        let rest = text.drop_first();
        assert forall|k: int| 0 <= k < from - 1 implies is_white(#[trigger] rest[k]) by {
            assert(rest[k] == text[k + 1]);
        }
        lemma_trimmed_start_at(rest, from - 1);
        assert(rest.skip(from - 1) =~= text.skip(from));
        assert(is_white(text[0]));
    }
}

proof fn lemma_trimmed_end_at(text: Seq<char>, to: int)
    requires
        0 <= to <= text.len(),
        forall|k: int| to <= k < text.len() ==> is_white(#[trigger] text[k]),
        to > 0 ==> !is_white(text[to - 1]),
    ensures
        trimmed_end(text) == text.take(to),
    decreases text.len() - to,
{
    if to == text.len() {
        assert(text.take(to) =~= text);
    } else {
        let rest = text.drop_last();
        lemma_trimmed_end_at(rest, to);
        assert(rest.take(to) =~= text.take(to));
        assert(is_white(text.last()));
    }
}

/// Whether a text neither begins nor ends with white space.
pub open spec fn has_bare_ends(text: Seq<char>) -> bool {
    text.len() > 0 ==> !is_white(text[0]) && !is_white(text.last())
}

proof fn lemma_trimmed_start_part(text: Seq<char>) -> (from: int)
    ensures
        0 <= from <= text.len(),
        trimmed_start(text) == text.skip(from),
        from < text.len() ==> !is_white(text[from]),
    decreases text.len(),
{
    if text.len() > 0 && is_white(text[0]) {
        let rest = text.drop_first();
        let from = lemma_trimmed_start_part(rest);
        assert(rest.skip(from) =~= text.skip(from + 1));
        from + 1
    } else {
        assert(text.skip(0) =~= text);
        0
    }
}

proof fn lemma_trimmed_end_part(text: Seq<char>) -> (to: int)
    ensures
        0 <= to <= text.len(),
        trimmed_end(text) == text.take(to),
        to > 0 ==> !is_white(text[to - 1]),
    decreases text.len(),
{
    if text.len() > 0 && is_white(text.last()) {
        let rest = text.drop_last();
        let to = lemma_trimmed_end_part(rest);
        assert(rest.take(to) =~= text.take(to));
        to
    } else {
        assert(text.take(text.len() as int) =~= text);
        text.len() as int
    }
}

/// A trimmed text is a part of the text, with bare ends.
pub proof fn lemma_trimmed_part(text: Seq<char>) -> (part: (int, int))
    ensures
        0 <= part.0 <= part.1 <= text.len(),
        trimmed(text) == text.subrange(part.0, part.1),
        has_bare_ends(trimmed(text)),
{
    let from = lemma_trimmed_start_part(text);
    let tail = text.skip(from);
    let to = lemma_trimmed_end_part(tail);
    assert(tail.take(to) =~= text.subrange(from, from + to));
    if to > 0 {
        assert(tail[0] == text[from]);
    }
    (from, from + to)
}

/// A text of which trimming leaves nothing is white space.
pub proof fn lemma_blank_is_white(text: Seq<char>)
    requires
        trimmed(text).len() == 0,
    ensures
        forall|i: int| 0 <= i < text.len() ==> is_white(#[trigger] text[i]),
{
    let from = lemma_trimmed_start_part(text);
    let tail = text.skip(from);
    let to = lemma_trimmed_end_part(tail);
    assert forall|i: int| 0 <= i < text.len() implies is_white(#[trigger] text[i]) by {
        lemma_trimmed_start_white(text);
        if tail.len() > 0 {
            lemma_trimmed_end_white(tail);
            assert(is_white(tail[0]));
        }
    }
}

proof fn lemma_trimmed_start_white(text: Seq<char>)
    ensures
        forall|i: int|
            0 <= i < text.len() - trimmed_start(text).len() ==> is_white(#[trigger] text[i]),
    decreases text.len(),
{
    if text.len() > 0 && is_white(text[0]) {
        let rest = text.drop_first();
        lemma_trimmed_start_white(rest);
        assert forall|i: int|
            0 <= i < text.len() - trimmed_start(text).len() implies is_white(#[trigger] text[i]) by {
            if i > 0 {
                assert(text[i] == rest[i - 1]);
            }
        }
    }
}

proof fn lemma_trimmed_end_white(text: Seq<char>)
    ensures
        forall|i: int| trimmed_end(text).len() <= i < text.len() ==> is_white(#[trigger] text[i]),
    decreases text.len(),
{
    if text.len() > 0 && is_white(text.last()) {
        let rest = text.drop_last();
        lemma_trimmed_end_white(rest);
        assert forall|i: int| trimmed_end(text).len() <= i < text.len() implies is_white(
            #[trigger] text[i],
        ) by {
            if i < rest.len() {
                assert(text[i] == rest[i]);
            }
        }
    }
}

/// A text with bare ends is trimmed.
pub proof fn lemma_trimmed_stays(text: Seq<char>)
    requires
        has_bare_ends(text),
    ensures
        trimmed(text) == text,
{
}

fn start_of_trimmed(chars: &Vec<char>) -> (from: usize)
    ensures
        from <= chars@.len(),
        trimmed_start(chars@) == chars@.skip(from as int),
        from < chars@.len() ==> !is_white(chars@[from as int]),
{
    let mut from: usize = 0;
    while from < chars.len() && is_white_space(chars[from])
        invariant
            from <= chars@.len(),
            forall|k: int| 0 <= k < from ==> is_white(#[trigger] chars@[k]),
        decreases chars@.len() - from,
    {
        from = from + 1;
    }
    proof {
        lemma_trimmed_start_at(chars@, from as int);
    }
    from
}

fn end_of_trimmed(chars: &Vec<char>, from: usize) -> (to: usize)
    requires
        from <= chars@.len(),
    ensures
        from <= to <= chars@.len(),
        trimmed_end(chars@.skip(from as int)) == chars@.subrange(from as int, to as int),
{
    let mut to: usize = chars.len();
    while to > from && is_white_space(chars[to - 1])
        invariant
            from <= to <= chars@.len(),
            forall|k: int| to <= k < chars@.len() ==> is_white(#[trigger] chars@[k]),
        decreases to,
    {
        to = to - 1;
    }
    proof {
        let tail = chars@.skip(from as int);
        assert forall|k: int| to - from <= k < tail.len() implies is_white(#[trigger] tail[k]) by {
            assert(tail[k] == chars@[k + from]);
        }
        lemma_trimmed_end_at(tail, to - from);
        assert(tail.take(to - from) =~= chars@.subrange(from as int, to as int));
    }
    to
}

/// `text` without the white space at its start and at its end.
pub fn trim_text(text: &str) -> (out: String)
    ensures
        out@ == trimmed(text@),
{
    let chars = chars_of(text);
    let from = start_of_trimmed(&chars);
    let to = end_of_trimmed(&chars, from);
    range_text(&chars, from, to)
}

/// `text` without the white space at its start.
pub fn trim_start_text(text: &str) -> (out: String)
    ensures
        out@ == trimmed_start(text@),
{
    let chars = chars_of(text);
    let from = start_of_trimmed(&chars);
    assert(chars@.subrange(from as int, chars@.len() as int) =~= chars@.skip(from as int));
    range_text(&chars, from, chars.len())
}

/// `text` without the white space at its end.
pub fn trim_end_text(text: &str) -> (out: String)
    ensures
        out@ == trimmed_end(text@),
{
    let chars = chars_of(text);
    let to = end_of_trimmed(&chars, 0);
    assert(chars@.skip(0) =~= chars@);
    range_text(&chars, 0, to)
}

// ---------------------------------------------------------------------------
// Searching
// ---------------------------------------------------------------------------

/// Whether `part` stands in `text` at position `at`.
pub open spec fn occurs_at(text: Seq<char>, part: Seq<char>, at: int) -> bool {
    &&& 0 <= at
    &&& at + part.len() <= text.len()
    &&& text.subrange(at, at + part.len()) == part
}

/// Whether `part` stands somewhere in `text`.
pub open spec fn contains_text(text: Seq<char>, part: Seq<char>) -> bool {
    exists|at: int| occurs_at(text, part, at)
}

/// The first position at which `part` stands in `text`.
pub open spec fn first_occurrence(text: Seq<char>, part: Seq<char>) -> int {
    choose|at: int|
        occurs_at(text, part, at) && (forall|k: int| 0 <= k < at ==> !occurs_at(text, part, k))
}

fn occurs(text: &Vec<char>, part: &Vec<char>, at: usize) -> (found: bool)
    requires
        at + part@.len() <= text@.len(),
    ensures
        found == occurs_at(text@, part@, at as int),
{
    let total: usize = text.len();
    let mut i: usize = 0;
    while i < part.len()
        invariant
            i <= part@.len(),
            at + part@.len() <= text@.len(),
            total == text@.len(),
            forall|k: int| 0 <= k < i ==> text@[at + k] == #[trigger] part@[k],
        decreases part@.len() - i,
    {
        if text[at + i] != part[i] {
            assert(text@.subrange(at as int, at + part@.len())[i as int] != part@[i as int]);
            return false;
        }
        i = i + 1;
    }
    assert(text@.subrange(at as int, at + part@.len()) =~= part@);
    true
}

/// Whether `part` stands somewhere in `text`.
pub fn text_contains(text: &str, part: &str) -> (found: bool)
    ensures
        found == contains_text(text@, part@),
{
    let chars = chars_of(text);
    let wanted = chars_of(part);
    if wanted.len() > chars.len() {
        return false;
    }
    let last: usize = chars.len() - wanted.len();
    let mut at: usize = 0;
    while at <= last
        invariant
            at <= last + 1,
            last + wanted@.len() == chars@.len(),
            chars@ == text@,
            wanted@ == part@,
            forall|k: int| 0 <= k < at ==> !occurs_at(text@, part@, k),
        decreases last + 1 - at,
    {
        if occurs(&chars, &wanted, at) {
            return true;
        }
        if at == last {
            return false;
        }
        at = at + 1;
    }
    false
}

/// Whether `text` begins with `part`.
pub fn text_starts_with(text: &str, part: &str) -> (found: bool)
    ensures
        found == part@.is_prefix_of(text@),
{
    let chars = chars_of(text);
    let wanted = chars_of(part);
    if wanted.len() > chars.len() {
        return false;
    }
    occurs(&chars, &wanted, 0)
}

// ---------------------------------------------------------------------------
// Splitting and joining
// ---------------------------------------------------------------------------

/// The pieces of `text` between the characters `separator`; a text without one
/// is a single piece.
pub open spec fn split_char(text: Seq<char>, separator: char) -> Seq<Seq<char>>
    decreases text.len(),
{
    if text.len() == 0 {
        seq![Seq::empty()]
    } else {
        let before = split_char(text.drop_last(), separator);
        if text.last() == separator {
            before.push(Seq::empty())
        } else {
            before.drop_last().push(before.last().push(text.last()))
        }
    }
}

/// The pieces of `text` between the occurrences of `separator`, taken from the
/// left without overlap; a text without one is a single piece.
#[verifier::opaque]
pub open spec fn split_text(text: Seq<char>, separator: Seq<char>) -> Seq<Seq<char>>
    decreases text.len(),
{
    let at = first_occurrence(text, separator);
    if separator.len() > 0 && contains_text(text, separator) && 0 <= at <= text.len()
        - separator.len() {
        seq![text.take(at)] + split_text(text.skip(at + separator.len()), separator)
    } else {
        seq![text]
    }
}

/// The texts of `list` one after the other, with `separator` between them.
pub open spec fn join_texts(list: Seq<Seq<char>>, separator: Seq<char>) -> Seq<char>
    decreases list.len(),
{
    if list.len() == 0 {
        Seq::empty()
    } else if list.len() == 1 {
        list[0]
    } else {
        join_texts(list.drop_last(), separator) + separator + list.last()
    }
}

/// Joined texts hold every character of each of them.
pub proof fn lemma_join_contains(
    list: Seq<Seq<char>>,
    separator: Seq<char>,
    text: Seq<char>,
    c: char,
)
    requires
        list.contains(text),
        text.contains(c),
    ensures
        join_texts(list, separator).contains(c),
    decreases list.len(),
{
    let at = list.index_of(text);
    let joined = join_texts(list, separator);
    let k = text.index_of(c);
    if list.len() == 1 {
        assert(joined[k] == c);
    } else if at == list.len() - 1 {
        let before = join_texts(list.drop_last(), separator) + separator;
        assert(joined[before.len() + k] == c);
    } else {
        let shorter = list.drop_last();
        assert(shorter[at] == text);
        lemma_join_contains(shorter, separator, text, c);
        let before = join_texts(shorter, separator);
        let m = before.index_of(c);
        assert(joined[m] == c);
    }
}

/// Splitting gives one piece at least.
pub proof fn lemma_split_char_nonempty(text: Seq<char>, separator: char)
    ensures
        split_char(text, separator).len() > 0,
    decreases text.len(),
{
    if text.len() > 0 {
        lemma_split_char_nonempty(text.drop_last(), separator);
    }
}

/// A text without the separator is a single piece.
pub proof fn lemma_split_char_single(text: Seq<char>, separator: char)
    requires
        !text.contains(separator),
    ensures
        split_char(text, separator) == seq![text],
    decreases text.len(),
{
    if text.len() == 0 {
        assert(text =~= Seq::<char>::empty());
    } else {
        let shorter = text.drop_last();
        assert(!shorter.contains(separator)) by {
            if shorter.contains(separator) {
                let k = shorter.index_of(separator);
                assert(text[k] == separator);
            }
        }
        assert(text[text.len() - 1] != separator);
        lemma_split_char_single(shorter, separator);
        assert(seq![shorter].drop_last() =~= Seq::<Seq<char>>::empty());
        assert(shorter.push(text.last()) =~= text);
        assert(split_char(text, separator) =~= seq![text]);
    }
}

/// Splitting two texts in a row joins the last piece of the first to the first
/// piece of the second.
pub proof fn lemma_split_char_add(left: Seq<char>, right: Seq<char>, separator: char)
    ensures
        split_char(left + right, separator) == split_char(left, separator).drop_last().push(
            split_char(left, separator).last() + split_char(right, separator)[0],
        ) + split_char(right, separator).drop_first(),
        split_char(left, separator).len() > 0,
        split_char(right, separator).len() > 0,
    decreases right.len(),
{
    lemma_split_char_nonempty(left, separator);
    lemma_split_char_nonempty(right, separator);
    let first = split_char(left, separator);
    let second = split_char(right, separator);
    let all = split_char(left + right, separator);
    let expected = first.drop_last().push(first.last() + second[0]) + second.drop_first();
    if right.len() == 0 {
        assert(left + right =~= left);
        assert(first.last() + second[0] =~= first.last());
        assert(expected =~= first);
    } else {
        let shorter = right.drop_last();
        let c = right.last();
        lemma_split_char_add(left, shorter, separator);
        lemma_split_char_nonempty(shorter, separator);
        assert((left + right).drop_last() =~= left + shorter);
        assert((left + right).last() == c);
        let pieces = split_char(shorter, separator);
        let before = split_char(left + shorter, separator);
        if c == separator {
            assert(second == pieces.push(Seq::empty()));
            assert(second.drop_first() =~= pieces.drop_first().push(Seq::empty()));
            assert(all =~= expected);
        } else {
            assert(second == pieces.drop_last().push(pieces.last().push(c)));
            if pieces.len() == 1 {
                assert(before =~= first.drop_last().push(first.last() + pieces[0]));
                assert((first.last() + pieces[0]).push(c) =~= first.last() + pieces[0].push(c));
                assert(second =~= seq![pieces[0].push(c)]);
                assert(all =~= expected);
            } else {
                assert(before.last() == pieces.last());
                assert(second[0] == pieces[0]);
                assert(all =~= expected);
            }
        }
    }
}

/// The last piece of a text is all of it, or follows the separator.
pub proof fn lemma_split_char_last(text: Seq<char>, separator: char) -> (head: Seq<char>)
    ensures
        text == head + split_char(text, separator).last(),
        head.len() == 0 || head.last() == separator,
        !split_char(text, separator).last().contains(separator),
    decreases text.len(),
{
    lemma_split_char_nonempty(text, separator);
    let last = split_char(text, separator).last();
    if text.len() == 0 {
        let head = Seq::<char>::empty();
        assert(text =~= head + last);
        head
    } else if text.last() == separator {
        assert(last =~= Seq::<char>::empty());
        assert(text =~= text + last);
        text
    } else {
        let shorter = text.drop_last();
        lemma_split_char_nonempty(shorter, separator);
        let head = lemma_split_char_last(shorter, separator);
        let before = split_char(shorter, separator).last();
        assert(last == before.push(text.last()));
        assert(text =~= shorter.push(text.last()));
        assert(text =~= head + last);
        assert(!last.contains(separator)) by {
            if last.contains(separator) {
                let k = last.index_of(separator);
                if k < before.len() {
                    assert(before[k] == separator);
                    assert(before.contains(separator));
                }
            }
        }
        head
    }
}

/// The pieces of `text` between the characters `separator`.
pub fn split_at_char(text: &str, separator: char) -> (pieces: Vec<String>)
    ensures
        views(pieces@) == split_char(text@, separator),
{
    let chars = chars_of(text);
    let mut pieces: Vec<String> = Vec::new();
    let mut current = String::new();
    let mut i: usize = 0;
    assert(text@.take(0) =~= Seq::<char>::empty());
    assert(views(pieces@).push(current@) =~= split_char(text@.take(0), separator));
    while i < chars.len()
        invariant
            i <= chars@.len(),
            chars@ == text@,
            views(pieces@).push(current@) == split_char(text@.take(i as int), separator),
        decreases chars@.len() - i,
    {
        let c = chars[i];
        let ghost before = views(pieces@);
        let ghost piece = current@;
        assert(text@.take(i + 1).drop_last() =~= text@.take(i as int));
        assert(text@.take(i + 1).last() == c);
        if c == separator {
            pieces.push(current);
            current = String::new();
            assert(views(pieces@) =~= before.push(piece));
        } else {
            current.push(c);
            assert(before.push(piece).drop_last() =~= before);
        }
        i = i + 1;
    }
    assert(text@.take(text@.len() as int) =~= text@);
    let ghost before = views(pieces@);
    let ghost piece = current@;
    pieces.push(current);
    assert(views(pieces@) =~= before.push(piece));
    pieces
}

proof fn lemma_first_occurrence(text: Seq<char>, part: Seq<char>, at: int)
    requires
        occurs_at(text, part, at),
        forall|k: int| 0 <= k < at ==> !occurs_at(text, part, k),
    ensures
        first_occurrence(text, part) == at,
        contains_text(text, part),
{
    let first = first_occurrence(text, part);
    assert(occurs_at(text, part, first) && (forall|k: int|
        0 <= k < first ==> !occurs_at(text, part, k)));
    if first < at {
        assert(!occurs_at(text, part, first));
    } else if at < first {
        assert(!occurs_at(text, part, at));
    }
}

proof fn lemma_occurs_in_tail(text: Seq<char>, part: Seq<char>, from: int, at: int)
    requires
        0 <= from <= at <= text.len(),
    ensures
        occurs_at(text, part, at) == occurs_at(text.skip(from), part, at - from),
{
    if at + part.len() <= text.len() {
        assert(text.skip(from).subrange(at - from, at - from + part.len()) =~= text.subrange(
            at,
            at + part.len(),
        ));
    }
}

proof fn lemma_split_step(text: Seq<char>, separator: Seq<char>, start: int, at: int)
    requires
        separator.len() > 0,
        0 <= start <= at,
        occurs_at(text, separator, at),
        forall|k: int| start <= k < at ==> !occurs_at(text, separator, k),
    ensures
        split_text(text.skip(start), separator) == seq![text.subrange(start, at)] + split_text(
            text.skip(at + separator.len()),
            separator,
        ),
{
    reveal(split_text);
    let tail = text.skip(start);
    assert forall|k: int| 0 <= k < at - start implies !occurs_at(tail, separator, k) by {
        lemma_occurs_in_tail(text, separator, start, k + start);
        assert(!occurs_at(text, separator, k + start));
    }
    lemma_occurs_in_tail(text, separator, start, at);
    lemma_first_occurrence(tail, separator, at - start);
    assert(tail.take(at - start) =~= text.subrange(start, at));
    assert(tail.skip(at - start + separator.len()) =~= text.skip(at + separator.len()));
}

proof fn lemma_split_last(text: Seq<char>, separator: Seq<char>, start: int, at: int)
    requires
        0 <= start <= at <= text.len(),
        at + separator.len() > text.len(),
        forall|k: int| start <= k < at ==> !occurs_at(text, separator, k),
    ensures
        split_text(text.skip(start), separator) == seq![text.subrange(start, text.len() as int)],
{
    reveal(split_text);
    let tail = text.skip(start);
    assert forall|k: int| !occurs_at(tail, separator, k) by {
        if occurs_at(tail, separator, k) {
            lemma_occurs_in_tail(text, separator, start, k + start);
            assert(occurs_at(text, separator, k + start));
        }
    }
    assert(tail =~= text.subrange(start, text.len() as int));
}

/// The pieces of `text` between the occurrences of `separator`.
pub fn split_at_text(text: &str, separator: &str) -> (pieces: Vec<String>)
    requires
        separator@.len() > 0,
    ensures
        views(pieces@) == split_text(text@, separator@),
{
    let chars = chars_of(text);
    let wanted = chars_of(separator);
    let mut pieces: Vec<String> = Vec::new();
    let mut start: usize = 0;
    let mut at: usize = 0;
    assert(text@.skip(0) =~= text@);
    assert(views(pieces@) =~= Seq::<Seq<char>>::empty());
    assert(views(pieces@) + split_text(text@.skip(0), separator@) =~= split_text(
        text@,
        separator@,
    ));
    while at < chars.len() && wanted.len() <= chars.len() - at
        invariant
            start <= at <= chars@.len(),
            wanted@.len() > 0,
            chars@ == text@,
            wanted@ == separator@,
            views(pieces@) + split_text(text@.skip(start as int), separator@) == split_text(
                text@,
                separator@,
            ),
            forall|k: int| start <= k < at ==> !occurs_at(text@, separator@, k),
        decreases chars@.len() - at,
    {
        if occurs(&chars, &wanted, at) {
            let ghost before = views(pieces@);
            proof {
                lemma_split_step(text@, separator@, start as int, at as int);
            }
            pieces.push(range_text(&chars, start, at));
            at = at + wanted.len();
            start = at;
            assert(views(pieces@) =~= before.push(pieces@.last()@));
            assert(before.push(pieces@.last()@) + split_text(
                text@.skip(start as int),
                separator@,
            ) =~= before + (seq![pieces@.last()@] + split_text(
                text@.skip(start as int),
                separator@,
            )));
        } else {
            at = at + 1;
        }
    }
    let ghost before = views(pieces@);
    proof {
        lemma_split_last(text@, separator@, start as int, at as int);
    }
    pieces.push(range_text(&chars, start, chars.len()));
    assert(views(pieces@) =~= before.push(pieces@.last()@));
    assert(before.push(pieces@.last()@) =~= before + seq![pieces@.last()@]);
    pieces
}

/// The strings of `list` one after the other, with `separator` between them.
pub fn join_strings(list: &Vec<String>, separator: &str) -> (text: String)
    ensures
        text@ == join_texts(views(list@), separator@),
{
    let mut text = String::new();
    let ghost texts = views(list@);
    let mut i: usize = 0;
    assert(texts.take(0) =~= Seq::<Seq<char>>::empty());
    while i < list.len()
        invariant
            i <= list@.len(),
            texts == views(list@),
            text@ == join_texts(texts.take(i as int), separator@),
        decreases list@.len() - i,
    {
        assert(texts.take(i + 1).drop_last() =~= texts.take(i as int));
        assert(texts.take(i + 1).last() == list@[i as int]@);
        if i > 0 {
            text.append(separator);
        }
        text.append(list[i].as_str());
        proof {
            if i == 0 {
                assert(text@ =~= list@[0]@);
            }
        }
        i = i + 1;
    }
    assert(texts.take(texts.len() as int) =~= texts);
    text
}

// ---------------------------------------------------------------------------
// Decimal numbers
// ---------------------------------------------------------------------------

/// The decimal digit of a number below ten.
pub open spec fn digit_char(value: nat) -> char {
    ((0x30 + value) as u32) as char
}

/// A number in decimal, without leading zeros.
pub open spec fn decimal(value: nat) -> Seq<char>
    decreases value,
{
    if value < 10 {
        seq![digit_char(value)]
    } else {
        decimal(value / 10).push(digit_char(value % 10))
    }
}

/// Whether `c` is one of the ten ASCII digits.
pub open spec fn is_ascii_digit(c: char) -> bool {
    '0' <= c && c <= '9'
}

/// The number that a run of ASCII digits stands for.
pub open spec fn digits_value(text: Seq<char>) -> nat
    decreases text.len(),
{
    if text.len() == 0 {
        0
    } else {
        digits_value(text.drop_last()) * 10 + (text.last() as u32 - 0x30) as nat
    }
}

/// Whether every character is an ASCII digit, and there is at least one.
pub open spec fn is_number(text: Seq<char>) -> bool {
    &&& text.len() > 0
    &&& forall|i: int| 0 <= i < text.len() ==> is_ascii_digit(#[trigger] text[i])
}

/// The digits of a number that may begin with a plus sign.
pub open spec fn without_plus(text: Seq<char>) -> Seq<char> {
    if text.len() > 0 && text[0] == '+' {
        text.drop_first()
    } else {
        text
    }
}

/// The unsigned number that `text` writes in decimal, if it writes one that
/// fits into 64 bits. A leading plus sign is allowed, white space is not.
pub open spec fn parsed_u64(text: Seq<char>) -> Option<u64> {
    let digits = without_plus(text);
    if is_number(digits) && digits_value(digits) <= u64::MAX {
        Some(digits_value(digits) as u64)
    } else {
        None
    }
}

/// A number in decimal.
pub fn decimal_text(value: u64) -> (text: String)
    ensures
        text@ == decimal(value as nat),
    decreases value,
{
    let digit: u8 = (value % 10) as u8;
    let c: char = (0x30 + digit) as char;
    if value < 10 {
        let mut text = String::new();
        text.push(c);
        assert(text@ =~= seq![digit_char(value as nat)]);
        text
    } else {
        let mut text = decimal_text(value / 10);
        text.push(c);
        text
    }
}

proof fn lemma_digits_value_prefix(text: Seq<char>, count: int)
    requires
        0 <= count <= text.len(),
    ensures
        digits_value(text.take(count)) <= digits_value(text),
    decreases text.len(),
{
    if count == text.len() {
        assert(text.take(count) =~= text);
    } else {
        lemma_digits_value_prefix(text.drop_last(), count);
        assert(text.drop_last().take(count) =~= text.take(count));
    }
}

/// The unsigned number that `text` writes in decimal.
pub fn parse_u64(text: &str) -> (number: Option<u64>)
    ensures
        number == parsed_u64(text@),
{
    let chars = chars_of(text);
    let first: usize = if chars.len() > 0 && chars[0] == '+' {
        1
    } else {
        0
    };
    let ghost digits = without_plus(text@);
    assert(digits =~= text@.skip(first as int));
    if first >= chars.len() {
        return None;
    }
    let mut value: u64 = 0;
    let mut i: usize = first;
    assert(digits.take(0) =~= Seq::<char>::empty());
    while i < chars.len()
        invariant
            first <= i <= chars@.len(),
            chars@ == text@,
            digits == text@.skip(first as int),
            digits == without_plus(text@),
            value == digits_value(digits.take(i - first)),
            forall|k: int| 0 <= k < i - first ==> is_ascii_digit(#[trigger] digits[k]),
        decreases chars@.len() - i,
    {
        let c = chars[i];
        assert(digits[i - first] == c);
        if !('0' <= c && c <= '9') {
            return None;
        }
        let digit: u64 = c as u64 - 0x30;
        let ghost next = digits.take(i + 1 - first);
        assert(next.drop_last() =~= digits.take(i - first));
        assert(next.last() == c);
        if value > (u64::MAX - digit) / 10 {
            proof {
                lemma_digits_value_prefix(digits, i + 1 - first);
                assert(value * 10 + digit > u64::MAX);
            }
            return None;
        }
        value = value * 10 + digit;
        i = i + 1;
    }
    assert(digits.take(digits.len() as int) =~= digits);
    Some(value)
}

// ---------------------------------------------------------------------------
// Laws of texts
// ---------------------------------------------------------------------------

/// The characters that are white space, by their code points.
pub proof fn law_white_characters(c: char)
    ensures
        is_white(c) <==> {
            ||| '\t' <= c <= '\r'
            ||| c == ' ' || c == '\u{85}' || c == '\u{A0}' || c == '\u{1680}'
            ||| '\u{2000}' <= c <= '\u{200A}'
            ||| c == '\u{2028}' || c == '\u{2029}' || c == '\u{202F}' || c == '\u{205F}' || c
                == '\u{3000}'
        },
{
}

/// A capital and its small letter have the same lower-case form, which is the
/// small letter; other characters stay.
pub proof fn law_lower_case(c: char)
    ensures
        'A' <= c <= 'Z' ==> ascii_lower(c) as u32 == c as u32 + 32,
        !('A' <= c <= 'Z') ==> ascii_lower(c) == c,
        ascii_lower(ascii_lower(c)) == ascii_lower(c),
{
}

/// A text holds every part that it is made of.
pub proof fn law_part_is_found(left: Seq<char>, part: Seq<char>, right: Seq<char>)
    ensures
        contains_text(left + part + right, part),
{
    let text = left + part + right;
    assert(text.subrange(left.len() as int, (left.len() + part.len()) as int) =~= part);
    assert(occurs_at(text, part, left.len() as int));
}

/// A text is made of every part that it holds, with something before and behind.
pub proof fn law_found_part_is_there(text: Seq<char>, part: Seq<char>) -> (around: (
    Seq<char>,
    Seq<char>,
))
    requires
        contains_text(text, part),
    ensures
        text == around.0 + part + around.1,
{
    let at = choose|at: int| occurs_at(text, part, at);
    let left = text.take(at);
    let right = text.skip(at + part.len());
    assert(text =~= left + part + right) by {
        assert(text.subrange(at, at + part.len()) == part);
        assert(text =~= left + text.subrange(at, at + part.len()) + right);
    }
    (left, right)
}

/// Whether a text is nothing but white space.
pub open spec fn is_blank(text: Seq<char>) -> bool {
    forall|i: int| 0 <= i < text.len() ==> is_white(#[trigger] text[i])
}

/// Trimming takes all white space off the ends of a text, and nothing else.
pub proof fn law_trimming_takes_white_space(
    left: Seq<char>,
    middle: Seq<char>,
    right: Seq<char>,
)
    requires
        is_blank(left),
        is_blank(right),
        middle.len() > 0 ==> !is_white(middle[0]) && !is_white(middle.last()),
    ensures
        trimmed(left + middle + right) == middle,
        trimmed_start(left + middle) == middle,
        trimmed_end(middle + right) == middle,
{
    let from = left.len() as int;
    let text = left + middle + right;
    let start = left + middle;
    let end = middle + right;
    assert forall|k: int| 0 <= k < from implies is_white(#[trigger] start[k]) by {
        assert(start[k] == left[k]);
    }
    lemma_trimmed_start_at(start, from);
    assert(start.skip(from) =~= middle);
    assert forall|k: int| middle.len() <= k < end.len() implies is_white(#[trigger] end[k]) by {
        assert(end[k] == right[k - middle.len()]);
    }
    lemma_trimmed_end_at(end, middle.len() as int);
    assert(end.take(middle.len() as int) =~= middle);
    if middle.len() > 0 {
        assert forall|k: int| 0 <= k < from implies is_white(#[trigger] text[k]) by {
            assert(text[k] == left[k]);
        }
        assert(text[from] == middle[0]);
        lemma_trimmed_start_at(text, from);
        assert(text.skip(from) =~= end);
    } else {
        let whole = text.len() as int;
        assert forall|k: int| 0 <= k < whole implies is_white(#[trigger] text[k]) by {
            if k < from {
                assert(text[k] == left[k]);
            } else {
                assert(text[k] == right[k - from]);
            }
        }
        lemma_trimmed_start_at(text, whole);
        assert(text.skip(whole) =~= Seq::<char>::empty());
        assert(middle =~= Seq::<char>::empty());
    }
}

/// What trimming leaves stands in the text between white space, and has none at
/// its ends.
pub proof fn law_trimmed_text_is_the_middle(text: Seq<char>) -> (around: (Seq<char>, Seq<char>))
    ensures
        text == around.0 + trimmed(text) + around.1,
        is_blank(around.0),
        is_blank(around.1),
        trimmed(text).len() > 0 ==> !is_white(trimmed(text)[0]) && !is_white(trimmed(text).last()),
{
    let from = lemma_trimmed_start_part(text);
    lemma_trimmed_start_white(text);
    let tail = text.skip(from);
    let to = lemma_trimmed_end_part(tail);
    lemma_trimmed_end_white(tail);
    let left = text.take(from);
    let right = tail.skip(to);
    assert(trimmed(text) == tail.take(to));
    assert(text =~= left + tail.take(to) + right);
    assert forall|i: int| 0 <= i < right.len() implies is_white(#[trigger] right[i]) by {
        assert(right[i] == tail[to + i]);
    }
    if to > 0 && to <= tail.len() && tail.len() > 0 {
        assert(tail[0] == text[from]);
    }
    (left, right)
}

/// The pieces of a text with the separator between them are the text again, and
/// none of them holds the separator.
pub proof fn law_pieces_make_up_the_text(text: Seq<char>, separator: char)
    ensures
        join_texts(split_char(text, separator), seq![separator]) == text,
        forall|i: int|
            0 <= i < split_char(text, separator).len() ==> !(#[trigger] split_char(
                text,
                separator,
            )[i]).contains(separator),
        split_char(text, separator).len() > 0,
    decreases text.len(),
{
    lemma_split_char_nonempty(text, separator);
    let between = seq![separator];
    let after = split_char(text, separator);
    if text.len() == 0 {
        assert(after =~= seq![Seq::<char>::empty()]);
        assert(text =~= Seq::<char>::empty());
    } else {
        let shorter = text.drop_last();
        let before = split_char(shorter, separator);
        law_pieces_make_up_the_text(shorter, separator);
        assert forall|i: int| 0 <= i < after.len() implies !(#[trigger] after[i]).contains(
            separator,
        ) by {
            if i < before.len() - 1 || (text.last() == separator && i < before.len()) {
                assert(after[i] == before[i]);
            } else if text.last() != separator {
                assert(!before[before.len() - 1].contains(separator));
                if after[i].contains(separator) {
                    let k = after[i].index_of(separator);
                    assert(before.last()[k] == separator);
                }
            }
        }
        if text.last() == separator {
            assert(after.drop_last() =~= before);
            assert(join_texts(after, between) == join_texts(before, between) + between + Seq::<
                char,
            >::empty());
            assert(join_texts(after, between) =~= text);
        } else {
            assert(after.drop_last() =~= before.drop_last());
            if before.len() == 1 {
                assert(join_texts(before, between) == before[0]);
                assert(after[0] =~= text);
            } else {
                assert(join_texts(before, between) == join_texts(before.drop_last(), between)
                    + between + before.last());
                let start = join_texts(before.drop_last(), between) + between;
                assert(after.last() == before.last().push(text.last()));
                assert(join_texts(after, between) == start + before.last().push(text.last()));
                assert(start + before.last().push(text.last()) =~= (start + before.last()).push(
                    text.last(),
                ));
                assert(shorter.push(text.last()) =~= text);
            }
        }
    }
}

/// The texts of a list and one more are joined with the separator between.
pub proof fn law_joined_texts(list: Seq<Seq<char>>, separator: Seq<char>, text: Seq<char>)
    ensures
        join_texts(list.push(text), separator) == if list.len() == 0 {
            text
        } else {
            join_texts(list, separator) + separator + text
        },
{
    assert(list.push(text).drop_last() =~= list);
}

/// A text that begins with a part and the separator is split behind that part,
/// where the separator stands nowhere earlier; one without the separator is not.
pub proof fn law_text_is_split_at_the_separator(
    part: Seq<char>,
    separator: Seq<char>,
    rest: Seq<char>,
)
    requires
        separator.len() > 0,
        forall|k: int| 0 <= k < part.len() ==> !occurs_at(part + separator + rest, separator, k),
    ensures
        split_text(part + separator + rest, separator) == seq![part] + split_text(rest, separator),
        !contains_text(rest, separator) ==> split_text(rest, separator) == seq![rest],
{
    let text = part + separator + rest;
    let at = part.len() as int;
    assert(text.subrange(at, at + separator.len()) =~= separator);
    assert(text.skip(0) =~= text);
    lemma_split_step(text, separator, 0, at);
    assert(text.subrange(0, at) =~= part);
    assert(text.skip(at + separator.len()) =~= rest);
    reveal(split_text);
}

/// A number is written digit by digit, the last one for what is left over ten.
pub proof fn law_decimal_digits(value: nat, digit: nat)
    requires
        digit < 10,
    ensures
        decimal(digit).len() == 1,
        decimal(digit)[0] as u32 == '0' as u32 + digit,
        value > 0 ==> decimal(value * 10 + digit) == decimal(value) + decimal(digit),
{
    if value > 0 {
        let number = value * 10 + digit;
        assert(number / 10 == value && number % 10 == digit);
        assert(decimal(number) =~= decimal(value) + decimal(digit));
    }
}

proof fn lemma_decimal_is_number(value: nat)
    ensures
        is_number(decimal(value)),
        digits_value(decimal(value)) == value,
        decimal(value)[0] != '+',
    decreases value,
{
    let digit = value % 10;
    let last = digit_char(digit);
    assert(last as u32 == 0x30 + digit);
    if value < 10 {
        assert(decimal(value).drop_last() =~= Seq::<char>::empty());
        assert(digits_value(Seq::<char>::empty()) == 0);
    } else {
        let before = decimal(value / 10);
        lemma_decimal_is_number(value / 10);
        assert(decimal(value).drop_last() =~= before);
        assert(decimal(value)[0] == before[0]);
        assert forall|i: int| 0 <= i < decimal(value).len() implies is_ascii_digit(
            #[trigger] decimal(value)[i],
        ) by {
            if i < before.len() {
                assert(decimal(value)[i] == before[i]);
            }
        }
    }
}

/// A number that is written in decimal is read back, with a plus sign before it
/// too.
pub proof fn law_decimal_is_read_back(value: u64)
    ensures
        parsed_u64(decimal(value as nat)) == Some(value),
        parsed_u64(seq!['+'] + decimal(value as nat)) == Some(value),
{
    let digits = decimal(value as nat);
    lemma_decimal_is_number(value as nat);
    assert((seq!['+'] + digits).drop_first() =~= digits);
}

/// A text with a character that is no digit is no number, but for a plus sign
/// before it; nor is a text without digits.
pub proof fn law_other_texts_are_no_numbers(text: Seq<char>, at: int)
    ensures
        text.len() == 0 ==> parsed_u64(text) is None,
        0 <= at < text.len() && !('0' <= text[at] <= '9') && !(at == 0 && text[0] == '+')
            ==> parsed_u64(text) is None,
{
    if 0 <= at < text.len() && !('0' <= text[at] <= '9') && !(at == 0 && text[0] == '+') {
        let digits = without_plus(text);
        if text[0] == '+' {
            assert(digits[at - 1] == text[at]);
        } else {
            assert(digits[at] == text[at]);
        }
    }
}

/// A text that is there is held, and one that is not there is not; a list of texts holds
/// all of them in their order.
pub proof fn law_texts_are_held(text: String, borrowed: &str, texts: Seq<String>, at: int)
    ensures
        optional_view(Some(text)) == Some(text@),
        optional_view(None) is None,
        optional_str_view(Some(borrowed)) == Some(borrowed@),
        optional_str_view(None) is None,
        views(texts).len() == texts.len(),
        0 <= at < texts.len() ==> views(texts)[at] == texts[at]@,
{
}

} // verus!

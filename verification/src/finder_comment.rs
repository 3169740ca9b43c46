//! The theme line in the comment of an audio file.

use vstd::prelude::*;

use crate::audio_file::UnsupportedFile;
use crate::file_name::AudioSource;
use crate::patterns::{is_labelled, is_labelled_at, is_match, is_theme_tag, THEME_LINE};
use crate::tags::{
    first_comment, first_text, frame_text, frames_without, has_frame, m4a_comment,
    m4a_remove_comments, m4a_set_comment, m4a_texts, mp3_add_comment, mp3_first_comment,
    mp3_frames, mp3_remove, new_mp3_tag, Mp3Comment, Mp3CommentView, Mp3Content, Mp3Frame,
};
use crate::text::{
    ascii_lowered, is_blank, is_white, join_strings, join_texts, law_trimming_takes_white_space,
    lemma_blank_is_white, lemma_join_contains, lemma_split_char_add, lemma_split_char_nonempty,
    lemma_split_char_single, split_at_char, split_char, text_starts_with, trim_end_text,
    trim_start_text, trim_text, trimmed, trimmed_end, trimmed_start, views,
};

verus! {

/// How the theme line began in comments of an earlier form.
pub const THEME_PREFIX: &'static str = "主題歌作品:";

// ---------------------------------------------------------------------------
// Merging a theme line into a comment
// ---------------------------------------------------------------------------

/// Whether a line names the theme: it begins with the prefix, or is a name with
/// the kind of a theme in square brackets.
pub open spec fn is_theme(line: Seq<char>) -> bool {
    let text = trimmed_start(line);
    THEME_PREFIX@.is_prefix_of(text) || is_labelled(text)
}

/// The lines without white space at their ends that then hold something.
pub open spec fn kept_lines(lines: Seq<Seq<char>>) -> Seq<Seq<char>>
    decreases lines.len(),
{
    if lines.len() == 0 {
        Seq::empty()
    } else {
        let line = trimmed_end(lines.last());
        if line.len() == 0 {
            kept_lines(lines.drop_last())
        } else {
            kept_lines(lines.drop_last()).push(line)
        }
    }
}

/// The lines of a comment that hold something. A carriage return before a line
/// feed is white space at the end of its line.
pub open spec fn comment_lines(comment: Seq<char>) -> Seq<Seq<char>> {
    kept_lines(split_char(comment, '\n'))
}

/// The lines with the first theme line replaced by `theme`, or with `theme` as
/// a last line where there is none.
pub open spec fn with_theme(lines: Seq<Seq<char>>, theme: Seq<char>) -> Seq<Seq<char>>
    decreases lines.len(),
{
    if lines.len() == 0 {
        seq![theme]
    } else if is_theme(lines[0]) {
        seq![theme] + lines.drop_first()
    } else {
        seq![lines[0]] + with_theme(lines.drop_first(), theme)
    }
}

/// A comment with its theme line replaced, or added.
pub open spec fn merged_comment(existing: Seq<char>, theme: Seq<char>) -> Seq<char> {
    join_texts(with_theme(comment_lines(existing), theme), "\n"@)
}

/// Whether a line names the theme.
pub fn is_theme_line(line: &str) -> (theme: bool)
    ensures
        theme == is_theme(line@),
{
    let text = trim_start_text(line);
    text_starts_with(text.as_str(), THEME_PREFIX) || is_match(THEME_LINE, text.as_str())
}

fn lines_of(comment: &str) -> (lines: Vec<String>)
    ensures
        views(lines@) == comment_lines(comment@),
{
    let pieces = split_at_char(comment, '\n');
    let ghost texts = views(pieces@);
    let mut lines: Vec<String> = Vec::new();
    let mut i: usize = 0;
    assert(texts.take(0) =~= Seq::<Seq<char>>::empty());
    assert(views(lines@) =~= Seq::<Seq<char>>::empty());
    while i < pieces.len()
        invariant
            i <= pieces@.len(),
            texts == views(pieces@),
            views(lines@) == kept_lines(texts.take(i as int)),
        decreases pieces@.len() - i,
    {
        let line = trim_end_text(pieces[i].as_str());
        let ghost before = views(lines@);
        let ghost text = line@;
        proof {
            assert(texts.take(i + 1).drop_last() =~= texts.take(i as int));
            assert(texts.take(i + 1).last() == pieces@[i as int]@);
        }
        if !line.as_str().is_empty() {
            lines.push(line);
            assert(views(lines@) =~= before.push(text));
        }
        i = i + 1;
    }
    assert(texts.take(texts.len() as int) =~= texts);
    lines
}

proof fn lemma_with_theme_at(lines: Seq<Seq<char>>, theme: Seq<char>, at: int)
    requires
        0 <= at <= lines.len(),
        forall|k: int| 0 <= k < at ==> !is_theme(#[trigger] lines[k]),
        at < lines.len() ==> is_theme(lines[at]),
    ensures
        at < lines.len() ==> with_theme(lines, theme) == lines.update(at, theme),
        at == lines.len() ==> with_theme(lines, theme) == lines.push(theme),
    decreases lines.len(),
{
    if lines.len() == 0 {
        assert(lines.push(theme) =~= seq![theme]);
    } else if at == 0 {
        assert(lines.update(0, theme) =~= seq![theme] + lines.drop_first());
    } else {
        let rest = lines.drop_first();
        assert forall|k: int| 0 <= k < at - 1 implies !is_theme(#[trigger] rest[k]) by {
            assert(rest[k] == lines[k + 1]);
        }
        lemma_with_theme_at(rest, theme, at - 1);
        assert(!is_theme(lines[0]));
        if at < lines.len() {
            assert(lines.update(at, theme) =~= seq![lines[0]] + rest.update(at - 1, theme));
        } else {
            assert(lines.push(theme) =~= seq![lines[0]] + rest.push(theme));
        }
    }
}

/// A comment with its theme line replaced by `theme_value`, or with
/// `theme_value` as a last line where there is none.
pub fn merge_theme_comment(existing: &str, theme_value: &str) -> (comment: String)
    ensures
        comment@ == merged_comment(existing@, theme_value@),
{
    let mut lines = lines_of(existing);
    let ghost texts = views(lines@);
    let mut at: usize = 0;
    while at < lines.len() && !is_theme_line(lines[at].as_str())
        invariant
            at <= lines@.len(),
            texts == views(lines@),
            forall|k: int| 0 <= k < at ==> !is_theme(#[trigger] texts[k]),
        decreases lines@.len() - at,
    {
        at = at + 1;
    }
    proof {
        lemma_with_theme_at(texts, theme_value@, at as int);
    }
    if at < lines.len() {
        lines.set(at, theme_value.to_string());
        assert(views(lines@) =~= texts.update(at as int, theme_value@));
    } else {
        lines.push(theme_value.to_string());
        assert(views(lines@) =~= texts.push(theme_value@));
    }
    join_strings(&lines, "\n")
}

// ---------------------------------------------------------------------------
// Laws of merging
// ---------------------------------------------------------------------------

/// Whether a text is one line of a comment as it is kept: it holds something,
/// does not end in white space, and has no line feed.
pub open spec fn is_kept_line(line: Seq<char>) -> bool {
    &&& line.len() > 0
    &&& trimmed_end(line) == line
    &&& !line.contains('\n')
}

/// Whether every text is one line of a comment as it is kept.
pub open spec fn are_kept_lines(lines: Seq<Seq<char>>) -> bool {
    forall|i: int| 0 <= i < lines.len() ==> is_kept_line(#[trigger] lines[i])
}

proof fn lemma_split_behind_line_feed(head: Seq<char>, tail: Seq<char>)
    requires
        !tail.contains('\n'),
    ensures
        split_char(head + seq!['\n'] + tail, '\n') == split_char(head, '\n').push(tail),
    decreases tail.len(),
{
    let all = head + seq!['\n'] + tail;
    if tail.len() == 0 {
        assert(all =~= head.push('\n'));
        assert(all.drop_last() =~= head);
        assert(tail =~= Seq::<char>::empty());
    } else {
        let shorter = tail.drop_last();
        assert(!shorter.contains('\n')) by {
            if shorter.contains('\n') {
                let k = choose|k: int| 0 <= k < shorter.len() && shorter[k] == '\n';
                assert(tail[k] == '\n');
            }
        }
        assert(tail[tail.len() - 1] != '\n');
        lemma_split_behind_line_feed(head, shorter);
        assert(all.drop_last() =~= head + seq!['\n'] + shorter);
        assert(all.last() == tail.last());
        let before = split_char(head, '\n').push(shorter);
        assert(before.drop_last() =~= split_char(head, '\n'));
        assert(shorter.push(tail.last()) =~= tail);
    }
}

proof fn lemma_split_joined(lines: Seq<Seq<char>>)
    requires
        lines.len() > 0,
        are_kept_lines(lines),
    ensures
        split_char(join_texts(lines, "\n"@), '\n') == lines,
    decreases lines.len(),
{
    reveal_strlit("\n");
    assert("\n"@ =~= seq!['\n']);
    if lines.len() == 1 {
        assert(is_kept_line(lines[0]));
        lemma_split_char_single(lines[0], '\n');
        assert(lines =~= seq![lines[0]]);
    } else {
        let before = lines.drop_last();
        assert forall|i: int| 0 <= i < before.len() implies is_kept_line(#[trigger] before[i]) by {
            assert(before[i] == lines[i]);
        }
        assert(is_kept_line(lines[lines.len() - 1]));
        lemma_split_joined(before);
        lemma_split_behind_line_feed(join_texts(before, "\n"@), lines.last());
        assert(before.push(lines.last()) =~= lines);
    }
}

proof fn lemma_kept_again(lines: Seq<Seq<char>>)
    requires
        are_kept_lines(lines),
    ensures
        kept_lines(lines) == lines,
    decreases lines.len(),
{
    if lines.len() > 0 {
        let before = lines.drop_last();
        assert forall|i: int| 0 <= i < before.len() implies is_kept_line(#[trigger] before[i]) by {
            assert(before[i] == lines[i]);
        }
        assert(is_kept_line(lines[lines.len() - 1]));
        lemma_kept_again(before);
        assert(before.push(lines.last()) =~= lines);
    }
}

proof fn lemma_trimmed_end_again(line: Seq<char>)
    ensures
        trimmed_end(trimmed_end(line)) == trimmed_end(line),
        !line.contains('\n') ==> !trimmed_end(line).contains('\n'),
    decreases line.len(),
{
    if line.len() > 0 && crate::text::is_white(line.last()) {
        let shorter = line.drop_last();
        lemma_trimmed_end_again(shorter);
        if !line.contains('\n') && shorter.contains('\n') {
            let k = choose|k: int| 0 <= k < shorter.len() && shorter[k] == '\n';
            assert(line[k] == '\n');
        }
    }
}

proof fn lemma_pieces_have_no_separator(text: Seq<char>, separator: char)
    ensures
        forall|i: int|
            0 <= i < split_char(text, separator).len() ==> !(#[trigger] split_char(
                text,
                separator,
            )[i]).contains(separator),
    decreases text.len(),
{
    lemma_split_char_nonempty(text, separator);
    if text.len() > 0 {
        let shorter = text.drop_last();
        lemma_pieces_have_no_separator(shorter, separator);
        lemma_split_char_nonempty(shorter, separator);
        let before = split_char(shorter, separator);
        let after = split_char(text, separator);
        assert forall|i: int| 0 <= i < after.len() implies !(#[trigger] after[i]).contains(
            separator,
        ) by {
            if text.last() == separator {
                if i < before.len() {
                    assert(after[i] == before[i]);
                }
            } else if i < before.len() - 1 {
                assert(after[i] == before[i]);
            } else {
                let last = before.last();
                assert(before[before.len() - 1] == last);
                if after[i].contains(separator) {
                    let k = choose|k: int|
                        0 <= k < after[i].len() && after[i][k] == separator;
                    assert(last[k] == separator);
                }
            }
        }
    }
}

proof fn lemma_kept_lines_are_kept(lines: Seq<Seq<char>>)
    requires
        forall|i: int| 0 <= i < lines.len() ==> !(#[trigger] lines[i]).contains('\n'),
    ensures
        are_kept_lines(kept_lines(lines)),
    decreases lines.len(),
{
    if lines.len() > 0 {
        let before = lines.drop_last();
        assert forall|i: int| 0 <= i < before.len() implies !(#[trigger] before[i]).contains(
            '\n',
        ) by {
            assert(before[i] == lines[i]);
        }
        assert(!lines[lines.len() - 1].contains('\n'));
        lemma_kept_lines_are_kept(before);
        lemma_trimmed_end_again(lines.last());
    }
}

proof fn lemma_comment_lines_are_kept(comment: Seq<char>)
    ensures
        are_kept_lines(comment_lines(comment)),
{
    lemma_pieces_have_no_separator(comment, '\n');
    lemma_kept_lines_are_kept(split_char(comment, '\n'));
}

proof fn lemma_with_theme_keeps(lines: Seq<Seq<char>>, theme: Seq<char>)
    requires
        are_kept_lines(lines),
        is_kept_line(theme),
    ensures
        are_kept_lines(with_theme(lines, theme)),
        with_theme(lines, theme).len() > 0,
    decreases lines.len(),
{
    if lines.len() > 0 {
        let rest = lines.drop_first();
        assert forall|i: int| 0 <= i < rest.len() implies is_kept_line(#[trigger] rest[i]) by {
            assert(rest[i] == lines[i + 1]);
        }
        assert(is_kept_line(lines[0]));
        lemma_with_theme_keeps(rest, theme);
        let after = with_theme(lines, theme);
        assert forall|i: int| 0 <= i < after.len() implies is_kept_line(#[trigger] after[i]) by {
            if is_theme(lines[0]) {
                if i > 0 {
                    assert(after[i] == rest[i - 1]);
                }
            } else if i > 0 {
                assert(after[i] == with_theme(rest, theme)[i - 1]);
            }
        }
    }
}

proof fn lemma_with_theme_twice(lines: Seq<Seq<char>>, first: Seq<char>, second: Seq<char>)
    requires
        is_theme(first),
    ensures
        with_theme(with_theme(lines, first), second) == with_theme(lines, second),
    decreases lines.len(),
{
    let once = with_theme(lines, first);
    if lines.len() == 0 {
        assert(once.drop_first() =~= Seq::<Seq<char>>::empty());
        assert(seq![second] + once.drop_first() =~= seq![second]);
    } else if is_theme(lines[0]) {
        assert(once.drop_first() =~= lines.drop_first());
    } else {
        lemma_with_theme_twice(lines.drop_first(), first, second);
        assert(once.drop_first() =~= with_theme(lines.drop_first(), first));
    }
}

/// Merging changes one line: the lines of the merged comment are those of the
/// earlier comment with the theme line replaced, or added at the end.
pub proof fn law_merge_changes_one_line(existing: Seq<char>, theme: Seq<char>)
    requires
        is_kept_line(theme),
    ensures
        comment_lines(merged_comment(existing, theme)) == with_theme(
            comment_lines(existing),
            theme,
        ),
{
    lemma_comment_lines_are_kept(existing);
    lemma_with_theme_keeps(comment_lines(existing), theme);
    let lines = with_theme(comment_lines(existing), theme);
    lemma_split_joined(lines);
    lemma_kept_again(lines);
}

/// A theme that is merged in replaces the theme that was merged in before.
pub proof fn law_merge_replaces_earlier_theme(
    existing: Seq<char>,
    first: Seq<char>,
    second: Seq<char>,
)
    requires
        is_kept_line(first),
        is_theme(first),
    ensures
        merged_comment(merged_comment(existing, first), second) == merged_comment(
            existing,
            second,
        ),
{
    law_merge_changes_one_line(existing, first);
    lemma_with_theme_twice(comment_lines(existing), first, second);
}

/// Merging a theme in a second time changes nothing.
pub proof fn law_merge_idempotent(existing: Seq<char>, theme: Seq<char>)
    requires
        is_kept_line(theme),
        is_theme(theme),
    ensures
        merged_comment(merged_comment(existing, theme), theme) == merged_comment(existing, theme),
{
    law_merge_replaces_earlier_theme(existing, theme, theme);
}

// ---------------------------------------------------------------------------
// The comment of a tag
// ---------------------------------------------------------------------------

/// The text of the first comment among the frames of an ID3 tag.
pub open spec fn mp3_comment_text(frames: Seq<Mp3Frame>) -> Seq<char> {
    match first_comment(frames) {
        Some(comment) => comment.text,
        None => Seq::empty(),
    }
}

/// The frames of an ID3 tag with its comments replaced by `comment`, in the
/// language and with the description of the first of them. A comment of white
/// space alone removes them.
pub open spec fn mp3_with_comment(frames: Seq<Mp3Frame>, comment: Seq<char>) -> Seq<Mp3Frame> {
    let others = frames_without(frames, "COMM"@);
    let first = match first_comment(frames) {
        Some(first) => first,
        None => Mp3CommentView { lang: "jpn"@, description: Seq::empty(), text: Seq::empty() },
    };
    if trimmed(comment).len() == 0 {
        others
    } else {
        others.push(
            Mp3Frame {
                id: "COMM"@,
                content: Mp3Content::Comment(Mp3CommentView { text: comment, ..first }),
            },
        )
    }
}

/// The comment of MPEG-4 metadata.
pub open spec fn m4a_comment_text(texts: Seq<Seq<char>>) -> Seq<char> {
    match first_text(texts) {
        Some(text) => text,
        None => Seq::empty(),
    }
}

/// The comments of MPEG-4 metadata when `comment` replaces them.
pub open spec fn m4a_with_comment(comment: Seq<char>) -> Seq<Seq<char>> {
    if trimmed(comment).len() == 0 {
        Seq::empty()
    } else {
        seq![comment]
    }
}

/// The comment of a file; a tag that cannot be read has none.
pub open spec fn source_comment(source: AudioSource) -> Result<Seq<char>, UnsupportedFile> {
    match source {
        AudioSource::Unsupported(unsupported) => Err(unsupported),
        AudioSource::Mp3(Ok(tag)) => Ok(mp3_comment_text(mp3_frames(tag))),
        AudioSource::Mp3(Err(_)) => Ok(Seq::empty()),
        AudioSource::M4a(Ok(tag)) => Ok(m4a_comment_text(m4a_texts(tag, "©cmt"@))),
        AudioSource::M4a(Err(_)) => Ok(Seq::empty()),
    }
}

/// The comment of an ID3 tag.
pub fn read_mp3_comment(read: &Result<id3::Tag, String>) -> (comment: String)
    ensures
        match read {
            Ok(tag) => comment@ == mp3_comment_text(mp3_frames(*tag)),
            Err(_) => comment@ == Seq::<char>::empty(),
        },
{
    match read {
        Ok(tag) => match mp3_first_comment(tag) {
            Some(comment) => comment.text,
            None => String::new(),
        },
        Err(_) => String::new(),
    }
}

/// The comment of MPEG-4 metadata.
pub fn read_m4a_comment(read: &Result<mp4ameta::Tag, String>) -> (comment: String)
    ensures
        match read {
            Ok(tag) => comment@ == m4a_comment_text(m4a_texts(*tag, "©cmt"@)),
            Err(_) => comment@ == Seq::<char>::empty(),
        },
{
    match read {
        Ok(tag) => match m4a_comment(tag) {
            Some(comment) => comment,
            None => String::new(),
        },
        Err(_) => String::new(),
    }
}

/// The comment of a file.
pub fn read_comment(source: &AudioSource) -> (comment: Result<String, UnsupportedFile>)
    ensures
        match comment {
            Ok(comment) => source_comment(*source) == Ok::<_, UnsupportedFile>(comment@),
            Err(error) => source_comment(*source) == Err::<Seq<char>, _>(error),
        },
{
    match source {
        AudioSource::Unsupported(unsupported) => Err(*unsupported),
        AudioSource::Mp3(read) => Ok(read_mp3_comment(read)),
        AudioSource::M4a(read) => Ok(read_m4a_comment(read)),
    }
}

/// The tag of a file, as it is to be written back.
pub enum AudioTag {
    Mp3(id3::Tag),
    M4a(mp4ameta::Tag),
}

/// Why a comment cannot be put into a tag.
#[derive(Debug, Clone, Copy, PartialEq, Eq, Structural)]
pub enum CommentError {
    Unsupported(UnsupportedFile),
    UnreadableM4a,
}

/// What the user is told of an error.
pub open spec fn comment_error_message(error: CommentError) -> Seq<char> {
    match error {
        CommentError::Unsupported(_) => "mp3 / m4a ファイルのみ対応しています"@,
        CommentError::UnreadableM4a => "failed to read m4a metadata"@,
    }
}

impl CommentError {
    /// What the user is told.
    pub fn message(self) -> (message: &'static str)
        ensures
            message@ == comment_error_message(self),
    {
        match self {
            CommentError::Unsupported(unsupported) => unsupported.message(),
            CommentError::UnreadableM4a => "failed to read m4a metadata",
        }
    }
}

proof fn lemma_comments_are_gone(frames: Seq<Mp3Frame>, id: Seq<char>)
    ensures
        !has_frame(frames_without(frames, id), id),
    decreases frames.len(),
{
    if frames.len() > 0 {
        let rest = frames_without(frames.drop_first(), id);
        lemma_comments_are_gone(frames.drop_first(), id);
        let all = frames_without(frames, id);
        if has_frame(all, id) {
            let i = choose|i: int| 0 <= i < all.len() && (#[trigger] all[i]).id == id;
            if frames[0].id != id {
                if i > 0 {
                    assert(rest[i - 1].id == id);
                }
            } else {
                assert(rest[i].id == id);
            }
        }
    }
}

/// An ID3 tag with its comments replaced by `comment`; a tag that cannot be read
/// counts as one with no frames.
pub fn write_mp3_comment(read: Result<id3::Tag, String>, comment: &str) -> (tag: id3::Tag)
    ensures
        match read {
            Ok(before) => mp3_frames(tag) == mp3_with_comment(mp3_frames(before), comment@),
            Err(_) => mp3_frames(tag) == mp3_with_comment(Seq::empty(), comment@),
        },
{
    let mut tag = match read {
        Ok(tag) => tag,
        Err(_) => new_mp3_tag(),
    };
    let ghost frames = mp3_frames(tag);
    let (lang, description) = match mp3_first_comment(&tag) {
        Some(first) => (first.lang, first.description),
        None => ("jpn".to_string(), String::new()),
    };
    mp3_remove(&mut tag, "COMM");
    proof {
        lemma_comments_are_gone(frames, "COMM"@);
    }
    if !trim_text(comment).as_str().is_empty() {
        proof {
            reveal_strlit("COMM");
            assert(vstd::utf8::is_ascii_chars("COMM"@));
            vstd::utf8::is_ascii_chars_encode_utf8("COMM"@);
        }
        mp3_add_comment(
            &mut tag,
            "COMM",
            Mp3Comment { lang, description, text: comment.to_string() },
        );
    }
    tag
}

/// MPEG-4 metadata with its comments replaced by `comment`.
pub fn write_m4a_comment(read: Result<mp4ameta::Tag, String>, comment: &str) -> (tag: Result<
    mp4ameta::Tag,
    CommentError,
>)
    ensures
        match read {
            Ok(before) => tag matches Ok(after) && {
                &&& m4a_texts(after, "©cmt"@) == m4a_with_comment(comment@)
                &&& forall|ident: Seq<char>|
                    ident != "©cmt"@ ==> #[trigger] m4a_texts(after, ident) == m4a_texts(
                        before,
                        ident,
                    )
            },
            Err(_) => tag == Err::<mp4ameta::Tag, _>(CommentError::UnreadableM4a),
        },
{
    let mut tag = match read {
        Ok(tag) => tag,
        Err(_) => {
            return Err(CommentError::UnreadableM4a);
        },
    };
    m4a_remove_comments(&mut tag);
    if !trim_text(comment).as_str().is_empty() {
        m4a_set_comment(&mut tag, comment);
    }
    Ok(tag)
}

/// Whether `tag` is the tag of a file with its comments replaced by `comment`.
pub open spec fn carries_comment(source: AudioSource, comment: Seq<char>, tag: AudioTag) -> bool {
    match (source, tag) {
        (AudioSource::Mp3(Ok(before)), AudioTag::Mp3(after)) => mp3_frames(after)
            == mp3_with_comment(mp3_frames(before), comment),
        (AudioSource::Mp3(Err(_)), AudioTag::Mp3(after)) => mp3_frames(after)
            == mp3_with_comment(Seq::empty(), comment),
        (AudioSource::M4a(Ok(before)), AudioTag::M4a(after)) => {
            &&& m4a_texts(after, "©cmt"@) == m4a_with_comment(comment)
            &&& forall|ident: Seq<char>|
                ident != "©cmt"@ ==> #[trigger] m4a_texts(after, ident) == m4a_texts(
                    before,
                    ident,
                )
        },
        _ => false,
    }
}

/// The tag of a file with its comments replaced by `comment`. That fails for a
/// file of no supported kind, and for MPEG-4 metadata that cannot be read.
pub fn write_comment(source: AudioSource, comment: &str) -> (tag: Result<AudioTag, CommentError>)
    ensures
        match source {
            AudioSource::Unsupported(unsupported) => tag == Err::<AudioTag, _>(
                CommentError::Unsupported(unsupported),
            ),
            AudioSource::M4a(Err(_)) => tag == Err::<AudioTag, _>(CommentError::UnreadableM4a),
            _ => tag matches Ok(tag) && carries_comment(source, comment@, tag),
        },
{
    match source {
        AudioSource::Unsupported(unsupported) => Err(CommentError::Unsupported(unsupported)),
        AudioSource::Mp3(read) => Ok(AudioTag::Mp3(write_mp3_comment(read, comment))),
        AudioSource::M4a(read) => match write_m4a_comment(read, comment) {
            Ok(tag) => Ok(AudioTag::M4a(tag)),
            Err(error) => Err(error),
        },
    }
}

// ---------------------------------------------------------------------------
// Laws of comments in tags
// ---------------------------------------------------------------------------

/// Whether every comment among the frames stands under `COMM`, as the ID3
/// standard has it.
pub open spec fn comments_are_comm(frames: Seq<Mp3Frame>) -> bool {
    forall|i: int|
        0 <= i < frames.len() && (#[trigger] frames[i]).content is Comment ==> frames[i].id
            == "COMM"@
}

proof fn lemma_no_comment_left(frames: Seq<Mp3Frame>)
    requires
        comments_are_comm(frames),
    ensures
        first_comment(frames_without(frames, "COMM"@)) is None,
    decreases frames.len(),
{
    if frames.len() > 0 {
        let rest = frames.drop_first();
        assert forall|i: int| 0 <= i < rest.len() && (
        #[trigger] rest[i]).content is Comment implies rest[i].id == "COMM"@ by {
            assert(rest[i] == frames[i + 1]);
        }
        lemma_no_comment_left(rest);
        assert(frames[0].content is Comment ==> frames[0].id == "COMM"@);
        let all = frames_without(frames, "COMM"@);
        if frames[0].id != "COMM"@ {
            assert(all.drop_first() =~= frames_without(rest, "COMM"@));
        }
    }
}

proof fn lemma_first_comment_push(frames: Seq<Mp3Frame>, frame: Mp3Frame)
    requires
        first_comment(frames) is None,
    ensures
        frame.content matches Mp3Content::Comment(comment) ==> first_comment(frames.push(frame))
            == Some(comment),
    decreases frames.len(),
{
    let all = frames.push(frame);
    if frames.len() > 0 {
        lemma_first_comment_push(frames.drop_first(), frame);
        assert(all.drop_first() =~= frames.drop_first().push(frame));
        assert(all[0] == frames[0]);
    }
}

proof fn lemma_frame_text_without(frames: Seq<Mp3Frame>, removed: Seq<char>, id: Seq<char>)
    requires
        removed != id,
    ensures
        frame_text(frames_without(frames, removed), id) == frame_text(frames, id),
    decreases frames.len(),
{
    if frames.len() > 0 {
        lemma_frame_text_without(frames.drop_first(), removed, id);
        let all = frames_without(frames, removed);
        if frames[0].id != removed {
            assert(all.drop_first() =~= frames_without(frames.drop_first(), removed));
        }
    }
}

proof fn lemma_frame_text_push(frames: Seq<Mp3Frame>, frame: Mp3Frame, id: Seq<char>)
    requires
        frame.id != id,
    ensures
        frame_text(frames.push(frame), id) == frame_text(frames, id),
    decreases frames.len(),
{
    let all = frames.push(frame);
    if frames.len() > 0 {
        lemma_frame_text_push(frames.drop_first(), frame, id);
        assert(all.drop_first() =~= frames.drop_first().push(frame));
        assert(all[0] == frames[0]);
    } else {
        assert(all.drop_first() =~= Seq::<Mp3Frame>::empty());
        assert(frame_text(all.drop_first(), id) is None);
    }
}

/// What is written as the comment of an ID3 tag is what is read back; a comment
/// of white space alone is read back as none.
pub proof fn law_mp3_comment_is_read_back(frames: Seq<Mp3Frame>, comment: Seq<char>)
    requires
        comments_are_comm(frames),
    ensures
        trimmed(comment).len() > 0 ==> mp3_comment_text(mp3_with_comment(frames, comment))
            == comment,
        trimmed(comment).len() == 0 ==> mp3_comment_text(mp3_with_comment(frames, comment)) == Seq::<
            char,
        >::empty(),
{
    lemma_no_comment_left(frames);
    let others = frames_without(frames, "COMM"@);
    if trimmed(comment).len() > 0 {
        let all = mp3_with_comment(frames, comment);
        lemma_first_comment_push(others, all.last());
    }
}

/// Writing the comment of an ID3 tag leaves its text frames, the title and the
/// artist among them, as they were.
pub proof fn law_mp3_comment_leaves_texts(
    frames: Seq<Mp3Frame>,
    comment: Seq<char>,
    id: Seq<char>,
)
    requires
        id != "COMM"@,
    ensures
        frame_text(mp3_with_comment(frames, comment), id) == frame_text(frames, id),
{
    lemma_frame_text_without(frames, "COMM"@, id);
    if trimmed(comment).len() > 0 {
        let all = mp3_with_comment(frames, comment);
        lemma_frame_text_push(frames_without(frames, "COMM"@), all.last(), id);
    }
}

/// The comment of a file with a tag.
pub open spec fn tag_comment(tag: AudioTag) -> Result<Seq<char>, UnsupportedFile> {
    match tag {
        AudioTag::Mp3(tag) => source_comment(AudioSource::Mp3(Ok(tag))),
        AudioTag::M4a(tag) => source_comment(AudioSource::M4a(Ok(tag))),
    }
}

/// What is written as the comment of a file is what is read back from its tag;
/// a comment of white space alone is read back as none.
pub proof fn law_written_comment_is_read_back(
    source: AudioSource,
    comment: Seq<char>,
    tag: AudioTag,
)
    requires
        carries_comment(source, comment, tag),
        source matches AudioSource::Mp3(Ok(before)) ==> comments_are_comm(mp3_frames(before)),
    ensures
        trimmed(comment).len() > 0 ==> tag_comment(tag) == Ok::<_, UnsupportedFile>(comment),
        trimmed(comment).len() == 0 ==> tag_comment(tag) == Ok::<_, UnsupportedFile>(
            Seq::<char>::empty(),
        ),
{
    match source {
        AudioSource::Mp3(Ok(before)) => {
            law_mp3_comment_is_read_back(mp3_frames(before), comment);
        },
        AudioSource::Mp3(Err(_)) => {
            law_mp3_comment_is_read_back(Seq::empty(), comment);
        },
        _ => {},
    }
}

proof fn lemma_with_theme_has_theme(lines: Seq<Seq<char>>, theme: Seq<char>)
    ensures
        with_theme(lines, theme).contains(theme),
    decreases lines.len(),
{
    let all = with_theme(lines, theme);
    if lines.len() == 0 || is_theme(lines[0]) {
        assert(all[0] == theme);
    } else {
        let rest = with_theme(lines.drop_first(), theme);
        lemma_with_theme_has_theme(lines.drop_first(), theme);
        let k = rest.index_of(theme);
        assert(all[k + 1] == theme);
    }
}

/// A comment that a theme was merged into has it as one of its lines, and is not
/// blank.
pub proof fn law_merged_comment_has_theme(existing: Seq<char>, theme: Seq<char>)
    requires
        is_kept_line(theme),
    ensures
        comment_lines(merged_comment(existing, theme)).contains(theme),
        trimmed(merged_comment(existing, theme)).len() > 0,
{
    let lines = with_theme(comment_lines(existing), theme);
    let merged = merged_comment(existing, theme);
    law_merge_changes_one_line(existing, theme);
    lemma_with_theme_has_theme(comment_lines(existing), theme);
    let c = theme.last();
    assert(theme[theme.len() - 1] == c);
    assert(theme.contains(c));
    assert(!is_white(c)) by {
        if is_white(c) {
            lemma_trimmed_end_len(theme.drop_last());
        }
    }
    lemma_join_contains(lines, "\n"@, theme, c);
    if trimmed(merged).len() == 0 {
        lemma_blank_is_white(merged);
        let k = merged.index_of(c);
        assert(is_white(merged[k]));
    }
}

proof fn lemma_trimmed_end_len(text: Seq<char>)
    ensures
        trimmed_end(text).len() <= text.len(),
    decreases text.len(),
{
    if text.len() > 0 && is_white(text.last()) {
        lemma_trimmed_end_len(text.drop_last());
    }
}

// ---------------------------------------------------------------------------
// Laws of the lines of a comment
// ---------------------------------------------------------------------------

proof fn lemma_kept_add(left: Seq<Seq<char>>, right: Seq<Seq<char>>)
    ensures
        kept_lines(left + right) == kept_lines(left) + kept_lines(right),
    decreases right.len(),
{
    if right.len() == 0 {
        assert(left + right =~= left);
        assert(kept_lines(left) + kept_lines(right) =~= kept_lines(left));
    } else {
        lemma_kept_add(left, right.drop_last());
        assert((left + right).drop_last() =~= left + right.drop_last());
        assert((left + right).last() == right.last());
        assert(kept_lines(left + right) =~= kept_lines(left) + kept_lines(right));
    }
}

/// The lines of a comment are those before a line feed and those behind it.
pub proof fn law_lines_before_and_behind(left: Seq<char>, right: Seq<char>)
    ensures
        comment_lines(left + seq!['\n'] + right) == comment_lines(left) + comment_lines(right),
{
    let feed = seq!['\n'];
    let none = Seq::<char>::empty();
    lemma_split_char_nonempty(left, '\n');
    lemma_split_char_nonempty(right, '\n');
    assert(left + feed =~= left.push('\n'));
    assert((left + feed).drop_last() =~= left);
    let front = split_char(left + feed, '\n');
    assert(front == split_char(left, '\n').push(none));
    lemma_split_char_add(left + feed, right, '\n');
    assert(none + split_char(right, '\n')[0] =~= split_char(right, '\n')[0]);
    assert(front.drop_last() =~= split_char(left, '\n'));
    assert(split_char(left + feed + right, '\n') =~= split_char(left, '\n') + split_char(
        right,
        '\n',
    ));
    lemma_kept_add(split_char(left, '\n'), split_char(right, '\n'));
}

/// A text without line feeds is one line, without the white space at its end; a
/// blank one is none.
pub proof fn law_one_line(text: Seq<char>, after: Seq<char>)
    requires
        !text.contains('\n'),
        !after.contains('\n'),
        is_blank(after),
        text.len() > 0 ==> !is_white(text.last()),
    ensures
        text.len() > 0 ==> comment_lines(text + after) == seq![text],
        text.len() == 0 ==> comment_lines(text + after) == Seq::<Seq<char>>::empty(),
{
    let line = text + after;
    assert(!line.contains('\n')) by {
        if line.contains('\n') {
            let k = line.index_of('\n');
            if k < text.len() {
                assert(text[k] == '\n');
            } else {
                assert(after[k - text.len()] == '\n');
            }
        }
    }
    lemma_split_char_single(line, '\n');
    let pieces = seq![line];
    assert(pieces.drop_last() =~= Seq::<Seq<char>>::empty());
    lemma_trimmed_end_of(text, after);
    assert(kept_lines(pieces.drop_last()) =~= Seq::<Seq<char>>::empty());
    if text.len() > 0 {
        assert(kept_lines(pieces) =~= seq![text]);
    }
}

proof fn lemma_trimmed_end_of(text: Seq<char>, after: Seq<char>)
    requires
        is_blank(after),
        text.len() > 0 ==> !is_white(text.last()),
    ensures
        trimmed_end(text + after) == text,
    decreases after.len(),
{
    if after.len() == 0 {
        assert(text + after =~= text);
    } else {
        let shorter = after.drop_last();
        assert forall|i: int| 0 <= i < shorter.len() implies is_white(#[trigger] shorter[i]) by {
            assert(shorter[i] == after[i]);
        }
        lemma_trimmed_end_of(text, shorter);
        assert((text + after).drop_last() =~= text + shorter);
        assert(is_white(after[after.len() - 1]));
    }
}

/// Whether a line begins, after white space, with the prefix of theme lines.
pub open spec fn has_theme_prefix(line: Seq<char>) -> bool {
    exists|before: Seq<char>, after: Seq<char>|
        is_blank(before) && line == #[trigger] (before + "主題歌作品:"@ + after)
}

/// Whether a line is no theme line by its first and last characters: it does not
/// begin with the prefix, and does not end in a square bracket.
pub open spec fn is_plain_line(line: Seq<char>) -> bool {
    !has_theme_prefix(line) && line.len() > 0 && line.last() != ']'
}

/// Whether a line is this name, this white space, and this kind of a theme in square
/// brackets.
pub open spec fn is_label_line(
    line: Seq<char>,
    name: Seq<char>,
    space: char,
    tag: Seq<char>,
) -> bool {
    &&& line == name + seq![space, '['] + tag + seq![']']
    &&& !is_blank(name) && !name.contains('\n')
    &&& is_white(space)
    &&& ascii_lowered(tag) == seq!['o', 'p'] || ascii_lowered(tag) == seq!['e', 'd']
        || ascii_lowered(tag) == seq!['e', 't', 'c', '.'] || ascii_lowered(tag) == seq![
        'そ',
        'の',
        '他',
    ]
}

/// Whether a line is a name, white space, and the kind of a theme in square
/// brackets.
pub open spec fn has_theme_label(line: Seq<char>) -> bool {
    exists|name: Seq<char>, space: char, tag: Seq<char>| is_label_line(line, name, space, tag)
}

proof fn lemma_trimmed_start_of(line: Seq<char>) -> (before: Seq<char>)
    ensures
        line == before + trimmed_start(line),
        is_blank(before),
        trimmed_start(line).len() > 0 ==> !is_white(trimmed_start(line)[0]),
    decreases line.len(),
{
    if line.len() > 0 && is_white(line[0]) {
        let before = lemma_trimmed_start_of(line.drop_first());
        let longer = seq![line[0]] + before;
        assert(line =~= seq![line[0]] + line.drop_first());
        assert(seq![line[0]] + (before + trimmed_start(line)) =~= longer + trimmed_start(line));
        assert forall|i: int| 0 <= i < longer.len() implies is_white(#[trigger] longer[i]) by {
            if i > 0 {
                assert(longer[i] == before[i - 1]);
            }
        }
        longer
    } else {
        assert(line =~= Seq::<char>::empty() + line);
        Seq::empty()
    }
}

/// A line that neither begins with the prefix nor ends in a square bracket is no
/// theme line.
pub proof fn law_plain_lines_are_no_theme_lines(line: Seq<char>)
    requires
        is_plain_line(line),
    ensures
        !is_theme(line),
{
    let text = trimmed_start(line);
    let before = lemma_trimmed_start_of(line);
    let prefix = "主題歌作品:"@;
    if prefix.is_prefix_of(text) {
        let after = text.skip(prefix.len() as int);
        assert(text =~= prefix + after) by {
            assert(text.subrange(0, prefix.len() as int) =~= prefix);
            assert(text =~= text.subrange(0, prefix.len() as int) + after);
        }
        assert(line =~= before + prefix + after);
    }
    if is_labelled(text) {
        let cut = choose|cut: int| is_labelled_at(text, cut);
        assert(is_labelled_at(text, cut));
        assert(line.last() == text.last());
    }
}

proof fn lemma_trimmed_start_at_prefix(before: Seq<char>, text: Seq<char>)
    requires
        is_blank(before),
        text.len() > 0 ==> !is_white(text[0]),
    ensures
        trimmed_start(before + text) == text,
    decreases before.len(),
{
    if before.len() == 0 {
        assert(before + text =~= text);
    } else {
        let rest = before.drop_first();
        assert(is_white(before[0]));
        assert forall|i: int| 0 <= i < rest.len() implies is_white(#[trigger] rest[i]) by {
            assert(rest[i] == before[i + 1]);
        }
        lemma_trimmed_start_at_prefix(rest, text);
        assert((before + text).drop_first() =~= rest + text);
    }
}

/// A line with the prefix or with the kind of a theme in square brackets is a theme
/// line.
pub proof fn law_theme_lines(line: Seq<char>)
    ensures
        has_theme_prefix(line) ==> is_theme(line),
        has_theme_label(line) ==> is_theme(line),
{
    reveal_strlit("主題歌作品:");
    if has_theme_prefix(line) {
        let prefix = "主題歌作品:"@;
        let (before, after) = choose|before: Seq<char>, after: Seq<char>|
            is_blank(before) && line == #[trigger] (before + "主題歌作品:"@ + after);
        assert(line =~= before + (prefix + after));
        lemma_trimmed_start_at_prefix(before, prefix + after);
        assert((prefix + after).subrange(0, prefix.len() as int) =~= prefix);
    }
    if has_theme_label(line) {
        let (name, space, tag) = choose|name: Seq<char>, space: char, tag: Seq<char>|
            is_label_line(line, name, space, tag);
        let ending = seq![space, '['] + tag + seq![']'];
        let before = lemma_trimmed_start_of(name);
        let bare = trimmed_start(name);
        let text = bare + ending;
        if bare.len() == 0 {
            assert(name =~= before);
        }
        assert(line =~= before + text);
        lemma_trimmed_start_at_prefix(before, text);
        let cut = bare.len() as int;
        assert(text[cut] == ending[0] && text[cut + 1] == ending[1]);
        assert(text.subrange(cut + 2, text.len() - 1) =~= tag);
        reveal_strlit("op");
        reveal_strlit("ed");
        reveal_strlit("etc.");
        reveal_strlit("その他");
        assert("op"@ =~= seq!['o', 'p']);
        assert("ed"@ =~= seq!['e', 'd']);
        assert("etc."@ =~= seq!['e', 't', 'c', '.']);
        assert("その他"@ =~= seq!['そ', 'の', '他']);
        assert(is_theme_tag(tag));
        assert forall|k: int| 0 <= k < cut implies #[trigger] text[k] != '\n' by {
            assert(name[before.len() + k] == bare[k]);
            assert(name.contains(bare[k]));
        }
        assert(is_labelled_at(text, cut));
    }
}

/// Whether a line is surely a theme line, by its characters.
pub open spec fn is_sure_theme_line(line: Seq<char>) -> bool {
    has_theme_prefix(line) || has_theme_label(line)
}

proof fn lemma_first_theme(lines: Seq<Seq<char>>) -> (at: int)
    ensures
        0 <= at <= lines.len(),
        forall|k: int| 0 <= k < at ==> !is_theme(#[trigger] lines[k]),
        at < lines.len() ==> is_theme(lines[at]),
    decreases lines.len(),
{
    if lines.len() == 0 || is_theme(lines[0]) {
        0
    } else {
        let rest = lines.drop_first();
        let at = lemma_first_theme(rest);
        assert forall|k: int| 0 <= k < at + 1 implies !is_theme(#[trigger] lines[k]) by {
            if k > 0 {
                assert(lines[k] == rest[k - 1]);
            }
        }
        at + 1
    }
}

/// Merging leaves every plain line in its place: only a theme line can be replaced,
/// and by the theme alone; and what is added is the theme, as the last line.
pub proof fn law_merging_leaves_other_lines(existing: Seq<char>, theme: Seq<char>)
    requires
        is_kept_line(theme),
    ensures
        ({
            let before = comment_lines(existing);
            let after = comment_lines(merged_comment(existing, theme));
            &&& after.len() == before.len() || after.len() == before.len() + 1
            &&& after.len() == before.len() + 1 ==> after.last() == theme
            &&& forall|i: int|
                0 <= i < before.len() && is_plain_line(#[trigger] before[i]) ==> after[i]
                    == before[i]
            &&& forall|i: int|
                0 <= i < before.len() ==> after[i] == #[trigger] before[i] || after[i] == theme
            &&& forall|line: Seq<char>| #[trigger]
                before.contains(line) && is_plain_line(line) ==> after.contains(line)
            &&& forall|i: int, j: int|
                0 <= i < j < before.len() && after[i] != #[trigger] before[i] ==> after[j]
                    == #[trigger] before[j]
            &&& after.contains(theme)
        }),
{
    let before = comment_lines(existing);
    let after = comment_lines(merged_comment(existing, theme));
    law_merge_changes_one_line(existing, theme);
    let at = lemma_first_theme(before);
    lemma_with_theme_at(before, theme, at);
    assert forall|i: int| 0 <= i < before.len() && is_plain_line(#[trigger] before[i]) implies after[
        i
    ] == before[i] by {
        law_plain_lines_are_no_theme_lines(before[i]);
    }
    assert forall|line: Seq<char>| #[trigger]
        before.contains(line) && is_plain_line(line) implies after.contains(line) by {
        let k = before.index_of(line);
        assert(before[k] == line);
        assert(after[k] == line);
    }
    assert(after[at] == theme);
}

/// A comment of plain lines stays as it is, and the theme is added as its last line.
pub proof fn law_theme_is_added_to_other_comments(existing: Seq<char>, theme: Seq<char>)
    requires
        forall|i: int|
            0 <= i < comment_lines(existing).len() ==> is_plain_line(
                #[trigger] comment_lines(existing)[i],
            ),
    ensures
        is_kept_line(theme) ==> comment_lines(merged_comment(existing, theme)) == comment_lines(
            existing,
        ).push(theme),
        merged_comment(existing, theme) == if comment_lines(existing).len() == 0 {
            theme
        } else {
            join_texts(comment_lines(existing), seq!['\n']) + seq!['\n'] + theme
        },
{
    let lines = comment_lines(existing);
    assert forall|k: int| 0 <= k < lines.len() implies !is_theme(#[trigger] lines[k]) by {
        law_plain_lines_are_no_theme_lines(lines[k]);
    }
    lemma_with_theme_at(lines, theme, lines.len() as int);
    if is_kept_line(theme) {
        law_merge_changes_one_line(existing, theme);
    }
    reveal_strlit("\n");
    assert("\n"@ =~= seq!['\n']);
    assert(lines.push(theme).drop_last() =~= lines);
}

/// The first theme line of a comment is replaced by the theme, where the lines before
/// it are plain.
pub proof fn law_theme_line_is_replaced(existing: Seq<char>, theme: Seq<char>, at: int)
    requires
        0 <= at < comment_lines(existing).len(),
        is_sure_theme_line(comment_lines(existing)[at]),
        forall|i: int|
            0 <= i < at ==> is_plain_line(#[trigger] comment_lines(existing)[i]),
    ensures
        is_kept_line(theme) ==> comment_lines(merged_comment(existing, theme)) == comment_lines(
            existing,
        ).update(at, theme),
        merged_comment(existing, theme) == join_texts(
            comment_lines(existing).update(at, theme),
            seq!['\n'],
        ),
{
    let lines = comment_lines(existing);
    assert forall|k: int| 0 <= k < at implies !is_theme(#[trigger] lines[k]) by {
        law_plain_lines_are_no_theme_lines(lines[k]);
    }
    law_theme_lines(lines[at]);
    lemma_with_theme_at(lines, theme, at);
    if is_kept_line(theme) {
        law_merge_changes_one_line(existing, theme);
    }
    reveal_strlit("\n");
    assert("\n"@ =~= seq!['\n']);
}

// ---------------------------------------------------------------------------
// Laws of what else a tag holds
// ---------------------------------------------------------------------------

proof fn lemma_frames_without_add(left: Seq<Mp3Frame>, right: Seq<Mp3Frame>, id: Seq<char>)
    ensures
        frames_without(left + right, id) == frames_without(left, id) + frames_without(right, id),
    decreases left.len(),
{
    if left.len() == 0 {
        assert(left + right =~= right);
        assert(frames_without(left, id) + frames_without(right, id) =~= frames_without(right, id));
    } else {
        lemma_frames_without_add(left.drop_first(), right, id);
        assert((left + right).drop_first() =~= left.drop_first() + right);
        assert(frames_without(left + right, id) =~= frames_without(left, id) + frames_without(
            right,
            id,
        ));
    }
}

proof fn lemma_frames_without_is_filter(frames: Seq<Mp3Frame>, id: Seq<char>)
    ensures
        frames_without(frames, id) == frames.filter(|frame: Mp3Frame| frame.id != id),
    decreases frames.len(),
{
    reveal(Seq::filter);
    if frames.len() > 0 {
        let last = seq![frames.last()];
        lemma_frames_without_is_filter(frames.drop_last(), id);
        assert(frames =~= frames.drop_last() + last);
        lemma_frames_without_add(frames.drop_last(), last, id);
        assert(last.drop_first() =~= Seq::<Mp3Frame>::empty());
        assert(frames_without(last.drop_first(), id) =~= Seq::<Mp3Frame>::empty());
        if frames.last().id == id {
            assert(frames_without(last, id) =~= Seq::<Mp3Frame>::empty());
        } else {
            assert(frames_without(last, id) =~= last);
        }
        assert(frames_without(frames, id) =~= frames.filter(|frame: Mp3Frame| frame.id != id));
    } else {
        assert(frames_without(frames, id) =~= frames.filter(|frame: Mp3Frame| frame.id != id));
    }
}

/// Writing the comment of an ID3 tag leaves all frames but the comments, in their
/// order. Behind them comes the comment, unless it is blank, in the language and with
/// the description of the first comment that was there, or else in Japanese without
/// one.
pub proof fn law_mp3_comment_leaves_other_frames(frames: Seq<Mp3Frame>, comment: Seq<char>)
    ensures
        ({
            let others = frames.filter(|frame: Mp3Frame| frame.id != seq!['C', 'O', 'M', 'M']);
            let after = mp3_with_comment(frames, comment);
            &&& is_blank(comment) ==> after == others
            &&& !is_blank(comment) ==> after.len() == others.len() + 1 && after.drop_last() == others
                && after.last().id == seq!['C', 'O', 'M', 'M'] && match after.last().content {
                Mp3Content::Comment(written) => {
                    &&& written.text == comment
                    &&& match first_comment(frames) {
                        Some(first) => written.lang == first.lang && written.description
                            == first.description,
                        None => written.lang == seq!['j', 'p', 'n'] && written.description.len()
                            == 0,
                    }
                },
                _ => false,
            }
        }),
{
    reveal_strlit("COMM");
    reveal_strlit("jpn");
    assert("COMM"@ =~= seq!['C', 'O', 'M', 'M']);
    assert("jpn"@ =~= seq!['j', 'p', 'n']);
    lemma_frames_without_is_filter(frames, "COMM"@);
    let after = mp3_with_comment(frames, comment);
    lemma_blank(comment);
    if !is_blank(comment) {
        assert(after.drop_last() =~= frames_without(frames, "COMM"@));
    }
}

proof fn lemma_blank(text: Seq<char>)
    ensures
        is_blank(text) <==> trimmed(text).len() == 0,
{
    if trimmed(text).len() == 0 {
        lemma_blank_is_white(text);
    }
    if is_blank(text) {
        let none = Seq::<char>::empty();
        assert(text =~= text + none + none);
        law_trimming_takes_white_space(text, none, none);
    }
}

/// The comment of MPEG-4 metadata is the one that was written and no other; a blank
/// one leaves none.
pub proof fn law_m4a_comment_is_the_only_one(comment: Seq<char>)
    ensures
        is_blank(comment) ==> m4a_with_comment(comment) == Seq::<Seq<char>>::empty(),
        !is_blank(comment) ==> m4a_with_comment(comment) == seq![comment],
{
    lemma_blank(comment);
}

/// The first comment among frames is that of the first frame that holds one.
pub proof fn law_first_comment(frames: Seq<Mp3Frame>, at: int)
    requires
        0 <= at <= frames.len(),
        forall|i: int| 0 <= i < at ==> !((#[trigger] frames[i]).content is Comment),
        at < frames.len() ==> frames[at].content is Comment,
    ensures
        at == frames.len() ==> mp3_comment_text(frames) == Seq::<char>::empty(),
        at < frames.len() ==> frames[at].content == Mp3Content::Comment(
            first_comment(frames).unwrap(),
        ) && mp3_comment_text(frames) == first_comment(frames).unwrap().text,
    decreases frames.len(),
{
    if at > 0 {
        let rest = frames.drop_first();
        assert(!(frames[0].content is Comment));
        assert forall|i: int| 0 <= i < at - 1 implies !((
        #[trigger] rest[i]).content is Comment) by {
            assert(rest[i] == frames[i + 1]);
        }
        law_first_comment(rest, at - 1);
    }
}

/// Only files of no supported kind have no comment to read, and those of tags that
/// cannot be read are empty.
pub proof fn law_comments_can_be_read(source: AudioSource)
    ensures
        source_comment(source) is Err <==> source is Unsupported,
        source matches AudioSource::Mp3(Err(_)) ==> source_comment(source) == Ok::<
            _,
            UnsupportedFile,
        >(Seq::<char>::empty()),
        source matches AudioSource::M4a(Err(_)) ==> source_comment(source) == Ok::<
            _,
            UnsupportedFile,
        >(Seq::<char>::empty()),
        source matches AudioSource::M4a(Ok(tag)) ==> source_comment(source) == Ok::<
            _,
            UnsupportedFile,
        >(
            if m4a_texts(tag, "©cmt"@).len() > 0 {
                m4a_texts(tag, "©cmt"@)[0]
            } else {
                Seq::empty()
            },
        ),
{
}

// ---------------------------------------------------------------------------
// Laws of theme lines
// ---------------------------------------------------------------------------

/// A line is a theme line where it has the prefix, or the kind of a theme in square
/// brackets, and nowhere else.
pub proof fn law_theme_lines_are_no_others(line: Seq<char>)
    requires
        !line.contains('\n'),
    ensures
        is_theme(line) <==> has_theme_prefix(line) || has_theme_label(line),
{
    law_theme_lines(line);
    let text = trimmed_start(line);
    let before = lemma_trimmed_start_of(line);
    let prefix = "主題歌作品:"@;
    if prefix.is_prefix_of(text) {
        let after = text.skip(prefix.len() as int);
        assert(text =~= prefix + after) by {
            assert(text.subrange(0, prefix.len() as int) =~= prefix);
            assert(text =~= text.subrange(0, prefix.len() as int) + after);
        }
        assert(line =~= before + prefix + after);
    }
    if is_labelled(text) {
        let cut = choose|cut: int| is_labelled_at(text, cut);
        assert(is_labelled_at(text, cut));
        let name = before + text.take(cut);
        let tag = text.subrange(cut + 2, text.len() - 1);
        assert(line =~= name + seq![text[cut], '['] + tag + seq![']']);
        assert(name[before.len() as int] == text[0]);
        assert(!is_white(name[before.len() as int]));
        assert(!name.contains('\n')) by {
            if name.contains('\n') {
                let k = name.index_of('\n');
                assert(line[k] == '\n');
            }
        }
        reveal_strlit("op");
        reveal_strlit("ed");
        reveal_strlit("etc.");
        reveal_strlit("その他");
        assert("op"@ =~= seq!['o', 'p']);
        assert("ed"@ =~= seq!['e', 'd']);
        assert("etc."@ =~= seq!['e', 't', 'c', '.']);
        assert("その他"@ =~= seq!['そ', 'の', '他']);
        assert(is_label_line(line, name, text[cut], tag));
    }
}

/// Merging changes one line: the first with the prefix or with the kind of a theme in
/// square brackets is replaced by the theme, and where there is none the theme is
/// added as the last line.
pub proof fn law_first_theme_line_is_replaced(existing: Seq<char>, theme: Seq<char>, at: int)
    requires
        is_kept_line(theme),
        0 <= at <= comment_lines(existing).len(),
        forall|i: int|
            0 <= i < at ==> !is_sure_theme_line(#[trigger] comment_lines(existing)[i]),
        at < comment_lines(existing).len() ==> is_sure_theme_line(comment_lines(existing)[at]),
    ensures
        comment_lines(merged_comment(existing, theme)) == if at < comment_lines(existing).len() {
            comment_lines(existing).update(at, theme)
        } else {
            comment_lines(existing).push(theme)
        },
{
    let lines = comment_lines(existing);
    lemma_comment_lines_are_kept(existing);
    assert forall|k: int| 0 <= k < at implies !is_theme(#[trigger] lines[k]) by {
        assert(is_kept_line(lines[k]));
        law_theme_lines_are_no_others(lines[k]);
    }
    if at < lines.len() {
        assert(is_kept_line(lines[at]));
        law_theme_lines(lines[at]);
    }
    lemma_with_theme_at(lines, theme, at);
    law_merge_changes_one_line(existing, theme);
}

/// A tag that carries a comment carries it alone, and else what it held before: MPEG-4
/// metadata all texts under other identifiers, and an ID3 tag all frames that are no
/// comments. A tag that could not be read holds nothing else.
pub proof fn law_tags_keep_the_rest(source: AudioSource, comment: Seq<char>, tag: AudioTag)
    requires
        carries_comment(source, comment, tag),
        !is_blank(comment),
    ensures
        tag matches AudioTag::M4a(after) ==> {
            &&& source matches AudioSource::M4a(Ok(before))
            &&& m4a_texts(after, "©cmt"@) == seq![comment]
            &&& forall|ident: Seq<char>|
                ident != "©cmt"@ ==> #[trigger] m4a_texts(after, ident) == m4a_texts(before, ident)
        },
        tag matches AudioTag::Mp3(after) ==> {
            &&& mp3_frames(after).len() > 0
            &&& source matches AudioSource::Mp3(Ok(before)) ==> mp3_frames(after).drop_last()
                == mp3_frames(before).filter(
                |frame: Mp3Frame| frame.id != seq!['C', 'O', 'M', 'M'],
            )
            &&& source matches AudioSource::Mp3(Err(_)) ==> mp3_frames(after).len() == 1
            &&& source is Mp3
            &&& mp3_frames(after).last().content matches Mp3Content::Comment(written)
            &&& written.text == comment
        },
{
    lemma_blank(comment);
    match (source, tag) {
        (AudioSource::Mp3(Ok(before)), AudioTag::Mp3(after)) => {
            law_mp3_comment_leaves_other_frames(mp3_frames(before), comment);
        },
        (AudioSource::Mp3(Err(_)), AudioTag::Mp3(after)) => {
            law_mp3_comment_leaves_other_frames(Seq::empty(), comment);
            assert(frames_without(Seq::empty(), "COMM"@) =~= Seq::<Mp3Frame>::empty());
        },
        _ => {},
    }
}

} // verus!

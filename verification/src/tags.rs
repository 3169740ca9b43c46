//! The tags of audio files: the calls into the `id3` and `mp4ameta` crates.

use id3::frame::{Comment, Content, Frame};
use id3::TagLike;
use vstd::prelude::*;

use crate::text::{byte_len, optional_view};

verus! {

/// An ID3 tag of the `id3` crate.
#[verifier::external_type_specification]
#[verifier::external_body]
pub struct ExMp3Tag(id3::Tag);

/// The metadata of an MPEG-4 file, of the `mp4ameta` crate.
#[verifier::external_type_specification]
#[verifier::external_body]
pub struct ExM4aTag(mp4ameta::Tag);

// ---------------------------------------------------------------------------
// ID3 tags
// ---------------------------------------------------------------------------

/// A comment of an ID3 tag.
#[derive(Debug)]
pub struct Mp3Comment {
    pub lang: String,
    pub description: String,
    pub text: String,
}

/// What a comment of an ID3 tag says.
pub struct Mp3CommentView {
    pub lang: Seq<char>,
    pub description: Seq<char>,
    pub text: Seq<char>,
}

impl View for Mp3Comment {
    type V = Mp3CommentView;

    open spec fn view(&self) -> Mp3CommentView {
        Mp3CommentView {
            lang: self.lang@,
            description: self.description@,
            text: self.text@,
        }
    }
}

/// What a frame of an ID3 tag holds.
pub enum Mp3Content {
    Text(Seq<char>),
    Comment(Mp3CommentView),
    Other,
}

/// A frame of an ID3 tag.
pub struct Mp3Frame {
    pub id: Seq<char>,
    pub content: Mp3Content,
}

/// The frames of a tag, in order.
pub uninterp spec fn mp3_frames(tag: id3::Tag) -> Seq<Mp3Frame>;

/// The text of the first frame with an identifier, if that frame holds text.
pub open spec fn frame_text(frames: Seq<Mp3Frame>, id: Seq<char>) -> Option<Seq<char>>
    decreases frames.len(),
{
    if frames.len() == 0 {
        None
    } else if frames[0].id == id {
        match frames[0].content {
            Mp3Content::Text(text) => Some(text),
            _ => None,
        }
    } else {
        frame_text(frames.drop_first(), id)
    }
}

/// The first comment among the frames.
pub open spec fn first_comment(frames: Seq<Mp3Frame>) -> Option<Mp3CommentView>
    decreases frames.len(),
{
    if frames.len() == 0 {
        None
    } else {
        match frames[0].content {
            Mp3Content::Comment(comment) => Some(comment),
            _ => first_comment(frames.drop_first()),
        }
    }
}

/// Whether some frame has an identifier.
pub open spec fn has_frame(frames: Seq<Mp3Frame>, id: Seq<char>) -> bool {
    exists|i: int| 0 <= i < frames.len() && (#[trigger] frames[i]).id == id
}

/// The frames with another identifier, in order.
pub open spec fn frames_without(frames: Seq<Mp3Frame>, id: Seq<char>) -> Seq<Mp3Frame>
    decreases frames.len(),
{
    if frames.len() == 0 {
        Seq::empty()
    } else if frames[0].id == id {
        frames_without(frames.drop_first(), id)
    } else {
        seq![frames[0]] + frames_without(frames.drop_first(), id)
    }
}

/// `id3::Tag::new`: a tag with no frames.
#[verifier::external_body]
pub(crate) fn new_mp3_tag() -> (tag: id3::Tag)
    ensures
        mp3_frames(tag) == Seq::<Mp3Frame>::empty(),
{
    id3::Tag::new()
}

/// `TagLike::title`: the text of the first `TIT2` frame, if that frame holds
/// text.
#[verifier::external_body]
pub(crate) fn mp3_title(tag: &id3::Tag) -> (title: Option<String>)
    ensures
        optional_view(title) == frame_text(mp3_frames(*tag), "TIT2"@),
{
    tag.title().map(|title| title.to_string())
}

/// `TagLike::artist`: the text of the first `TPE1` frame, if that frame holds
/// text.
#[verifier::external_body]
pub(crate) fn mp3_artist(tag: &id3::Tag) -> (artist: Option<String>)
    ensures
        optional_view(artist) == frame_text(mp3_frames(*tag), "TPE1"@),
{
    tag.artist().map(|artist| artist.to_string())
}

/// The first item of `id3::Tag::comments`: the comments are the frames that
/// hold one, in order and whatever their identifier.
#[verifier::external_body]
pub(crate) fn mp3_first_comment(tag: &id3::Tag) -> (comment: Option<Mp3Comment>)
    ensures
        match comment {
            Some(comment) => first_comment(mp3_frames(*tag)) == Some(comment@),
            None => first_comment(mp3_frames(*tag)) is None,
        },
{
    tag.comments().next().map(
        |comment| Mp3Comment {
            lang: comment.lang.clone(),
            description: comment.description.clone(),
            text: comment.text.clone(),
        },
    )
}

/// `TagLike::remove`: removes all frames with an identifier and keeps the
/// others, in order.
#[verifier::external_body]
pub(crate) fn mp3_remove(tag: &mut id3::Tag, id: &str)
    ensures
        mp3_frames(*final(tag)) == frames_without(mp3_frames(*old(tag)), id@),
{
    let _removed = tag.remove(id);
}

/// `TagLike::add_frame` with a comment under an identifier of four bytes: in a
/// tag with no frame of that identifier, the comment becomes the last frame.
/// Which of the frames of that identifier it would replace is not stated.
#[verifier::external_body]
pub(crate) fn mp3_add_comment(tag: &mut id3::Tag, id: &str, comment: Mp3Comment)
    requires
        byte_len(id@) == 4,
    ensures
        !has_frame(mp3_frames(*old(tag)), id@) ==> mp3_frames(*final(tag)) == mp3_frames(
            *old(tag),
        ).push(Mp3Frame { id: id@, content: Mp3Content::Comment(comment@) }),
{
    let content = Content::Comment(
        Comment { lang: comment.lang, description: comment.description, text: comment.text },
    );
    let _replaced = tag.add_frame(Frame::with_content(id, content));
}

// ---------------------------------------------------------------------------
// MPEG-4 metadata
// ---------------------------------------------------------------------------

/// The texts that the metadata holds under an identifier, in order.
pub uninterp spec fn m4a_texts(tag: mp4ameta::Tag, ident: Seq<char>) -> Seq<Seq<char>>;

/// The first of several texts.
pub open spec fn first_text(texts: Seq<Seq<char>>) -> Option<Seq<char>> {
    if texts.len() > 0 {
        Some(texts[0])
    } else {
        None
    }
}

/// `Userdata::title`: the first text under `©nam`.
#[verifier::external_body]
pub(crate) fn m4a_title(tag: &mp4ameta::Tag) -> (title: Option<String>)
    ensures
        optional_view(title) == first_text(m4a_texts(*tag, "©nam"@)),
{
    tag.title().map(|title| title.to_string())
}

/// `Userdata::artist`: the first text under `©ART`.
#[verifier::external_body]
pub(crate) fn m4a_artist(tag: &mp4ameta::Tag) -> (artist: Option<String>)
    ensures
        optional_view(artist) == first_text(m4a_texts(*tag, "©ART"@)),
{
    tag.artist().map(|artist| artist.to_string())
}

/// `Userdata::album_artist`: the first text under `aART`.
#[verifier::external_body]
pub(crate) fn m4a_album_artist(tag: &mp4ameta::Tag) -> (artist: Option<String>)
    ensures
        optional_view(artist) == first_text(m4a_texts(*tag, "aART"@)),
{
    tag.album_artist().map(|artist| artist.to_string())
}

/// `Userdata::comment`: the first text under `©cmt`.
#[verifier::external_body]
pub(crate) fn m4a_comment(tag: &mp4ameta::Tag) -> (comment: Option<String>)
    ensures
        optional_view(comment) == first_text(m4a_texts(*tag, "©cmt"@)),
{
    tag.comment().map(|comment| comment.to_string())
}

/// `Userdata::remove_comments`: removes what stands under `©cmt`, and nothing
/// else.
#[verifier::external_body]
pub(crate) fn m4a_remove_comments(tag: &mut mp4ameta::Tag)
    ensures
        m4a_texts(*final(tag), "©cmt"@) == Seq::<Seq<char>>::empty(),
        forall|ident: Seq<char>|
            ident != "©cmt"@ ==> #[trigger] m4a_texts(*final(tag), ident) == m4a_texts(
                *old(tag),
                ident,
            ),
{
    tag.remove_comments();
}

/// `Userdata::set_comment`: where no text stands under `©cmt`, the comment
/// becomes the only one; what stands under other identifiers stays. Which of
/// several earlier comments it would replace is not stated.
#[verifier::external_body]
pub(crate) fn m4a_set_comment(tag: &mut mp4ameta::Tag, comment: &str)
    ensures
        m4a_texts(*old(tag), "©cmt"@).len() == 0 ==> m4a_texts(*final(tag), "©cmt"@) == seq![
            comment@,
        ],
        forall|ident: Seq<char>|
            ident != "©cmt"@ ==> #[trigger] m4a_texts(*final(tag), ident) == m4a_texts(
                *old(tag),
                ident,
            ),
{
    tag.set_comment(comment.to_string());
}

/// The text under an identifier is that of the first frame with it, where that frame
/// holds text.
pub proof fn law_first_frame_counts(frames: Seq<Mp3Frame>, id: Seq<char>, at: int)
    requires
        0 <= at <= frames.len(),
        forall|i: int| 0 <= i < at ==> (#[trigger] frames[i]).id != id,
        at < frames.len() ==> frames[at].id == id,
    ensures
        at == frames.len() ==> frame_text(frames, id) is None,
        at < frames.len() ==> (frame_text(frames, id) == match frames[at].content {
            Mp3Content::Text(text) => Some(text),
            _ => None,
        }),
    decreases frames.len(),
{
    if at > 0 {
        let rest = frames.drop_first();
        assert(frames[0].id != id);
        assert forall|i: int| 0 <= i < at - 1 implies (#[trigger] rest[i]).id != id by {
            assert(rest[i] == frames[i + 1]);
        }
        law_first_frame_counts(rest, id, at - 1);
    }
}

} // verus!

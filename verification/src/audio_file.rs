//! The audio files that can carry a theme comment.

use vstd::prelude::*;

use crate::paths::{
    ends_in_name, final_piece, is_usual_path, last_extension, law_final_piece_is_the_name,
    name_extension, path_extension, unix_path, windows_path, PathView,
};
use crate::text::{
    ascii_lower_text, ascii_lowered, lemma_split_char_add, lemma_split_char_last,
    lemma_split_char_nonempty, lemma_split_char_single, optional_str_view, same_text, split_char,
};

verus! {

/// The supported kinds of audio files.
#[derive(Debug, Clone, Copy, PartialEq, Eq, Structural)]
pub enum AudioFileKind {
    Mp3,
    M4a,
}

/// The file is of no supported kind.
#[derive(Debug, Clone, Copy, PartialEq, Eq, Structural)]
pub struct UnsupportedFile;

impl UnsupportedFile {
    /// What the user is told.
    pub fn message(self) -> (message: &'static str)
        ensures
            message@ == "mp3 / m4a ファイルのみ対応しています"@,
    {
        "mp3 / m4a ファイルのみ対応しています"
    }
}

/// The kind of the files with an extension: `mp3` and `m4a`, in any case.
pub open spec fn kind_of_extension(extension: Option<Seq<char>>) -> Result<
    AudioFileKind,
    UnsupportedFile,
> {
    match extension {
        Some(extension) => if ascii_lowered(extension) == "mp3"@ {
            Ok(AudioFileKind::Mp3)
        } else if ascii_lowered(extension) == "m4a"@ {
            Ok(AudioFileKind::M4a)
        } else {
            Err(UnsupportedFile)
        },
        None => Err(UnsupportedFile),
    }
}

/// The kind of the file at a path, by its extension.
pub open spec fn kind_of_path(path: PathView) -> Result<AudioFileKind, UnsupportedFile> {
    kind_of_extension(last_extension(path))
}

/// Whether a path ends in a name whose kind is beyond doubt. In doubt is a name
/// like `.mp3` after a backslash, which Unix takes for the end of a longer name.
pub open spec fn ends_in_certain_name(path: Seq<char>) -> bool {
    let name = final_piece(path);
    &&& ends_in_name(path)
    &&& !path.contains('\\') || name_extension(name) is Some || !name.contains('.')
}

/// Unix and Windows see the same kind of file in a path that ends in a name beyond
/// doubt: that of the name's extension.
pub proof fn law_names_have_one_kind(path: Seq<char>)
    requires
        ends_in_certain_name(path),
    ensures
        is_usual_path(path),
        kind_of_path(unix_path(path)) == kind_of_extension(name_extension(final_piece(path))),
        kind_of_path(windows_path(path)) == kind_of_extension(name_extension(final_piece(path))),
{
    law_final_piece_is_the_name(path);
    let whole = split_char(path, '/').last();
    let name = final_piece(path);
    if whole != name {
        let head = lemma_split_char_last(whole, '\\');
        if head.len() == 0 {
            assert(whole =~= name);
        }
        assert(path.contains('\\')) by {
            let front = lemma_split_char_last(path, '/');
            assert(path[front.len() + head.len() - 1] == '\\');
        }
        let front = split_char(head, '.');
        let back = split_char(name, '.');
        let parts = split_char(whole, '.');
        lemma_split_char_add(head, name, '.');
        assert(parts.len() == front.len() + back.len() - 1);
        if name_extension(name) is Some {
            assert(parts.last() == back.last());
            if parts.len() == 2 {
                assert(parts[0] == front.last() + back[0]);
            }
        } else {
            lemma_split_char_single(name, '.');
            assert(parts.last() == front.last() + name);
            lemma_split_char_nonempty(head.drop_last(), '.');
            assert(front.last() == split_char(head.drop_last(), '.').last().push('\\'));
            let at = front.last().len() - 1;
            assert(parts.last()[at] == '\\');
            lemma_backslash_is_unsupported(parts.last(), at);
        }
    }
}

proof fn lemma_backslash_is_unsupported(extension: Seq<char>, at: int)
    requires
        0 <= at < extension.len(),
        extension[at] == '\\',
    ensures
        kind_of_extension(Some(extension)) == Err::<AudioFileKind, _>(UnsupportedFile),
{
    reveal_strlit("mp3");
    reveal_strlit("m4a");
    let lowered = ascii_lowered(extension);
    assert(lowered[at] == '\\');
    assert(lowered != "mp3"@) by {
        assert("mp3"@ =~= seq!['m', 'p', '3']);
        assert(at < 3 ==> seq!['m', 'p', '3'][at] != '\\');
    }
    assert(lowered != "m4a"@) by {
        assert("m4a"@ =~= seq!['m', '4', 'a']);
        assert(at < 3 ==> seq!['m', '4', 'a'][at] != '\\');
    }
}

/// The kind of the files with an extension.
pub fn detect_extension_kind(extension: Option<&str>) -> (kind: Result<
    AudioFileKind,
    UnsupportedFile,
>)
    ensures
        kind == kind_of_extension(optional_str_view(extension)),
{
    match extension {
        Some(extension) => {
            let lowered = ascii_lower_text(extension);
            if same_text(lowered.as_str(), "mp3") {
                Ok(AudioFileKind::Mp3)
            } else if same_text(lowered.as_str(), "m4a") {
                Ok(AudioFileKind::M4a)
            } else {
                Err(UnsupportedFile)
            }
        },
        None => Err(UnsupportedFile),
    }
}

/// The kind of the audio file at `path`, by its extension. Where Unix and Windows
/// see different ones it is up to the system.
pub fn detect_audio_file_kind(path: &str) -> (kind: Result<AudioFileKind, UnsupportedFile>)
    ensures
        is_usual_path(path@) ==> kind == kind_of_path(unix_path(path@)) || kind == kind_of_path(
            windows_path(path@),
        ),
        ends_in_certain_name(path@) ==> kind == kind_of_extension(
            name_extension(final_piece(path@)),
        ),
{
    proof {
        if ends_in_certain_name(path@) {
            law_names_have_one_kind(path@);
        }
    }
    match path_extension(path) {
        Some(extension) => detect_extension_kind(Some(extension.as_str())),
        None => detect_extension_kind(None),
    }
}

/// Files with the extension `mp3` or `m4a`, in any case, are supported, and no others.
pub proof fn law_supported_extensions(extension: Seq<char>)
    ensures
        kind_of_extension(Some(extension)) == Ok::<_, UnsupportedFile>(AudioFileKind::Mp3)
            <==> extension.len() == 3 && (extension[0] == 'm' || extension[0] == 'M') && (
        extension[1] == 'p' || extension[1] == 'P') && extension[2] == '3',
        kind_of_extension(Some(extension)) == Ok::<_, UnsupportedFile>(AudioFileKind::M4a)
            <==> extension.len() == 3 && (extension[0] == 'm' || extension[0] == 'M')
            && extension[1] == '4' && (extension[2] == 'a' || extension[2] == 'A'),
        kind_of_extension(None) is Err,
{
    reveal_strlit("mp3");
    reveal_strlit("m4a");
    let lowered = ascii_lowered(extension);
    let (mp3, m4a) = (seq!['m', 'p', '3'], seq!['m', '4', 'a']);
    assert("mp3"@ =~= mp3);
    assert("m4a"@ =~= m4a);
    assert(mp3[1] != m4a[1]);
    if lowered == mp3 {
        assert(lowered[0] == 'm' && lowered[1] == 'p' && lowered[2] == '3');
    }
    if lowered == m4a {
        assert(lowered[0] == 'm' && lowered[1] == '4' && lowered[2] == 'a');
    }
    if extension.len() == 3 {
        if lowered[0] == 'm' && lowered[1] == 'p' && lowered[2] == '3' {
            assert(lowered =~= mp3);
        }
        if lowered[0] == 'm' && lowered[1] == '4' && lowered[2] == 'a' {
            assert(lowered =~= m4a);
        }
    }
}

} // verus!

//! Paths of files: their components, names and extensions.
//!
//! What a path names is up to the system. Unix parts it at slashes. Windows parts
//! it at backslashes too, and lets it begin with a drive or with a share of a
//! server. What is stated of a path here holds on both: it is one of the two
//! readings of the path, and where these agree there is no doubt.

use vstd::prelude::*;

use crate::text::{
    ascii_lower, ascii_lowered, law_pieces_make_up_the_text, lemma_split_char_add,
    lemma_split_char_last, lemma_split_char_nonempty, lemma_split_char_single, optional_view,
    split_char, with_replaced,
};

verus! {

// ---------------------------------------------------------------------------
// Reading a path
// ---------------------------------------------------------------------------

/// A path by its components: the drive, or the server and its share, that it
/// begins with; whether it begins at the root; and the names that follow. The
/// name `.` is one of them only where a path begins with it.
#[verifier::ext_equal]
pub struct PathView {
    pub prefix: Seq<Seq<char>>,
    pub rooted: bool,
    pub names: Seq<Seq<char>>,
}

/// Whether a piece of a path names something: empty pieces and `.` do not.
pub open spec fn is_name(piece: Seq<char>) -> bool {
    piece.len() > 0 && piece != "."@
}

/// The pieces that name something.
pub open spec fn names_in(pieces: Seq<Seq<char>>) -> Seq<Seq<char>> {
    pieces.filter(|piece: Seq<char>| is_name(piece))
}

/// A path without a prefix, parted at slashes.
pub open spec fn parted(text: Seq<char>) -> PathView {
    let pieces = split_char(text, '/');
    PathView {
        prefix: Seq::empty(),
        rooted: text.len() > 0 && text[0] == '/',
        names: if pieces[0] == "."@ {
            seq!["."@] + names_in(pieces)
        } else {
            names_in(pieces)
        },
    }
}

/// A path as Unix reads it.
pub open spec fn unix_path(path: Seq<char>) -> PathView {
    parted(path)
}

/// A path with slashes for its backslashes.
pub open spec fn with_slashes(path: Seq<char>) -> Seq<char> {
    with_replaced(path, '\\', '/')
}

/// Whether a path begins with a drive, such as `C:`.
pub open spec fn has_drive(path: Seq<char>) -> bool {
    &&& path.len() >= 2
    &&& path[1] == ':'
    &&& ('a' <= path[0] && path[0] <= 'z') || ('A' <= path[0] && path[0] <= 'Z')
}

/// Whether a path begins with two slashes or backslashes.
pub open spec fn begins_twice(path: Seq<char>) -> bool {
    let text = with_slashes(path);
    text.len() >= 2 && text[0] == '/' && text[1] == '/'
}

/// The pieces of what follows the two slashes that a path begins with.
pub open spec fn share_pieces(path: Seq<char>) -> Seq<Seq<char>> {
    split_char(with_slashes(path).skip(2), '/')
}

/// Whether a path begins with a share of a server, such as `\\server\share`.
/// `\\?\` and `\\.\` begin paths of other kinds.
pub open spec fn has_share(path: Seq<char>) -> bool {
    let pieces = share_pieces(path);
    &&& begins_twice(path)
    &&& pieces.len() >= 2
    &&& is_name(pieces[0]) && pieces[0] != "?"@
    &&& pieces[1].len() > 0
}

/// A path as Windows reads it. Drives are the same in either case.
pub open spec fn windows_path(path: Seq<char>) -> PathView {
    let text = with_slashes(path);
    if has_drive(path) {
        PathView { prefix: seq![ascii_lowered(text.take(2))], ..parted(text.skip(2)) }
    } else if has_share(path) {
        let pieces = share_pieces(path);
        PathView {
            prefix: seq![pieces[0], pieces[1]],
            rooted: true,
            names: names_in(pieces.skip(2)),
        }
    } else {
        parted(text)
    }
}

/// Whether a path is of the usual form: where it begins with two slashes or
/// backslashes, a server and its share follow.
pub open spec fn is_usual_path(path: Seq<char>) -> bool {
    begins_twice(path) ==> has_share(path)
}

// ---------------------------------------------------------------------------
// Names and extensions
// ---------------------------------------------------------------------------

/// The name of the file at a path: the last component, unless that is `.` or
/// `..`.
pub open spec fn last_name(path: PathView) -> Option<Seq<char>> {
    if path.names.len() > 0 && path.names.last() != "."@ && path.names.last() != ".."@ {
        Some(path.names.last())
    } else {
        None
    }
}

/// The extension of a file name: what follows its last dot, unless that
/// dot is the only one and the first character.
pub open spec fn name_extension(name: Seq<char>) -> Option<Seq<char>> {
    let parts = split_char(name, '.');
    if parts.len() > 2 || (parts.len() == 2 && parts[0].len() > 0) {
        Some(parts.last())
    } else {
        None
    }
}

/// The extension of the file at a path.
pub open spec fn last_extension(path: PathView) -> Option<Seq<char>> {
    match last_name(path) {
        Some(name) => name_extension(name),
        None => None,
    }
}

/// The name of a file as it is shown: where the path has none, the path itself.
pub open spec fn name_or(name: Option<Seq<char>>, path: Seq<char>) -> Seq<char> {
    match name {
        Some(name) => name,
        None => path,
    }
}

/// Whether two paths are the same on every system.
pub open spec fn is_same_path(left: Seq<char>, right: Seq<char>) -> bool {
    ||| left == right
    ||| {
        &&& is_usual_path(left) && is_usual_path(right)
        &&& unix_path(left) == unix_path(right)
        &&& windows_path(left) == windows_path(right)
    }
}

/// Whether two paths may be the same on some system.
pub open spec fn may_be_same_path(left: Seq<char>, right: Seq<char>) -> bool {
    is_usual_path(left) && is_usual_path(right) ==> unix_path(left) == unix_path(right)
        || windows_path(left) == windows_path(right)
}

// ---------------------------------------------------------------------------
// What the system says
// ---------------------------------------------------------------------------

/// `Path::extension`: the extension of the last component of a path, which Unix
/// and Windows may see differently. Of paths that are not of the usual form
/// nothing is stated.
#[verifier::external_body]
pub(crate) fn path_extension(path: &str) -> (extension: Option<String>)
    ensures
        is_usual_path(path@) ==> optional_view(extension) == last_extension(unix_path(path@))
            || optional_view(extension) == last_extension(windows_path(path@)),
{
    std::path::Path::new(path).extension().and_then(|value| value.to_str()).map(
        |value| value.to_string(),
    )
}

/// `Path::file_name`: the last component of a path, where that is a name; Unix and
/// Windows may see another one. Of paths that are not of the usual form nothing is
/// stated.
#[verifier::external_body]
fn path_file_name(path: &str) -> (name: Option<String>)
    ensures
        is_usual_path(path@) ==> optional_view(name) == last_name(unix_path(path@))
            || optional_view(name) == last_name(windows_path(path@)),
{
    std::path::Path::new(path).file_name().and_then(|value| value.to_str()).map(
        |value| value.to_string(),
    )
}

/// `Path::eq`: whether two paths have the same components. A path is the same as
/// itself. Which components there are is up to the system, so that nothing is
/// stated of two paths that are the same on Unix and not on Windows, or the other
/// way round, nor of different paths that are not of the usual form.
#[verifier::external_body]
pub(crate) fn same_path(left: &str, right: &str) -> (same: bool)
    ensures
        is_same_path(left@, right@) ==> same,
        same ==> may_be_same_path(left@, right@),
{
    std::path::Path::new(left) == std::path::Path::new(right)
}

/// The name of the file at a path as it is shown.
pub fn shown_file_name(path: &str) -> (name: String)
    ensures
        is_usual_path(path@) ==> name@ == name_or(last_name(unix_path(path@)), path@) || name@
            == name_or(last_name(windows_path(path@)), path@),
{
    match path_file_name(path) {
        Some(name) => name,
        None => path.to_string(),
    }
}

// ---------------------------------------------------------------------------
// Laws
// ---------------------------------------------------------------------------

/// Whether no system takes part of a path for a drive or a share, or for a
/// separator besides the slash.
pub open spec fn is_plain_path(path: Seq<char>) -> bool {
    !path.contains('\\') && !has_drive(path) && !begins_twice(path)
}

/// All systems read a plain path alike.
pub proof fn law_plain_paths_are_read_alike(path: Seq<char>)
    requires
        is_plain_path(path),
    ensures
        is_usual_path(path),
        windows_path(path) == unix_path(path),
{
    assert forall|i: int| 0 <= i < path.len() implies path[i] != '\\' by {
        assert(path.contains(path[i]));
    }
    assert(with_slashes(path) =~= path);
}

/// Two plain paths are the same where they have the same components, and on no
/// system otherwise.
pub proof fn law_plain_paths_are_the_same_everywhere(left: Seq<char>, right: Seq<char>)
    requires
        is_plain_path(left),
        is_plain_path(right),
    ensures
        is_same_path(left, right) <==> unix_path(left) == unix_path(right),
        may_be_same_path(left, right) <==> unix_path(left) == unix_path(right),
{
    law_plain_paths_are_read_alike(left);
    law_plain_paths_are_read_alike(right);
}

/// Separators at the end of a path, and `.` after one, change nothing of what it
/// names on Unix.
pub proof fn law_endings_change_nothing(path: Seq<char>)
    requires
        path.len() > 0,
    ensures
        unix_path(path.push('/')) == unix_path(path),
        unix_path(path + "/."@) == unix_path(path),
{
    reveal(Seq::filter);
    reveal_strlit(".");
    reveal_strlit("/.");
    let dot = seq!['.'];
    assert("."@ =~= dot);
    let pieces = split_char(path, '/');
    lemma_split_char_nonempty(path, '/');
    let slashed = path.push('/');
    assert(slashed.drop_last() =~= path);
    let longer = split_char(slashed, '/');
    assert(longer == pieces.push(Seq::empty()));
    assert(longer.drop_last() =~= pieces);
    assert(names_in(longer) == names_in(pieces));
    let dotted = slashed.push('.');
    assert(path + "/."@ =~= dotted);
    assert(dotted.drop_last() =~= slashed);
    assert(longer.drop_last().push(longer.last().push('.')) =~= pieces.push(dot)) by {
        assert(longer.last().push('.') =~= dot);
    }
    let longest = split_char(dotted, '/');
    assert(longest == pieces.push(dot));
    assert(longest.drop_last() =~= pieces);
    assert(names_in(longest) == names_in(pieces));
}

/// What follows the last slash or backslash of a path.
pub open spec fn final_piece(path: Seq<char>) -> Seq<char> {
    split_char(with_slashes(path), '/').last()
}

/// Whether the last piece of a path names a file, on every system: it is no name
/// of a directory, and no system takes it for part of a drive or a share.
pub open spec fn ends_in_name(path: Seq<char>) -> bool {
    let piece = final_piece(path);
    &&& is_name(piece) && piece != ".."@
    &&& has_drive(path) ==> path.contains('/') || path.contains('\\')
    &&& begins_twice(path) ==> has_share(path) && share_pieces(path).len() > 2
}

/// Where the last piece of a path names a file, it is the name that Windows sees;
/// Unix sees all that follows the last slash.
pub proof fn law_final_piece_is_the_name(path: Seq<char>)
    requires
        ends_in_name(path),
    ensures
        is_usual_path(path),
        last_name(windows_path(path)) == Some(final_piece(path)),
        last_name(unix_path(path)) == Some(split_char(path, '/').last()),
        final_piece(path) == split_char(split_char(path, '/').last(), '\\').last(),
{
    let text = with_slashes(path);
    let piece = final_piece(path);
    let whole = split_char(path, '/').last();
    lemma_final_piece(path);
    lemma_split_char_nonempty(path, '/');
    lemma_split_char_nonempty(text, '/');
    let head = lemma_split_char_last(whole, '\\');
    assert(is_name(whole) && whole != ".."@) by {
        reveal_strlit(".");
        reveal_strlit("..");
        if whole != piece {
            assert(head.len() > 0) by {
                if head.len() == 0 {
                    assert(whole =~= piece);
                }
            }
            assert(whole[head.len() - 1] == '\\');
        }
    }
    lemma_parted_last(path);
    if has_drive(path) {
        let front = text.take(2);
        let rest = text.skip(2);
        assert(text =~= front + rest);
        lemma_split_char_add(front, rest, '/');
        assert(rest.contains('/')) by {
            let k = if path.contains('/') {
                path.index_of('/')
            } else {
                path.index_of('\\')
            };
            assert(text[k] == '/');
            assert(rest[k - 2] == '/');
        }
        lemma_split_char_many(rest, '/');
        lemma_parted_last(rest);
    } else if has_share(path) {
        let front = text.take(2);
        let rest = text.skip(2);
        assert(text =~= front + rest);
        lemma_split_char_add(front, rest, '/');
        let pieces = share_pieces(path);
        assert(pieces.skip(2).last() == piece);
        lemma_names_last(pieces.skip(2));
    } else {
        lemma_parted_last(text);
    }
}

proof fn lemma_names_last(pieces: Seq<Seq<char>>)
    requires
        pieces.len() > 0,
        is_name(pieces.last()),
    ensures
        names_in(pieces).len() > 0,
        names_in(pieces).last() == pieces.last(),
{
    reveal(Seq::filter);
}

proof fn lemma_parted_last(text: Seq<char>)
    requires
        is_name(split_char(text, '/').last()),
        split_char(text, '/').last() != ".."@,
    ensures
        last_name(parted(text)) == Some(split_char(text, '/').last()),
{
    lemma_split_char_nonempty(text, '/');
    lemma_names_last(split_char(text, '/'));
}

proof fn lemma_split_char_many(text: Seq<char>, separator: char)
    requires
        text.contains(separator),
    ensures
        split_char(text, separator).len() > 1,
    decreases text.len(),
{
    let at = text.index_of(separator);
    lemma_split_char_nonempty(text.drop_last(), separator);
    if text.last() != separator {
        assert(text.drop_last()[at] == separator);
        lemma_split_char_many(text.drop_last(), separator);
    }
}

/// What follows the last slash or backslash is what follows the last backslash of
/// what follows the last slash.
proof fn lemma_final_piece(path: Seq<char>)
    ensures
        final_piece(path) == split_char(split_char(path, '/').last(), '\\').last(),
    decreases path.len(),
{
    lemma_split_char_nonempty(path, '/');
    let text = with_slashes(path);
    let whole = split_char(path, '/').last();
    if path.len() == 0 {
        assert(whole =~= Seq::<char>::empty());
        assert(text =~= Seq::<char>::empty());
    } else {
        let shorter = path.drop_last();
        assert(text.drop_last() =~= with_slashes(shorter));
        lemma_final_piece(shorter);
        lemma_split_char_nonempty(shorter, '/');
        lemma_split_char_nonempty(with_slashes(shorter), '/');
        let before = split_char(shorter, '/').last();
        lemma_split_char_nonempty(before, '\\');
        if path.last() == '/' {
            assert(whole =~= Seq::<char>::empty());
        } else {
            assert(whole == before.push(path.last()));
            assert(whole.drop_last() =~= before);
        }
    }
}

/// The extension of a name is what follows its last dot, where something comes before
/// that dot; a name without dots has none, and nor has one whose only dot comes first.
pub proof fn law_extensions(stem: Seq<char>, extension: Seq<char>)
    requires
        !extension.contains('.'),
    ensures
        stem.len() > 0 ==> name_extension(stem + seq!['.'] + extension) == Some(extension),
        name_extension(seq!['.'] + extension) is None,
        name_extension(extension) is None,
{
    let dot = seq!['.'];
    let none = Seq::<char>::empty();
    lemma_split_char_single(extension, '.');
    lemma_split_char_nonempty(stem, '.');
    assert(dot.drop_last() =~= none);
    assert(split_char(none, '.') =~= seq![none]);
    assert(split_char(dot, '.') =~= seq![none, none]);
    lemma_split_char_add(dot, extension, '.');
    let alone = split_char(dot + extension, '.');
    assert(none + extension =~= extension);
    assert(alone =~= seq![none, extension]);
    lemma_split_char_add(stem, dot + extension, '.');
    assert(stem + dot + extension =~= stem + (dot + extension));
    let pieces = split_char(stem + dot + extension, '.');
    let before = split_char(stem, '.');
    assert(before.last() + none =~= before.last());
    assert(pieces =~= before.push(extension));
    if stem.len() > 0 && before.len() == 1 {
        law_pieces_make_up_the_text(stem, '.');
        assert(before[0] == stem);
    }
}

/// The components of a path on Unix are the pieces between its slashes that name
/// something, and a dot where it begins with one.
pub proof fn law_components(left: Seq<char>, name: Seq<char>)
    requires
        left.len() > 0,
        name.len() > 0,
        !name.contains('/'),
        name != seq!['.'],
    ensures
        unix_path(left + seq!['/'] + name).names == unix_path(left).names.push(name),
        unix_path(left + seq!['/'] + name).rooted == (left[0] == '/'),
        unix_path(name).names == seq![name],
        !unix_path(name).rooted,
{
    reveal(Seq::filter);
    reveal_strlit(".");
    assert("."@ =~= seq!['.']);
    let slash = seq!['/'];
    let none = Seq::<char>::empty();
    let whole = left + slash + name;
    lemma_split_char_single(name, '/');
    lemma_split_char_nonempty(left, '/');
    assert(left + slash =~= left.push('/'));
    assert((left + slash).drop_last() =~= left);
    lemma_split_char_add(left + slash, name, '/');
    let front = split_char(left + slash, '/');
    let before = split_char(left, '/');
    assert(front == before.push(none));
    assert(none + name =~= name);
    assert(front.drop_last() =~= before);
    let pieces = split_char(whole, '/');
    assert(pieces =~= before.push(name));
    assert(pieces.drop_last() =~= before);
    assert(names_in(pieces) =~= names_in(before).push(name));
    assert(pieces[0] == before[0]);
    assert(unix_path(whole).names =~= unix_path(left).names.push(name));
    let alone = seq![name];
    assert(alone.drop_last() =~= Seq::<Seq<char>>::empty());
    assert(names_in(alone.drop_last()) =~= Seq::<Seq<char>>::empty());
    assert(names_in(alone) =~= alone);
    assert(name.contains(name[0]));
}

/// A drive stands before the names of a path on Windows: what follows it is parted like a
/// path of its own. A capital names no other drive than the small letter.
pub proof fn law_drives(drive: char, rest: Seq<char>)
    requires
        'a' <= drive <= 'z' || 'A' <= drive <= 'Z',
    ensures
        ({
            let path = windows_path(seq![drive, ':'] + rest);
            &&& path.names == unix_path(with_slashes(rest)).names
            &&& path.rooted == unix_path(with_slashes(rest)).rooted
            &&& path.prefix == seq![seq![ascii_lower(drive), ':']]
        }),
        windows_path(seq![ascii_lower(drive), ':'] + rest) == windows_path(
            seq![drive, ':'] + rest,
        ),
        is_usual_path(seq![drive, ':'] + rest),
{
    lemma_drive(drive, rest);
    lemma_drive(ascii_lower(drive), rest);
}

proof fn lemma_drive(drive: char, rest: Seq<char>)
    requires
        'a' <= drive <= 'z' || 'A' <= drive <= 'Z',
    ensures
        is_usual_path(seq![drive, ':'] + rest),
        windows_path(seq![drive, ':'] + rest) == (PathView {
            prefix: seq![seq![ascii_lower(drive), ':']],
            ..parted(with_slashes(rest))
        }),
{
    let path = seq![drive, ':'] + rest;
    assert(path[0] == drive && path[1] == ':');
    assert(with_slashes(path).skip(2) =~= with_slashes(rest));
    assert(with_slashes(path)[0] == drive);
    assert(ascii_lowered(with_slashes(path).take(2)) =~= seq![ascii_lower(drive), ':']);
}

proof fn lemma_split_at_slash(left: Seq<char>, right: Seq<char>)
    ensures
        split_char(left + seq!['/'] + right, '/') == split_char(left, '/') + split_char(right, '/'),
{
    let ended = left.push('/');
    assert(left + seq!['/'] =~= ended);
    assert(ended.drop_last() =~= left);
    assert(split_char(ended, '/') == split_char(left, '/').push(Seq::empty()));
    lemma_split_char_add(ended, right, '/');
    assert(Seq::empty() + split_char(right, '/')[0] =~= split_char(right, '/')[0]);
    assert(split_char(ended, '/').drop_last() =~= split_char(left, '/'));
    assert(split_char(left + seq!['/'] + right, '/') =~= split_char(left, '/') + split_char(
        right,
        '/',
    ));
}

/// A share of a server stands before the names of a path on Windows, which start at its
/// root.
pub proof fn law_shares(server: Seq<char>, share: Seq<char>, name: Seq<char>)
    requires
        is_name(server) && server != "?"@ && share.len() > 0 && is_name(name),
        forall|i: int|
            0 <= i < server.len() ==> (#[trigger] server[i]) != '/' && server[i] != '\\',
        forall|i: int| 0 <= i < share.len() ==> (#[trigger] share[i]) != '/' && share[i] != '\\',
        forall|i: int| 0 <= i < name.len() ==> (#[trigger] name[i]) != '/' && name[i] != '\\',
    ensures
        ({
            let path = windows_path(
                seq!['\\', '\\'] + server + seq!['\\'] + share + seq!['\\'] + name,
            );
            &&& path.prefix == seq![server, share]
            &&& path.rooted
            &&& path.names == seq![name]
        }),
{
    let text = seq!['\\', '\\'] + server + seq!['\\'] + share + seq!['\\'] + name;
    let rest = server + seq!['/'] + share + seq!['/'] + name;
    assert(with_slashes(text).skip(2) =~= rest);
    assert(!server.contains('/') && !share.contains('/') && !name.contains('/'));
    lemma_split_char_single(server, '/');
    lemma_split_char_single(share, '/');
    lemma_split_char_single(name, '/');
    lemma_split_at_slash(server, share);
    lemma_split_at_slash(server + seq!['/'] + share, name);
    let pieces = share_pieces(text);
    assert(pieces =~= seq![server, share, name]);
    assert(text[0] == '\\' && text[1] == '\\');
    assert(with_slashes(text)[0] == '/' && with_slashes(text)[1] == '/');
    assert(pieces.skip(2) =~= seq![name]);
    reveal(Seq::filter);
    assert(pieces.skip(2).drop_last() =~= Seq::empty());
    assert(names_in(pieces.skip(2)) =~= seq![name]);
}

/// A path without a file name is shown as it is.
pub proof fn law_shown_names(name: Seq<char>, path: Seq<char>)
    ensures
        name_or(Some(name), path) == name,
        name_or(None, path) == path,
{
}

} // verus!

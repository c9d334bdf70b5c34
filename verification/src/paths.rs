//! Slash-separated path names: file names, relative names and the trash folder.
use vstd::prelude::*;
use vstd::string::*;

use crate::text::{from_chars, occurs_at, is_found_at, to_chars};

verus! {

/// The position of the last slash of `path`, or -1 where there is none.
pub open spec fn last_slash(path: Seq<char>) -> int
    decreases path.len(),
{
    if path.len() == 0 {
        -1
    } else if path.last() == '/' {
        path.len() - 1
    } else {
        last_slash(path.drop_last())
    }
}

proof fn last_slash_bounds(path: Seq<char>)
    ensures
        -1 <= last_slash(path) < path.len(),
    decreases path.len(),
{
    if path.len() > 0 && path.last() != '/' {
        last_slash_bounds(path.drop_last());
    }
}

/// The pieces of `path` between its slashes, the empty ones included.
pub open spec fn pieces(path: Seq<char>) -> Seq<Seq<char>>
    decreases path.len(),
    via pieces_decreases
{
    let at = last_slash(path);
    if at < 0 {
        seq![path]
    } else {
        pieces(path.take(at)).push(path.skip(at + 1))
    }
}

#[via_fn]
proof fn pieces_decreases(path: Seq<char>) {
    last_slash_bounds(path);
}

/// Whether a piece of a path names something: it is not empty and not a dot.
pub open spec fn is_named(piece: Seq<char>) -> bool {
    piece.len() > 0 && piece != seq!['.']
}

/// The pieces of `path` that name something.
pub open spec fn components(path: Seq<char>) -> Seq<Seq<char>> {
    pieces(path).filter(|piece: Seq<char>| is_named(piece))
}

/// The final component of `path`, if it has one that is not `..`.
pub open spec fn file_name(path: Seq<char>) -> Option<Seq<char>> {
    let parts = components(path);
    if parts.len() == 0 || parts.last() == seq!['.', '.'] {
        None
    } else {
        Some(parts.last())
    }
}

/// The file name of `path`, or the empty name where it has none.
pub open spec fn base_name_of(path: Seq<char>) -> Seq<char> {
    match file_name(path) {
        Some(name) => name,
        None => Seq::empty(),
    }
}

/// The components of a path follow from its last piece and those before it.
proof fn components_step(path: Seq<char>)
    ensures
        ({
            let at = last_slash(path);
            let piece = path.skip(at + 1);
            let before = if at < 0 {
                Seq::<Seq<char>>::empty()
            } else {
                components(path.take(at))
            };
            components(path) == if is_named(piece) {
                before.push(piece)
            } else {
                before
            }
        }),
{
    last_slash_bounds(path);
    let at = last_slash(path);
    let named = |piece: Seq<char>| is_named(piece);
    reveal_with_fuel(Seq::filter, 2);
    if at < 0 {
        assert(path.skip(0) =~= path);
        assert(pieces(path).drop_last() =~= Seq::empty());
        assert(components(path) =~= if is_named(path) {
            seq![path]
        } else {
            seq![]
        });
    } else {
        let earlier = pieces(path.take(at));
        assert(pieces(path).drop_last() =~= earlier);
        assert(pieces(path).last() == path.skip(at + 1));
    }
}

/// The position of the last slash of `chars[..end]`, plus one.
fn piece_start(chars: &Vec<char>, end: usize) -> (start: usize)
    requires
        end <= chars.len(),
    ensures
        start == last_slash(chars@.take(end as int)) + 1,
        start <= end,
{
    let mut i: usize = end;
    while i > 0
        invariant
            i <= end <= chars.len(),
            last_slash(chars@.take(end as int)) == last_slash(chars@.take(i as int)),
        decreases i,
    {
        assert(chars@.take(i as int).drop_last() =~= chars@.take(i - 1));
        if chars[i - 1] == '/' {
            return i;
        }
        i -= 1;
    }
    0
}

/// The file name of `path`: its final component, or the empty name where the path
/// has no component or ends in `..`.
pub fn base_name(path: &str) -> (out: String)
    ensures
        out@ == base_name_of(path@),
{
    let chars = to_chars(path);
    let mut end: usize = chars.len();
    assert(chars@.take(end as int) =~= path@);
    loop
        invariant
            end <= chars.len(),
            chars@ == path@,
            components(path@) == components(chars@.take(end as int)),
        decreases end,
    {
        let start = piece_start(&chars, end);
        let ghost head = chars@.take(end as int);
        proof {
            components_step(head);
            assert(head.skip(start as int) =~= chars@.subrange(start as int, end as int));
            if start > 0 {
                assert(head.take(start - 1) =~= chars@.take(start - 1));
            }
        }
        let ghost piece = chars@.subrange(start as int, end as int);
        let dot = end - start == 1 && chars[start] == '.';
        assert(dot <==> piece == seq!['.']) by {
            assert(dot ==> piece =~= seq!['.']);
            assert(piece == seq!['.'] ==> piece.len() == 1 && piece[0] == '.');
        }
        if start < end && !dot {
            let up = end - start == 2 && chars[start] == '.' && chars[start + 1] == '.';
            assert(up <==> piece == seq!['.', '.']) by {
                assert(up ==> piece =~= seq!['.', '.']);
                assert(piece == seq!['.', '.'] ==> piece.len() == 2 && piece[0] == '.' && piece[1]
                    == '.');
            }
            if up {
                return String::new();
            }
            return from_chars(&chars, start, end);
        }
        if start == 0 {
            return String::new();
        }
        end = start - 1;
    }
}

/// Whether an absolute path leads into a trash folder.
pub open spec fn in_trash(path: Seq<char>) -> bool {
    exists|at: int| #[trigger] occurs_at("/_trash_"@, path, at)
}

/// Whether an absolute path leads into a trash folder.
pub fn leads_into_trash(path: &str) -> (out: bool)
    ensures
        out == in_trash(path@),
{
    let chars = to_chars(path);
    let mark = to_chars("/_trash_");
    let mut at: usize = 0;
    while at < chars.len()
        invariant
            chars@ == path@,
            mark@ == "/_trash_"@,
            at <= chars.len(),
            forall|k: int| 0 <= k < at ==> !#[trigger] occurs_at(mark@, path@, k),
        decreases chars.len() - at,
    {
        if is_found_at(&mark, &chars, at) {
            return true;
        }
        at += 1;
    }
    proof {
        reveal_strlit("/_trash_");
    }
    false
}

/// `path` without `prefix` at its start.
pub open spec fn stripped(prefix: Seq<char>, path: Seq<char>) -> Option<Seq<char>> {
    if prefix.is_prefix_of(path) {
        Some(path.skip(prefix.len() as int))
    } else {
        None
    }
}

/// The name of `path` relative to the folder `root`, with or without a slash at the end of
/// `root`; a path outside `root` keeps its name.
pub open spec fn relative_to(root: Seq<char>, path: Seq<char>) -> Seq<char> {
    match stripped(root.push('/'), path) {
        Some(rel) => rel,
        None => if root.len() > 0 && root.last() == '/' {
            match stripped(root, path) {
                Some(rel) => rel,
                None => path,
            }
        } else {
            path
        },
    }
}

fn strip(prefix: &Vec<char>, chars: &Vec<char>) -> (out: Option<String>)
    ensures
        match out {
            Some(rel) => stripped(prefix@, chars@) == Some(rel@),
            None => stripped(prefix@, chars@) is None,
        },
{
    if is_found_at(prefix, chars, 0) {
        assert(prefix@.is_prefix_of(chars@));
        Some(from_chars(chars, prefix.len(), chars.len()))
    } else {
        assert(!prefix@.is_prefix_of(chars@)) by {
            if prefix@.is_prefix_of(chars@) {
                assert(chars@.subrange(0, prefix@.len() as int) =~= prefix@);
            }
        }
        None
    }
}

/// The name under which the file at `path` is synchronised with the folder `root`;
/// none for a file in a trash folder.
pub fn relative_path(root: &str, path: &str) -> (out: Option<String>)
    ensures
        out is None <==> in_trash(path@),
        out matches Some(rel) ==> rel@ == relative_to(root@, path@),
{
    if leads_into_trash(path) {
        return None;
    }
    let folder = to_chars(root);
    let mut prefix = to_chars(root);
    prefix.push('/');
    let chars = to_chars(path);
    match strip(&prefix, &chars) {
        Some(rel) => Some(rel),
        None => {
            if folder.len() > 0 && folder[folder.len() - 1] == '/' {
                match strip(&folder, &chars) {
                    Some(rel) => Some(rel),
                    None => Some(path.to_string()),
                }
            } else {
                Some(path.to_string())
            }
        },
    }
}

/// The name of the trash folder of the run with the given timestamp.
pub open spec fn trash_folder(timestamp: Seq<char>) -> Seq<char> {
    "_trash_"@ + timestamp
}

/// The name of the trash folder of the run with the given timestamp.
pub fn trash_folder_name(timestamp: &str) -> (out: String)
    ensures
        out@ == trash_folder(timestamp@),
{
    let mut out = String::new();
    out.append("_trash_");
    out.append(timestamp);
    assert(out@ =~= trash_folder(timestamp@));
    out
}

/// A file below the root is indexed under the name that leads back to it.
pub proof fn relative_undoes_join(root: Seq<char>, rel: Seq<char>)
    ensures
        relative_to(root, root.push('/') + rel) == rel,
{
    let path = root.push('/') + rel;
    assert(root.push('/').is_prefix_of(path));
    assert(path.skip(root.push('/').len() as int) =~= rel);
}

/// The same holds where the root is written with a slash at its end.
pub proof fn relative_undoes_join_to_slash(root: Seq<char>, rel: Seq<char>)
    requires
        rel.len() > 0 ==> rel[0] != '/',
    ensures
        relative_to(root.push('/'), root.push('/') + rel) == rel,
{
    let folder = root.push('/');
    let path = folder + rel;
    assert(folder.is_prefix_of(path));
    assert(path.skip(folder.len() as int) =~= rel);
    let prefix = folder.push('/');
    assert(!prefix.is_prefix_of(path)) by {
        if prefix.is_prefix_of(path) {
            assert(path[folder.len() as int] == prefix[folder.len() as int]);
        }
    }
}

/// What a run puts into its trash folder lies in a trash folder for every later
/// scan, and so is never synchronised again.
pub proof fn trashed_files_are_skipped(root: Seq<char>, timestamp: Seq<char>, rel: Seq<char>)
    ensures
        in_trash(root.push('/') + trash_folder(timestamp).push('/') + rel),
{
    reveal_strlit("/_trash_");
    reveal_strlit("_trash_");
    let path = root.push('/') + trash_folder(timestamp).push('/') + rel;
    let at = root.len() as int;
    assert(path.subrange(at, at + "/_trash_"@.len()) =~= "/_trash_"@);
    assert(occurs_at("/_trash_"@, path, at));
}

proof fn slash_before_name(dir: Seq<char>, name: Seq<char>)
    requires
        !name.contains('/'),
    ensures
        last_slash(dir.push('/') + name) == dir.len(),
        last_slash(name) == -1,
    decreases name.len(),
{
    let path = dir.push('/') + name;
    if name.len() > 0 {
        let shorter = name.drop_last();
        assert(name.contains(name[name.len() - 1]));
        assert(!shorter.contains('/')) by {
            if shorter.contains('/') {
                let i = choose|i: int| 0 <= i < shorter.len() && shorter[i] == '/';
                assert(name[i] == '/');
            }
        }
        slash_before_name(dir, shorter);
        assert(path.drop_last() =~= dir.push('/') + shorter);
        assert(path.last() == name.last());
    } else {
        assert(path =~= dir.push('/'));
    }
}

/// A file is named by what follows the last slash of its path, or by the whole path where
/// there is none.
pub proof fn name_follows_last_slash(dir: Seq<char>, name: Seq<char>)
    requires
        name.len() > 0,
        !name.contains('/'),
        name != seq!['.'],
        name != seq!['.', '.'],
    ensures
        base_name_of(dir.push('/') + name) == name,
        base_name_of(name) == name,
{
    let path = dir.push('/') + name;
    slash_before_name(dir, name);
    components_step(path);
    components_step(name);
    assert(path.skip(dir.len() as int + 1) =~= name);
    assert(name.skip(0) =~= name);
}

/// A slash at the end of a path does not change its name, nor does a dot behind it.
pub proof fn slash_and_dot_name_nothing(path: Seq<char>)
    ensures
        base_name_of(path.push('/')) == base_name_of(path),
        base_name_of(path.push('/').push('.')) == base_name_of(path),
{
    let none = Seq::<char>::empty();
    let dot = seq!['.'];
    slash_before_name(path, none);
    slash_before_name(path, dot);
    components_step(path.push('/'));
    components_step(path.push('/').push('.'));
    assert(path.push('/') + none =~= path.push('/'));
    assert(path.push('/') + dot =~= path.push('/').push('.'));
    assert(path.push('/').take(path.len() as int) =~= path);
    assert(path.push('/').push('.').take(path.len() as int) =~= path);
    assert(path.push('/').skip(path.len() as int + 1) =~= none);
    assert(path.push('/').push('.').skip(path.len() as int + 1) =~= dot);
}

/// A path that leads to the folder above, to the folder itself or nowhere has no name.
pub proof fn some_paths_have_no_name(dir: Seq<char>)
    ensures
        base_name_of(dir.push('/') + seq!['.', '.']) == Seq::<char>::empty(),
        base_name_of(seq!['.', '.']) == Seq::<char>::empty(),
        base_name_of(seq!['.']) == Seq::<char>::empty(),
        base_name_of(Seq::empty()) == Seq::<char>::empty(),
{
    let up = seq!['.', '.'];
    let none = Seq::<char>::empty();
    assert(up.len() == 2 && up[0] == '.' && seq!['.'].len() == 1);
    slash_before_name(dir, up);
    slash_before_name(dir, seq!['.']);
    components_step(dir.push('/') + up);
    components_step(up);
    components_step(seq!['.']);
    components_step(none);
    assert((dir.push('/') + up).skip(dir.len() as int + 1) =~= up);
    assert(up.skip(0) =~= up);
    assert(seq!['.'].skip(0) =~= seq!['.']);
    assert(none.skip(0) =~= none);
}

/// A path leads into a trash folder exactly if it can be cut so that the middle is the slash
/// and the beginning of such a folder's name.
pub proof fn trash_is_told_by_its_name(path: Seq<char>)
    ensures
        in_trash(path) <==> exists|before: Seq<char>, after: Seq<char>|
            path == #[trigger] (before + "/_trash_"@ + after),
{
    let mark = "/_trash_"@;
    if in_trash(path) {
        let at = choose|at: int| #[trigger] occurs_at(mark, path, at);
        let before = path.take(at);
        let after = path.skip(at + mark.len());
        assert forall|k: int| 0 <= k < mark.len() implies path[at + k] == mark[k] by {
            assert(path.subrange(at, at + mark.len())[k] == mark[k]);
        }
        assert(path =~= before + mark + after);
    }
    if exists|before: Seq<char>, after: Seq<char>| path == #[trigger] (before + mark + after) {
        let (before, after) = choose|before: Seq<char>, after: Seq<char>|
            path == #[trigger] (before + mark + after);
        let at = before.len() as int;
        assert(path.subrange(at, at + mark.len()) =~= mark);
        assert(occurs_at(mark, path, at));
    }
}

/// A path outside the folder keeps its name.
pub proof fn outside_paths_keep_their_names(root: Seq<char>, path: Seq<char>)
    requires
        !root.push('/').is_prefix_of(path),
        !(root.len() > 0 && root.last() == '/' && root.is_prefix_of(path)),
    ensures
        relative_to(root, path) == path,
{
}

/// The name of a trash folder is a mark that all of them share, and then the timestamp.
pub proof fn trash_folder_is_marked_and_dated(timestamp: Seq<char>)
    ensures
        trash_folder(timestamp) == "_trash_"@ + timestamp,
        trash_folder(timestamp).skip("_trash_"@.len() as int) == timestamp,
{
    assert(trash_folder(timestamp).skip("_trash_"@.len() as int) =~= timestamp);
}

} // verus!

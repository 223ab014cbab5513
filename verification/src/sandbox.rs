//! Keeping requested paths inside the workspace.
//!
//! A path is handled as the sequence of its components.  Resolving links on
//! disk is the caller's part; what is decided here is which requests are
//! looked at in the first place and which resolved paths are let through.

use crate::limiter::lemma_filter_push;
use crate::text::{chars_eq, from_chars, lemma_leading_unique, slice_chars, strip_leading, to_chars};
use vstd::prelude::*;

verus! {

pub open spec fn is_slash(c: char) -> bool {
    c == '/'
}

/// The pieces of `s` between separators; `n` separators give `n + 1` pieces.
pub open spec fn split(s: Seq<char>, sep: char) -> Seq<Seq<char>>
    decreases s.len(),
{
    if s.len() == 0 {
        seq![Seq::<char>::empty()]
    } else if s.last() == sep {
        split(s.drop_last(), sep).push(Seq::empty())
    } else {
        let parts = split(s.drop_last(), sep);
        parts.drop_last().push(parts.last().push(s.last()))
    }
}

/// The views of a list of character vectors.
pub open spec fn pieces_of(parts: Seq<Vec<char>>) -> Seq<Seq<char>> {
    parts.map_values(|p: Vec<char>| p@)
}

/// Splits `v` at every `sep`.
pub fn split_chars(v: &Vec<char>, sep: char) -> (r: Vec<Vec<char>>)
    ensures
        pieces_of(r@) == split(v@, sep),
{
    let mut done: Vec<Vec<char>> = Vec::new();
    let mut current: Vec<char> = Vec::new();
    let mut i: usize = 0;
    proof {
        assert(v@.take(0) =~= Seq::<char>::empty());
        assert(pieces_of(done@).push(current@) =~= seq![Seq::<char>::empty()]);
    }
    while i < v.len()
        invariant
            i <= v.len(),
            pieces_of(done@).push(current@) == split(v@.take(i as int), sep),
        decreases v.len() - i,
    {
        let c = v[i];
        let ghost before = pieces_of(done@).push(current@);
        proof {
            assert(v@.take(i + 1).drop_last() =~= v@.take(i as int));
            assert(v@.take(i + 1).last() == c);
            assert(before.drop_last() =~= pieces_of(done@));
        }
        if c == sep {
            let ghost prev = done@;
            done.push(current);
            current = Vec::new();
            proof {
                assert(pieces_of(done@) =~= before);
                assert(current@ =~= Seq::<char>::empty());
            }
        } else {
            current.push(c);
        }
        i = i + 1;
    }
    proof {
        assert(v@.take(v.len() as int) =~= v@);
    }
    let ghost prev = done@;
    done.push(current);
    proof {
        assert(pieces_of(done@) =~= pieces_of(prev).push(current@));
    }
    done
}

/// Whether a piece of a path names something: it is neither empty nor `.`.
pub open spec fn is_component(piece: Seq<char>) -> bool {
    piece.len() > 0 && piece != "."@
}

/// The components of a requested path: leading slashes go, and so do empty
/// pieces and `.`.
pub open spec fn request_components(requested: Seq<char>) -> Seq<Seq<char>> {
    split(strip_leading(requested, |c: char| is_slash(c)), '/').filter(
        |p: Seq<char>| is_component(p),
    )
}

/// Whether a requested path may be looked at: something is left after the
/// leading slashes, it names at least one component, and no component is
/// `..`.
pub open spec fn is_acceptable_request(requested: Seq<char>) -> bool {
    &&& strip_leading(requested, |c: char| is_slash(c)).len() > 0
    &&& request_components(requested).len() > 0
    &&& !request_components(requested).contains(".."@)
}

fn char_is_slash(c: char) -> (r: bool)
    ensures
        r == is_slash(c),
{
    c == '/'
}

/// The components of a requested path, if it may be looked at.
pub fn accepted_components(requested: &str) -> (r: Option<Vec<Vec<char>>>)
    ensures
        match r {
            Some(parts) => is_acceptable_request(requested@) && pieces_of(parts@)
                == request_components(requested@),
            None => !is_acceptable_request(requested@),
        },
{
    let chars = to_chars(requested);
    let ghost p = |c: char| is_slash(c);
    let mut a: usize = 0;
    while a < chars.len() && char_is_slash(chars[a])
        invariant
            a <= chars.len(),
            forall|c: char| p(c) == is_slash(c),
            forall|k: int| 0 <= k < a ==> p(#[trigger] chars@[k]),
        decreases chars.len() - a,
    {
        a = a + 1;
    }
    proof {
        lemma_leading_unique(chars@, p, a as int);
    }
    if a == chars.len() {
        return None;
    }
    let stripped = slice_chars(&chars, a, chars.len());
    assert(stripped@ == strip_leading(requested@, p));
    let pieces = split_chars(&stripped, '/');
    let ghost all = pieces_of(pieces@);
    let ghost keep = |p: Seq<char>| is_component(p);
    let dot = to_chars(".");
    let dots = to_chars("..");
    let mut parts: Vec<Vec<char>> = Vec::new();
    let mut escapes = false;
    let mut i: usize = 0;
    proof {
        reveal(Seq::filter);
        assert(all.take(0) =~= Seq::<Seq<char>>::empty());
        assert(pieces_of(parts@) =~= Seq::<Seq<char>>::empty());
    }
    while i < pieces.len()
        invariant
            i <= pieces.len(),
            all == pieces_of(pieces@),
            dot@ == "."@,
            dots@ == ".."@,
            keep == (|p: Seq<char>| is_component(p)),
            pieces_of(parts@) == all.take(i as int).filter(keep),
            escapes == pieces_of(parts@).contains(".."@),
        decreases pieces.len() - i,
    {
        let piece = &pieces[i];
        proof {
            assert(all[i as int] == piece@);
            assert(all.take(i + 1) =~= all.take(i as int).push(piece@));
            lemma_filter_push(all.take(i as int), piece@, keep);
        }
        if piece.len() > 0 && !chars_eq(piece, &dot) {
            let ghost prev = parts@;
            let is_parent = chars_eq(piece, &dots);
            parts.push(slice_chars(piece, 0, piece.len()));
            proof {
                assert(piece@.subrange(0, piece@.len() as int) =~= piece@);
                assert(pieces_of(parts@) =~= pieces_of(prev).push(piece@));
                let now = pieces_of(parts@);
                if is_parent {
                    assert(now[now.len() - 1] == ".."@);
                }
                if pieces_of(prev).contains(".."@) {
                    let k = choose|k: int| 0 <= k < prev.len() && pieces_of(prev)[k] == ".."@;
                    assert(now[k] == ".."@);
                }
                if now.contains(".."@) && !is_parent {
                    let k = choose|k: int| 0 <= k < now.len() && now[k] == ".."@;
                    assert(pieces_of(prev)[k] == ".."@);
                }
            }
            if is_parent {
                escapes = true;
            }
        }
        i = i + 1;
    }
    proof {
        assert(all.take(pieces.len() as int) =~= all);
    }
    if escapes || parts.len() == 0 {
        None
    } else {
        Some(parts)
    }
}

/// Whether `path` lies at or below `base`.
pub open spec fn is_under(path: Seq<Seq<char>>, base: Seq<Seq<char>>) -> bool {
    base.len() <= path.len() && path.take(base.len() as int) == base
}

/// Whether `path` lies at or below `base`, component by component.
pub fn path_is_under(path: &Vec<Vec<char>>, base: &Vec<Vec<char>>) -> (r: bool)
    ensures
        r == is_under(pieces_of(path@), pieces_of(base@)),
{
    if base.len() > path.len() {
        return false;
    }
    let mut i: usize = 0;
    while i < base.len()
        invariant
            i <= base.len() <= path.len(),
            forall|k: int| 0 <= k < i ==> pieces_of(path@)[k] == pieces_of(base@)[k],
        decreases base.len() - i,
    {
        if !chars_eq(&path[i], &base[i]) {
            proof {
                let taken = pieces_of(path@).take(base.len() as int);
                assert(taken[i as int] == path@[i as int]@);
                assert(pieces_of(base@)[i as int] == base@[i as int]@);
            }
            return false;
        }
        proof {
            assert(pieces_of(path@)[i as int] == path@[i as int]@);
            assert(pieces_of(base@)[i as int] == base@[i as int]@);
        }
        i = i + 1;
    }
    assert(pieces_of(path@).take(base.len() as int) =~= pieces_of(base@));
    true
}

/// The directories of the workspace in which text may be read and written.
pub open spec fn text_roots() -> Seq<Seq<char>> {
    seq!["journals"@, "memory"@, "state"@, "posts"@, "outputs"@, "artifacts"@]
}

/// The media file that a request resolves to, where `canonical` is what the
/// file system resolved the joined path to, if it did: a path inside the
/// workspace's `journals` directory, and only for an acceptable request.
pub open spec fn media_resolution(
    workspace: Seq<Seq<char>>,
    requested: Seq<char>,
    canonical: Option<Seq<Seq<char>>>,
) -> Option<Seq<Seq<char>>> {
    match canonical {
        Some(resolved) => if is_acceptable_request(requested) && is_under(resolved, workspace)
            && is_under(resolved, workspace.push("journals"@)) {
            Some(resolved)
        } else {
            None
        },
        None => None,
    }
}

/// Whether `dir` is a directory in which text may be read and written: it
/// lies in one of the text directories of the workspace.
pub open spec fn in_text_root(dir: Seq<Seq<char>>, workspace: Seq<Seq<char>>) -> bool {
    is_under(dir, workspace) && dir.len() > workspace.len() && text_roots().contains(
        dir[workspace.len() as int],
    )
}

/// Where the file of a text request lies on disk: the directory and the
/// name.  `canonical` is what the file system resolved the joined path to,
/// if it did; for a file that is not there yet, `canonical_parent` is what it
/// resolved the parent directory to.  Where neither resolves, the file lies
/// nowhere.
pub open spec fn located(
    requested: Seq<char>,
    canonical: Option<Seq<Seq<char>>>,
    canonical_parent: Option<Seq<Seq<char>>>,
) -> Option<(Seq<Seq<char>>, Seq<char>)> {
    match canonical {
        Some(path) => if path.len() > 0 {
            Some((path.drop_last(), path.last()))
        } else {
            None
        },
        None => match canonical_parent {
            Some(dir) => Some((dir, request_components(requested).last())),
            None => None,
        },
    }
}

/// The text file that a request resolves to: the place where it lies on
/// disk, provided that this is inside one of the text directories of the
/// workspace, and only for an acceptable request.  Nothing of the path as it
/// is written is trusted: a link, in the last component or higher up, counts
/// by what it leads to.
pub open spec fn text_resolution(
    workspace: Seq<Seq<char>>,
    requested: Seq<char>,
    canonical: Option<Seq<Seq<char>>>,
    canonical_parent: Option<Seq<Seq<char>>>,
) -> Option<Seq<Seq<char>>> {
    match located(requested, canonical, canonical_parent) {
        Some((dir, name)) => if is_acceptable_request(requested) && in_text_root(dir, workspace) {
            Some(dir.push(name))
        } else {
            None
        },
        None => None,
    }
}

fn copy_parts(parts: &Vec<Vec<char>>, upto: usize) -> (r: Vec<Vec<char>>)
    requires
        upto <= parts.len(),
    ensures
        pieces_of(r@) == pieces_of(parts@).take(upto as int),
{
    let mut r: Vec<Vec<char>> = Vec::new();
    let mut i: usize = 0;
    assert(pieces_of(r@) =~= pieces_of(parts@).take(0));
    while i < upto
        invariant
            i <= upto <= parts.len(),
            pieces_of(r@) == pieces_of(parts@).take(i as int),
        decreases upto - i,
    {
        let ghost prev = r@;
        let piece = &parts[i];
        r.push(slice_chars(piece, 0, piece.len()));
        proof {
            assert(piece@.subrange(0, piece@.len() as int) =~= piece@);
            assert(pieces_of(r@) =~= pieces_of(prev).push(piece@));
            assert(pieces_of(parts@).take(i + 1) =~= pieces_of(parts@).take(i as int).push(
                piece@,
            ));
        }
        i = i + 1;
    }
    r
}

fn is_text_root(name: &Vec<char>) -> (r: bool)
    ensures
        r == text_roots().contains(name@),
{
    let r = chars_eq(name, &to_chars("journals")) || chars_eq(name, &to_chars("memory"))
        || chars_eq(name, &to_chars("state")) || chars_eq(name, &to_chars("posts")) || chars_eq(
        name,
        &to_chars("outputs"),
    ) || chars_eq(name, &to_chars("artifacts"));
    proof {
        let roots = text_roots();
        if r {
            assert(roots[0] == "journals"@ && roots[1] == "memory"@ && roots[2] == "state"@
                && roots[3] == "posts"@ && roots[4] == "outputs"@ && roots[5] == "artifacts"@);
        }
    }
    r
}

/// Resolves a request for a media file.  `canonical` is what the file system
/// resolved the workspace joined with the request to, or nothing where it
/// could not.
pub fn resolve_workspace_media_path(
    workspace: &Vec<Vec<char>>,
    requested: &str,
    canonical: Option<Vec<Vec<char>>>,
) -> (r: Option<Vec<Vec<char>>>)
    ensures
        match r {
            Some(path) => media_resolution(
                pieces_of(workspace@),
                requested@,
                match canonical {
                    Some(c) => Some(pieces_of(c@)),
                    None => None,
                },
            ) == Some(pieces_of(path@)),
            None => media_resolution(
                pieces_of(workspace@),
                requested@,
                match canonical {
                    Some(c) => Some(pieces_of(c@)),
                    None => None,
                },
            ).is_none(),
        },
{
    if accepted_components(requested).is_none() {
        return None;
    }
    let resolved = match canonical {
        Some(c) => c,
        None => {
            return None;
        },
    };
    if !path_is_under(&resolved, workspace) {
        return None;
    }
    let mut journals = copy_parts(workspace, workspace.len());
    let ghost prev = journals@;
    journals.push(to_chars("journals"));
    proof {
        assert(pieces_of(workspace@).take(workspace.len() as int) =~= pieces_of(workspace@));
        assert(pieces_of(journals@) =~= pieces_of(workspace@).push("journals"@));
    }
    if !path_is_under(&resolved, &journals) {
        return None;
    }
    Some(resolved)
}

/// Resolves a request for a text file.  `canonical` is what the file
/// system resolved the workspace joined with the request to, or nothing where
/// it could not, as for a file that is not there yet; `canonical_parent` is
/// the same for the parent directory of the joined path.
pub fn resolve_workspace_text_path(
    workspace: &Vec<Vec<char>>,
    requested: &str,
    canonical: Option<Vec<Vec<char>>>,
    canonical_parent: Option<Vec<Vec<char>>>,
) -> (r: Option<Vec<Vec<char>>>)
    ensures
        match r {
            Some(path) => text_resolution(
                pieces_of(workspace@),
                requested@,
                match canonical {
                    Some(c) => Some(pieces_of(c@)),
                    None => None,
                },
                match canonical_parent {
                    Some(c) => Some(pieces_of(c@)),
                    None => None,
                },
            ) == Some(pieces_of(path@)),
            None => text_resolution(
                pieces_of(workspace@),
                requested@,
                match canonical {
                    Some(c) => Some(pieces_of(c@)),
                    None => None,
                },
                match canonical_parent {
                    Some(c) => Some(pieces_of(c@)),
                    None => None,
                },
            ).is_none(),
        },
{
    let parts = match accepted_components(requested) {
        Some(parts) => parts,
        None => {
            return None;
        },
    };
    match canonical {
        Some(path) => {
            if path.len() == 0 {
                return None;
            }
            let dir = copy_parts(&path, path.len() - 1);
            proof {
                assert(pieces_of(path@).take(path.len() - 1) =~= pieces_of(path@).drop_last());
                assert(pieces_of(path@).drop_last().push(pieces_of(path@).last()) =~= pieces_of(
                    path@,
                ));
            }
            if is_in_text_root(&dir, workspace) {
                Some(path)
            } else {
                None
            }
        },
        None => {
            let mut dir = match canonical_parent {
                Some(dir) => dir,
                None => {
                    return None;
                },
            };
            if !is_in_text_root(&dir, workspace) {
                return None;
            }
            let ghost before = pieces_of(dir@);
            let name = &parts[parts.len() - 1];
            dir.push(slice_chars(name, 0, name.len()));
            proof {
                assert(name@.subrange(0, name@.len() as int) =~= name@);
                assert(pieces_of(parts@).last() == name@);
                assert(pieces_of(dir@) =~= before.push(name@));
            }
            Some(dir)
        },
    }
}

fn is_in_text_root(dir: &Vec<Vec<char>>, workspace: &Vec<Vec<char>>) -> (r: bool)
    ensures
        r == in_text_root(pieces_of(dir@), pieces_of(workspace@)),
{
    if !path_is_under(dir, workspace) {
        return false;
    }
    if dir.len() <= workspace.len() {
        return false;
    }
    proof {
        assert(pieces_of(dir@)[workspace.len() as int] == dir@[workspace.len() as int]@);
    }
    is_text_root(&dir[workspace.len()])
}

/// No request with a `..` component resolves to anything, whatever the file
/// system makes of it.
pub proof fn lemma_parent_references_are_refused(
    workspace: Seq<Seq<char>>,
    requested: Seq<char>,
    canonical: Option<Seq<Seq<char>>>,
    canonical_parent: Option<Seq<Seq<char>>>,
)
    requires
        request_components(requested).contains(".."@),
    ensures
        media_resolution(workspace, requested, canonical).is_none(),
        text_resolution(workspace, requested, canonical, canonical_parent).is_none(),
{
}

/// A path that the file system resolves to a place outside the workspace,
/// as through a link, resolves to nothing; so does a file that is not there
/// yet in a directory that resolves to such a place, or does not resolve.
/// What does resolve lies inside the workspace: a media file inside its
/// `journals` directory, a text file in a directory inside one of the text
/// directories; and a text file that is there resolves to the place the
/// file system gave.
pub proof fn lemma_resolution_stays_inside(
    workspace: Seq<Seq<char>>,
    requested: Seq<char>,
    canonical: Option<Seq<Seq<char>>>,
    canonical_parent: Option<Seq<Seq<char>>>,
)
    ensures
        canonical matches Some(resolved) && !is_under(resolved, workspace) ==> media_resolution(
            workspace,
            requested,
            canonical,
        ).is_none() && text_resolution(workspace, requested, canonical, canonical_parent).is_none(),
        canonical.is_none() && (canonical_parent matches Some(dir) ==> !is_under(dir, workspace))
            ==> text_resolution(workspace, requested, canonical, canonical_parent).is_none(),
        media_resolution(workspace, requested, canonical) matches Some(path) ==> is_under(
            path,
            workspace.push("journals"@),
        ) && is_under(path, workspace),
        text_resolution(workspace, requested, canonical, canonical_parent) matches Some(path) ==> {
            &&& is_under(path, workspace)
            &&& path.len() > workspace.len() + 1
            &&& text_roots().contains(path[workspace.len() as int])
            &&& canonical matches Some(resolved) ==> path == resolved
        },
{
    match text_resolution(workspace, requested, canonical, canonical_parent) {
        Some(path) => {
            let (dir, name) = located(requested, canonical, canonical_parent).unwrap();
            assert(path == dir.push(name));
            assert(path.take(workspace.len() as int) =~= dir.take(workspace.len() as int));
            assert(path[workspace.len() as int] == dir[workspace.len() as int]);
            if canonical.is_some() {
                let resolved = canonical.unwrap();
                assert(resolved.drop_last().push(resolved.last()) =~= resolved);
            }
        },
        None => {},
    }
    if canonical.is_some() {
        let resolved = canonical.unwrap();
        if !is_under(resolved, workspace) && resolved.len() > 0 {
            let dir = resolved.drop_last();
            if is_under(dir, workspace) {
                assert(resolved.take(workspace.len() as int) =~= dir.take(workspace.len() as int));
            }
        }
    }
}

/// The characters of each string of a list.
pub fn to_components(parts: &Vec<String>) -> (r: Vec<Vec<char>>)
    ensures
        r@.len() == parts@.len(),
        forall|i: int| 0 <= i < parts@.len() ==> (#[trigger] r@[i])@ == parts@[i]@,
{
    let mut r: Vec<Vec<char>> = Vec::new();
    let mut i: usize = 0;
    while i < parts.len()
        invariant
            i <= parts.len(),
            r@.len() == i,
            forall|k: int| 0 <= k < i ==> (#[trigger] r@[k])@ == parts@[k]@,
        decreases parts.len() - i,
    {
        r.push(to_chars(parts[i].as_str()));
        i = i + 1;
    }
    r
}

/// The strings of a list of components.
pub fn from_components(parts: &Vec<Vec<char>>) -> (r: Vec<String>)
    ensures
        r@.len() == parts@.len(),
        forall|i: int| 0 <= i < parts@.len() ==> (#[trigger] r@[i])@ == parts@[i]@,
{
    let mut r: Vec<String> = Vec::new();
    let mut i: usize = 0;
    while i < parts.len()
        invariant
            i <= parts.len(),
            r@.len() == i,
            forall|k: int| 0 <= k < i ==> (#[trigger] r@[k])@ == parts@[k]@,
        decreases parts.len() - i,
    {
        r.push(from_chars(&parts[i]));
        i = i + 1;
    }
    r
}

} // verus!

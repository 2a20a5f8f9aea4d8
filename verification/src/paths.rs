//! Link resolution: turning a link target, relative to the document that
//! holds it, into the path of a document of the knowledge base.
use vstd::prelude::*;
use crate::text::chars_of;
use std::path::{Component, Path, PathBuf};

verus! {

/// A component of a path, as `std::path::Component` gives it.
pub enum PathPart {
    Prefix(String),
    RootDir,
    CurDir,
    ParentDir,
    Normal(String),
}

/// The mathematical form of a [`PathPart`].
pub enum PathPartView {
    Prefix(Seq<char>),
    RootDir,
    CurDir,
    ParentDir,
    Normal(Seq<char>),
}

impl View for PathPart {
    type V = PathPartView;

    open spec fn view(&self) -> PathPartView {
        match self {
            PathPart::Prefix(s) => PathPartView::Prefix(s@),
            PathPart::RootDir => PathPartView::RootDir,
            PathPart::CurDir => PathPartView::CurDir,
            PathPart::ParentDir => PathPartView::ParentDir,
            PathPart::Normal(s) => PathPartView::Normal(s@),
        }
    }
}

pub open spec fn parts_view(v: Seq<PathPart>) -> Seq<PathPartView> {
    v.map_values(|p: PathPart| p@)
}

/// `Path::components` of a path, each component by its text.
pub uninterp spec fn path_parts_of(p: Seq<char>) -> Seq<PathPartView>;

/// The path that pushing the given components, in order, onto an empty
/// `PathBuf` builds.
pub uninterp spec fn path_of_parts(parts: Seq<PathPartView>) -> Seq<char>;

/// `Path::parent`: the path without its last component, if it has one.
pub uninterp spec fn path_parent_of(p: Seq<char>) -> Option<Seq<char>>;

/// `Path::join`: `rest` appended to `base` as a further component.
pub uninterp spec fn path_join_of(base: Seq<char>, rest: Seq<char>) -> Seq<char>;

/// `Path::with_extension`: the path with its file name's extension set to `ext`.
pub uninterp spec fn path_with_extension_of(p: Seq<char>, ext: Seq<char>) -> Seq<char>;

/// `Path::new(p).components()`, each component converted to a [`PathPart`]
/// (the text of a component of a `&str` path is valid UTF-8, so nothing is lost).
#[verifier::external_body]
pub fn path_components(p: &str) -> (parts: Vec<PathPart>)
    ensures
        parts_view(parts@) == path_parts_of(p@),
{
    Path::new(p).components().map(|c| match c {
        Component::Prefix(x) => PathPart::Prefix(x.as_os_str().to_string_lossy().into_owned()),
        Component::RootDir => PathPart::RootDir,
        Component::CurDir => PathPart::CurDir,
        Component::ParentDir => PathPart::ParentDir,
        Component::Normal(x) => PathPart::Normal(x.to_string_lossy().into_owned()),
    }).collect()
}

/// A `PathBuf` built by `PathBuf::push` of each component, in order, as text.
#[verifier::external_body]
pub fn path_from_components(parts: &Vec<PathPart>) -> (p: String)
    ensures
        p@ == path_of_parts(parts_view(parts@)),
{
    let mut buf = PathBuf::new();
    for part in parts.iter() {
        match part {
            PathPart::Prefix(s) | PathPart::Normal(s) => buf.push(s),
            PathPart::RootDir => buf.push(Component::RootDir),
            PathPart::CurDir => buf.push(Component::CurDir),
            PathPart::ParentDir => buf.push(Component::ParentDir),
        }
    }
    buf.to_string_lossy().into_owned()
}

/// `Path::new(p).parent()`, as text.
#[verifier::external_body]
pub fn path_parent(p: &str) -> (r: Option<String>)
    ensures
        match r {
            Some(s) => path_parent_of(p@) == Some(s@),
            None => path_parent_of(p@) is None,
        },
{
    Path::new(p).parent().map(|d| d.to_string_lossy().into_owned())
}

/// `Path::new(base).join(rest)`, as text.
#[verifier::external_body]
pub fn path_join(base: &str, rest: &str) -> (r: String)
    ensures
        r@ == path_join_of(base@, rest@),
{
    Path::new(base).join(rest).to_string_lossy().into_owned()
}

/// `Path::new(p).with_extension(ext)`, as text. `PathBuf::set_extension`,
/// which it calls, panics on an extension that holds a path separator, so
/// the extension may hold no `/`.
#[verifier::external_body]
pub fn path_with_extension(p: &str, ext: &str) -> (r: String)
    requires
        forall|i: int| 0 <= i < ext@.len() ==> ext@[i] != '/',
    ensures
        r@ == path_with_extension_of(p@, ext@),
{
    Path::new(p).with_extension(ext).to_string_lossy().into_owned()
}

/// One component of the normalisation: `..` removes the last normal
/// component kept so far (at the root, or with nothing kept, it is dropped,
/// as `PathBuf::pop` does), `.` is skipped, anything else is kept.
pub open spec fn normalize_step(acc: Seq<PathPartView>, c: PathPartView) -> Seq<PathPartView> {
    match c {
        PathPartView::ParentDir => if acc.len() > 0 && acc.last() is Normal {
            acc.drop_last()
        } else {
            acc
        },
        PathPartView::CurDir => acc,
        _ => acc.push(c),
    }
}

pub open spec fn normalize_parts(parts: Seq<PathPartView>) -> Seq<PathPartView>
    decreases parts.len(),
{
    if parts.len() == 0 {
        Seq::empty()
    } else {
        normalize_step(normalize_parts(parts.drop_last()), parts.last())
    }
}

/// A path with its `.` and `..` components resolved.
pub open spec fn normalized_path(p: Seq<char>) -> Seq<char> {
    path_of_parts(normalize_parts(path_parts_of(p)))
}

fn clone_part(p: &PathPart) -> (r: PathPart)
    ensures
        r@ == p@,
{
    match p {
        PathPart::Prefix(s) => PathPart::Prefix(s.clone()),
        PathPart::RootDir => PathPart::RootDir,
        PathPart::CurDir => PathPart::CurDir,
        PathPart::ParentDir => PathPart::ParentDir,
        PathPart::Normal(s) => PathPart::Normal(s.clone()),
    }
}

/// Does some `..` of the components climb above the start, finding no
/// normal component kept before it to remove?
pub open spec fn climbs_out(parts: Seq<PathPartView>) -> bool
    decreases parts.len(),
{
    if parts.len() == 0 {
        false
    } else {
        let kept = normalize_parts(parts.drop_last());
        climbs_out(parts.drop_last()) || (parts.last() is ParentDir && !(kept.len() > 0 && kept.last() is Normal))
    }
}

/// Does the path climb above where it starts (as `../x` does)?
pub open spec fn escapes_root(p: Seq<char>) -> bool {
    climbs_out(path_parts_of(p))
}

/// The components kept by [`normalize_parts`], and whether a `..` climbed
/// out (see [`climbs_out`]).
pub fn normalize_components(parts: &Vec<PathPart>) -> (r: (Vec<PathPart>, bool))
    ensures
        parts_view(r.0@) == normalize_parts(parts_view(parts@)),
        r.1 == climbs_out(parts_view(parts@)),
{
    let mut r: Vec<PathPart> = Vec::new();
    let mut climbed = false;
    let mut i: usize = 0;
    while i < parts.len()
        invariant
            i <= parts.len(),
            parts_view(r@) == normalize_parts(parts_view(parts@.take(i as int))),
            climbed == climbs_out(parts_view(parts@.take(i as int))),
        decreases parts.len() - i,
    {
        proof {
            assert(parts_view(parts@.take(i + 1)).drop_last() =~= parts_view(parts@.take(i as int)));
            assert(parts_view(parts@.take(i + 1)).last() == parts@[i as int]@);
        }
        match &parts[i] {
            PathPart::ParentDir => {
                if r.len() > 0 && matches!(r[r.len() - 1], PathPart::Normal(_)) {
                    r.pop();
                    proof {
                        assert(parts_view(r@) =~= normalize_parts(parts_view(parts@.take(i + 1))));
                    }
                } else {
                    climbed = true;
                }
            },
            PathPart::CurDir => {},
            p => {
                r.push(clone_part(p));
                proof {
                    assert(parts_view(r@) =~= normalize_parts(parts_view(parts@.take(i + 1))));
                }
            },
        }
        i += 1;
    }
    proof {
        assert(parts@.take(parts.len() as int) =~= parts@);
    }
    (r, climbed)
}

/// Normalize a path by resolving `.` and `..` components without following
/// symlinks (a `..` with nothing left to remove is dropped).
pub fn normalize_path(path: &str) -> (r: String)
    ensures
        r@ == normalized_path(path@),
{
    let parts = path_components(path);
    let (kept, _) = normalize_components(&parts);
    path_from_components(&kept)
}

/// The path normalised, or `None` when a `..` climbs above its start.
pub fn normalize_within(path: &str) -> (r: Option<String>)
    ensures
        match r {
            Some(s) => !escapes_root(path@) && s@ == normalized_path(path@),
            None => escapes_root(path@),
        },
{
    let parts = path_components(path);
    let (kept, climbed) = normalize_components(&parts);
    if climbed {
        None
    } else {
        Some(path_from_components(&kept))
    }
}

/// Normalised components hold no `.` and no `..`.
pub proof fn lemma_normalized_parts_clean(parts: Seq<PathPartView>)
    ensures
        forall|i: int|
            0 <= i < normalize_parts(parts).len() ==> !(#[trigger] normalize_parts(parts)[i] is CurDir)
                && !(normalize_parts(parts)[i] is ParentDir),
    decreases parts.len(),
{
    if parts.len() > 0 {
        lemma_normalized_parts_clean(parts.drop_last());
    }
}

/// Normalising twice gives what normalising once gives.
pub proof fn lemma_normalize_idempotent(parts: Seq<PathPartView>)
    ensures
        normalize_parts(normalize_parts(parts)) == normalize_parts(parts),
{
    lemma_normalized_parts_clean(parts);
    lemma_normalize_identity(normalize_parts(parts));
}

proof fn lemma_normalize_identity(t: Seq<PathPartView>)
    requires
        forall|i: int| 0 <= i < t.len() ==> !(#[trigger] t[i] is CurDir) && !(t[i] is ParentDir),
    ensures
        normalize_parts(t) == t,
    decreases t.len(),
{
    if t.len() > 0 {
        let d = t.drop_last();
        assert forall|i: int| 0 <= i < d.len() implies !(#[trigger] d[i] is CurDir) && !(d[i] is ParentDir) by {
            assert(d[i] == t[i]);
        }
        lemma_normalize_identity(d);
        assert(!(t[t.len() - 1] is CurDir) && !(t[t.len() - 1] is ParentDir));
        assert(d.push(t.last()) =~= t);
    }
}

/// Is `x` one of `paths`?
pub fn contains_path(paths: &Vec<String>, x: &String) -> (r: bool)
    ensures
        r == paths.deep_view().contains(x@),
{
    let mut i: usize = 0;
    while i < paths.len()
        invariant
            i <= paths.len(),
            forall|j: int| 0 <= j < i ==> paths.deep_view()[j] != x@,
        decreases paths.len() - i,
    {
        if paths[i] == *x {
            proof {
                assert(paths.deep_view()[i as int] == x@);
            }
            return true;
        }
        i += 1;
    }
    false
}

/// Where a link resolves to among the known document paths: the target,
/// taken relative to the linking document's directory and normalised, with
/// the extension `md`; else the `index.md` inside it; else nowhere. A
/// target that climbs above the project root resolves nowhere.
pub open spec fn resolve_in_paths(paths: Seq<Seq<char>>, base_path: Seq<char>, target: Seq<char>) -> Option<Seq<char>> {
    match path_parent_of(base_path) {
        None => None,
        Some(dir) => if escapes_root(path_join_of(dir, target)) {
            None
        } else {
            let n = normalized_path(path_join_of(dir, target));
            let direct = path_with_extension_of(n, "md"@);
            let index = path_join_of(n, "index.md"@);
            if paths.contains(direct) {
                Some(direct)
            } else if paths.contains(index) {
                Some(index)
            } else {
                None
            }
        },
    }
}

/// A link resolves to a known document only: whatever it resolves to is
/// one of the known paths.
pub proof fn lemma_resolves_to_known_path(paths: Seq<Seq<char>>, base_path: Seq<char>, target: Seq<char>)
    ensures
        resolve_in_paths(paths, base_path, target) matches Some(p) ==> paths.contains(p),
{
}

/// The `.md` file comes first: when the target, taken relative to the
/// linking document's directory, normalised and given the extension `md`,
/// is a known path, the link resolves to it, whatever `index.md` exists.
pub proof fn lemma_resolve_prefers_md_file(paths: Seq<Seq<char>>, base_path: Seq<char>, target: Seq<char>, dir: Seq<char>)
    requires
        path_parent_of(base_path) == Some(dir),
        !escapes_root(path_join_of(dir, target)),
        paths.contains(path_with_extension_of(normalized_path(path_join_of(dir, target)), "md"@)),
    ensures
        resolve_in_paths(paths, base_path, target) == Some(
            path_with_extension_of(normalized_path(path_join_of(dir, target)), "md"@),
        ),
{
}

/// Without that file, a directory's `index.md` is the next choice; without
/// either, and for a target that climbs above the root, the link resolves
/// nowhere.
pub proof fn lemma_resolve_falls_back_to_index(paths: Seq<Seq<char>>, base_path: Seq<char>, target: Seq<char>, dir: Seq<char>)
    requires
        path_parent_of(base_path) == Some(dir),
    ensures
        ({
            let n = normalized_path(path_join_of(dir, target));
            let direct = path_with_extension_of(n, "md"@);
            let index = path_join_of(n, "index.md"@);
            &&& escapes_root(path_join_of(dir, target)) ==> resolve_in_paths(paths, base_path, target) is None
            &&& (!escapes_root(path_join_of(dir, target)) && !paths.contains(direct) && paths.contains(index))
                ==> resolve_in_paths(paths, base_path, target) == Some(index)
            &&& (!escapes_root(path_join_of(dir, target)) && !paths.contains(direct) && !paths.contains(index))
                ==> resolve_in_paths(paths, base_path, target) is None
        }),
{
}

/// Resolve a bundle-relative link target to a canonical document path using only
/// in-memory path-set membership — no filesystem access.
/// Returns `None` if the target isn't in `current_paths` (i.e., the link is broken
/// or escapes the project root).
pub fn resolve_in_set(current_paths: &Vec<String>, base_path: &str, target: &str) -> (r: Option<String>)
    ensures
        match r {
            Some(s) => resolve_in_paths(current_paths.deep_view(), base_path@, target@) == Some(s@),
            None => resolve_in_paths(current_paths.deep_view(), base_path@, target@) is None,
        },
{
    let base_dir = match path_parent(base_path) {
        Some(d) => d,
        None => return None,
    };
    let joined = path_join(base_dir.as_str(), target);
    let normalized = match normalize_within(joined.as_str()) {
        Some(n) => n,
        None => return None,
    };
    proof {
        reveal_strlit("md");
    }
    let direct = path_with_extension(normalized.as_str(), "md");
    if contains_path(current_paths, &direct) {
        return Some(direct);
    }
    let index = path_join(normalized.as_str(), "index.md");
    if contains_path(current_paths, &index) {
        return Some(index);
    }
    None
}

} // verus!

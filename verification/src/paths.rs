//! Relative paths under the watched root: what `std::path` says of a path's components, and
//! the rules that keep every stored path inside the root.

use vstd::prelude::*;
use crate::error::Error;
use crate::text::{join, join_of, push_str, same_text, texts};

verus! {

/// The components of `path` as `Path::components` yields them: whether each is a `Normal`
/// component, and its text as `Component::as_os_str` gives it (`/` for the root, `.` for
/// the current directory, `..` for the parent).
/// Like the other path names here, it follows the rules of the platform the crate is built
/// for (a backslash separates components only on Windows); within one build it depends on the
/// text alone.
pub uninterp spec fn path_parts_of(path: Seq<char>) -> Seq<(bool, Seq<char>)>;

/// What `Path::strip_prefix` leaves of `path` once `root` is taken off, if `root` is a
/// prefix of it, whole component by whole component.
/// Like the other path names here, it follows the rules of the platform the crate is built
/// for (a backslash separates components only on Windows); within one build it depends on the
/// text alone.
pub uninterp spec fn path_strip_prefix_of(path: Seq<char>, root: Seq<char>) -> Option<Seq<char>>;

/// The last component of `path` as `Path::file_name` reads it.
/// Like the other path names here, it follows the rules of the platform the crate is built
/// for (a backslash separates components only on Windows); within one build it depends on the
/// text alone.
pub uninterp spec fn path_file_name_of(path: Seq<char>) -> Option<Seq<char>>;

/// The view of a list of components.
pub open spec fn parts_view(v: Seq<(bool, String)>) -> Seq<(bool, Seq<char>)> {
    v.map_values(|p: (bool, String)| (p.0, p.1@))
}

/// The texts of a list of components.
pub open spec fn part_texts(parts: Seq<(bool, Seq<char>)>) -> Seq<Seq<char>> {
    parts.map_values(|p: (bool, Seq<char>)| p.1)
}

/// Calls `Path::components` on `path` and keeps, for each component, whether it is
/// `Normal` and its text (a `&str` is valid UTF-8, so nothing is lost). The result depends
/// on the path's text alone; the contract names it.
#[verifier::external_body]
pub(crate) fn path_parts(path: &str) -> (v: Vec<(bool, String)>)
    ensures
        parts_view(v@) == path_parts_of(path@),
{
    std::path::Path::new(path).components().map(|c| {
        (matches!(c, std::path::Component::Normal(_)), c.as_os_str().to_string_lossy().into_owned())
    }).collect()
}

/// Calls `Path::strip_prefix(root)` on `path` and keeps the rest as text. The result
/// depends on the two texts alone; the contract names it.
#[verifier::external_body]
pub(crate) fn strip_root(path: &str, root: &str) -> (r: Option<String>)
    ensures
        match r {
            Some(s) => path_strip_prefix_of(path@, root@) == Some(s@),
            None => path_strip_prefix_of(path@, root@) is None,
        },
{
    std::path::Path::new(path).strip_prefix(root).ok().map(|p| p.to_string_lossy().into_owned())
}

/// Calls `Path::file_name` on `path` and keeps it as text. The result depends on the
/// path's text alone; the contract names it.
#[verifier::external_body]
pub(crate) fn file_name(path: &str) -> (r: Option<String>)
    ensures
        match r {
            Some(s) => path_file_name_of(path@) == Some(s@),
            None => path_file_name_of(path@) is None,
        },
{
    std::path::Path::new(path).file_name().map(|n| n.to_string_lossy().into_owned())
}

/// The texts of the components of `path`.
pub(crate) fn component_texts(path: &str) -> (v: Vec<String>)
    ensures
        texts(v@) == part_texts(path_parts_of(path@)),
{
    let parts = path_parts(path);
    let mut v: Vec<String> = Vec::new();
    let mut i: usize = 0;
    while i < parts.len()
        invariant
            i <= parts.len(),
            parts_view(parts@) == path_parts_of(path@),
            texts(v@) == part_texts(parts_view(parts@)).take(i as int),
        decreases parts.len() - i,
    {
        v.push(parts[i].1.clone());
        proof {
            assert(part_texts(parts_view(parts@)).take(i + 1) =~= part_texts(parts_view(parts@)).take(
                i as int,
            ).push(parts@[i as int].1@));
            assert(texts(v@) =~= texts(v@.drop_last()).push(v@.last()@));
        }
        i = i + 1;
    }
    assert(part_texts(parts_view(parts@)).take(parts.len() as int) =~= part_texts(parts_view(parts@)));
    v
}

/// Every component is `Normal`.
pub open spec fn all_normal(parts: Seq<(bool, Seq<char>)>) -> bool {
    forall|i: int| 0 <= i < parts.len() ==> (#[trigger] parts[i]).0
}

/// The path of `abs` relative to `root`, its components joined by `/`; `None` when `abs`
/// is not under `root` or a component of the rest is not a plain name.
pub open spec fn rel_path_of(root: Seq<char>, abs: Seq<char>) -> Option<Seq<char>> {
    match path_strip_prefix_of(abs, root) {
        None => None,
        Some(rel) => if all_normal(path_parts_of(rel)) {
            Some(join_of(part_texts(path_parts_of(rel)), "/"@))
        } else {
            None
        },
    }
}

/// The texts of `parts` one after the other.
pub open spec fn concat_of(parts: Seq<&str>) -> Seq<char>
    decreases parts.len(),
{
    if parts.len() == 0 {
        Seq::empty()
    } else {
        concat_of(parts.drop_last()) + parts.last()@
    }
}

fn not_found(parts: &Vec<&str>) -> (e: Error)
    ensures
        e matches Error::NotFound(m) && m@ == concat_of(parts@),
{
    let mut m = String::new();
    let mut i: usize = 0;
    while i < parts.len()
        invariant
            i <= parts.len(),
            m@ == concat_of(parts@.take(i as int)),
        decreases parts.len() - i,
    {
        assert(parts@.take(i + 1).drop_last() =~= parts@.take(i as int));
        push_str(&mut m, parts[i]);
        i = i + 1;
    }
    assert(parts@.take(parts.len() as int) =~= parts@);
    Error::NotFound(m)
}

/// Path relative to the root with forward slashes, or [`Error::NotFound`] if `abs` is
/// outside the root or names a component that is not a plain name (see [`rel_path_of`]).
pub fn rel_path(root: &str, abs: &str) -> (r: Result<String, Error>)
    ensures
        match rel_path_of(root@, abs@) {
            Some(p) => r matches Ok(s) && s@ == p,
            None => r matches Err(Error::NotFound(_)),
        },
{
    let stripped = strip_root(abs, root);
    let rel = match stripped {
        Some(rel) => rel,
        None => {
            return Err(not_found(&vec![abs, " is outside the watched root ", root]));
        },
    };
    assert(path_strip_prefix_of(abs@, root@) == Some(rel@));
    let parts = path_parts(rel.as_str());
    let mut i: usize = 0;
    while i < parts.len()
        invariant
            i <= parts.len(),
            parts_view(parts@) == path_parts_of(rel@),
            path_strip_prefix_of(abs@, root@) == Some(rel@),
            forall|k: int| 0 <= k < i ==> (#[trigger] parts_view(parts@)[k]).0,
        decreases parts.len() - i,
    {
        if !parts[i].0 {
            assert(!parts_view(parts@)[i as int].0);
            assert(!path_parts_of(rel@)[i as int].0);
            assert(!all_normal(path_parts_of(rel@)));
            assert(rel_path_of(root@, abs@) is None);
            return Err(not_found(&vec!["refusing ", abs, ": path components must stay inside the root"]));
        }
        i = i + 1;
    }
    let names = component_texts(rel.as_str());
    let s = join(&names, "/");
    Ok(s)
}

/// A stored relative path that lexically stays inside the root: every component is a plain
/// name or `.` (no root, no `..`, no prefix).
pub open spec fn stays_inside(rel_path: Seq<char>) -> bool {
    forall|i: int|
        0 <= i < path_parts_of(rel_path).len() ==> (#[trigger] path_parts_of(rel_path)[i]).0
            || path_parts_of(rel_path)[i].1 == "."@
}

/// Whether `rel_path` lexically stays inside the root (see [`stays_inside`]).
pub fn stays_inside_root(rel_path: &str) -> (b: bool)
    ensures
        b == stays_inside(rel_path@),
{
    let parts = path_parts(rel_path);
    let mut i: usize = 0;
    while i < parts.len()
        invariant
            i <= parts.len(),
            parts_view(parts@) == path_parts_of(rel_path@),
            forall|k: int|
                0 <= k < i ==> (#[trigger] path_parts_of(rel_path@)[k]).0 || path_parts_of(
                    rel_path@,
                )[k].1 == "."@,
        decreases parts.len() - i,
    {
        assert(path_parts_of(rel_path@)[i as int] == (parts@[i as int].0, parts@[i as int].1@));
        if !parts[i].0 && !same_text(parts[i].1.as_str(), ".") {
            return false;
        }
        i = i + 1;
    }
    true
}

/// Join a stored relative path onto the root, refusing anything that could leave it: a
/// path that is not lexically inside (see [`stays_inside`]) is refused before `resolve` is
/// asked for anything; otherwise `resolve` joins it onto the root and resolves links (it
/// fails for a path that does not exist), and a result that is not under `root`, whole
/// component by whole component, is refused too.
pub fn safe_join<F: Fn(&str) -> Result<String, Error>>(root: &str, rel_path: &str, resolve: F) -> (r: Result<String, Error>)
    requires
        forall|s: &str| resolve.requires((s,)),
    ensures
        !stays_inside(rel_path@) ==> r matches Err(Error::NotFound(_)),
        stays_inside(rel_path@) ==> exists|got: Result<String, Error>| {
            &&& #[trigger] resolve.ensures((rel_path,), got)
            &&& match got {
                Err(e) => r == Err::<String, Error>(e),
                Ok(c) => if path_strip_prefix_of(c@, root@) is Some {
                    r == Ok::<String, Error>(c)
                } else {
                    r matches Err(Error::NotFound(_))
                },
            }
        },
{
    if !stays_inside_root(rel_path) {
        return Err(not_found(&vec!["refusing \"", rel_path, "\": not inside the root"]));
    }
    let got = resolve(rel_path);
    match got {
        Err(e) => Err(e),
        Ok(c) => {
            if strip_root(c.as_str(), root).is_some() {
                Ok(c)
            } else {
                Err(not_found(&vec!["refusing \"", rel_path, "\": resolves outside the root"]))
            }
        },
    }
}

} // verus!

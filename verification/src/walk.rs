//! Which files are markdown.

use vstd::prelude::*;
use crate::text::eq_ignore_ascii_case_of;

verus! {

/// The extension of a path as `std::path::Path::extension` reads it: the part of the file
/// name after its last `.`, if the name has one that is not its first character.
/// It follows the path rules of the platform the crate is built for (a backslash separates
/// components only on Windows): within one build it is a function of the text alone.
pub uninterp spec fn path_extension_of(path: Seq<char>) -> Option<Seq<char>>;

/// Calls `Path::extension` on `path` (a `&str` is valid UTF-8, so `OsStr::to_str` keeps the
/// whole extension). The result depends on the path's text alone; the contract names it.
#[verifier::external_body]
pub(crate) fn path_extension(path: &str) -> (e: Option<String>)
    ensures
        match e {
            Some(s) => path_extension_of(path@) == Some(s@),
            None => path_extension_of(path@) is None,
        },
{
    std::path::Path::new(path).extension().and_then(|x| x.to_str()).map(|x| x.to_owned())
}

/// A markdown path: its extension is `md` or `markdown`, in any ASCII case.
pub open spec fn is_markdown_path(path: Seq<char>) -> bool {
    match path_extension_of(path) {
        Some(e) => eq_ignore_ascii_case_of(e, "md"@) || eq_ignore_ascii_case_of(e, "markdown"@),
        None => false,
    }
}

/// Whether `path` has a markdown extension (`.md` or `.markdown`, any case).
pub fn is_markdown(path: &str) -> (b: bool)
    ensures
        b == is_markdown_path(path@),
{
    match path_extension(path) {
        Some(e) => crate::text::eq_ignore_ascii_case(e.as_str(), "md")
            || crate::text::eq_ignore_ascii_case(e.as_str(), "markdown"),
        None => false,
    }
}

} // verus!

verus! {

/// Name of the project-local ignore file, gitignore syntax, read from the root and any
/// subdirectory.
pub const IGNORE_FILE: &'static str = ".markdownattractorignore";

/// A configured ignore pattern as an override glob: in an override set a leading `!` means
/// "ignore" and a plain glob whitelists, so a plain pattern gets a `!` and a negated one
/// loses it.
pub open spec fn override_glob_of(pattern: Seq<char>) -> Seq<char> {
    if pattern.len() > 0 && pattern[0] == '!' {
        pattern.drop_first()
    } else {
        seq!['!'] + pattern
    }
}

fn override_glob(pattern: &str) -> (g: String)
    ensures
        g@ == override_glob_of(pattern@),
{
    let v = crate::text::chars_of(pattern);
    if v.len() > 0 && v[0] == '!' {
        let g = crate::text::string_of_range(&v, 1, v.len());
        assert(pattern@.subrange(1, pattern@.len() as int) =~= pattern@.drop_first());
        g
    } else {
        let mut g = String::new();
        crate::text::push_char(&mut g, '!');
        crate::text::push_str(&mut g, pattern);
        assert(g@ =~= seq!['!'] + pattern@);
        g
    }
}

/// The override globs of a walk: the configured patterns, then the state directory and
/// `.git/`, which no ignore file can whitelist back in.
pub open spec fn override_globs_of(ignore: Seq<Seq<char>>) -> Seq<Seq<char>> {
    (ignore + seq![".markdownattractor/"@, ".git/"@]).map_values(|p: Seq<char>| override_glob_of(p))
}

/// The override globs of a walk (see [`override_globs_of`]).
/// Whatever the configured patterns, the walk excludes the state directory and `.git`: their
/// exclusions come last, after every configured pattern, so none can whitelist them back.
pub proof fn law_state_and_git_dirs_always_excluded(ignore: Seq<Seq<char>>)
    ensures
        override_globs_of(ignore).len() == ignore.len() + 2,
        override_globs_of(ignore)[ignore.len() as int] == "!.markdownattractor/"@,
        override_globs_of(ignore)[ignore.len() + 1int] == "!.git/"@,
{
    reveal_strlit(".markdownattractor/");
    reveal_strlit(".git/");
    reveal_strlit("!.markdownattractor/");
    reveal_strlit("!.git/");
    let all = ignore + seq![".markdownattractor/"@, ".git/"@];
    assert(all[ignore.len() as int] == ".markdownattractor/"@);
    assert(all[ignore.len() + 1int] == ".git/"@);
    assert(override_glob_of(".markdownattractor/"@) =~= "!.markdownattractor/"@);
    assert(override_glob_of(".git/"@) =~= "!.git/"@);
}

pub fn override_globs(ignore: &Vec<String>) -> (r: Vec<String>)
    ensures
        crate::text::texts(r@) == override_globs_of(crate::text::texts(ignore@)),
{
    let mut r: Vec<String> = Vec::new();
    let mut i: usize = 0;
    while i < ignore.len()
        invariant
            i <= ignore.len(),
            crate::text::texts(r@) == crate::text::texts(ignore@).take(i as int).map_values(
                |p: Seq<char>| override_glob_of(p),
            ),
        decreases ignore.len() - i,
    {
        let ghost before = crate::text::texts(r@);
        r.push(override_glob(ignore[i].as_str()));
        assert(crate::text::texts(r@) =~= before.push(override_glob_of(ignore@[i as int]@)));
        assert(crate::text::texts(ignore@).take(i + 1) =~= crate::text::texts(ignore@).take(i as int).push(
            ignore@[i as int]@,
        ));
        assert(crate::text::texts(ignore@).take(i + 1).map_values(|p: Seq<char>| override_glob_of(p))
            =~= crate::text::texts(ignore@).take(i as int).map_values(|p: Seq<char>| override_glob_of(p)).push(
            override_glob_of(ignore@[i as int]@),
        ));
        i = i + 1;
    }
    assert(crate::text::texts(ignore@).take(ignore.len() as int) =~= crate::text::texts(ignore@));
    let ghost before = crate::text::texts(r@);
    r.push(override_glob(".markdownattractor/"));
    r.push(override_glob(".git/"));
    assert(crate::text::texts(r@) =~= before.push(override_glob_of(".markdownattractor/"@)).push(
        override_glob_of(".git/"@),
    ));
    assert(override_globs_of(crate::text::texts(ignore@)) =~= crate::text::texts(ignore@).map_values(
        |p: Seq<char>| override_glob_of(p),
    ).push(override_glob_of(".markdownattractor/"@)).push(override_glob_of(".git/"@)));
    r
}

} // verus!

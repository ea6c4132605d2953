use mda_core::error::Error;
use mda_core::paths::{rel_path, safe_join, stays_inside_root};

const ROOT: &str = "/tmp/mda-root";

/// Stands in for joining onto the root and resolving links: only `a.md` exists, and
/// `link.md` resolves to a file outside the root.
fn resolve(rel: &str) -> Result<String, Error> {
    match rel {
        "a.md" | "./a.md" => Ok(format!("{ROOT}/a.md")),
        "link.md" => Ok("/elsewhere/secret.md".to_owned()),
        _ => Err(Error::io(format!("{ROOT}/{rel}"), "No such file or directory".to_owned())),
    }
}

#[test]
fn paths_cannot_escape_the_root() {
    assert!(matches!(rel_path(ROOT, &format!("{ROOT}/../x.md")), Err(Error::NotFound(_))));
    assert!(matches!(rel_path(ROOT, "/x.md"), Err(Error::NotFound(_))));
    assert!(matches!(safe_join(ROOT, "../etc/passwd", resolve), Err(Error::NotFound(_))));
    assert!(matches!(safe_join(ROOT, "/etc/passwd", resolve), Err(Error::NotFound(_))));
    assert!(safe_join(ROOT, "missing.md", resolve).is_err(), "must exist to be joined");
}

#[test]
fn rel_path_rejects_outside_root() {
    assert!(rel_path(ROOT, "/definitely/elsewhere.md").is_err());
    assert_eq!(rel_path(ROOT, &format!("{ROOT}/a/b.md")).unwrap(), "a/b.md");
}

#[test]
fn rel_path_normalises_separators_and_refuses_parent_steps() {
    assert_eq!(rel_path(ROOT, &format!("{ROOT}//a///b.md")).unwrap(), "a/b.md");
    assert_eq!(rel_path(ROOT, &format!("{ROOT}/./a/./b.md")).unwrap(), "a/b.md");
    assert!(matches!(rel_path(ROOT, &format!("{ROOT}/a/../b.md")), Err(Error::NotFound(_))));
    assert!(matches!(rel_path("/tmp/mda", &format!("{ROOT}/a.md")), Err(Error::NotFound(_))), "whole components only");
}

#[test]
fn safe_join_resolves_inside_and_refuses_links_out() {
    assert_eq!(safe_join(ROOT, "a.md", resolve).unwrap(), format!("{ROOT}/a.md"));
    assert_eq!(safe_join(ROOT, "./a.md", resolve).unwrap(), format!("{ROOT}/a.md"));
    assert!(matches!(safe_join(ROOT, "link.md", resolve), Err(Error::NotFound(_))));
    assert!(matches!(safe_join(ROOT, "missing.md", resolve), Err(Error::Io { .. })));
    assert!(stays_inside_root("a/./b.md"));
    assert!(!stays_inside_root("a/../b.md"));
    assert!(!stays_inside_root("/a.md"));
}

use codeowners::path::{ancestors, components_of, file_name, is_below, is_same, join, parent, strip_prefix};
use codeowners::path_utils::{
    DiskView, directory_to_resolve, lexically_normalize, project_relative, relative_to, relative_to_buf,
    resolve_project_relative,
};

fn disk(resolved: &[(&str, &str)]) -> DiskView {
    DiskView {
        resolved: resolved.iter().map(|(dir, home)| (dir.to_string(), home.to_string())).collect(),
        missing: vec![],
    }
}

#[test]
fn relative_to_returns_relative_when_under_root() {
    let root = "/a/b";
    let path = "/a/b/c/d.txt";
    let rel = relative_to(root, path);
    assert_eq!(rel, "c/d.txt");
}

#[test]
fn relative_to_returns_input_when_not_under_root() {
    let root = "/a/b";
    let path = "/x/y/z.txt";
    let rel = relative_to(root, path);
    assert_eq!(rel, path);
}

#[test]
fn relative_to_handles_equal_paths() {
    let root = "/a/b";
    let path = "/a/b";
    let rel = relative_to(root, path);
    assert_eq!(rel, "");
}

#[test]
fn relative_to_buf_matches_relative_to() {
    let root = "/proj";
    let path = "/proj/src/lib.rs";
    let rel_ref = relative_to(root, path);
    let rel_buf = relative_to_buf(root, path);
    assert_eq!(rel_ref, rel_buf.as_str());
    assert_eq!(rel_ref, "src/lib.rs");
}

#[test]
fn relative_to_goes_by_whole_components() {
    assert_eq!(relative_to("/a/b", "/a/bc/d.txt"), "/a/bc/d.txt");
    assert_eq!(relative_to("/a/b/", "/a//b/./c"), "c");
}

#[test]
fn project_relative_passes_through_a_plain_relative_path() {
    let rel = project_relative("/proj", "ruby/app/a.rb");
    assert_eq!(rel, Some("ruby/app/a.rb".to_string()));
}

#[test]
fn project_relative_strips_a_leading_dot_slash() {
    let rel = project_relative("/proj", "./ruby/app/a.rb");
    assert_eq!(rel, Some("ruby/app/a.rb".to_string()));
}

#[test]
fn project_relative_resolves_interior_parent_dirs() {
    let rel = project_relative("/proj", "ruby/services/../app/a.rb");
    assert_eq!(rel, Some("ruby/app/a.rb".to_string()));
}

#[test]
fn project_relative_strips_the_root_from_an_absolute_path() {
    let rel = project_relative("/proj", "/proj/ruby/app/a.rb");
    assert_eq!(rel, Some("ruby/app/a.rb".to_string()));
}

#[test]
fn project_relative_rejects_an_absolute_path_outside_the_root() {
    assert_eq!(project_relative("/private/proj", "/proj/a.rb"), None);
}

#[test]
fn project_relative_rejects_a_path_escaping_the_root() {
    assert_eq!(project_relative("/proj", "../outside/a.rb"), None);
}

#[test]
fn project_relative_rejects_the_root_itself() {
    assert_eq!(project_relative("/proj", "/proj"), None);
}

#[test]
fn project_relative_rejects_every_way_out() {
    assert_eq!(project_relative("/proj", "../../a.rb"), None);
    assert_eq!(project_relative("/proj", "a/../../b.rb"), None);
    assert_eq!(project_relative("/proj", "/proj/../a.rb"), None);
    assert_eq!(project_relative("/proj", "."), None);
    assert_eq!(project_relative("/proj", ""), None);
    assert_eq!(project_relative("/proj", "a/.."), None);
}

#[test]
fn project_relative_is_stable() {
    for spelling in ["a//b/./c.rb", "a/b/c.rb", "/proj/a/x/../b/c.rb", "./a/b/c.rb"] {
        let once = project_relative("/proj", spelling).unwrap();
        assert_eq!(once, "a/b/c.rb");
        assert_eq!(project_relative("/proj", once.as_str()), Some(once.clone()));
    }
}

#[test]
fn normalization_keeps_what_cannot_be_resolved() {
    assert_eq!(lexically_normalize("../a/./b/../c"), vec!["..", "a", "c"]);
    assert_eq!(lexically_normalize("../../a"), vec!["..", "..", "a"]);
    assert_eq!(lexically_normalize("/a/../b"), vec!["/", "b"]);
    assert!(lexically_normalize("a/..").is_empty());
}

#[test]
fn a_resolved_root_finds_an_unresolved_path() {
    let known = disk(&[("/var/proj/ruby", "/private/var/proj/ruby")]);
    assert_eq!(
        resolve_project_relative("/private/var/proj", Some("/private/var/proj"), "/var/proj/ruby/a.rb", &known),
        Some("ruby/a.rb".to_string())
    );
    // Without an answer from the disk there is nothing to go by.
    assert_eq!(resolve_project_relative("/private/var/proj", Some("/private/var/proj"), "/var/proj/ruby/a.rb", &disk(&[])), None);
}

#[test]
fn an_unresolved_root_finds_a_resolved_path() {
    let known = disk(&[("/private/var/proj/ruby", "/private/var/proj/ruby")]);
    assert_eq!(
        resolve_project_relative("/var/proj", Some("/private/var/proj"), "/private/var/proj/ruby/a.rb", &known),
        Some("ruby/a.rb".to_string())
    );
    assert_eq!(resolve_project_relative("/var/proj", None, "/private/var/proj/ruby/a.rb", &known), None);
}

#[test]
fn relative_paths_are_never_looked_up_on_disk() {
    let known = disk(&[("../outside", "/proj/ruby")]);
    assert_eq!(resolve_project_relative("/proj", Some("/proj"), "../outside/a.rb", &known), None);
    assert_eq!(directory_to_resolve("/proj", "../outside/a.rb"), None);
}

#[test]
fn the_disk_is_asked_about_the_directory_alone() {
    assert_eq!(directory_to_resolve("/proj", "/var/proj/a.rb"), Some("/var/proj".to_string()));
    assert_eq!(directory_to_resolve("/proj", "/proj/a.rb"), None);
    assert_eq!(directory_to_resolve("/proj", "a.rb"), None);
    assert_eq!(directory_to_resolve("/proj", "/elsewhere/.."), None);
}

#[test]
fn components_of_paths() {
    assert_eq!(components_of("/a//b/./c/"), vec!["/", "a", "b", "c"]);
    assert_eq!(components_of("./a/../b"), vec![".", "a", "..", "b"]);
    assert!(components_of("").is_empty());
    assert!(is_same("a/b/", "a//b"));
    assert!(!is_same("./a", "a"));
}

#[test]
fn joining_and_taking_apart() {
    assert_eq!(join("/proj", "a.rb"), "/proj/a.rb");
    assert_eq!(join("/proj/", "a.rb"), "/proj/a.rb");
    assert_eq!(join("", "a.rb"), "a.rb");
    assert_eq!(join("/proj", "/x/a.rb"), "/x/a.rb");
    assert_eq!(parent("/proj/a.rb"), Some("/proj"));
    assert_eq!(parent("a.rb"), Some(""));
    assert_eq!(parent(""), None);
    assert_eq!(parent("/"), None);
    assert_eq!(file_name("/proj/a.rb"), Some("a.rb".to_string()));
    assert_eq!(file_name("/proj/.."), None);
    assert_eq!(strip_prefix("/proj/a/b.rb", "/proj"), Some("a/b.rb"));
    assert_eq!(strip_prefix("/project/a.rb", "/proj"), None);
    assert!(is_below("packs/foo/a.rb", "packs/foo"));
    assert!(!is_below("packs/foobar/a.rb", "packs/foo"));
}

#[test]
fn the_directories_above_a_file_end_at_the_root() {
    assert_eq!(ancestors("/proj/a/b/c.rb", "/proj"), vec!["/proj/a/b", "/proj/a", "/proj"]);
    assert_eq!(ancestors("/other/a.rb", "/proj"), vec!["/other", "/"]);
    assert_eq!(ancestors("a/b.rb", "/proj"), vec!["a", ""]);
}

use syspac::package::{
    fallback_name, find_all_packages, find_direct_packages, find_submodule_packages,
    has_recipe, is_excluded_name, is_submodule_dir, join_path, DirEntry, Package,
    SubmoduleEntry, TopEntry,
};

fn names(v: &[&str]) -> Vec<String> {
    v.iter().map(|s| s.to_string()).collect()
}

fn dir(name: &str, contents: &[&str]) -> DirEntry {
    DirEntry { name: name.to_string(), is_dir: true, contents: names(contents) }
}

fn top(name: &str, contents: &[&str], children: Vec<DirEntry>) -> TopEntry {
    TopEntry { entry: dir(name, contents), children }
}

fn submodule(name: Option<&str>, path: &str, contents: &[&str]) -> SubmoduleEntry {
    SubmoduleEntry {
        name: name.map(|n| n.to_string()),
        path: path.to_string(),
        contents: names(contents),
    }
}

fn package_names(p: &[Package]) -> Vec<String> {
    p.iter().map(|p| p.name.clone()).collect()
}

#[test]
fn test_is_submodule_dir() {
    // A directory that does not exist has no entries, so no `.git`.
    let entries_of_nonexistent: Vec<String> = Vec::new();
    assert!(!is_submodule_dir(&entries_of_nonexistent));
}

#[test]
fn submodule_dir_detection() {
    assert!(is_submodule_dir(&names(&["PKGBUILD", ".git"])));
    assert!(!is_submodule_dir(&names(&["PKGBUILD", ".gitignore"])));
    assert!(has_recipe(&names(&["src", "PKGBUILD"])));
    assert!(!has_recipe(&names(&["pkgbuild"])));
}

#[test]
fn excluded_names() {
    for n in [".hidden", ".git", "target", "node_modules", "build-container", "repo"] {
        assert!(is_excluded_name(n), "{}", n);
    }
    for n in ["packages", "repos", "niri", "targets"] {
        assert!(!is_excluded_name(n), "{}", n);
    }
}

#[test]
fn path_joining() {
    assert_eq!(join_path("/repo", "pkg"), "/repo/pkg");
    assert_eq!(join_path("/repo/", "pkg"), "/repo/pkg");
    assert_eq!(join_path("", "pkg"), "pkg");
    assert_eq!(join_path("/repo", "/abs"), "/abs");
    assert_eq!(join_path(".", "a"), "./a");
}

#[test]
fn submodule_fallback_name() {
    assert_eq!(fallback_name("packages/niri"), "niri");
    assert_eq!(fallback_name("niri"), "niri");
    assert_eq!(fallback_name("packages/"), "unknown");
    assert_eq!(fallback_name(""), "unknown");
}

#[test]
fn empty_tree_discovers_nothing() {
    let tops = vec![
        top("README.md", &[], vec![]),
        top("docs", &["index.md"], vec![dir("img", &["a.png"])]),
    ];
    let mut tops2 = tops;
    tops2[0].entry.is_dir = false;
    let subs = vec![submodule(Some("lib"), "vendor/lib", &["Makefile", ".git"])];
    assert!(find_all_packages("/r", &subs, &tops2).is_empty());
    assert!(find_all_packages("/r", &Vec::new(), &Vec::new()).is_empty());
}

#[test]
fn top_level_and_nested_packages() {
    let tops = vec![
        top("zeta", &["PKGBUILD"], vec![dir("inner", &["PKGBUILD"])]),
        top(
            "packages",
            &["README"],
            vec![dir("test-pkg", &["PKGBUILD"]), dir("alpha", &["PKGBUILD"]), dir("empty", &[])],
        ),
    ];
    let found = find_all_packages("/r", &Vec::new(), &tops);
    assert_eq!(package_names(&found), vec!["alpha", "test-pkg", "zeta"]);
    assert_eq!(found[0].path, "packages/alpha");
    assert_eq!(found[0].pkgbuild_path, "/r/packages/alpha/PKGBUILD");
    assert!(!found[0].is_submodule);
    assert_eq!(found[2].path, "zeta");
    assert_eq!(found[2].pkgbuild_path, "/r/zeta/PKGBUILD");
}

#[test]
fn marker_directories_are_not_plain_packages() {
    let tops = vec![
        top("sub", &[".git", "PKGBUILD"], vec![]),
        top("group", &[], vec![dir("nested", &[".git", "PKGBUILD"]), dir("ok", &["PKGBUILD"])]),
    ];
    let found = find_direct_packages("/r", &tops);
    assert_eq!(package_names(&found), vec!["ok"]);
    let subs = vec![submodule(Some("sub"), "sub", &[".git", "PKGBUILD"])];
    let all = find_all_packages("/r", &subs, &tops);
    assert_eq!(package_names(&all), vec!["ok", "sub"]);
    assert!(all[1].is_submodule);
    assert_eq!(all[1].pkgbuild_path, "/r/sub/PKGBUILD");
}

#[test]
fn recipe_three_levels_deep_is_not_found() {
    // `a/b` has no recipe; only `a/b/c` does, which is never searched.
    let tops = vec![top("a", &[], vec![dir("b", &["c"])])];
    assert!(find_direct_packages("/r", &tops).is_empty());
}

#[test]
fn excluded_and_non_directories_are_skipped() {
    let mut file = dir("file", &[]);
    file.is_dir = false;
    let tops = vec![
        top(".hidden", &["PKGBUILD"], vec![]),
        top("target", &["PKGBUILD"], vec![]),
        top("node_modules", &[], vec![dir("x", &["PKGBUILD"])]),
        top("build-container", &["PKGBUILD"], vec![]),
        top("repo", &["PKGBUILD"], vec![]),
        TopEntry { entry: file, children: vec![] },
        top("keep", &[], vec![dir(".dot", &["PKGBUILD"])]),
    ];
    let found = find_direct_packages("/r", &tops);
    assert_eq!(package_names(&found), vec![".dot"]);
    assert_eq!(found[0].path, "keep/.dot");
}

#[test]
fn submodules_need_a_recipe_and_fall_back_on_their_path() {
    let subs = vec![
        submodule(Some("with-recipe"), "packages/one", &["PKGBUILD", ".git"]),
        submodule(Some("no-recipe"), "deps/two", &[".git"]),
        submodule(None, "packages/three", &["PKGBUILD"]),
    ];
    let found = find_submodule_packages("/r/", &subs);
    assert_eq!(package_names(&found), vec!["with-recipe", "three"]);
    assert_eq!(found[0].path, "packages/one");
    assert_eq!(found[0].pkgbuild_path, "/r/packages/one/PKGBUILD");
    assert!(found.iter().all(|p| p.is_submodule));
}

#[test]
fn duplicate_names_are_kept_in_stable_order() {
    let subs = vec![submodule(Some("dup"), "sm/dup", &["PKGBUILD"])];
    let tops = vec![top("dup", &["PKGBUILD"], vec![]), top("b", &["PKGBUILD"], vec![])];
    let found = find_all_packages("/r", &subs, &tops);
    assert_eq!(package_names(&found), vec!["b", "dup", "dup"]);
    assert_eq!(found[1].path, "sm/dup");
    assert_eq!(found[2].path, "dup");
}

#[test]
fn names_sort_by_character_code() {
    let tops = vec![
        top("b", &["PKGBUILD"], vec![]),
        top("B", &["PKGBUILD"], vec![]),
        top("ab", &["PKGBUILD"], vec![]),
        top("a", &["PKGBUILD"], vec![]),
    ];
    let found = find_all_packages("/r", &Vec::new(), &tops);
    assert_eq!(package_names(&found), vec!["B", "a", "ab", "b"]);
}

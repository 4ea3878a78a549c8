use syspac::changes::{
    detect_changed_packages, find_changed_packages_between_commits, select_base, BaseChoice,
    CommitRange, FileChange,
};
use syspac::package::Package;

fn pkg(name: &str, path: &str) -> Package {
    Package {
        name: name.to_string(),
        path: path.to_string(),
        pkgbuild_path: format!("/r/{}/PKGBUILD", path),
        is_submodule: false,
    }
}

fn change(old: Option<&str>, new: Option<&str>) -> FileChange {
    FileChange { old_path: old.map(|s| s.to_string()), new_path: new.map(|s| s.to_string()) }
}

fn modified(p: &str) -> FileChange {
    change(Some(p), Some(p))
}

fn packages() -> Vec<Package> {
    vec![pkg("alpha", "packages/alpha"), pkg("beta", "packages/beta"), pkg("niri", "niri")]
}

#[test]
fn changes_map_to_owning_packages_sorted_once() {
    let cs = vec![
        modified("niri/PKGBUILD"),
        modified("packages/alpha/PKGBUILD"),
        modified("packages/alpha/fix.patch"),
        modified("README.md"),
    ];
    assert_eq!(find_changed_packages_between_commits(&cs, &packages()), vec!["alpha", "niri"]);
}

#[test]
fn changes_outside_every_package_report_nothing() {
    let cs = vec![modified("README.md"), modified(".github/workflows/ci.yml")];
    assert!(find_changed_packages_between_commits(&cs, &packages()).is_empty());
    assert!(find_changed_packages_between_commits(&Vec::new(), &packages()).is_empty());
}

#[test]
fn rename_between_packages_reports_both() {
    let cs = vec![change(Some("packages/beta/a.patch"), Some("packages/alpha/a.patch"))];
    assert_eq!(find_changed_packages_between_commits(&cs, &packages()), vec!["alpha", "beta"]);
}

#[test]
fn added_and_deleted_files_count_on_their_side() {
    let added = vec![change(None, Some("niri/new.patch"))];
    assert_eq!(find_changed_packages_between_commits(&added, &packages()), vec!["niri"]);
    let deleted = vec![change(Some("packages/beta/old.patch"), None)];
    assert_eq!(find_changed_packages_between_commits(&deleted, &packages()), vec!["beta"]);
}

#[test]
fn deleted_package_is_not_reported() {
    // `to-remove` is gone from the tree, so discovery no longer lists it.
    let cs = vec![
        change(Some("packages/to-remove/PKGBUILD"), None),
        change(Some("packages/to-remove/src.patch"), None),
    ];
    assert!(find_changed_packages_between_commits(&cs, &packages()).is_empty());
}

#[test]
fn first_matching_package_owns_a_path() {
    let pkgs = vec![pkg("a", "pkg"), pkg("b", "pkg-extra")];
    let cs = vec![modified("pkg-extra/PKGBUILD")];
    assert_eq!(find_changed_packages_between_commits(&cs, &pkgs), vec!["a"]);
}

#[test]
fn detection_is_repeatable() {
    let cs = vec![modified("packages/beta/x"), modified("niri/y")];
    let range = CommitRange::Diff(cs);
    let first = detect_changed_packages(&packages(), &range);
    let second = detect_changed_packages(&packages(), &range);
    assert_eq!(first, second);
    assert_eq!(first, vec!["beta", "niri"]);
}

#[test]
fn full_rebuild_reports_every_package() {
    let mut pkgs = packages();
    pkgs.push(pkg("alpha", "sm/alpha"));
    assert_eq!(
        detect_changed_packages(&pkgs, &CommitRange::FullRebuild),
        vec!["alpha", "beta", "niri", "alpha"]
    );
}

#[test]
fn base_selection() {
    match select_base(Some("main".to_string()), Some("abc".to_string())) {
        BaseChoice::Revision(r) => assert_eq!(r, "main"),
        BaseChoice::FullRebuild => panic!("explicit base ignored"),
    }
    match select_base(None, Some("abc".to_string())) {
        BaseChoice::Revision(r) => assert_eq!(r, "abc"),
        BaseChoice::FullRebuild => panic!("parent ignored"),
    }
    assert!(matches!(select_base(None, None), BaseChoice::FullRebuild));
}

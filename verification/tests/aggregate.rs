use mstow::concat_unstow_lists;
use mstow::merge_stow_lists;
use mstow::stow_packages;
use mstow::unstow_packages;
use mstow::Package;
use mstow::new_stow_list;
use mstow::Error;
use mstow::Pair;
use mstow::SourceInfo;
use mstow::StowPlan;
use mstow::TargetInfo;

fn path(segs: &[&str]) -> Vec<String> {
    segs.iter().map(|s| s.to_string()).collect()
}

fn pkg(name: &str, file: &str) -> StowPlan {
    // One package holding bin/<file>, stowed against the shared target root
    // home, with the package and target roots siblings under base.
    let source = SourceInfo::Dir(vec![Pair {
        name: "bin".to_string(),
        source: SourceInfo::Dir(vec![Pair {
            name: file.to_string(),
            source: SourceInfo::NotDir,
            target: TargetInfo::Missing,
        }]),
        target: TargetInfo::Dir { writable: true, same_as_source: false },
    }]);
    new_stow_list(
        &source,
        true,
        &path(&[name]),
        &path(&["home"]),
        &path(&["base", name]),
        &path(&["base", "home"]),
    )
    .unwrap()
}

#[test]
fn merge_disjoint_packages() {
    let plans = vec![pkg("pkgA", "tool"), pkg("pkgB", "other")];
    let merged = merge_stow_lists(&plans).unwrap();
    assert_eq!(merged.len(), 2);
    assert_eq!(
        *merged.lookup(&path(&["home", "bin", "tool"])).unwrap(),
        path(&["..", "..", "pkgA", "bin", "tool"])
    );
    assert_eq!(
        *merged.lookup(&path(&["home", "bin", "other"])).unwrap(),
        path(&["..", "..", "pkgB", "bin", "other"])
    );
}

#[test]
fn merge_cross_package_conflict() {
    // Two packages both hold a file at the same relative path: stowing both
    // together fails, and no merged plan exists for either package.
    let plans = vec![pkg("pkgA", "tool"), pkg("pkgB", "tool")];
    let err = merge_stow_lists(&plans).unwrap_err();
    assert_eq!(
        err,
        Error::CrossPackageConflict {
            target: path(&["home", "bin", "tool"]),
            value_a: path(&["..", "..", "pkgA", "bin", "tool"]),
            value_b: path(&["..", "..", "pkgB", "bin", "tool"]),
        }
    );
}

#[test]
fn merge_same_entry_twice_collapses() {
    let plans = vec![pkg("pkgA", "tool"), pkg("pkgA", "tool")];
    let merged = merge_stow_lists(&plans).unwrap();
    assert_eq!(merged.len(), 1);
}

#[test]
fn record_duplicate_target() {
    let mut plan = StowPlan::new();
    plan.record(path(&["home", "x"]), path(&["..", "pkgA", "x"])).unwrap();
    plan.record(path(&["home", "x"]), path(&["..", "pkgA", "x"])).unwrap();
    assert_eq!(plan.len(), 1);
    let err = plan.record(path(&["home", "x"]), path(&["..", "pkgB", "x"])).unwrap_err();
    assert_eq!(
        err,
        Error::DuplicateTarget {
            target: path(&["home", "x"]),
            existing: path(&["..", "pkgA", "x"]),
            incoming: path(&["..", "pkgB", "x"]),
        }
    );
    assert_eq!(plan.len(), 1);
}

#[test]
fn concat_unstow_lists_keeps_order() {
    let lists = vec![
        vec![path(&["home", "bin", "tool"])],
        vec![],
        vec![path(&["home", "lib", "x"]), path(&["home", "lib", "y"])],
    ];
    let all = concat_unstow_lists(&lists);
    assert_eq!(
        all,
        vec![
            path(&["home", "bin", "tool"]),
            path(&["home", "lib", "x"]),
            path(&["home", "lib", "y"]),
        ]
    );
}

fn package(name: &str, file: &str, target: TargetInfo) -> Package {
    Package {
        source: SourceInfo::Dir(vec![Pair {
            name: "bin".to_string(),
            source: SourceInfo::Dir(vec![Pair {
                name: file.to_string(),
                source: SourceInfo::NotDir,
                target,
            }]),
            target: TargetInfo::Dir { writable: true, same_as_source: false },
        }]),
        source_root: path(&[name]),
        canon_source_root: path(&["base", name]),
    }
}

#[test]
fn stow_packages_merges_and_conflicts() {
    let ok = vec![
        package("pkgA", "tool", TargetInfo::Missing),
        package("pkgB", "other", TargetInfo::Missing),
    ];
    let merged = stow_packages(&ok, true, &path(&["home"]), &path(&["base", "home"])).unwrap();
    assert_eq!(merged.len(), 2);

    let clash = vec![
        package("pkgA", "tool", TargetInfo::Missing),
        package("pkgB", "tool", TargetInfo::Missing),
    ];
    let err = stow_packages(&clash, true, &path(&["home"]), &path(&["base", "home"])).unwrap_err();
    assert!(matches!(err, Error::CrossPackageConflict { .. }));
}

#[test]
fn unstow_packages_concatenates() {
    let pkgs = vec![
        package(
            "pkgA",
            "tool",
            TargetInfo::Symlink(path(&["..", "..", "pkgA", "bin", "tool"])),
        ),
        package("pkgB", "other", TargetInfo::Missing),
    ];
    let all = unstow_packages(&pkgs, true, &path(&["home"]), &path(&["base", "home"])).unwrap();
    assert_eq!(all, vec![path(&["home", "bin", "tool"])]);
}

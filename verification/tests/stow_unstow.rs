use mstow::new_stow_list;
use mstow::new_unstow_list;
use mstow::Error;
use mstow::Pair;
use mstow::SourceInfo;
use mstow::TargetInfo;

fn path(segs: &[&str]) -> Vec<String> {
    segs.iter().map(|s| s.to_string()).collect()
}

fn file_pair(name: &str, target: TargetInfo) -> Pair {
    Pair { name: name.to_string(), source: SourceInfo::NotDir, target }
}

fn dir_pair(name: &str, children: Vec<Pair>) -> Pair {
    Pair {
        name: name.to_string(),
        source: SourceInfo::Dir(children),
        target: TargetInfo::Dir { writable: true, same_as_source: false },
    }
}

/// pkgA lives inside home and holds bin/tool; home/bin exists and is empty.
fn pkg_a(tool_target: TargetInfo) -> SourceInfo {
    SourceInfo::Dir(vec![dir_pair("bin", vec![file_pair("tool", tool_target)])])
}

#[test]
fn stow_concrete_scenario() {
    // Package root pkgA holds bin/tool; target root home; stowing produces
    // the plan { home/bin/tool -> ../pkgA/bin/tool }.
    let source = pkg_a(TargetInfo::Missing);
    let plan = new_stow_list(
        &source,
        true,
        &path(&["pkgA"]),
        &path(&["home"]),
        &path(&["home", "pkgA"]),
        &path(&["home"]),
    )
    .unwrap();
    assert_eq!(plan.len(), 1);
    let entry = plan.get(0);
    assert_eq!(entry.0, path(&["home", "bin", "tool"]));
    assert_eq!(entry.1, path(&["..", "pkgA", "bin", "tool"]));
    let v = plan.lookup(&path(&["home", "bin", "tool"])).unwrap();
    assert_eq!(*v, path(&["..", "pkgA", "bin", "tool"]));
    assert!(plan.lookup(&path(&["home", "bin"])).is_none());
}

#[test]
fn unstow_concrete_scenario() {
    // The same layout where home/bin/tool is already that exact symlink:
    // unstowing marks exactly { home/bin/tool }.
    let source = pkg_a(TargetInfo::Symlink(path(&["..", "pkgA", "bin", "tool"])));
    let list = new_unstow_list(
        &source,
        true,
        &path(&["pkgA"]),
        &path(&["home"]),
        &path(&["home", "pkgA"]),
        &path(&["home"]),
    )
    .unwrap();
    assert_eq!(list, vec![path(&["home", "bin", "tool"])]);
}

#[test]
fn stow_fresh_layout_one_entry_per_file() {
    // Two files and a nested directory, all targets missing, skeleton dirs
    // in place: exactly one plan entry per file.
    let source = SourceInfo::Dir(vec![
        dir_pair(
            "bin",
            vec![
                file_pair("tool", TargetInfo::Missing),
                file_pair("aux", TargetInfo::Missing),
            ],
        ),
        dir_pair("lib", vec![file_pair("libx", TargetInfo::Missing)]),
    ]);
    let plan = new_stow_list(
        &source,
        true,
        &path(&["pkgA"]),
        &path(&["home"]),
        &path(&["base", "pkgA"]),
        &path(&["base", "home"]),
    )
    .unwrap();
    assert_eq!(plan.len(), 3);
    assert_eq!(
        *plan.lookup(&path(&["home", "bin", "tool"])).unwrap(),
        path(&["..", "..", "pkgA", "bin", "tool"])
    );
    assert_eq!(
        *plan.lookup(&path(&["home", "bin", "aux"])).unwrap(),
        path(&["..", "..", "pkgA", "bin", "aux"])
    );
    assert_eq!(
        *plan.lookup(&path(&["home", "lib", "libx"])).unwrap(),
        path(&["..", "..", "pkgA", "lib", "libx"])
    );
}

#[test]
fn stow_links_whole_directory_when_target_missing() {
    // A directory whose mirrored target is missing is linked as one symlink.
    let source = SourceInfo::Dir(vec![Pair {
        name: "bin".to_string(),
        source: SourceInfo::Dir(vec![file_pair("tool", TargetInfo::Missing)]),
        target: TargetInfo::Missing,
    }]);
    let plan = new_stow_list(
        &source,
        true,
        &path(&["pkgA"]),
        &path(&["home"]),
        &path(&["home", "pkgA"]),
        &path(&["home"]),
    )
    .unwrap();
    assert_eq!(plan.len(), 1);
    assert_eq!(
        *plan.lookup(&path(&["home", "bin"])).unwrap(),
        path(&["pkgA", "bin"])
    );
}

#[test]
fn stow_idempotent() {
    // Stow once into a fresh layout, lay the planned link down, stow again:
    // the second plan is empty.
    let before = pkg_a(TargetInfo::Missing);
    let plan = new_stow_list(
        &before,
        true,
        &path(&["pkgA"]),
        &path(&["home"]),
        &path(&["home", "pkgA"]),
        &path(&["home"]),
    )
    .unwrap();
    assert_eq!(plan.len(), 1);
    let after = pkg_a(TargetInfo::Symlink(plan.get(0).1.clone()));
    let replan = new_stow_list(
        &after,
        true,
        &path(&["pkgA"]),
        &path(&["home"]),
        &path(&["home", "pkgA"]),
        &path(&["home"]),
    )
    .unwrap();
    assert_eq!(replan.len(), 0);
}

#[test]
fn stow_unstow_round_trip() {
    // Unstowing the applied stow marks exactly the created target.
    let before = pkg_a(TargetInfo::Missing);
    let plan = new_stow_list(
        &before,
        true,
        &path(&["pkgA"]),
        &path(&["home"]),
        &path(&["home", "pkgA"]),
        &path(&["home"]),
    )
    .unwrap();
    let after = pkg_a(TargetInfo::Symlink(plan.get(0).1.clone()));
    let list = new_unstow_list(
        &after,
        true,
        &path(&["pkgA"]),
        &path(&["home"]),
        &path(&["home", "pkgA"]),
        &path(&["home"]),
    )
    .unwrap();
    assert_eq!(list.len(), plan.len());
    assert_eq!(list, vec![plan.get(0).0.clone()]);
}

#[test]
fn stow_foreign_file_is_target_exists() {
    let source = pkg_a(TargetInfo::File);
    let err = new_stow_list(
        &source,
        true,
        &path(&["pkgA"]),
        &path(&["home"]),
        &path(&["home", "pkgA"]),
        &path(&["home"]),
    )
    .unwrap_err();
    assert_eq!(err, Error::TargetExists { target: path(&["home", "bin", "tool"]) });
}

#[test]
fn stow_foreign_symlink_is_target_exists() {
    let source = pkg_a(TargetInfo::Symlink(path(&["..", "elsewhere", "tool"])));
    let err = new_stow_list(
        &source,
        true,
        &path(&["pkgA"]),
        &path(&["home"]),
        &path(&["home", "pkgA"]),
        &path(&["home"]),
    )
    .unwrap_err();
    assert_eq!(err, Error::TargetExists { target: path(&["home", "bin", "tool"]) });
}

#[test]
fn stow_self_referential_directory_is_noop() {
    let source = SourceInfo::Dir(vec![Pair {
        name: "bin".to_string(),
        source: SourceInfo::Dir(vec![file_pair("tool", TargetInfo::File)]),
        target: TargetInfo::Dir { writable: true, same_as_source: true },
    }]);
    let plan = new_stow_list(
        &source,
        true,
        &path(&["pkgA"]),
        &path(&["home"]),
        &path(&["home", "pkgA"]),
        &path(&["home"]),
    )
    .unwrap();
    assert_eq!(plan.len(), 0);
}

#[test]
fn stow_unwritable_target_root_is_permission_denied() {
    let source = pkg_a(TargetInfo::Missing);
    let err = new_stow_list(
        &source,
        false,
        &path(&["pkgA"]),
        &path(&["home"]),
        &path(&["home", "pkgA"]),
        &path(&["home"]),
    )
    .unwrap_err();
    assert_eq!(err, Error::PermissionDenied { target: path(&["home"]) });
}

#[test]
fn stow_unwritable_subdirectory_is_permission_denied() {
    let source = SourceInfo::Dir(vec![Pair {
        name: "bin".to_string(),
        source: SourceInfo::Dir(vec![file_pair("tool", TargetInfo::Missing)]),
        target: TargetInfo::Dir { writable: false, same_as_source: false },
    }]);
    let err = new_stow_list(
        &source,
        true,
        &path(&["pkgA"]),
        &path(&["home"]),
        &path(&["home", "pkgA"]),
        &path(&["home"]),
    )
    .unwrap_err();
    assert_eq!(err, Error::PermissionDenied { target: path(&["home", "bin"]) });
}

#[test]
fn stow_unlistable_source_is_source_unreadable() {
    // The mirrored target is a directory, so the traversal must list the
    // source entry — which is not a readable directory.
    let source = SourceInfo::Dir(vec![Pair {
        name: "bin".to_string(),
        source: SourceInfo::NotDir,
        target: TargetInfo::Dir { writable: true, same_as_source: false },
    }]);
    let err = new_stow_list(
        &source,
        true,
        &path(&["pkgA"]),
        &path(&["home"]),
        &path(&["home", "pkgA"]),
        &path(&["home"]),
    )
    .unwrap_err();
    assert_eq!(err, Error::SourceUnreadable { source: path(&["pkgA", "bin"]) });
}

#[test]
fn unstow_missing_target_is_skipped() {
    let source = pkg_a(TargetInfo::Missing);
    let list = new_unstow_list(
        &source,
        true,
        &path(&["pkgA"]),
        &path(&["home"]),
        &path(&["home", "pkgA"]),
        &path(&["home"]),
    )
    .unwrap();
    assert!(list.is_empty());
}

#[test]
fn unstow_foreign_file_is_not_symlink_or_dir() {
    let source = pkg_a(TargetInfo::File);
    let err = new_unstow_list(
        &source,
        true,
        &path(&["pkgA"]),
        &path(&["home"]),
        &path(&["home", "pkgA"]),
        &path(&["home"]),
    )
    .unwrap_err();
    assert_eq!(err, Error::NotSymlinkOrDir { target: path(&["home", "bin", "tool"]) });
}

#[test]
fn unstow_stale_symlink_left_untouched() {
    let source = pkg_a(TargetInfo::Symlink(path(&["..", "elsewhere", "tool"])));
    let list = new_unstow_list(
        &source,
        true,
        &path(&["pkgA"]),
        &path(&["home"]),
        &path(&["home", "pkgA"]),
        &path(&["home"]),
    )
    .unwrap();
    assert!(list.is_empty());
}

#[test]
fn unstow_whole_directory_symlink() {
    // The package was stowed as a single directory symlink: the whole
    // directory target is removable as one unit.
    let source = SourceInfo::Dir(vec![Pair {
        name: "bin".to_string(),
        source: SourceInfo::Dir(vec![file_pair("tool", TargetInfo::Missing)]),
        target: TargetInfo::SymlinkDir { writable: true, same_as_source: true },
    }]);
    let list = new_unstow_list(
        &source,
        true,
        &path(&["pkgA"]),
        &path(&["home"]),
        &path(&["home", "pkgA"]),
        &path(&["home"]),
    )
    .unwrap();
    assert_eq!(list, vec![path(&["home", "bin"])]);
}

#[test]
fn unstow_descends_into_foreign_directory_symlink() {
    // An intermediate directory that is itself a symlink into a different
    // package is walked like a plain directory.
    let source = SourceInfo::Dir(vec![Pair {
        name: "bin".to_string(),
        source: SourceInfo::Dir(vec![file_pair(
            "tool",
            TargetInfo::Symlink(path(&["..", "..", "pkgA", "bin", "tool"])),
        )]),
        target: TargetInfo::SymlinkDir { writable: true, same_as_source: false },
    }]);
    let list = new_unstow_list(
        &source,
        true,
        &path(&["pkgA"]),
        &path(&["home"]),
        &path(&["base", "pkgA"]),
        &path(&["base", "home"]),
    )
    .unwrap();
    assert_eq!(list, vec![path(&["home", "bin", "tool"])]);
}

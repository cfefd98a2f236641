use mstow::SourceTargetDiff;

fn path(segs: &[&str]) -> Vec<String> {
    segs.iter().map(|s| s.to_string()).collect()
}

#[test]
fn resolver_sibling_roots() {
    // /home/u/pkgs/foo and /home/u/dot are cousins: from the target root the
    // package root is one level up, then down into pkgs/foo.
    let diff = SourceTargetDiff::new(
        path(&["pkgs", "foo"]),
        &path(&["home", "u", "pkgs", "foo"]),
        &path(&["home", "u", "dot"]),
    )
    .unwrap();
    assert_eq!(diff.d, path(&["..", "pkgs", "foo"]));
}

#[test]
fn resolver_package_inside_target() {
    // The package root lives inside the target root: no `..` is needed.
    let diff = SourceTargetDiff::new(
        path(&["pkgA"]),
        &path(&["home", "pkgA"]),
        &path(&["home"]),
    )
    .unwrap();
    assert_eq!(diff.d, path(&["pkgA"]));
}

#[test]
fn resolver_equal_roots() {
    let diff = SourceTargetDiff::new(
        path(&["x"]),
        &path(&["home", "x"]),
        &path(&["home", "x"]),
    )
    .unwrap();
    assert_eq!(diff.d, path(&[] as &[&str]));
}

#[test]
fn link_value_depth_one() {
    let diff = SourceTargetDiff::new(
        path(&["pkgs", "foo"]),
        &path(&["home", "u", "pkgs", "foo"]),
        &path(&["home", "u", "dot"]),
    )
    .unwrap();
    // Suffix bin/x sits one directory below the target root.
    let v = diff.conv_source_rel(&path(&["pkgs", "foo", "bin", "x"]));
    assert_eq!(v, path(&["..", "..", "pkgs", "foo", "bin", "x"]));
}

#[test]
fn link_value_depth_sensitivity() {
    // A file at pkgA/a/b/c/file stowed under home: three directory levels
    // (a/b/c) under the target root give three `..` hops before the
    // package-relative prefix `../pkgA`.
    let diff = SourceTargetDiff::new(
        path(&["pkgA"]),
        &path(&["base", "pkgA"]),
        &path(&["base", "home"]),
    )
    .unwrap();
    assert_eq!(diff.d, path(&["..", "pkgA"]));
    let v = diff.conv_source_rel(&path(&["pkgA", "a", "b", "c", "file"]));
    assert_eq!(
        v,
        path(&["..", "..", "..", "..", "pkgA", "a", "b", "c", "file"])
    );
    assert_eq!(v[0..3], path(&["..", "..", ".."])[..]);
}

#[test]
fn link_value_at_top_level() {
    // An entry directly under the target root needs no `..` of its own.
    let diff = SourceTargetDiff::new(
        path(&["pkgA"]),
        &path(&["base", "pkgA"]),
        &path(&["base", "home"]),
    )
    .unwrap();
    let v = diff.conv_source_rel(&path(&["pkgA", "bin"]));
    assert_eq!(v, path(&["..", "pkgA", "bin"]));
}

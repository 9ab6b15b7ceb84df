use kimi_bg_tool::paths::{backup_path, detect_install_path, dist_index_path, normalize_root, root_index_path, RootProbe};

fn probe(is_root: bool, has_dist: bool, named_resources: bool, has_parent: bool) -> RootProbe {
    RootProbe { is_root, has_dist, named_resources, has_parent }
}

#[test]
fn backup_path_appends_suffix() {
    assert_eq!(backup_path("C:\\a\\main-1.css"), "C:\\a\\main-1.css.wallpaper-bak");
    assert_eq!(backup_path(""), ".wallpaper-bak");
}

#[test]
fn normalize_root_variants() {
    let outside = probe(false, false, false, true);
    let root = probe(true, false, false, true);
    let resources = probe(false, true, true, true);
    let dist = probe(false, false, false, true);
    // The install root itself.
    assert_eq!(normalize_root(&vec![root]), Some(0));
    // The `resources` directory: its parent.
    assert_eq!(normalize_root(&vec![resources, root]), Some(1));
    // `desktop-dist`: two levels up.
    assert_eq!(normalize_root(&vec![dist, resources, root]), Some(2));
    // A directory holding `desktop-dist` under another name is no root.
    assert_eq!(normalize_root(&vec![probe(false, true, false, true)]), None);
    assert_eq!(normalize_root(&vec![probe(false, true, false, true), root]), Some(1));
    // Nothing found.
    assert_eq!(normalize_root(&vec![outside, outside, outside]), None);
    assert_eq!(normalize_root(&vec![]), None);
    // The search stops at the top of the tree.
    assert_eq!(normalize_root(&vec![probe(false, false, false, false), root]), None);
    // A `resources` directory without a parent has no root.
    assert_eq!(normalize_root(&vec![probe(false, true, true, false)]), None);
    // At most five levels are looked at.
    assert_eq!(normalize_root(&vec![outside, outside, outside, outside, root]), Some(4));
    assert_eq!(normalize_root(&vec![outside, outside, outside, outside, outside, root]), None);
}

#[test]
fn detect_install_path_first_valid() {
    assert_eq!(detect_install_path(&vec![false, true, true]), Some(1));
    assert_eq!(detect_install_path(&vec![true]), Some(0));
    assert_eq!(detect_install_path(&vec![false, false]), None);
    assert_eq!(detect_install_path(&vec![]), None);
}

#[test]
fn index_paths() {
    let p = root_index_path("R");
    assert!(p.starts_with('R') && p.ends_with("index.html"));
    assert!(p.contains("resources") && p.contains("desktop-dist"));
    assert_eq!(p.len(), "R/resources/desktop-dist/index.html".len());
    let d = dist_index_path("res");
    assert!(d.starts_with("res") && d.ends_with("index.html") && d.contains("desktop-dist"));
    assert_eq!(d.len(), "res/desktop-dist/index.html".len());
    let expect = std::path::Path::new("R").join("resources").join("desktop-dist").join("index.html");
    assert_eq!(p, expect.to_string_lossy());
    let expect = std::path::Path::new("res").join("desktop-dist").join("index.html");
    assert_eq!(d, expect.to_string_lossy());
}

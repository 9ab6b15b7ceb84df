use kimi_bg_tool::hook::{
    hook_installed, hook_status, hook_needs_upgrade, install_hook, remove_hook, HookError, HookStatus,
    HOOK_VERSION_MARK, HOT_HOOK_BLOCK, HOT_HOOK_END, HOT_HOOK_START,
};

#[test]
fn test_install_hook_and_remove() {
    let original = "<html>\n  <body>\n    <div>x</div>\n  </body>\n</html>\n";
    let installed = install_hook(original).unwrap();
    assert!(installed.contains(HOT_HOOK_START));
    assert!(installed.contains(HOT_HOOK_END));
    assert!(installed.contains(HOOK_VERSION_MARK), "new block must be v2");
    assert!(installed.contains("setInterval(tick, 2000)"));
    assert!(
        installed.contains("fetch('/kimi-wallpaper-hot.json"),
        "the version file must be fetched by absolute path"
    );
    assert!(installed.contains("fetch('/kimi-wallpaper-hot.css"));
    assert_eq!(
        installed.matches("kimi-wallpaper-hot-hook").count(),
        2,
        "start and end markers once each"
    );
    assert!(hook_installed(&installed));

    let again = install_hook(&installed).unwrap();
    assert_eq!(again, installed, "installing again returns the page unchanged");
    assert_eq!(again.matches("kimi-wallpaper-hot-hook").count(), 2);

    let removed = remove_hook(&installed);
    assert!(!removed.contains("kimi-wallpaper-hot-hook"));
    assert_eq!(removed, original, "removing gives back the page");
    assert_eq!(remove_hook(&removed), removed, "removing again changes nothing");
    assert!(!hook_installed(&removed));
}

#[test]
fn test_install_hook_no_body_errors() {
    let r = install_hook("<html><head><title>t</title></head></html>");
    assert!(r.is_err(), "a page without </body> is refused");
}

#[test]
fn test_install_hook_v2_upgrade() {
    let v1_block = HOT_HOOK_BLOCK
        .replace("    <!-- version: v2 -->\n", "")
        .to_string();
    assert!(!v1_block.contains(HOOK_VERSION_MARK));
    let original = "<html><body>\n</body></html>";
    let with_v1 = format!("<html><body>\n{v1_block}\n</body></html>");

    assert!(hook_installed(&with_v1));
    assert!(hook_needs_upgrade(&with_v1), "a v1 block needs an upgrade");

    let upgraded = install_hook(&with_v1).unwrap();
    assert!(upgraded.contains(HOOK_VERSION_MARK), "upgraded to v2");
    assert!(!hook_needs_upgrade(&upgraded));
    assert_eq!(upgraded.matches(HOT_HOOK_START).count(), 1, "one block only");
    assert_eq!(upgraded.matches("kimi-wallpaper-hot-hook").count(), 2);
    assert!(upgraded.contains("kimi-wallpaper-hot-video"), "v2 block has the video layer");

    let again = install_hook(&upgraded).unwrap();
    assert_eq!(again, upgraded, "a v2 page is returned unchanged");

    assert_eq!(remove_hook(&upgraded), original, "removing v2 restores the page");
    assert!(!hook_installed(&remove_hook(&upgraded)));
}

#[test]
fn hook_error_variant_without_body() {
    assert_eq!(install_hook("<html></html>"), Err(HookError::NoBodyTag));
}

#[test]
fn hook_not_installed_on_plain_page() {
    let page = "<html><body></body></html>";
    assert!(!hook_installed(page));
    assert!(!hook_needs_upgrade(page));
    assert_eq!(remove_hook(page), page);
}

#[test]
fn hook_inserted_before_last_body_tag() {
    let page = "<body>a</body><body>b</body>";
    let out = install_hook(page).unwrap();
    assert!(out.ends_with("    <!-- === kimi-wallpaper-hot-hook end === -->\n</body>"));
    assert!(out.starts_with("<body>a</body><body>b    <!-- === kimi-wallpaper-hot-hook === -->"));
}

#[test]
fn hook_block_without_end_marker_is_kept() {
    let page = format!("<body>\n    {}\n</body>", HOT_HOOK_START);
    assert_eq!(remove_hook(&page), page);
}

#[test]
fn hook_removal_keeps_what_precedes_the_block() {
    // Only the block's own indentation goes, never other characters before it.
    let cjk = format!("中中{}{}\n", HOT_HOOK_START, HOT_HOOK_END);
    assert_eq!(remove_hook(&cjk), "中中");
    let letters = format!("abcd{}{}", HOT_HOOK_START, HOT_HOOK_END);
    assert_eq!(remove_hook(&letters), "abcd");
    let two = format!("x  {}{}", HOT_HOOK_START, HOT_HOOK_END);
    assert_eq!(remove_hook(&two), "x");
    let six = format!("x      {}{}\ny", HOT_HOOK_START, HOT_HOOK_END);
    assert_eq!(remove_hook(&six), "x  y");
    let indented = format!("    {}{}\n", HOT_HOOK_START, HOT_HOOK_END);
    assert_eq!(remove_hook(&indented), "");
}

#[test]
fn hook_status_cases() {
    assert_eq!(hook_status("<body></body>"), HookStatus::Absent);
    let installed = install_hook("<body></body>").unwrap();
    assert_eq!(hook_status(&installed), HookStatus::Current);
    let old = format!("<body>{}{}</body>", HOT_HOOK_START, HOT_HOOK_END);
    assert_eq!(hook_status(&old), HookStatus::Outdated);
}

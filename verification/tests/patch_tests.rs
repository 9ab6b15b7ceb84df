use kimi_bg_tool::patch::{build_patch, patched_css, strip_patch, PATCH_END_LINE, PATCH_HEADER, PATCH_START};

const ORIG_CSS: &str = "body { color: red; }\n";

fn dark_only(b64: &str) -> String {
    build_patch(Some((b64, "0.80", "image/jpeg")), None, "0.55", "0.25").unwrap()
}

#[test]
fn test_patch_fixed_cover() {
    let patch = build_patch(Some((&"x".repeat(8), "0.80", "image/jpeg")), None, "0.55", "0.25").unwrap();
    assert!(patch.contains("background-size:cover,cover"));
    assert!(patch.contains("background-position:center,center"));
    assert!(!patch.contains("{BS}") && !patch.contains("{BP}"), "no fill-mode placeholders are left");
}

#[test]
fn test_build_patch_mime_placeholder() {
    let gif_patch = build_patch(Some(("QUJD", "0.80", "image/gif")), None, "0.55", "0.25").unwrap();
    assert!(gif_patch.contains("data:image/gif;base64,QUJD"), "a GIF slot writes data:image/gif");
    assert!(!gif_patch.contains("data:image/jpeg;base64,QUJD"));

    let jpg_patch = build_patch(Some(("QUJD", "0.80", "image/jpeg")), None, "0.55", "0.25").unwrap();
    assert!(jpg_patch.contains("data:image/jpeg;base64,QUJD"));
    assert!(!jpg_patch.contains("{MIME}"), "every {{MIME}} placeholder is replaced");
}

#[test]
fn test_templates_define_mask_variable() {
    let patch = build_patch(
        Some(("d", "0.80", "image/jpeg")),
        Some(("l", "0.78", "image/jpeg")),
        "0.55",
        "0.25",
    )
    .unwrap();
    assert_eq!(patch.matches("--kimi-wallpaper-mask").count(), 4, "dark/light x scheme/system: four mask rules");
    assert!(patch.contains("html[data-color-scheme=dark]{--kimi-wallpaper-mask:rgba(7,7,13,0.80)"));
    assert!(patch.contains("html[data-color-scheme=system]{--kimi-wallpaper-mask:rgba(7,7,13,0.80)"));
    assert!(patch.contains("html[data-color-scheme=light]{--kimi-wallpaper-mask:rgba(250,250,252,0.78)"));
    assert!(patch.contains("html[data-color-scheme=system]{--kimi-wallpaper-mask:rgba(250,250,252,0.78)}"));
}

#[test]
fn build_patch_none_without_slots() {
    assert_eq!(build_patch(None, None, "0.55", "0.25"), None);
}

#[test]
fn build_patch_block_shape() {
    let patch = dark_only("AAAA");
    assert!(patch.starts_with(&format!("{}\n", PATCH_HEADER)));
    assert!(patch.ends_with(PATCH_END_LINE));
    assert!(!patch.contains("{B64}") && !patch.contains("{DA}") && !patch.contains("{SA}") && !patch.contains("{PA}"));
    assert!(patch.contains("url(\"data:image/jpeg;base64,AAAA\")"));
}

#[test]
fn patched_css_dark_only() {
    let patch = dark_only("AAAA");
    let css = patched_css(ORIG_CSS, Some(&patch));
    assert_eq!(css, format!("body {{ color: red; }}\n\n{}", patch));
    assert!(css.contains("--kimi-wallpaper-dark"));
    assert!(!css.contains("--kimi-wallpaper-light"));
    assert_eq!(css.matches(PATCH_HEADER).count(), 1, "one patch block");
    assert!(css.contains("rgba(7,7,13,0.80)"));
    assert!(css.contains("rgba(10,10,17,0.55)"));
    assert!(css.contains(".global-preview"));
    assert!(css.contains(".agent-panel"));
    assert!(css.contains(".fp-body"));
    assert!(css.contains(".ui-panel-header"));
    assert!(css.contains("rgba(10,10,17,0.25)"));
    assert!(css.contains("html[data-color-scheme=dark]"));
    assert!(css.contains("@media (prefers-color-scheme:dark)"));

    let again = patched_css(&css, Some(&patch));
    assert_eq!(again.matches(PATCH_HEADER).count(), 1, "applying again adds no second block");
    assert_eq!(again, css, "applying the same patch twice changes nothing");
}

#[test]
fn patched_css_both_slots() {
    let patch = build_patch(
        Some(("DDDD", "0.80", "image/jpeg")),
        Some(("LLLL", "0.78", "image/jpeg")),
        "0.55",
        "0.25",
    )
    .unwrap();
    let css = patched_css(ORIG_CSS, Some(&patch));
    assert!(css.contains("--kimi-wallpaper-dark"));
    assert!(css.contains("--kimi-wallpaper-light"));
    assert_eq!(css.matches(":root{--kimi-wallpaper-").count(), 2);
    assert_eq!(css.matches(PATCH_HEADER).count(), 1);
    assert!(css.contains("rgba(250,250,252,0.78)"));
    assert!(css.contains("rgba(255,255,255,0.55)"));
    assert!(css.contains("rgba(255,255,255,0.25)"));
    assert!(css.contains(".chat-header"));
    assert!(css.contains(".chat-dock:before"));
}

#[test]
fn patched_css_without_patch_restores_sheet() {
    let patch = dark_only("AAAA");
    let css = patched_css(ORIG_CSS, Some(&patch));
    assert!(css.contains(PATCH_START));
    let removed = patched_css(&css, None);
    assert!(!removed.contains(PATCH_START), "applying no slot removes the block");
    assert_eq!(removed, ORIG_CSS, "removing the block restores the original");
}

#[test]
fn patched_css_replaces_an_older_block() {
    let old = dark_only("OLD");
    let new = dark_only("NEW");
    let css = patched_css(&patched_css(ORIG_CSS, Some(&old)), Some(&new));
    assert!(css.contains("base64,NEW"));
    assert!(!css.contains("base64,OLD"));
    assert_eq!(css, patched_css(ORIG_CSS, Some(&new)));
}

#[test]
fn strip_patch_cases() {
    assert_eq!(strip_patch("a{}\n"), "a{}\n");
    let block = dark_only("AAAA");
    // The block is cut up to its end mark; the newline after the mark stays.
    assert_eq!(strip_patch(&format!("x\n{}y\n", block)), "x\n\ny\n");
    // An unterminated block is left as it is.
    let open = "x\n/* === kimi-wallpaper-patch === */\nrest";
    assert_eq!(strip_patch(open), open);
    // Every terminated block goes.
    assert_eq!(strip_patch(&format!("{}a{}b", block, block)), "\na\nb");
    assert_eq!(strip_patch(&strip_patch(&format!("x\n{}y\n", block))), "x\n\ny\n");
}

#[test]
fn patched_css_trims_trailing_space() {
    assert_eq!(patched_css("a{}  \n\n\t", None), "a{}\n");
    assert_eq!(patched_css("", Some("P")), "\n\nP\n");
}

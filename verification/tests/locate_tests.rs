use kimi_bg_tool::locate::{main_css_name, LocateError};

#[test]
fn test_locate_main_css_from_index_html() {
    let html = r#"<html><head><link rel="stylesheet" href="/assets/main-abc123.css"></head><body></body></html>"#;
    assert_eq!(main_css_name(html).unwrap(), "main-abc123.css");
}

#[test]
fn locate_main_css_single_quotes() {
    let html = "<link rel='stylesheet' href='/assets/main-x9.css'>";
    assert_eq!(main_css_name(html), Ok("main-x9.css".to_string()));
}

#[test]
fn locate_main_css_first_link_wins() {
    let html = r#"<link href="/assets/main-a.css"><link href="/assets/main-b.css">"#;
    assert_eq!(main_css_name(html), Ok("main-a.css".to_string()));
}

#[test]
fn locate_main_css_missing() {
    assert_eq!(main_css_name("<html></html>"), Err(LocateError::NoMainCss));
    assert_eq!(main_css_name(r#"href="/assets/other.css""#), Err(LocateError::NoMainCss));
}

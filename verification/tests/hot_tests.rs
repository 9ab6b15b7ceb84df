use kimi_bg_tool::hot::{
    hot_css_path, hot_json, hot_json_path, next_hot_version, parse_u64, u64_to_decimal, version_after,
    HOT_CSS_NAME, HOT_JSON_NAME,
};

#[test]
fn next_hot_version_bumps_version() {
    // No old file: the current time.
    assert_eq!(next_hot_version(None, 1_700_000_000_000), Ok(1_700_000_000_000));
    // An old version ahead of the clock: one more.
    assert_eq!(
        next_hot_version(Some(r#"{"v":99999999999999}"#), 1_700_000_000_000),
        Ok(100000000000000)
    );
    assert_eq!(
        next_hot_version(Some(r#"{"v":100000000000000,"video":null}"#), 1_700_000_000_000),
        Ok(100000000000001)
    );
    // An old file in the format without the video field.
    assert_eq!(
        next_hot_version(Some(r#"{"v":99999999999998}"#), 5),
        Ok(99999999999999)
    );
    // Spaces around the colon are accepted.
    assert_eq!(next_hot_version(Some(r#"{ "v" : 41 }"#), 0), Ok(42));
    // An old version behind the clock: the clock.
    assert_eq!(next_hot_version(Some(r#"{"v":3}"#), 1000), Ok(1000));
    // Garbage counts as version 0.
    assert_eq!(next_hot_version(Some("garbage"), 0), Ok(1));
}

#[test]
fn version_after_cases() {
    assert_eq!(version_after(None, 0), 1);
    assert_eq!(version_after(Some("7"), 0), 8);
    assert_eq!(version_after(Some("7"), 100), 100);
    assert_eq!(version_after(Some("18446744073709551615"), 0), u64::MAX, "saturates");
    assert_eq!(version_after(Some("18446744073709551616"), 9), 9, "too large to parse counts as 0");
}

#[test]
fn parse_u64_cases() {
    assert_eq!(parse_u64("0"), Some(0));
    assert_eq!(parse_u64("+12"), Some(12));
    assert_eq!(parse_u64("18446744073709551615"), Some(u64::MAX));
    assert_eq!(parse_u64("18446744073709551616"), None);
    assert_eq!(parse_u64(""), None);
    assert_eq!(parse_u64("+"), None);
    assert_eq!(parse_u64("1a"), None);
    assert_eq!(parse_u64("-1"), None);
}

#[test]
fn hot_json_video_field() {
    assert_eq!(hot_json(5, Some("kimi-wallpaper-video.mp4")), r#"{"v":5,"video":"kimi-wallpaper-video.mp4"}"#);
    assert_eq!(hot_json(100000000000000, None), r#"{"v":100000000000000,"video":null}"#);
    let j = hot_json(0, None);
    assert!(j.starts_with('{') && j.ends_with('}'));
}

#[test]
fn hot_json_round_trips_version() {
    for v in [0u64, 9, 10, 12345, u64::MAX - 1] {
        let j = hot_json(v, None);
        assert_eq!(next_hot_version(Some(&j), 0), Ok(v + 1));
    }
}

#[test]
fn decimal_digits() {
    let s: String = u64_to_decimal(1234567890).into_iter().collect();
    assert_eq!(s, "1234567890");
    let z: String = u64_to_decimal(0).into_iter().collect();
    assert_eq!(z, "0");
}

#[test]
fn hot_paths_join_file_names() {
    let css = hot_css_path("dist");
    assert!(css.starts_with("dist") && css.ends_with(HOT_CSS_NAME));
    assert!(css.len() == "dist".len() + HOT_CSS_NAME.len() + 1);
    let json = hot_json_path("dist");
    assert!(json.starts_with("dist") && json.ends_with(HOT_JSON_NAME));
    assert_ne!(css, "dist");
    let dist = std::path::Path::new("dist");
    assert_eq!(css, dist.join(HOT_CSS_NAME).to_string_lossy());
    assert_eq!(json, dist.join(HOT_JSON_NAME).to_string_lossy());
    assert_ne!(css, json);
}

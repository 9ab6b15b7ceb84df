use kimi_bg_tool::conf::{crop_fields, from_conf, to_conf, ConfRead, CropText, SettingsText};

/// The last value that parses as a number, else the default (what the
/// application does with an opacity).
fn alpha(values: &[String], default: f32) -> f32 {
    values.iter().rev().find_map(|v| v.parse::<f32>().ok()).unwrap_or(default)
}

fn crop_text(x: f32, y: f32, w: f32, h: f32) -> CropText {
    CropText { x: format!("{}", x), y: format!("{}", y), w: format!("{}", w), h: format!("{}", h) }
}

fn crop_numbers(c: &Option<CropText>) -> Option<[f32; 4]> {
    let c = c.as_ref()?;
    Some([c.x.parse().ok()?, c.y.parse().ok()?, c.w.parse().ok()?, c.h.parse().ok()?])
}

fn settings(
    install_path: &str,
    side: f32,
    panel: f32,
    dark: (Option<&str>, f32, Option<CropText>),
    light: (Option<&str>, f32, Option<CropText>),
    video: Option<&str>,
) -> SettingsText {
    SettingsText {
        install_path: install_path.to_string(),
        side_alpha: format!("{:.2}", side),
        panel_alpha: format!("{:.2}", panel),
        dark_alpha: format!("{:.2}", dark.1),
        dark_path: dark.0.map(|p| p.to_string()),
        dark_crop: dark.2,
        light_alpha: format!("{:.2}", light.1),
        light_path: light.0.map(|p| p.to_string()),
        light_crop: light.2,
        video_path: video.map(|p| p.to_string()),
    }
}

fn read_back(s: &SettingsText) -> ConfRead {
    from_conf(&to_conf(s))
}

#[test]
fn test_conf_round_trip_with_crop() {
    let s = settings(
        "T:\\Kimi Code",
        0.55,
        0.25,
        (Some("C:\\图 片\\dark=1.png"), 0.80, Some(crop_text(0.1, 0.2, 0.5, 0.4))),
        (None, 0.78, None),
        None,
    );
    let back = read_back(&s);
    assert_eq!(back.install_path, s.install_path);
    assert_eq!(back.side_alpha, vec![s.side_alpha.clone()]);
    assert_eq!(back.panel_alpha, vec![s.panel_alpha.clone()]);
    assert_eq!(back.dark_alpha, vec![s.dark_alpha.clone()]);
    assert_eq!(back.dark_path, s.dark_path, "a path with CJK, space and = comes back");
    assert_eq!(back.dark_crop, s.dark_crop);
    assert_eq!(crop_numbers(&back.dark_crop), Some([0.1, 0.2, 0.5, 0.4]));
    assert_eq!(back.light_alpha, vec![s.light_alpha.clone()]);
    assert_eq!(back.light_path, None);
    assert_eq!(back.light_crop, None);
    assert_eq!(back.video_path, None);
    assert!((alpha(&back.dark_alpha, 0.0) - 0.80).abs() < 1e-6);
}

#[test]
fn test_conf_round_trip_no_crop_and_equals_path() {
    let s = settings(
        "",
        0.30,
        0.10,
        (Some("D:\\a=b\\壁纸.png"), 0.90, None),
        (Some("E:\\light.jpg"), 0.70, Some(crop_text(0.0, 0.0, 1.0, 1.0))),
        Some("F:\\视频\\bg.mp4"),
    );
    let back = read_back(&s);
    assert_eq!(back.dark_path, s.dark_path);
    assert_eq!(back.light_path, s.light_path);
    assert_eq!(back.video_path, s.video_path, "a video path with CJK comes back");
    assert!(back.dark_crop.is_none());
    assert_eq!(back.light_crop, s.light_crop);
    assert_eq!(crop_numbers(&back.light_crop), Some([0.0, 0.0, 1.0, 1.0]));
    assert!((alpha(&back.side_alpha, 0.55) - 0.30).abs() < 1e-6);
    assert!((alpha(&back.dark_alpha, 0.80) - 0.90).abs() < 1e-6);
    assert!((alpha(&back.light_alpha, 0.78) - 0.70).abs() < 1e-6);
    assert!(!to_conf(&s).contains("dark.crop"), "no dark.crop line without a crop");
}

#[test]
fn test_from_conf_tolerates_garbage_and_missing() {
    let text = "\
# 注释行应被跳过
完全乱写的一行
side_alpha=不是数字
unknown_key=zzz

dark.crop=0.1,0.2,bad
dark.crop=0.1,0.2,0.3
dark.alpha=0.66
dark.path=
light.crop=,,
";
    let s = from_conf(text);
    assert_eq!(s.install_path, "", "no install_path line gives the empty string");
    assert!((alpha(&s.side_alpha, 0.55) - 0.55).abs() < 1e-6, "a bad opacity falls back to the default");
    assert!((alpha(&s.panel_alpha, 0.25) - 0.25).abs() < 1e-6);
    assert!((alpha(&s.dark_alpha, 0.80) - 0.66).abs() < 1e-6, "valid lines still count");
    assert_eq!(s.dark_crop, None, "a crop without four parts is none");
    assert_eq!(s.dark_path, None, "an empty path is none");
    assert_eq!(crop_numbers(&s.light_crop), None);
    assert!((alpha(&s.light_alpha, 0.78) - 0.78).abs() < 1e-6);
}

#[test]
fn conf_text_layout() {
    let s = settings("X", 0.55, 0.25, (Some("d.png"), 0.8, None), (None, 0.78, None), None);
    assert_eq!(
        to_conf(&s),
        "install_path=X\nside_alpha=0.55\npanel_alpha=0.25\ndark.alpha=0.80\ndark.path=d.png\nlight.alpha=0.78\n"
    );
}

#[test]
fn conf_last_value_wins_and_trims() {
    let r = from_conf("  install_path =  A \ninstall_path=B=C\r\n#install_path=Z\nside_alpha=1\nside_alpha = 2\n");
    assert_eq!(r.install_path, "B=C");
    assert_eq!(r.side_alpha, vec!["1".to_string(), "2".to_string()]);
    let r2 = from_conf("dark.path=a.png\ndark.path=\n");
    assert_eq!(r2.dark_path, None);
    let r3 = from_conf("video.path");
    assert_eq!(r3.video_path, None);
    let r4 = from_conf("light.crop=1,2,3,4\nlight.crop=1,2\n");
    assert_eq!(r4.light_crop, None);
}

#[test]
fn crop_fields_cases() {
    assert_eq!(
        crop_fields(" 1 , 2,3 ,4"),
        Some(CropText { x: "1".into(), y: "2".into(), w: "3".into(), h: "4".into() })
    );
    assert_eq!(crop_fields("1,2,3"), None);
    assert_eq!(crop_fields("1,2,3,4,5"), None);
    assert_eq!(crop_fields(",,,"), Some(CropText { x: "".into(), y: "".into(), w: "".into(), h: "".into() }));
}

#[test]
fn conf_ignored_lines_change_nothing() {
    let t = "install_path=C:\\Kimi\nside_alpha=0.4\ndark_path=/a/b.png";
    let extended = format!("{t}\n# c\nunknown_key=zzz\n\n   \n");
    assert_eq!(from_conf(&extended), from_conf(t));
    let empty = from_conf("");
    assert_eq!(empty.install_path, "");
    assert!(empty.side_alpha.is_empty() && empty.dark_path.is_none() && empty.video_path.is_none());
}

use kimi_bg_tool::crop::CropAspect;

#[test]
fn crop_aspect_labels() {
    assert_eq!(CropAspect::Ratio16x9.label(), "16:9（宽屏）");
    assert_eq!(CropAspect::Ratio21x9.label(), "21:9（超宽屏）");
    assert_eq!(CropAspect::Free.label(), "自由比例");
}

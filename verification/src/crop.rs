//! Crop aspect choices offered in the crop editor.
use vstd::prelude::*;

verus! {

/// Aspect ratio of the crop selection.
#[derive(Clone, Copy, Debug, PartialEq, Eq)]
pub enum CropAspect {
    /// 16:9 (wide screen).
    Ratio16x9,
    /// 21:9 (ultra-wide screen).
    Ratio21x9,
    /// Any ratio.
    Free,
}

impl CropAspect {
    /// The label shown for the choice.
    pub open spec fn label_spec(self) -> Seq<char> {
        match self {
            CropAspect::Ratio16x9 => "16:9（宽屏）"@,
            CropAspect::Ratio21x9 => "21:9（超宽屏）"@,
            CropAspect::Free => "自由比例"@,
        }
    }

    /// The label shown for the choice.
    pub fn label(self) -> (r: &'static str)
        ensures
            r@ == self.label_spec(),
    {
        match self {
            CropAspect::Ratio16x9 => "16:9（宽屏）",
            CropAspect::Ratio21x9 => "21:9（超宽屏）",
            CropAspect::Free => "自由比例",
        }
    }
}

} // verus!

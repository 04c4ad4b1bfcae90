//! Images: the formats that can be written and the quality of a JPEG.

use crate::text::same_str;
use vstd::prelude::*;
use vstd::string::StringExecFns;

verus! {

/// A format that an image can be written in.
#[derive(Debug, Clone, Copy, PartialEq, Eq, Structural)]
pub enum ImageKind {
    Png,
    Jpeg,
    WebP,
    Bmp,
    Ico,
    Gif,
}

/// The format that an extension in lower case names.
pub open spec fn image_kind_of(ext: Seq<char>) -> Option<ImageKind> {
    if ext == "png"@ {
        Some(ImageKind::Png)
    } else if ext == "jpg"@ || ext == "jpeg"@ {
        Some(ImageKind::Jpeg)
    } else if ext == "webp"@ {
        Some(ImageKind::WebP)
    } else if ext == "bmp"@ {
        Some(ImageKind::Bmp)
    } else if ext == "ico"@ {
        Some(ImageKind::Ico)
    } else if ext == "gif"@ {
        Some(ImageKind::Gif)
    } else {
        None
    }
}

/// The message for a format that no image is written in.
pub open spec fn unsupported_image(ext: Seq<char>) -> Seq<char> {
    "Unsupported output format: "@ + ext
}

/// The format to write an image in, for the extension `output_ext` in lower
/// case, or the message for an extension that names none.
pub fn convert_image(output_ext: &str) -> (r: Result<ImageKind, String>)
    ensures
        match r {
            Ok(kind) => image_kind_of(output_ext@) == Some(kind),
            Err(m) => image_kind_of(output_ext@) is None && m@ == unsupported_image(output_ext@),
        },
{
    if same_str(output_ext, "png") {
        Ok(ImageKind::Png)
    } else if same_str(output_ext, "jpg") || same_str(output_ext, "jpeg") {
        Ok(ImageKind::Jpeg)
    } else if same_str(output_ext, "webp") {
        Ok(ImageKind::WebP)
    } else if same_str(output_ext, "bmp") {
        Ok(ImageKind::Bmp)
    } else if same_str(output_ext, "ico") {
        Ok(ImageKind::Ico)
    } else if same_str(output_ext, "gif") {
        Ok(ImageKind::Gif)
    } else {
        let mut m = String::from_str("Unsupported output format: ");
        m.append(output_ext);
        Err(m)
    }
}

/// The quality of a JPEG for the quality asked for: 85 where none is asked
/// for, and never below 1 nor above 100.
pub open spec fn jpeg_quality_of(quality: Option<i32>) -> int {
    let q = match quality {
        Some(q) => q as int,
        None => 85,
    };
    if q < 1 {
        1
    } else if q > 100 {
        100
    } else {
        q
    }
}

/// The quality of a JPEG for the quality asked for.
pub fn jpeg_quality(quality: Option<i32>) -> (r: u8)
    ensures
        r == jpeg_quality_of(quality),
{
    let q: i32 = match quality {
        Some(q) => q,
        None => 85,
    };
    if q < 1 {
        1
    } else if q > 100 {
        100
    } else {
        q as u8
    }
}

} // verus!

//! Edge cropping: cut a number of pixels off each edge of every image, each
//! image by its own size.

use vstd::prelude::*;

use crate::locale::{tr, tr_spec, Locale};
use crate::raster::Raster;
use crate::text::{dec, push_dec, push_str};

verus! {

/// Pixels to cut off each edge.
#[derive(Debug, Clone, Copy, Default)]
pub struct CropSpec {
    pub left: u32,
    pub top: u32,
    pub right: u32,
    pub bottom: u32,
}

/// Message for a crop that cuts nothing.
pub open spec fn nothing_to_crop(loc: Locale) -> Seq<char> {
    tr_spec(loc, "至少要指定一个方向的裁剪像素"@, "Specify at least one edge to crop"@)
}

/// Message for a crop larger than a `w` x `h` image.
pub open spec fn crop_too_large(loc: Locale, w: nat, h: nat) -> Seq<char> {
    tr_spec(loc, "裁剪量超过图片尺寸"@, "Crop amount exceeds image size"@) + " "@ + dec(w) + "x"@
        + dec(h)
}

impl CropSpec {
    /// A crop must cut at least one edge.
    pub fn validate(&self, loc: Locale) -> (res: Result<(), String>)
        ensures
            res is Err <==> (self.left == 0 && self.top == 0 && self.right == 0 && self.bottom
                == 0),
            res matches Err(e) ==> e@ == nothing_to_crop(loc),
    {
        if self.left == 0 && self.top == 0 && self.right == 0 && self.bottom == 0 {
            return Err(tr(loc, "至少要指定一个方向的裁剪像素", "Specify at least one edge to crop"));
        }
        Ok(())
    }
}

/// Cuts `spec` off the edges of `img`: the result is the part of `img` that
/// starts `left` pixels from its left edge and `top` pixels from its top,
/// `width - left - right` wide and `height - top - bottom` high. Refused when
/// nothing of the image would be left. The pixel layout (`bpp`, `format`)
/// is kept.
pub fn crop_image(loc: Locale, img: &Raster, spec: &CropSpec) -> (res: Result<Raster, String>)
    requires
        img.wf(),
        spec.left + spec.right <= u32::MAX,
        spec.top + spec.bottom <= u32::MAX,
    ensures
        res is Err <==> (spec.left + spec.right >= img.width || spec.top + spec.bottom
            >= img.height),
        res matches Err(e) ==> e@ == crop_too_large(loc, img.width as nat, img.height as nat),
        res matches Ok(out) ==> {
            &&& out.wf()
            &&& out.width == img.width - spec.left - spec.right
            &&& out.height == img.height - spec.top - spec.bottom
            &&& out.bpp == img.bpp
            &&& out.format == img.format
            &&& forall|y: int|
                0 <= y < out.height ==> #[trigger] out.row(y) == img.row(y + spec.top).subrange(
                    spec.left * img.bpp,
                    (spec.left + out.width) * img.bpp,
                )
        },
{
    let (w, h) = (img.width, img.height);
    if spec.left + spec.right >= w || spec.top + spec.bottom >= h {
        let mut m = tr(loc, "裁剪量超过图片尺寸", "Crop amount exceeds image size");
        push_str(&mut m, " ");
        push_dec(&mut m, w as u128);
        push_str(&mut m, "x");
        push_dec(&mut m, h as u128);
        return Err(m);
    }
    Ok(img.crop_imm(spec.left, spec.top, w - spec.left - spec.right, h - spec.top - spec.bottom))
}

/// The note a cropped file gets: `<w>x<h> -> <w'>x<h'>`.
pub open spec fn size_change_text(w: nat, h: nat, w2: nat, h2: nat) -> Seq<char> {
    dec(w) + "x"@ + dec(h) + " -> "@ + dec(w2) + "x"@ + dec(h2)
}

/// The note for an image cropped from `before` to `after`.
pub fn size_change(before: &Raster, after: &Raster) -> (res: String)
    ensures
        res@ == size_change_text(
            before.width as nat,
            before.height as nat,
            after.width as nat,
            after.height as nat,
        ),
{
    let mut s = String::new();
    push_dec(&mut s, before.width as u128);
    push_str(&mut s, "x");
    push_dec(&mut s, before.height as u128);
    push_str(&mut s, " -> ");
    push_dec(&mut s, after.width as u128);
    push_str(&mut s, "x");
    push_dec(&mut s, after.height as u128);
    assert(s@ =~= size_change_text(
        before.width as nat,
        before.height as nat,
        after.width as nat,
        after.height as nat,
    ));
    s
}

} // verus!

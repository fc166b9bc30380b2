//! What a panel asks to have drawn: images and their pixel formats.

use vstd::prelude::*;

verus! {

/// The kind of a drawing request.
#[derive(Clone, Copy, PartialEq, Eq, Structural, Debug)]
pub enum RenderType {
    Image,
    Rectangle,
    String,
    Empty,
}

impl Default for RenderType {
    fn default() -> (r: Self)
        ensures
            r == RenderType::Empty,
    {
        RenderType::Empty
    }
}

/// The pixel layout of a bitmap.
#[derive(Clone, Copy, PartialEq, Eq, Structural, Debug)]
pub enum RGBA {
    U8rgba,
    U8argb,
    U8rgb,
    Empty,
}

impl Default for RGBA {
    fn default() -> (r: Self)
        ensures
            r == RGBA::Empty,
    {
        RGBA::Empty
    }
}

/// The number of bytes of one pixel in `format`; `Empty` has none.
pub open spec fn bytes_per_pixel(format: RGBA) -> nat {
    match format {
        RGBA::U8rgba => 4,
        RGBA::U8argb => 4,
        RGBA::U8rgb => 3,
        RGBA::Empty => 0,
    }
}

/// An image: `width` by `height` pixels in the layout `rgba_type`, row after row.
#[derive(Clone)]
pub struct Bitmap {
    pub width: i32,
    pub height: i32,
    pub rgba_type: RGBA,
    pub buffer: Vec<u8>,
}

impl Bitmap {
    /// A zeroed bitmap. The sides are taken as `usize`, as the `as` cast gives them.
    pub fn new(w: i32, h: i32, rgba_type: RGBA) -> (b: Bitmap)
        requires
            rgba_type != RGBA::Empty,
            (w as usize) * (h as usize) * bytes_per_pixel(rgba_type) <= usize::MAX,
        ensures
            b.width == w,
            b.height == h,
            b.rgba_type == rgba_type,
            b.buffer@ == Seq::new(((w as usize) * (h as usize) * bytes_per_pixel(rgba_type)) as nat, |i: int| 0u8),
    {
        let _w = w as usize;
        let _h = h as usize;
        let n = match rgba_type {
            RGBA::U8rgba => _w * _h * 4,
            RGBA::U8argb => _w * _h * 4,
            RGBA::U8rgb => _w * _h * 3,
            RGBA::Empty => 0,
        };
        let mut v: Vec<u8> = Vec::with_capacity(n);
        let mut i: usize = 0;
        while i < n
            invariant
                i <= n,
                v@ == Seq::new(i as nat, |k: int| 0u8),
            decreases n - i,
        {
            v.push(0);
            i = i + 1;
            assert(v@ =~= Seq::new(i as nat, |k: int| 0u8));
        }
        Bitmap { width: w, height: h, rgba_type: rgba_type, buffer: v }
    }
}

/// A bitmap slot that may not have been filled yet.
pub struct BitmapContainer {
    pub initialized: bool,
    pub bmp: Option<Bitmap>,
}

} // verus!

//! Icons: from bitmaps to PNG, and choosing among bitmaps of several sizes.

use vstd::prelude::*;

use crate::session::opt_bytes;

verus! {

/// The PNG file of an image, given by its width, its height and the red, green, blue
/// and alpha bytes of its pixels row by row; `None` if it cannot be made.
pub uninterp spec fn png_encoding(width: u32, height: u32, rgba: Seq<u8>) -> Option<Seq<u8>>;

/// `image::DynamicImage::write_to` with `image::ImageFormat::Png`, on an
/// `image::RgbaImage` made of the bytes: what it writes depends on the image alone. The
/// number of bytes has to be right for the size.
#[verifier::external_body]
fn encode_png(width: u32, height: u32, rgba: Vec<u8>) -> (png: Option<Vec<u8>>)
    requires
        width > 0,
        height > 0,
        rgba@.len() == 4 * width * height,
    ensures
        opt_bytes(png) == png_encoding(width, height, rgba@),
{
    let image = image::RgbaImage::from_raw(width, height, rgba)?;
    let mut out = Vec::new();
    image::DynamicImage::ImageRgba8(image)
        .write_to(&mut std::io::Cursor::new(&mut out), image::ImageFormat::Png)
        .ok()?;
    Some(out)
}

/// Pixels with their first and third bytes exchanged, which turns blue, green, red and
/// alpha into red, green, blue and alpha. Bytes beyond the last whole pixel stay.
pub open spec fn channels_swapped(pixels: Seq<u8>) -> Seq<u8> {
    Seq::new(
        pixels.len(),
        |i: int|
            if i / 4 * 4 + 4 > pixels.len() {
                pixels[i]
            } else if i % 4 == 0 {
                pixels[i + 2]
            } else if i % 4 == 2 {
                pixels[i - 2]
            } else {
                pixels[i]
            },
    )
}

/// Exchanges the first and third byte of every pixel.
pub fn swap_channels(pixels: &Vec<u8>) -> (swapped: Vec<u8>)
    ensures
        swapped@ == channels_swapped(pixels@),
{
    let mut swapped: Vec<u8> = Vec::new();
    let n: usize = pixels.len();
    let mut i: usize = 0;
    while i < n
        invariant
            i <= n == pixels.len(),
            swapped@.len() == i,
            forall|k: int| 0 <= k < i ==> #[trigger] swapped@[k] == channels_swapped(pixels@)[k],
        decreases n - i,
    {
        let start: usize = i / 4 * 4;
        let byte: u8 = if n - start < 4 {
            pixels[i]
        } else if i % 4 == 0 {
            pixels[i + 2]
        } else if i % 4 == 2 {
            pixels[i - 2]
        } else {
            pixels[i]
        };
        swapped.push(byte);
        i += 1;
    }
    assert(swapped@ =~= channels_swapped(pixels@));
    swapped
}

/// Exchanging twice changes nothing.
pub proof fn law_swapping_twice(pixels: Seq<u8>)
    ensures
        channels_swapped(channels_swapped(pixels)) == pixels,
{
    assert(channels_swapped(channels_swapped(pixels)) =~= pixels);
}

/// Whether a bitmap can be made into an icon: it has a size, some of its rows were read,
/// and it has the bytes for that size.
pub open spec fn is_usable_bitmap(width: i32, height: i32, rows_read: i32, len: nat) -> bool {
    width > 0 && height > 0 && rows_read != 0 && len == 4 * width * height
}

/// The PNG file of a bitmap of blue, green, red and alpha bytes.
pub fn bitmap_to_png(width: i32, height: i32, rows_read: i32, bgra: &Vec<u8>) -> (png: Option<
    Vec<u8>,
>)
    ensures
        opt_bytes(png) == (if is_usable_bitmap(width, height, rows_read, bgra@.len()) {
            png_encoding(width as u32, height as u32, channels_swapped(bgra@))
        } else {
            None
        }),
{
    if width <= 0 || height <= 0 || rows_read == 0 {
        return None;
    }
    proof {
        let w = width as int;
        let h = height as int;
        assert(4 * w * h <= 4 * 0x7fff_ffff * 0x7fff_ffff) by (nonlinear_arith)
            requires
                0 <= w <= 0x7fff_ffff,
                0 <= h <= 0x7fff_ffff,
        ;
        assert(0 <= 4 * w * h) by (nonlinear_arith)
            requires
                0 <= w,
                0 <= h,
        ;
        assert(4 * w <= 0xffff_ffff_ffff_ffff);
    }
    let needed: u64 = 4 * (width as u64) * (height as u64);
    if bgra.len() as u64 != needed {
        return None;
    }
    encode_png(width as u32, height as u32, swap_channels(bgra))
}

/// The width from which on a bitmap is large enough to be shown.
pub const ICON_MAX_PIXELS_WIDE: i64 = 128;

/// Whether a bitmap of width `a` is a better choice than one of width `b`: large enough
/// before too small, then the smallest that is large enough, or the largest that is too
/// small.
pub open spec fn is_better(a: i64, b: i64) -> bool {
    if a >= ICON_MAX_PIXELS_WIDE {
        b < ICON_MAX_PIXELS_WIDE || a < b
    } else {
        b < ICON_MAX_PIXELS_WIDE && a > b
    }
}

/// Whether the bitmap at `i` is the one to use: none is better, and none before it is as
/// good.
pub open spec fn is_best_bitmap(widths: Seq<Option<i64>>, i: int) -> bool {
    &&& 0 <= i < widths.len()
    &&& widths[i] is Some
    &&& forall|k: int|
        0 <= k < widths.len() && (#[trigger] widths[k]) is Some ==> !is_better(
            widths[k].unwrap(),
            widths[i].unwrap(),
        )
    &&& forall|k: int|
        0 <= k < i && (#[trigger] widths[k]) is Some ==> is_better(
            widths[i].unwrap(),
            widths[k].unwrap(),
        )
}

/// Which of an icon's representations to use, given the widths of those that are
/// bitmaps.
pub fn choose_bitmap(widths: &Vec<Option<i64>>) -> (choice: Option<usize>)
    ensures
        match choice {
            Some(i) => is_best_bitmap(widths@, i as int),
            None => forall|k: int| 0 <= k < widths@.len() ==> (#[trigger] widths@[k]) is None,
        },
{
    let mut best_at_or_above: Option<(i64, usize)> = None;
    let mut best_below: Option<(i64, usize)> = None;
    let mut i: usize = 0;
    while i < widths.len()
        invariant
            i <= widths@.len(),
            match best_at_or_above {
                Some((w, b)) => {
                    &&& b < i && widths@[b as int] == Some(w) && w >= ICON_MAX_PIXELS_WIDE
                    &&& forall|k: int|
                        0 <= k < i && (#[trigger] widths@[k]) is Some && widths@[k].unwrap()
                            >= ICON_MAX_PIXELS_WIDE ==> w <= widths@[k].unwrap() && (k < b ==> w
                            < widths@[k].unwrap())
                },
                None => forall|k: int|
                    0 <= k < i && (#[trigger] widths@[k]) is Some ==> widths@[k].unwrap()
                        < ICON_MAX_PIXELS_WIDE,
            },
            match best_below {
                Some((w, b)) => {
                    &&& b < i && widths@[b as int] == Some(w) && w < ICON_MAX_PIXELS_WIDE
                    &&& forall|k: int|
                        0 <= k < i && (#[trigger] widths@[k]) is Some && widths@[k].unwrap()
                            < ICON_MAX_PIXELS_WIDE ==> w >= widths@[k].unwrap() && (k < b ==> w
                            > widths@[k].unwrap())
                },
                None => forall|k: int|
                    0 <= k < i && (#[trigger] widths@[k]) is Some ==> widths@[k].unwrap()
                        >= ICON_MAX_PIXELS_WIDE,
            },
        decreases widths@.len() - i,
    {
        if let Some(width) = widths[i] {
            if width >= ICON_MAX_PIXELS_WIDE {
                let smaller = match best_at_or_above {
                    Some((best, _)) => width < best,
                    None => true,
                };
                if smaller {
                    best_at_or_above = Some((width, i));
                }
            } else {
                let larger = match best_below {
                    Some((best, _)) => width > best,
                    None => true,
                };
                if larger {
                    best_below = Some((width, i));
                }
            }
        }
        i += 1;
    }
    match best_at_or_above {
        Some((_, b)) => Some(b),
        None => match best_below {
            Some((_, b)) => Some(b),
            None => {
                assert forall|k: int| 0 <= k < widths@.len() implies (#[trigger] widths@[k]) is None by {
                    if widths@[k] is Some {
                        assert(widths@[k].unwrap() < ICON_MAX_PIXELS_WIDE);
                    }
                }
                None
            },
        },
    }
}

/// In every whole pixel the first and third byte change places, and the second and fourth
/// stay.
pub proof fn law_colors_change_places(pixels: Seq<u8>, p: int)
    requires
        0 <= p,
        4 * p + 4 <= pixels.len(),
    ensures
        channels_swapped(pixels).len() == pixels.len(),
        ({
            let after = channels_swapped(pixels);
            &&& after[4 * p] == pixels[4 * p + 2]
            &&& after[4 * p + 1] == pixels[4 * p + 1]
            &&& after[4 * p + 2] == pixels[4 * p]
            &&& after[4 * p + 3] == pixels[4 * p + 3]
        }),
{
}

/// Bytes beyond the last whole pixel stay.
pub proof fn law_left_over_bytes_stay(pixels: Seq<u8>, i: int)
    requires
        0 <= i < pixels.len(),
        pixels.len() - pixels.len() % 4 <= i,
    ensures
        channels_swapped(pixels)[i] == pixels[i],
{
}

/// The bitmap to use is the narrowest of those at least 128 wide, if there is one, and the
/// widest otherwise; of several such ones the first.
pub proof fn law_which_bitmap_is_used(widths: Seq<Option<i64>>, i: int, k: int)
    requires
        is_best_bitmap(widths, i),
        0 <= k < widths.len(),
        widths[k] is Some,
    ensures
        widths[i] matches Some(best) && widths[k] matches Some(other) && {
            &&& other >= 128 ==> best >= 128 && best <= other
            &&& best < 128 ==> other < 128 && other <= best
            &&& other == best ==> i <= k
        },
{
}

/// A bitmap can be used exactly if it has four bytes for every pixel of a size that is not
/// nothing, and some of it was read.
pub proof fn law_which_bitmaps_are_usable(width: i32, height: i32, rows_read: i32, pixels: nat)
    requires
        width * height == pixels,
    ensures
        is_usable_bitmap(width, height, rows_read, 4 * pixels) <==> width >= 1 && height >= 1
            && rows_read != 0,
        forall|len: nat| len != 4 * pixels ==> !#[trigger] is_usable_bitmap(
            width,
            height,
            rows_read,
            len,
        ),
{
    let w = width as int;
    let h = height as int;
    assert(4 * w * h == 4 * (w * h)) by (nonlinear_arith);
}

} // verus!

//! A process's icon as raw RGBA pixels, for the process picker: the checks
//! on what the OS reported for the bitmap, and the conversion of its BGRA
//! pixels.
use vstd::prelude::*;

verus! {

/// A decoded icon: `rgba.len() == width * height * 4`, row-major, top-down.
#[derive(Debug, Clone, PartialEq, Eq)]
pub struct IconRgba {
    pub width: u32,
    pub height: u32,
    pub rgba: Vec<u8>,
}

/// The icon's dimensions, from what describing its bitmap gave (`written`
/// is how many bytes of description the OS wrote): none for a failed call
/// or a bitmap without positive dimensions.
pub fn icon_dimensions(written: i32, width: i32, height: i32) -> (r: Option<(u32, u32)>)
    ensures
        r == (if written == 0 || width <= 0 || height <= 0 {
            None::<(u32, u32)>
        } else {
            Some((width as u32, height as u32))
        }),
{
    if written == 0 || width <= 0 || height <= 0 {
        None
    } else {
        Some((width as u32, height as u32))
    }
}

/// How many bytes a `width` by `height` bitmap of 32-bit pixels takes.
pub fn pixel_buffer_len(width: u32, height: u32) -> (r: usize)
    requires
        width * height * 4 <= u32::MAX,
    ensures
        r == width * height * 4,
{
    assert(width * height <= u32::MAX) by (nonlinear_arith)
        requires
            width * height * 4 <= u32::MAX,
    ;
    (width * height * 4) as usize
}

/// The byte at `k` after swapping the first and third byte of every whole
/// four-byte pixel: BGRA to RGBA.
pub open spec fn swapped(b: Seq<u8>, k: int) -> u8 {
    if k < (b.len() / 4) * 4 {
        if k % 4 == 0 {
            b[k + 2]
        } else if k % 4 == 2 {
            b[k - 2]
        } else {
            b[k]
        }
    } else {
        b[k]
    }
}

/// An icon from a bitmap's BGRA pixels, with each pixel's blue and red
/// swapped to give RGBA.
pub fn icon_from_bgra(width: u32, height: u32, bgra: Vec<u8>) -> (r: IconRgba)
    ensures
        r.width == width,
        r.height == height,
        r.rgba@.len() == bgra@.len(),
        forall|k: int| 0 <= k < bgra@.len() ==> r.rgba@[k] == swapped(bgra@, k),
{
    let ghost input = bgra@;
    let mut buffer = bgra;
    let whole = buffer.len() / 4;
    let mut p: usize = 0;
    while p < whole
        invariant
            whole == input.len() / 4,
            p <= whole,
            buffer@.len() == input.len(),
            buffer.len() == input.len(),
            forall|k: int| 0 <= k < 4 * p ==> buffer@[k] == swapped(input, k),
            forall|k: int| 4 * p <= k < input.len() ==> buffer@[k] == input[k],
        decreases whole - p,
    {
        assert(4 * p + 3 < buffer.len()) by (nonlinear_arith)
            requires
                p < whole,
                whole == buffer.len() / 4,
        ;
        let i = 4 * p;
        let blue = buffer[i];
        let red = buffer[i + 2];
        buffer.set(i, red);
        buffer.set(i + 2, blue);
        p = p + 1;
        assert forall|k: int| 4 * (p - 1) <= k < 4 * p implies buffer@[k] == swapped(input, k) by {
            assert(k < (input.len() / 4) * 4);
            assert((4 * (p - 1) + 0) % 4 == 0) by (nonlinear_arith);
            assert((4 * (p - 1) + 1) % 4 == 1) by (nonlinear_arith);
            assert((4 * (p - 1) + 2) % 4 == 2) by (nonlinear_arith);
            assert((4 * (p - 1) + 3) % 4 == 3) by (nonlinear_arith);
        }
    }
    assert forall|k: int| 4 * p <= k < input.len() implies buffer@[k] == swapped(input, k) by {
        assert(k >= (input.len() / 4) * 4);
    }
    IconRgba { width, height, rgba: buffer }
}

} // verus!

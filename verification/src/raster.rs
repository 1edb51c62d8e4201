//! Integer parts of software rasterisation: addressing a pixel of a
//! row-major buffer, and splitting and packing 0xAARRGGBB colours.
use vstd::prelude::*;

verus! {

/// Index of pixel (x, y) in a `width` x `height` row-major buffer, when the
/// pixel lies inside it.
pub fn pixel_index(width: usize, height: usize, x: i32, y: i32) -> (r: Option<usize>)
    requires
        width * height <= usize::MAX,
    ensures
        r is Some <==> (0 <= x < width && 0 <= y < height),
        r matches Some(i) ==> i == y * width + x && i < width * height,
{
    if x < 0 || y < 0 {
        return None;
    }
    let xu = x as usize;
    let yu = y as usize;
    if xu >= width || yu >= height {
        return None;
    }
    proof {
        lemma_row_major(width as int, height as int, xu as int, yu as int);
    }
    Some(yu * width + xu)
}

proof fn lemma_row_major(w: int, h: int, x: int, y: int)
    by (nonlinear_arith)
    requires
        0 <= x < w,
        0 <= y < h,
    ensures
        y * w + x < w * h,
        0 <= y * w,
{
}

/// The red channel of a 0xAARRGGBB colour.
pub fn color_r(c: u32) -> (r: u8)
    ensures
        r == (c / 0x10000) % 0x100,
{
    let v = (c >> 16) & 0xFF;
    assert(v == (c / 0x10000) % 0x100 && v < 0x100) by (bit_vector)
        requires
            v == (c >> 16) & 0xFF,
    ;
    v as u8
}

/// The green channel of a 0xAARRGGBB colour.
pub fn color_g(c: u32) -> (r: u8)
    ensures
        r == (c / 0x100) % 0x100,
{
    let v = (c >> 8) & 0xFF;
    assert(v == (c / 0x100) % 0x100 && v < 0x100) by (bit_vector)
        requires
            v == (c >> 8) & 0xFF,
    ;
    v as u8
}

/// The blue channel of a 0xAARRGGBB colour.
pub fn color_b(c: u32) -> (r: u8)
    ensures
        r == c % 0x100,
{
    let v = c & 0xFF;
    assert(v == c % 0x100 && v < 0x100) by (bit_vector)
        requires
            v == c & 0xFF,
    ;
    v as u8
}

/// The opaque colour 0xFFRRGGBB.
pub fn pack_rgb(r: u8, g: u8, b: u8) -> (c: u32)
    ensures
        c == 0xFF00_0000 + r * 0x10000 + g * 0x100 + b,
{
    let c = 0xFF00_0000u32 | ((r as u32) << 16) | ((g as u32) << 8) | (b as u32);
    let (r32, g32, b32) = (r as u32, g as u32, b as u32);
    assert(0xFF00_0000u32 | (r32 << 16) | (g32 << 8) | b32 == 0xFF00_0000 + r32 * 0x10000 + g32
        * 0x100 + b32) by (bit_vector)
        requires
            r32 < 0x100,
            g32 < 0x100,
            b32 < 0x100,
    ;
    c
}

/// Packing channels and reading them back gives the channels, and the packed
/// colour is opaque.
pub proof fn lemma_pack_unpack(r: u8, g: u8, b: u8)
    ensures
        ((0xFF00_0000 + r * 0x10000 + g * 0x100 + b) as u32 / 0x10000) % 0x100 == r,
        ((0xFF00_0000 + r * 0x10000 + g * 0x100 + b) as u32 / 0x100) % 0x100 == g,
        (0xFF00_0000 + r * 0x10000 + g * 0x100 + b) as u32 % 0x100 == b,
        (0xFF00_0000 + r * 0x10000 + g * 0x100 + b) as u32 / 0x100_0000 == 0xFF,
{
    let (r32, g32, b32) = (r as u32, g as u32, b as u32);
    assert(((0xFF00_0000 + r32 * 0x10000 + g32 * 0x100 + b32) as u32 / 0x10000) % 0x100 == r32
        && ((0xFF00_0000 + r32 * 0x10000 + g32 * 0x100 + b32) as u32 / 0x100) % 0x100 == g32
        && (0xFF00_0000 + r32 * 0x10000 + g32 * 0x100 + b32) as u32 % 0x100 == b32
        && (0xFF00_0000 + r32 * 0x10000 + g32 * 0x100 + b32) as u32 / 0x100_0000 == 0xFF)
        by (bit_vector)
        requires
            r32 < 0x100,
            g32 < 0x100,
            b32 < 0x100,
    ;
}

/// Repacking the channels of a colour gives the colour made opaque.
pub proof fn lemma_unpack_pack(c: u32)
    ensures
        0xFF00_0000 + ((c / 0x10000) % 0x100) * 0x10000 + ((c / 0x100) % 0x100) * 0x100 + c
            % 0x100 == (c | 0xFF00_0000),
{
    assert(0xFF00_0000 + ((c / 0x10000) % 0x100) * 0x10000 + ((c / 0x100) % 0x100) * 0x100 + c
        % 0x100 == (c | 0xFF00_0000)) by (bit_vector);
}

} // verus!

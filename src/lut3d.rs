//! The flat image layout of a LUT: an image `size * size` pixels wide and
//! `size` pixels high, where slice `z` fills the columns `z * size ..
//! (z + 1) * size` and pixel `(x + z * size, y)` holds sample `(x, y, z)`.
use vstd::prelude::*;
use vstd::arithmetic::div_mod::{lemma_fundamental_div_mod, lemma_fundamental_div_mod_converse};

verus! {

/// Why an image cannot hold a LUT.
#[derive(Debug, Clone, Copy, PartialEq, Eq, Structural)]
pub enum ImageLutError {
    /// The width is not the square of the height.
    InvalidDimensions,
}

impl ImageLutError {
    /// A sentence that describes the error.
    pub fn message(&self) -> (r: &'static str)
        ensures
            r@ == "Invalid dimensions. Expected width to equal height * height."@,
    {
        match self {
            ImageLutError::InvalidDimensions => "Invalid dimensions. Expected width to equal height * height.",
        }
    }
}

proof fn lemma_square_fits(n: u32)
    ensures
        (n as int) * (n as int) <= u64::MAX,
{
    assert((n as int) * (n as int) <= (u32::MAX as int) * (u32::MAX as int)) by (nonlinear_arith)
        requires
            n <= u32::MAX,
    ;
}

/// The edge length of the LUT that an image of the given dimensions holds:
/// its height, where the width is the square of the height.
pub fn lut_size_of_image(width: u32, height: u32) -> (r: Result<usize, ImageLutError>)
    ensures
        width == height * height ==> r == Ok::<usize, ImageLutError>(height as usize),
        width != height * height ==> r == Err::<usize, ImageLutError>(
            ImageLutError::InvalidDimensions,
        ),
{
    proof {
        lemma_square_fits(height);
    }
    if (height as u64) * (height as u64) != width as u64 {
        Err(ImageLutError::InvalidDimensions)
    } else {
        Ok(height as usize)
    }
}

/// The width and height of the image that holds a LUT of edge length `size`.
pub fn image_dimensions(size: u32) -> (r: Option<(u32, u32)>)
    ensures
        size * size <= u32::MAX ==> r == Some(((size * size) as u32, size)),
        size * size > u32::MAX ==> r is None,
{
    proof {
        lemma_square_fits(size);
    }
    let square: u64 = (size as u64) * (size as u64);
    if square > u32::MAX as u64 {
        None
    } else {
        Some((square as u32, size))
    }
}

/// Byte `i` of a volume of edge `s`, with the two outer axes exchanged.
///
/// In a LUT, byte `i` is channel `i % 4` of the sample whose index has the
/// digits `(outer, middle, inner) = (z, y, x)` in base `s`; in the image it is
/// `(y, z, x)`. Either layout reads its bytes from the other at this offset.
pub open spec fn swapped_offset(s: int, i: int) -> int {
    let c = i % 4;
    let p = i / 4;
    let inner = p % s;
    let q = p / s;
    let middle = q % s;
    let outer = q / s;
    ((middle * s + outer) * s + inner) * 4 + c
}

/// The bytes of a volume of edge `s` with the two outer axes exchanged.
pub open spec fn swapped(s: int, b: Seq<u8>) -> Seq<u8> {
    Seq::new(b.len(), |i: int| b[swapped_offset(s, i)])
}

/// The digits of a sample index below `s^3` in base `s`.
proof fn lemma_digits(s: int, p: int)
    requires
        0 < s,
        0 <= p < s * s * s,
    ensures
        0 <= p % s < s,
        0 <= (p / s) % s < s,
        0 <= (p / s) / s < s,
        p == (((p / s) / s) * s + (p / s) % s) * s + p % s,
{
    lemma_fundamental_div_mod(p, s);
    lemma_fundamental_div_mod(p / s, s);
    let x = p % s;
    let q = p / s;
    let z = q % s;
    let y = q / s;
    assert(0 <= x < s && 0 <= z < s) by {
        vstd::arithmetic::div_mod::lemma_mod_bound(p, s);
        vstd::arithmetic::div_mod::lemma_mod_bound(q, s);
    }
    assert(0 <= q) by {
        vstd::arithmetic::div_mod::lemma_div_pos_is_pos(p, s);
    }
    assert(0 <= y) by {
        vstd::arithmetic::div_mod::lemma_div_pos_is_pos(q, s);
    }
    assert(p == (y * s + z) * s + x) by (nonlinear_arith)
        requires
            p == s * q + x,
            q == s * y + z,
    ;
    assert(y < s) by (nonlinear_arith)
        requires
            p == (y * s + z) * s + x,
            p < s * s * s,
            0 <= x,
            0 <= z,
            0 < s,
    ;
}

/// An offset below `4 s^3` moves to an offset below `4 s^3`.
proof fn lemma_swapped_offset_bound(s: int, i: int)
    requires
        0 < s,
        0 <= i < s * s * s * 4,
    ensures
        0 <= swapped_offset(s, i) < s * s * s * 4,
{
    lemma_fundamental_div_mod(i, 4);
    let p = i / 4;
    assert(0 <= p < s * s * s);
    lemma_digits(s, p);
    let x = p % s;
    let z = (p / s) % s;
    let y = (p / s) / s;
    let c = i % 4;
    assert(0 <= ((z * s + y) * s + x) * 4 + c < s * s * s * 4) by (nonlinear_arith)
        requires
            0 <= x < s,
            0 <= y < s,
            0 <= z < s,
            0 <= c < 4,
    ;
}

/// Exchanging the two outer axes twice gives back every offset.
proof fn lemma_swapped_offset_involution(s: int, i: int)
    requires
        0 < s,
        0 <= i < s * s * s * 4,
    ensures
        swapped_offset(s, swapped_offset(s, i)) == i,
{
    lemma_fundamental_div_mod(i, 4);
    let p = i / 4;
    let c = i % 4;
    lemma_digits(s, p);
    let x = p % s;
    let z = (p / s) % s;
    let y = (p / s) / s;
    let j = swapped_offset(s, i);
    let pj = (z * s + y) * s + x;
    assert(0 <= z * s + y) by (nonlinear_arith)
        requires
            0 <= z,
            0 <= y,
            0 < s,
    ;
    assert(0 <= (z * s + y) * s + x) by (nonlinear_arith)
        requires
            0 <= z * s + y,
            0 <= x,
            0 < s,
    ;
    lemma_fundamental_div_mod_converse(j, 4, pj, c);
    lemma_fundamental_div_mod_converse(pj, s, z * s + y, x);
    lemma_fundamental_div_mod_converse(z * s + y, s, z, y);
}

/// Exchanging the two outer axes of a volume twice gives back its bytes: a
/// LUT turned into an image and back, or an image turned into a LUT and back,
/// is unchanged byte for byte.
pub proof fn lemma_swapped_involution(s: int, b: Seq<u8>)
    requires
        0 < s,
        b.len() == s * s * s * 4,
    ensures
        swapped(s, swapped(s, b)) == b,
{
    assert forall|i: int| 0 <= i < b.len() implies #[trigger] swapped(s, swapped(s, b))[i]
        == b[i] by {
        lemma_swapped_offset_bound(s, i);
        lemma_swapped_offset_involution(s, i);
    }
    assert(swapped(s, swapped(s, b)) =~= b);
}

/// Exchanges the two outer axes of an RGBA volume of edge `size`. Applied to
/// the bytes of a LUT it gives the bytes of its image, and applied to the
/// bytes of an image it gives those of its LUT.
pub fn swap_slice_axes(size: usize, data: &Vec<u8>) -> (r: Vec<u8>)
    requires
        size * size * size * 4 <= usize::MAX,
        data@.len() == size * size * size * 4,
    ensures
        r@ == swapped(size as int, data@),
{
    let n = data.len();
    let mut r: Vec<u8> = Vec::with_capacity(n);
    let mut i: usize = 0;
    while i < n
        invariant
            n == data@.len() == size * size * size * 4,
            0 <= i <= n,
            r@ =~= swapped(size as int, data@).subrange(0, i as int),
        decreases n - i,
    {
        proof {
            assert(size > 0) by (nonlinear_arith)
                requires
                    i < size * size * size * 4,
            ;
            lemma_swapped_offset_bound(size as int, i as int);
        }
        let c = i % 4;
        let p = i / 4;
        let inner = p % size;
        let q = p / size;
        let middle = q % size;
        let outer = q / size;
        proof {
            lemma_fundamental_div_mod(i as int, 4);
            lemma_digits(size as int, p as int);
            assert((middle * size + outer) * size + inner < size * size * size) by (nonlinear_arith)
                requires
                    inner < size,
                    middle < size,
                    outer < size,
            ;
            assert(middle * size + outer < size * size) by (nonlinear_arith)
                requires
                    middle < size,
                    outer < size,
            ;
            assert(size * size <= size * size * size) by (nonlinear_arith)
                requires
                    size > 0,
            ;
            assert(size * size * size <= n);
            assert(middle * size <= size * size) by (nonlinear_arith)
                requires
                    middle < size,
            ;
            assert((middle * size + outer) * size <= size * size * size) by (nonlinear_arith)
                requires
                    middle * size + outer < size * size,
            ;
        }
        let src: usize = ((middle * size + outer) * size + inner) * 4 + c;
        r.push(data[src]);
        i = i + 1;
    }
    r
}

} // verus!

//! Conversion between the linear layout of a 16x16x16 RGBA volume and the
//! tiled ("swizzled") layout used by the texture container.
//!
//! A byte offset in the tiled layout interleaves the bits of the sample's
//! coordinates: the low two bits select the channel, and the remaining bits
//! are taken by `x`, `y` and `z` according to three disjoint masks.
use vstd::prelude::*;

verus! {

/// Bytes per RGBA sample.
pub const BYTES_PER_PIXEL: usize = 4;

/// Edge length of the volume that the tiled layout is defined for.
pub const VOLUME_SIZE: usize = 16;

/// Number of bytes in a 16x16x16 RGBA volume.
pub const VOLUME_BYTES: usize = 16384;

/// Bits of a tiled offset that belong to the `x` coordinate.
pub const X_MASK: u64 = 0b0000_0001_0010_1100;

/// Bits of a tiled offset that belong to the `y` coordinate.
pub const Y_MASK: u64 = 0b0010_0000_1101_0000;

/// Bits of a tiled offset that belong to the `z` coordinate.
pub const Z_MASK: u64 = 0b0001_1110_0000_0000;

/// Adding `2^32 - mask` and keeping only the masked bits advances the
/// masked field by one: it is the 32-bit two's complement of `offset - mask`.
const X_STEP: u64 = 0x1_0000_0000 - X_MASK;

const Y_STEP: u64 = 0x1_0000_0000 - Y_MASK;

const Z_STEP: u64 = 0x1_0000_0000 - Z_MASK;

/// The bits of `x` (below 16) spread over `X_MASK`: bits 0..4 go to 2, 3, 5, 8.
pub open spec fn deposit_x(x: u64) -> u64 {
    ((x & 1) << 2) | ((x & 2) << 2) | ((x & 4) << 3) | ((x & 8) << 5)
}

/// The bits of `y` (below 16) spread over `Y_MASK`: bits 0..4 go to 4, 6, 7, 13.
pub open spec fn deposit_y(y: u64) -> u64 {
    ((y & 1) << 4) | ((y & 2) << 5) | ((y & 4) << 5) | ((y & 8) << 10)
}

/// The bits of `z` (below 16) spread over `Z_MASK`: bits 0..4 go to 9..13.
pub open spec fn deposit_z(z: u64) -> u64 {
    (z & 15) << 9
}

/// The `x` coordinate held in the bits of a tiled offset.
pub open spec fn extract_x(t: u64) -> u64 {
    ((t >> 2) & 1) | ((t >> 2) & 2) | ((t >> 3) & 4) | ((t >> 5) & 8)
}

/// The `y` coordinate held in the bits of a tiled offset.
pub open spec fn extract_y(t: u64) -> u64 {
    ((t >> 4) & 1) | ((t >> 5) & 2) | ((t >> 5) & 4) | ((t >> 10) & 8)
}

/// The `z` coordinate held in the bits of a tiled offset.
pub open spec fn extract_z(t: u64) -> u64 {
    (t >> 9) & 15
}

/// Tiled byte offset of channel `c` of the sample at `(x, y, z)`.
pub open spec fn tiled_offset(x: u64, y: u64, z: u64, c: u64) -> u64 {
    deposit_x(x) | deposit_y(y) | deposit_z(z) | (c & 3)
}

/// The tiled offset that holds the byte at linear offset `i`.
/// In the linear layout channel, `x`, `y` and `z` take bits 0..2, 2..6, 6..10, 10..14.
pub open spec fn tiled_of_linear(i: u64) -> u64 {
    tiled_offset((i >> 2) & 15, (i >> 6) & 15, (i >> 10) & 15, i & 3)
}

/// The linear offset that holds the byte at tiled offset `t`.
pub open spec fn linear_of_tiled(t: u64) -> u64 {
    (extract_x(t) << 2) | (extract_y(t) << 6) | (extract_z(t) << 10) | (t & 3)
}

/// The linear layout of a tiled volume: byte `i` comes from `tiled_of_linear(i)`.
pub open spec fn deswizzled(b: Seq<u8>) -> Seq<u8> {
    Seq::new(VOLUME_BYTES as nat, |i: int| b[tiled_of_linear(i as u64) as int])
}

/// The tiled layout of a linear volume: byte `t` comes from `linear_of_tiled(t)`.
pub open spec fn swizzled(b: Seq<u8>) -> Seq<u8> {
    Seq::new(VOLUME_BYTES as nat, |t: int| b[linear_of_tiled(t as u64) as int])
}

proof fn lemma_step_x(x: u64)
    by (bit_vector)
    requires
        x < 16,
    ensures
        x < 15 ==> ((deposit_x(x) + X_STEP) as u64) & X_MASK == deposit_x((x + 1) as u64),
        x == 15 ==> ((deposit_x(x) + X_STEP) as u64) & X_MASK == 0,
        deposit_x(x) <= X_MASK,
{
}

proof fn lemma_step_y(y: u64)
    by (bit_vector)
    requires
        y < 16,
    ensures
        y < 15 ==> ((deposit_y(y) + Y_STEP) as u64) & Y_MASK == deposit_y((y + 1) as u64),
        y == 15 ==> ((deposit_y(y) + Y_STEP) as u64) & Y_MASK == 0,
        deposit_y(y) <= Y_MASK,
{
}

proof fn lemma_step_z(z: u64)
    by (bit_vector)
    requires
        z < 16,
    ensures
        z < 15 ==> ((deposit_z(z) + Z_STEP) as u64) & Z_MASK == deposit_z((z + 1) as u64),
        z == 15 ==> ((deposit_z(z) + Z_STEP) as u64) & Z_MASK == 0,
        deposit_z(z) <= Z_MASK,
{
}

/// The offsets that the loop computes, for the sample `(x, y, z)` and channel `c`.
proof fn lemma_offsets(x: u64, y: u64, z: u64, c: u64)
    by (bit_vector)
    requires
        x < 16,
        y < 16,
        z < 16,
        c < 4,
    ensures
        ((z * 256 + y * 16 + x) * 4 + c) < 16384,
        deposit_x(x) + deposit_y(y) + deposit_z(z) + c < 16384,
        tiled_of_linear(((z * 256 + y * 16 + x) * 4 + c) as u64)
            == (deposit_x(x) + deposit_y(y) + deposit_z(z) + c) as u64,
        linear_of_tiled((deposit_x(x) + deposit_y(y) + deposit_z(z) + c) as u64)
            == ((z * 256 + y * 16 + x) * 4 + c) as u64,
{
}

/// Every offset below 16384 is reached by exactly one linear offset.
proof fn lemma_inverse(i: u64)
    by (bit_vector)
    requires
        i < 16384,
    ensures
        tiled_of_linear(i) < 16384,
        linear_of_tiled(i) < 16384,
        linear_of_tiled(tiled_of_linear(i)) == i,
        tiled_of_linear(linear_of_tiled(i)) == i,
{
}

/// Copies a 16x16x16 RGBA volume between the linear and the tiled layout.
///
/// With `deswizzle`, `source` is tiled and `destination` receives the linear
/// layout; without, `source` is linear and `destination` receives the tiled one.
/// The offsets are advanced with the mask trick: subtracting a mask and keeping
/// only its bits adds one to the coordinate stored in those bits.
pub fn swizzle(source: &[u8], destination: &mut [u8], deswizzle: bool)
    requires
        source@.len() == VOLUME_BYTES,
        old(destination)@.len() == VOLUME_BYTES,
    ensures
        deswizzle ==> final(destination)@ == deswizzled(source@),
        !deswizzle ==> final(destination)@ == swizzled(source@),
{
    proof {
        lemma_tiled_linear_inverse();
        assert(deposit_x(0) == 0 && deposit_y(0) == 0 && deposit_z(0) == 0) by (bit_vector);
    }
    let mut offset_x: u64 = 0;
    let mut offset_y: u64 = 0;
    let mut offset_z: u64 = 0;

    let mut z: usize = 0;
    while z < VOLUME_SIZE
        invariant
            0 <= z <= VOLUME_SIZE,
            source@.len() == VOLUME_BYTES,
            destination@.len() == VOLUME_BYTES,
            offset_z == (if z < VOLUME_SIZE { deposit_z(z as u64) } else { 0 }),
            offset_x == 0,
            offset_y == 0,
            deposit_x(0) == 0,
            deposit_y(0) == 0,
            forall|i: int|
                #![trigger tiled_of_linear(i as u64)]
                0 <= i < z * 1024 ==> (deswizzle ==> destination@[i] == source@[tiled_of_linear(i as u64) as int])
                    && (!deswizzle ==> destination@[tiled_of_linear(i as u64) as int] == source@[i]),
        decreases VOLUME_SIZE - z,
    {
        let mut y: usize = 0;
        while y < VOLUME_SIZE
            invariant
                0 <= z < VOLUME_SIZE,
                0 <= y <= VOLUME_SIZE,
                source@.len() == VOLUME_BYTES,
                destination@.len() == VOLUME_BYTES,
                offset_z == deposit_z(z as u64),
                offset_y == (if y < VOLUME_SIZE { deposit_y(y as u64) } else { 0 }),
                offset_x == 0,
                deposit_x(0) == 0,
                deposit_y(0) == 0,
                forall|i: int|
                    #![trigger tiled_of_linear(i as u64)]
                    0 <= i < z * 1024 + y * 64 ==> (deswizzle ==> destination@[i] == source@[tiled_of_linear(i as u64) as int])
                        && (!deswizzle ==> destination@[tiled_of_linear(i as u64) as int] == source@[i]),
            decreases VOLUME_SIZE - y,
        {
            let mut x: usize = 0;
            while x < VOLUME_SIZE
                invariant
                    0 <= z < VOLUME_SIZE,
                    0 <= y < VOLUME_SIZE,
                    0 <= x <= VOLUME_SIZE,
                    source@.len() == VOLUME_BYTES,
                    destination@.len() == VOLUME_BYTES,
                    offset_z == deposit_z(z as u64),
                    offset_y == deposit_y(y as u64),
                    offset_x == (if x < VOLUME_SIZE { deposit_x(x as u64) } else { 0 }),
                    forall|i: int|
                        #![trigger tiled_of_linear(i as u64)]
                        0 <= i < z * 1024 + y * 64 + x * 4 ==> (deswizzle ==> destination@[i] == source@[tiled_of_linear(i as u64) as int])
                            && (!deswizzle ==> destination@[tiled_of_linear(i as u64) as int] == source@[i]),
                decreases VOLUME_SIZE - x,
            {
                let base: usize = ((z * VOLUME_SIZE + y) * VOLUME_SIZE + x) * BYTES_PER_PIXEL;
                proof {
                    lemma_offsets(x as u64, y as u64, z as u64, 0);
                }
                let tiled: u64 = offset_x + offset_y + offset_z;
                let mut c: usize = 0;
                while c < BYTES_PER_PIXEL
                    invariant
                        0 <= z < VOLUME_SIZE,
                        0 <= y < VOLUME_SIZE,
                        0 <= x < VOLUME_SIZE,
                        0 <= c <= BYTES_PER_PIXEL,
                        base == z * 1024 + y * 64 + x * 4,
                        tiled == deposit_x(x as u64) + deposit_y(y as u64) + deposit_z(z as u64),
                        source@.len() == VOLUME_BYTES,
                        destination@.len() == VOLUME_BYTES,
                        forall|i: int|
                            #![trigger tiled_of_linear(i as u64)]
                            0 <= i < base + c ==> (deswizzle ==> destination@[i] == source@[tiled_of_linear(i as u64) as int])
                                && (!deswizzle ==> destination@[tiled_of_linear(i as u64) as int] == source@[i]),
                    decreases BYTES_PER_PIXEL - c,
                {
                    proof {
                        lemma_offsets(x as u64, y as u64, z as u64, c as u64);
                        lemma_tiled_linear_inverse();
                        assert(tiled_of_linear((base + c) as u64) == tiled + c);
                    }
                    let lin: usize = base + c;
                    let til: usize = (tiled + c as u64) as usize;
                    if deswizzle {
                        destination[lin] = source[til];
                    } else {
                        destination[til] = source[lin];
                    }
                    c = c + 1;
                }
                proof {
                    lemma_step_x(x as u64);
                }
                offset_x = (offset_x + X_STEP) & X_MASK;
                x = x + 1;
            }
            proof {
                lemma_step_y(y as u64);
            }
            offset_y = (offset_y + Y_STEP) & Y_MASK;
            y = y + 1;
        }
        proof {
            lemma_step_z(z as u64);
        }
        offset_z = (offset_z + Z_STEP) & Z_MASK;
        z = z + 1;
    }
    proof {
        if deswizzle {
            assert(destination@ =~= deswizzled(source@));
        } else {
            assert forall|t: int| 0 <= t < VOLUME_BYTES implies destination@[t] == swizzled(
                source@,
            )[t] by {
                let i = linear_of_tiled(t as u64) as int;
                assert(tiled_of_linear(i as u64) == t);
            }
            assert(destination@ =~= swizzled(source@));
        }
    }
}

/// `tiled_of_linear` and `linear_of_tiled` are inverse permutations of `0..16384`.
pub proof fn lemma_tiled_linear_inverse()
    ensures
        forall|i: u64|
            i < 16384 ==> #[trigger] tiled_of_linear(i) < 16384 && linear_of_tiled(
                tiled_of_linear(i),
            ) == i,
        forall|t: u64|
            t < 16384 ==> #[trigger] linear_of_tiled(t) < 16384 && tiled_of_linear(
                linear_of_tiled(t),
            ) == t,
{
    assert forall|i: u64| i < 16384 implies #[trigger] tiled_of_linear(i) < 16384
        && linear_of_tiled(tiled_of_linear(i)) == i by {
        lemma_inverse(i);
    }
    assert forall|t: u64| t < 16384 implies #[trigger] linear_of_tiled(t) < 16384
        && tiled_of_linear(linear_of_tiled(t)) == t by {
        lemma_inverse(t);
    }
}

/// Deswizzling a volume and swizzling the result gives back the volume,
/// and so does swizzling and then deswizzling: the two layouts are a
/// byte-for-byte relabelling of each other.
pub proof fn lemma_swizzle_round_trip(b: Seq<u8>)
    requires
        b.len() == VOLUME_BYTES,
    ensures
        swizzled(deswizzled(b)) == b,
        deswizzled(swizzled(b)) == b,
{
    lemma_tiled_linear_inverse();
    assert forall|t: int| 0 <= t < VOLUME_BYTES implies swizzled(deswizzled(b))[t] == b[t] by {
        assert(tiled_of_linear(linear_of_tiled(t as u64)) == t);
    }
    assert forall|i: int| 0 <= i < VOLUME_BYTES implies deswizzled(swizzled(b))[i] == b[i] by {
        assert(linear_of_tiled(tiled_of_linear(i as u64)) == i);
    }
    assert(swizzled(deswizzled(b)) =~= b);
    assert(deswizzled(swizzled(b)) =~= b);
}

} // verus!

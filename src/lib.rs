//! Conversion of 3D color grading lookup tables between the CUBE text format,
//! the tiled texture layout and the flat image layout.
use vstd::prelude::*;

pub mod cube;
pub mod lines;
pub mod lut3d;
pub mod swizzle;
pub mod text;

verus! {

/// Index of the sample `(x, y, z)` in a volume stored with `x` varying fastest.
pub open spec fn index3d_spec(x: int, y: int, z: int, width: int, height: int) -> int {
    z * width * height + y * width + x
}

fn index3d(x: usize, y: usize, z: usize, width: usize, height: usize) -> (r: usize)
    requires
        x < width,
        y < height,
        (z + 1) * width * height <= usize::MAX,
    ensures
        r == index3d_spec(x as int, y as int, z as int, width as int, height as int),
        r < (z + 1) * width * height,
{
    proof {
        assert(z * width <= z * width * height && z * width * height + y * width + x < (z + 1)
            * width * height && y * width + x < width * height) by (nonlinear_arith)
            requires
                x < width,
                y < height,
        ;
        assert(y * width <= width * height) by (nonlinear_arith)
            requires
                y < height,
        ;
    }
    z * width * height + y * width + x
}

/// Number of bytes of an image of the given dimensions.
pub open spec fn image_size_spec(width: int, height: int, depth: int, bpp: int) -> int {
    width * height * depth * bpp
}

/// Number of bytes of a `width` x `height` x `depth` image with `bpp` bytes per pixel.
pub fn image_size(width: usize, height: usize, depth: usize, bpp: usize) -> (r: usize)
    requires
        width * height <= usize::MAX,
        width * height * depth <= usize::MAX,
        width * height * depth * bpp <= usize::MAX,
    ensures
        r == image_size_spec(width as int, height as int, depth as int, bpp as int),
{
    width * height * depth * bpp
}

/// Channel values along each axis of the default stage LUT.
pub open spec fn gradient() -> Seq<u8> {
    seq![0u8, 15, 30, 46, 64, 82, 101, 121, 140, 158, 176, 193, 209, 224, 240, 255]
}

/// Channel `c` of the default stage LUT at `(x, y, z)`: the gradient along
/// each axis for red, green and blue, and an opaque alpha.
pub open spec fn default_lut_value(x: int, y: int, z: int, c: int) -> u8 {
    if c == 0 {
        gradient()[x]
    } else if c == 1 {
        gradient()[y]
    } else if c == 2 {
        gradient()[z]
    } else {
        255u8
    }
}

/// Create a 16x16x16 RGB LUT used as the default stage LUT.
/// This applies a subtle contrast/saturation adjustment.
pub fn create_default_lut() -> (r: Vec<u8>)
    ensures
        r@.len() == 16384,
        forall|x: int, y: int, z: int, c: int|
            0 <= x < 16 && 0 <= y < 16 && 0 <= z < 16 && 0 <= c < 4 ==> #[trigger] r@[index3d_spec(
                x,
                y,
                z,
                16,
                16,
            ) * 4 + c] == default_lut_value(x, y, z, c),
{
    let gradient_values: [u8; 16] = [
        0u8, 15u8, 30u8, 46u8, 64u8, 82u8, 101u8, 121u8, 140u8, 158u8, 176u8, 193u8, 209u8, 224u8,
        240u8, 255u8,
    ];
    assert(gradient_values@ == gradient());

    let bpp: usize = 4;
    let width: usize = 16;
    let height: usize = 16;
    let depth: usize = 16;

    let mut result: Vec<u8> = vec![0u8; width * height * depth * bpp];
    let mut z: usize = 0;
    while z < depth
        invariant
            depth == 16 && width == 16 && height == 16 && bpp == 4,
            gradient_values@ == gradient(),
            0 <= z <= depth,
            result@.len() == 16384,
            forall|x: int, y: int, zz: int, c: int|
                0 <= x < 16 && 0 <= y < 16 && 0 <= zz < z && 0 <= c < 4 ==> #[trigger] result@[index3d_spec(
                    x,
                    y,
                    zz,
                    16,
                    16,
                ) * 4 + c] == default_lut_value(x, y, zz, c),
        decreases depth - z,
    {
        let mut y: usize = 0;
        while y < height
            invariant
                depth == 16 && width == 16 && height == 16 && bpp == 4,
                gradient_values@ == gradient(),
                0 <= z < depth,
                0 <= y <= height,
                result@.len() == 16384,
                forall|x: int, yy: int, zz: int, c: int|
                    0 <= x < 16 && 0 <= yy < 16 && 0 <= zz < 16 && 0 <= c < 4 && (zz < z || (zz == z
                        && yy < y)) ==> #[trigger] result@[index3d_spec(x, yy, zz, 16, 16) * 4 + c]
                        == default_lut_value(x, yy, zz, c),
            decreases height - y,
        {
            let mut x: usize = 0;
            while x < width
                invariant
                    depth == 16 && width == 16 && height == 16 && bpp == 4,
                    gradient_values@ == gradient(),
                    0 <= z < depth,
                    0 <= y < height,
                    0 <= x <= width,
                    result@.len() == 16384,
                    forall|xx: int, yy: int, zz: int, c: int|
                        0 <= xx < 16 && 0 <= yy < 16 && 0 <= zz < 16 && 0 <= c < 4 && (zz < z || (zz
                            == z && yy < y) || (zz == z && yy == y && xx < x)) ==> #[trigger] result@[index3d_spec(
                            xx,
                            yy,
                            zz,
                            16,
                            16,
                        ) * 4 + c] == default_lut_value(xx, yy, zz, c),
                decreases width - x,
            {
                let offset: usize = index3d(x, y, z, 16, 16) * 4;
                result.set(offset, gradient_values[x]);
                result.set(offset + 1, gradient_values[y]);
                result.set(offset + 2, gradient_values[z]);
                result.set(offset + 3, 255u8);
                x = x + 1;
            }
            y = y + 1;
        }
        z = z + 1;
    }
    result
}

} // verus!

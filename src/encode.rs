//! Layout of the encoded images: RGBA bytes from quantized channels, 32-bit ARGB words
//! for a display, and rows in reverse order for formats stored bottom to top.
use vstd::prelude::*;

verus! {

/// Channel `c` of pixel `i` in a buffer of three channels per pixel.
pub open spec fn rgb_at(s: Seq<u8>, i: int, c: int) -> u8 {
    s[3 * i + c]
}

/// Channel `c` of pixel `i` in a buffer of four channels per pixel.
pub open spec fn rgba_at(s: Seq<u8>, i: int, c: int) -> u8 {
    s[4 * i + c]
}

/// Interleaves full alpha into quantized color: from three bytes per pixel (red,
/// green, blue) to four (red, green, blue, 255). A trailing partial pixel is dropped.
pub fn rgba_from_rgb(rgb: &Vec<u8>) -> (r: Vec<u8>)
    ensures
        r@.len() == 4 * (rgb@.len() / 3),
        forall|i: int, c: int|
            0 <= i < rgb@.len() / 3 && 0 <= c < 3 ==> #[trigger] rgba_at(r@, i, c) == rgb_at(
                rgb@,
                i,
                c,
            ),
        forall|i: int| 0 <= i < rgb@.len() / 3 ==> #[trigger] rgba_at(r@, i, 3) == 255,
{
    let pixels = rgb.len() / 3;
    let mut out: Vec<u8> = Vec::new();
    let mut i: usize = 0;
    proof {
        vstd::arithmetic::div_mod::lemma_fundamental_div_mod(rgb@.len() as int, 3);
    }
    while i < pixels
        invariant
            pixels == rgb@.len() / 3,
            3 * pixels <= rgb@.len(),
            rgb@.len() <= usize::MAX,
            i <= pixels,
            out@.len() == 4 * i,
            forall|j: int, c: int|
                0 <= j < i && 0 <= c < 3 ==> #[trigger] rgba_at(out@, j, c) == rgb_at(rgb@, j, c),
            forall|j: int| 0 <= j < i ==> #[trigger] rgba_at(out@, j, 3) == 255,
        decreases pixels - i,
    {
        let base = 3 * i;
        let ghost prev = out@;
        out.push(rgb[base]);
        out.push(rgb[base + 1]);
        out.push(rgb[base + 2]);
        out.push(255);
        proof {
            assert forall|j: int, c: int| 0 <= j < i + 1 && 0 <= c < 3 implies #[trigger] rgba_at(
                out@,
                j,
                c,
            ) == rgb_at(rgb@, j, c) by {
                if j < i {
                    assert(rgba_at(prev, j, c) == rgb_at(rgb@, j, c));
                }
            }
            assert forall|j: int| 0 <= j < i + 1 implies #[trigger] rgba_at(out@, j, 3) == 255 by {
                if j < i {
                    assert(rgba_at(prev, j, 3) == 255);
                }
            }
        }
        i = i + 1;
    }
    out
}

/// A channel value limited to one byte.
pub open spec fn byte_clamp(v: u32) -> u32 {
    if v > 255 {
        255
    } else {
        v
    }
}

/// Packs a pixel into a 32-bit word for a display: alpha 255 in the top byte, then
/// red, green and blue, each limited to 255.
pub fn pack_argb(r: u32, g: u32, b: u32) -> (p: u32)
    ensures
        p == 0xff00_0000 + byte_clamp(r) * 0x1_0000 + byte_clamp(g) * 0x100 + byte_clamp(b),
{
    let r1: u32 = if r > 255 {
        255
    } else {
        r
    };
    let g1: u32 = if g > 255 {
        255
    } else {
        g
    };
    let b1: u32 = if b > 255 {
        255
    } else {
        b
    };
    let p = (255u32 << 24u32) | (r1 << 16u32) | (g1 << 8u32) | b1;
    assert(p == 0xff00_0000 + r1 * 0x1_0000 + g1 * 0x100 + b1) by (bit_vector)
        requires
            r1 <= 255,
            g1 <= 255,
            b1 <= 255,
            p == (255u32 << 24u32) | (r1 << 16u32) | (g1 << 8u32) | b1,
    ;
    p
}

/// Element `k` of a buffer of whole rows of `row_len` elements after its rows are put
/// in reverse order.
pub open spec fn flipped_at<T>(s: Seq<T>, row_len: nat, k: int) -> T {
    let rows = s.len() / row_len;
    s[(rows - 1 - k / row_len as int) * row_len + k % row_len as int]
}

/// Puts the rows of `data`, each `row_len` elements long, in reverse order.
pub fn flip_rows<T: Copy>(data: &Vec<T>, row_len: usize) -> (r: Vec<T>)
    requires
        row_len >= 1,
        data@.len() as int % (row_len as int) == 0,
    ensures
        r@.len() == data@.len(),
        forall|k: int| 0 <= k < r@.len() ==> #[trigger] r@[k] == flipped_at(data@, row_len as nat, k),
{
    let rows = data.len() / row_len;
    let mut out: Vec<T> = Vec::new();
    let mut row: usize = 0;
    proof {
        vstd::arithmetic::div_mod::lemma_fundamental_div_mod(data@.len() as int, row_len as int);
    }
    while row < rows
        invariant
            rows == data@.len() as int / (row_len as int),
            rows * row_len == data@.len(),
            data@.len() <= usize::MAX,
            row_len >= 1,
            row <= rows,
            out@.len() == row * row_len,
            forall|k: int| 0 <= k < out@.len() ==> #[trigger] out@[k] == flipped_at(data@, row_len as nat, k),
        decreases rows - row,
    {
        proof {
            assert((rows - 1 - row) * row_len + row_len <= rows * row_len) by (nonlinear_arith)
                requires
                    row < rows,
            ;
        }
        let src = (rows - 1 - row) * row_len;
        let mut col: usize = 0;
        while col < row_len
            invariant
                rows == data@.len() as int / (row_len as int),
                rows * row_len == data@.len(),
                row_len >= 1,
                row < rows,
                src == (rows - 1 - row) * row_len,
                src + row_len <= data@.len(),
                data@.len() <= usize::MAX,
                col <= row_len,
                out@.len() == row * row_len + col,
                forall|k: int| 0 <= k < out@.len() ==> #[trigger] out@[k] == flipped_at(data@, row_len as nat, k),
            decreases row_len - col,
        {
            let v = data[src + col];
            let ghost k = out@.len() as int;
            proof {
                let rl = row_len as int;
                assert(k == row * rl + col);
                vstd::arithmetic::div_mod::lemma_fundamental_div_mod_converse(
                    k,
                    rl,
                    row as int,
                    col as int,
                );
            }
            out.push(v);
            col = col + 1;
        }
        proof {
            assert((row + 1) * row_len == row * row_len + row_len) by (nonlinear_arith);
        }
        row = row + 1;
    }
    out
}

} // verus!

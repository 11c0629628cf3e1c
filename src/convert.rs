//! Quantising an RGB buffer to a monochrome image.
use vstd::prelude::*;
use crate::image::{
    ImageView, MonochromeImage, data_len, data_len_of, lemma_pack_bits_bound, lemma_pack_bits_push,
    lemma_split_index, pack_bits, row_bytes, row_bytes_of, two_pow,
};

verus! {

/// Brightness of a pixel, `0.299 R + 0.587 G + 0.114 B`, truncated to an integer.
pub open spec fn luma(r: u8, g: u8, b: u8) -> int {
    (299 * r + 587 * g + 114 * b) / 1000
}

/// Whether the pixel at `row`, `col` of an RGB buffer of the given width is white:
/// its luma is strictly above 128.
pub open spec fn is_white(rgb: Seq<u8>, width: nat, row: int, col: int) -> bool {
    let i = 3 * (row * width + col);
    luma(rgb[i], rgb[i + 1], rgb[i + 2]) > 128
}

/// The eight bits of byte `j` of row `row`: the pixels `8 j .. 8 j + 8`, with
/// black (`false`) past the end of the row.
pub open spec fn group_bits(rgb: Seq<u8>, width: nat, row: int, j: int) -> Seq<bool> {
    Seq::new(8, |k: int| 8 * j + k < width && is_white(rgb, width, row, 8 * j + k))
}

/// The packed data of the image that an RGB buffer quantises to.
pub open spec fn converted_data(rgb: Seq<u8>, width: nat, height: nat) -> Seq<u8> {
    let rb = row_bytes(width) as int;
    Seq::new(data_len(width, height), |i: int| pack_bits(group_bits(rgb, width, i / rb, i % rb)) as u8)
}

/// The image that an RGB buffer of the given size quantises to.
pub open spec fn converted(rgb: Seq<u8>, width: u32, height: u32) -> ImageView {
    ImageView { width, height, data: converted_data(rgb, width as nat, height as nat) }
}

/// Why an RGB buffer could not be converted.
#[derive(Clone, Copy, Debug, PartialEq, Eq)]
pub enum ConvertError {
    /// The buffer does not hold `width * height * 3` bytes.
    WrongSize { expected: u128, actual: usize },
}

/// Whether a pixel of brightness given by its channels is white.
fn white_pixel(r: u8, g: u8, b: u8) -> (w: bool)
    ensures
        w == (luma(r, g, b) > 128),
{
    (299 * r as u32 + 587 * g as u32 + 114 * b as u32) / 1000 > 128
}

/// Quantises `rgb`, a buffer of `width * height` pixels of three bytes each
/// (red, green, blue; rows top to bottom, no padding), to one bit per pixel.
/// Fails with `WrongSize` exactly when the buffer's length is not
/// `width * height * 3`.
pub fn convert(rgb: &[u8], width: u32, height: u32) -> (r: Result<MonochromeImage, ConvertError>)
    ensures
        rgb@.len() == width * height * 3 <==> r is Ok,
        r matches Ok(img) ==> img@ == converted(rgb@, width, height) && img@.wf(),
        r matches Err(e) ==> e == (ConvertError::WrongSize {
            expected: (width * height * 3) as u128,
            actual: rgb@.len() as usize,
        }),
{
    proof {
        assert(width * height <= 0xffff_ffffu64 * 0xffff_ffffu64) by (nonlinear_arith)
            requires
                width <= 0xffff_ffffu64,
                height <= 0xffff_ffffu64,
        ;
    }
    let expected: u128 = width as u128 * height as u128 * 3;
    let n = rgb.len();
    if n as u128 != expected {
        return Err(ConvertError::WrongSize { expected, actual: n });
    }
    let rb = row_bytes_of(width);
    let total = data_len_of(width, height);
    let ghost want = converted_data(rgb@, width as nat, height as nat);
    proof {
        assert(total <= rgb@.len()) by (nonlinear_arith)
            requires
                total == height * ((width + 7) / 8),
                rgb@.len() == width * height * 3,
        ;
    }
    let mut data: Vec<u8> = Vec::new();
    let mut row: u32 = 0;
    while row < height
        invariant
            row <= height,
            rb == row_bytes(width as nat),
            total == data_len(width as nat, height as nat),
            total <= rgb@.len(),
            rgb@.len() == width * height * 3,
            rgb@.len() <= usize::MAX,
            want == converted_data(rgb@, width as nat, height as nat),
            data@ == want.take(row * rb),
        decreases height - row,
    {
        proof {
            lemma_row_span(row as nat, height as nat, rb as nat);
        }
        let mut j: u64 = 0;
        while j < rb
            invariant
                row < height,
                j <= rb,
                rb == row_bytes(width as nat),
                total == data_len(width as nat, height as nat),
                row * rb + rb <= total,
                rgb@.len() == width * height * 3,
                rgb@.len() <= usize::MAX,
                want == converted_data(rgb@, width as nat, height as nat),
                data@ == want.take(row * rb + j),
            decreases rb - j,
        {
            let ghost bits = group_bits(rgb@, width as nat, row as int, j as int);
            let mut acc: u8 = 0;
            let mut k: u64 = 0;
            while k < 8
                invariant
                    row < height,
                    j < rb,
                    k <= 8,
                    rb == row_bytes(width as nat),
                    rgb@.len() == width * height * 3,
                    rgb@.len() <= usize::MAX,
                    bits == group_bits(rgb@, width as nat, row as int, j as int),
                    acc == pack_bits(bits.take(k as int)),
                decreases 8 - k,
            {
                let col: u64 = 8 * j + k;
                let mut bit: bool = false;
                if col < width as u64 {
                    proof {
                        lemma_pixel_in_buffer(row as nat, col as nat, width as nat, height as nat);
                    }
                    let base: u64 = row as u64 * width as u64;
                    let i: usize = (3 * (base + col)) as usize;
                    bit = white_pixel(rgb[i], rgb[i + 1], rgb[i + 2]);
                }
                proof {
                    assert(bits.take(k + 1) =~= bits.take(k as int).push(bits[k as int]));
                    lemma_pack_bits_push(bits.take(k as int), bits[k as int]);
                    lemma_pack_bits_bound(bits.take(k + 1));
                    assert(two_pow(bits.take(k + 1).len()) <= 256) by {
                        reveal_with_fuel(two_pow, 9);
                    }
                }
                acc = if bit {
                    2 * acc + 1
                } else {
                    2 * acc
                };
                k = k + 1;
            }
            proof {
                let n = row * rb + j;
                assert(bits.take(8) =~= bits);
                lemma_split_index(row as int, j as int, rb as int);
                assert(want[n as int] == acc);
                assert(want.take(n + 1) =~= want.take(n as int).push(acc));
            }
            data.push(acc);
            j = j + 1;
        }
        row = row + 1;
    }
    proof {
        assert(data@ =~= want);
    }
    Ok(MonochromeImage { width, height, data })
}

/// The bytes of row `row` lie inside the data.
proof fn lemma_row_span(row: nat, height: nat, rb: nat)
    requires
        row < height,
    ensures
        row * rb + rb <= height * rb,
        (row + 1) * rb == row * rb + rb,
{
    assert(row * rb + rb <= height * rb) by (nonlinear_arith)
        requires
            row < height,
    ;
    assert((row + 1) * rb == row * rb + rb) by (nonlinear_arith);
}

/// The three bytes of a pixel lie inside a buffer of the right length.
proof fn lemma_pixel_in_buffer(row: nat, col: nat, width: nat, height: nat)
    requires
        row < height,
        col < width,
    ensures
        3 * (row * width + col) + 2 < width * height * 3,
        row * width <= row * width + col,
{
    assert(row * width + col < width * height) by (nonlinear_arith)
        requires
            row < height,
            col < width,
    ;
}

} // verus!

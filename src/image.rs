//! The monochrome image and its mathematical model.
use vstd::prelude::*;

verus! {

/// Bytes that hold one row of `width` pixels: every row is padded on its own
/// to a byte boundary.
pub open spec fn row_bytes(width: nat) -> nat {
    (width + 7) / 8
}

/// Bytes of packed data in an image of the given size.
pub open spec fn data_len(width: nat, height: nat) -> nat {
    height * row_bytes(width)
}

/// Bit `k` of `b`, counting from the most significant bit (`k` in `0..8`).
pub open spec fn bit_at(b: u8, k: int) -> bool {
    (b >> ((7 - k) as u8)) & 1u8 == 1u8
}

/// The number whose binary digits, most significant first, are `bits`.
pub open spec fn pack_bits(bits: Seq<bool>) -> nat
    decreases bits.len(),
{
    if bits.len() == 0 {
        0
    } else {
        2 * pack_bits(bits.drop_last()) + if bits.last() {
            1nat
        } else {
            0nat
        }
    }
}

/// An image of one bit per pixel: `1` is white, `0` is black. Row `r` takes
/// the bytes `r * row_bytes(width) .. (r + 1) * row_bytes(width)` of `data`;
/// in each byte the most significant bit is the leftmost pixel.
#[derive(Clone, Debug, PartialEq, Eq)]
pub struct MonochromeImage {
    pub width: u32,
    pub height: u32,
    pub data: Vec<u8>,
}

/// What a `MonochromeImage` holds, as mathematical values.
pub ghost struct ImageView {
    pub width: u32,
    pub height: u32,
    pub data: Seq<u8>,
}

impl ImageView {
    /// The size invariant: the data holds exactly the padded rows.
    pub open spec fn wf(self) -> bool {
        self.data.len() == data_len(self.width as nat, self.height as nat)
    }

    /// Whether the pixel at `row`, `col` is white.
    pub open spec fn pixel(self, row: int, col: int) -> bool {
        bit_at(self.data[row * row_bytes(self.width as nat) + col / 8], col % 8)
    }
}

impl View for MonochromeImage {
    type V = ImageView;

    open spec fn view(&self) -> ImageView {
        ImageView { width: self.width, height: self.height, data: self.data@ }
    }
}

/// Bytes of one padded row, computed without overflow.
pub fn row_bytes_of(width: u32) -> (r: u64)
    ensures
        r == row_bytes(width as nat),
        r <= 0x2000_0000,
{
    (width as u64 + 7) / 8
}

/// Bytes of packed data for an image of the given size.
pub fn data_len_of(width: u32, height: u32) -> (r: u64)
    ensures
        r == data_len(width as nat, height as nat),
{
    let rb = row_bytes_of(width);
    assert(height * rb <= 0xffff_ffff * 0x2000_0000) by (nonlinear_arith)
        requires
            rb <= 0x2000_0000,
            height <= 0xffff_ffff,
    ;
    height as u64 * rb
}

impl MonochromeImage {
    /// Whether `data` has exactly the length that `width` and `height` ask for.
    pub fn is_valid(&self) -> (r: bool)
        ensures
            r == self@.wf(),
    {
        self.data.len() as u64 == data_len_of(self.width, self.height)
    }

    /// Whether the pixel at `row`, `col` is white.
    pub fn pixel(&self, row: u32, col: u32) -> (r: bool)
        requires
            self@.wf(),
            row < self.height,
            col < self.width,
        ensures
            r == self@.pixel(row as int, col as int),
    {
        let rb = row_bytes_of(self.width);
        let n = self.data.len();
        proof {
            lemma_index_in_image(self.width as nat, self.height as nat, row as nat, col as nat);
            assert(self.data@.len() == n);
            assert(row * rb + col / 8 < self.data@.len());
        }
        let base: u64 = row as u64 * rb;
        let b = self.data[(base + col as u64 / 8) as usize];
        (b >> (7 - (col % 8) as u8)) & 1u8 == 1u8
    }
}

/// The byte that holds pixel `row`, `col` lies inside the data.
pub proof fn lemma_index_in_image(width: nat, height: nat, row: nat, col: nat)
    requires
        row < height,
        col < width,
    ensures
        col / 8 < row_bytes(width),
        row * row_bytes(width) + col / 8 < data_len(width, height),
        row * row_bytes(width) + row_bytes(width) <= data_len(width, height),
{
    let rb = row_bytes(width);
    assert(col / 8 < rb);
    assert(row * rb + rb <= height * rb) by (nonlinear_arith)
        requires
            row < height,
    ;
}


/// `2` to the power `n`.
pub open spec fn two_pow(n: nat) -> nat
    decreases n,
{
    if n == 0 {
        1
    } else {
        2 * two_pow((n - 1) as nat)
    }
}

/// Bits read as a number stay below `2` to the power of their count.
pub proof fn lemma_pack_bits_bound(bits: Seq<bool>)
    ensures
        pack_bits(bits) < two_pow(bits.len()),
    decreases bits.len(),
{
    if bits.len() > 0 {
        lemma_pack_bits_bound(bits.drop_last());
    }
}

/// Appending one bit doubles the number and adds the bit.
pub proof fn lemma_pack_bits_push(bits: Seq<bool>, b: bool)
    ensures
        pack_bits(bits.push(b)) == 2 * pack_bits(bits) + if b {
            1nat
        } else {
            0nat
        },
{
    assert(bits.push(b).drop_last() =~= bits);
}

/// Index `row * rb + j` lands in row `row`, at byte `j`.
pub proof fn lemma_split_index(row: int, j: int, rb: int)
    requires
        0 <= row,
        0 <= j < rb,
    ensures
        (row * rb + j) / rb == row,
        (row * rb + j) % rb == j,
{
    vstd::arithmetic::div_mod::lemma_fundamental_div_mod_converse_div(row * rb + j, rb, row, j);
    vstd::arithmetic::div_mod::lemma_fundamental_div_mod_converse_mod(row * rb + j, rb, row, j);
}

} // verus!

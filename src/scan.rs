//! The scan that hands the pixels of an image to a renderer: groups of up to
//! eight pixels along each row (or column), and a line break after each.
use vstd::prelude::*;
use crate::image::{
    ImageView, MonochromeImage, bit_at, lemma_index_in_image, lemma_pack_bits_bound, lemma_pack_bits_push,
    lemma_split_index, pack_bits, row_bytes, row_bytes_of, two_pow,
};

verus! {

/// The order in which pixels are scanned.
#[derive(Clone, Copy, Debug, PartialEq, Eq, Structural)]
pub enum Direction {
    /// Rows top to bottom, each left to right.
    Horizontal,
    /// Columns left to right, each top to bottom.
    Vertical,
}

/// One item of a scan.
#[derive(Clone, Copy, Debug, PartialEq, Eq, Structural)]
pub enum ScanToken {
    /// Up to eight pixels, most significant bit first (`1` is white); only the
    /// first `valid_bits` bits are pixels, the others are zero padding or,
    /// along a row, whatever the image's padding holds.
    Byte { packed: u8, valid_bits: u8 },
    /// The end of a row (or column).
    NewLine,
}

/// The pixels that a token stands for, first to last (`true` is white): the
/// first `valid_bits` bits of a byte, at most eight; none for a line break.
pub open spec fn token_pixels(t: ScanToken) -> Seq<bool> {
    match t {
        ScanToken::Byte { packed, valid_bits } => Seq::new(
            (if valid_bits > 8 { 8 } else { valid_bits }) as nat,
            |k: int| bit_at(packed, k),
        ),
        ScanToken::NewLine => Seq::empty(),
    }
}

impl ScanToken {
    /// The pixels this token stands for, first to last (`true` is white).
    pub fn pixels(&self) -> (r: Vec<bool>)
        ensures
            r@ == token_pixels(*self),
    {
        let mut out: Vec<bool> = Vec::new();
        if let ScanToken::Byte { packed, valid_bits } = *self {
            let count: u8 = if valid_bits > 8 {
                8
            } else {
                valid_bits
            };
            let mut k: u8 = 0;
            while k < count
                invariant
                    k <= count <= 8,
                    out@ == token_pixels(*self).take(k as int),
                    token_pixels(*self).len() == count,
                    *self == (ScanToken::Byte { packed, valid_bits }),
                decreases count - k,
            {
                let bit = (packed >> (7 - k)) & 1u8 == 1u8;
                proof {
                    assert(token_pixels(*self).take(k + 1) =~= token_pixels(*self).take(k as int).push(bit));
                }
                out.push(bit);
                k = k + 1;
            }
            assert(token_pixels(*self).take(k as int) =~= token_pixels(*self));
        } else {
            assert(token_pixels(*self) =~= Seq::<bool>::empty());
        }
        out
    }
}

/// Lines of the scan: rows, or columns.
pub open spec fn line_count(img: ImageView, dir: Direction) -> nat {
    match dir {
        Direction::Horizontal => img.height as nat,
        Direction::Vertical => img.width as nat,
    }
}

/// Pixels along one line.
pub open spec fn line_length(img: ImageView, dir: Direction) -> nat {
    match dir {
        Direction::Horizontal => img.width as nat,
        Direction::Vertical => img.height as nat,
    }
}

/// Groups of eight pixels along one line.
pub open spec fn group_count(img: ImageView, dir: Direction) -> nat {
    row_bytes(line_length(img, dir))
}

/// The pixels of a column that group `g` holds, black past the column's end.
pub open spec fn column_bits(img: ImageView, col: int, g: int) -> Seq<bool> {
    Seq::new(8, |k: int| 8 * g + k < img.height && img.pixel(8 * g + k, col))
}

/// Group `g` of line `line`: along a row, the image's own byte; along a
/// column, the column's pixels packed the same way.
pub open spec fn group_token(img: ImageView, dir: Direction, line: int, g: int) -> ScanToken {
    let left = line_length(img, dir) - 8 * g;
    let valid_bits = (if left >= 8 { 8 } else { left }) as u8;
    match dir {
        Direction::Horizontal => ScanToken::Byte {
            packed: img.data[line * row_bytes(img.width as nat) + g],
            valid_bits,
        },
        Direction::Vertical => ScanToken::Byte { packed: pack_bits(column_bits(img, line, g)) as u8, valid_bits },
    }
}

/// The whole scan of `img`: for each line, its groups, then `NewLine`.
pub open spec fn scan_tokens(img: ImageView, dir: Direction) -> Seq<ScanToken> {
    let per_line = (group_count(img, dir) + 1) as int;
    Seq::new(
        (line_count(img, dir) * per_line) as nat,
        |i: int|
            if i % per_line == group_count(img, dir) {
                ScanToken::NewLine
            } else {
                group_token(img, dir, i / per_line, i % per_line)
            },
    )
}

/// A scan in progress over a borrowed image. Each call of `next` yields the
/// next item; a fresh scan starts from `scan`.
pub struct ScanIter<'a> {
    img: &'a MonochromeImage,
    dir: Direction,
    line: u64,
    slot: u64,
    lines: u64,
    groups: u64,
}

impl<'a> ScanIter<'a> {
    /// The scan's counters agree with its image.
    pub closed spec fn wf(&self) -> bool {
        &&& self.img@.wf()
        &&& self.lines == line_count(self.img@, self.dir)
        &&& self.groups == group_count(self.img@, self.dir)
        &&& self.line <= self.lines
        &&& self.slot <= self.groups
        &&& (self.line == self.lines ==> self.slot == 0)
    }

    /// Items already yielded.
    pub closed spec fn position(&self) -> int {
        self.line * (self.groups + 1) + self.slot
    }

    /// The items that the scan has still to yield.
    pub closed spec fn remaining(&self) -> Seq<ScanToken> {
        let all = scan_tokens(self.img@, self.dir);
        all.subrange(self.position(), all.len() as int)
    }

    /// A scan of `img` in direction `dir`.
    pub fn new(img: &'a MonochromeImage, dir: Direction) -> (r: ScanIter<'a>)
        requires
            img@.wf(),
        ensures
            r.wf(),
            r.remaining() == scan_tokens(img@, dir),
    {
        let (lines, len) = match dir {
            Direction::Horizontal => (img.height as u64, img.width),
            Direction::Vertical => (img.width as u64, img.height),
        };
        let r = ScanIter { img, dir, line: 0, slot: 0, lines, groups: row_bytes_of(len) };
        assert(r.remaining() =~= scan_tokens(img@, dir));
        r
    }

    /// Group `g` of column `col`, packed most significant bit first.
    fn column_byte(&self, col: u64, g: u64) -> (r: u8)
        requires
            self.wf(),
            self.dir == Direction::Vertical,
            col < self.lines,
            g < self.groups,
        ensures
            r == pack_bits(column_bits(self.img@, col as int, g as int)),
    {
        let img = self.img;
        let ghost bits = column_bits(img@, col as int, g as int);
        let mut acc: u8 = 0;
        let mut k: u64 = 0;
        while k < 8
            invariant
                self.wf(),
                img == self.img,
                col < img.width,
                g < row_bytes(img.height as nat),
                k <= 8,
                bits == column_bits(img@, col as int, g as int),
                acc == pack_bits(bits.take(k as int)),
            decreases 8 - k,
        {
            let row: u64 = 8 * g + k;
            let mut bit: bool = false;
            if row < img.height as u64 {
                bit = img.pixel(row as u32, col as u32);
            }
            proof {
                assert(bits.take(k + 1) =~= bits.take(k as int).push(bits[k as int]));
                lemma_pack_bits_push(bits.take(k as int), bits[k as int]);
                lemma_pack_bits_bound(bits.take(k + 1));
                assert(two_pow(bits.take(k + 1).len()) <= 256) by {
                    reveal_with_fuel(two_pow, 9);
                }
            }
            acc = if bit {
                2 * acc + 1
            } else {
                2 * acc
            };
            k = k + 1;
        }
        assert(bits.take(8) =~= bits);
        acc
    }

    /// The next item of the scan, or `None` once it is over.
    pub fn next(&mut self) -> (r: Option<ScanToken>)
        requires
            old(self).wf(),
        ensures
            final(self).wf(),
            old(self).remaining().len() == 0 ==> r is None && final(self).remaining().len() == 0,
            old(self).remaining().len() > 0 ==> r == Some(old(self).remaining()[0])
                && final(self).remaining() == old(self).remaining().drop_first(),
    {
        let ghost all = scan_tokens(self.img@, self.dir);
        let ghost g1 = (self.groups + 1) as int;
        proof {
            assert(self.position() <= all.len()) by (nonlinear_arith)
                requires
                    self.position() == self.line * g1 + self.slot,
                    all.len() == self.lines * g1,
                    self.line <= self.lines,
                    self.slot < g1,
                    self.line == self.lines ==> self.slot == 0,
            ;
        }
        if self.line >= self.lines {
            assert(self.position() == all.len()) by (nonlinear_arith)
                requires
                    self.position() == self.line * g1 + self.slot,
                    all.len() == self.lines * g1,
                    self.line == self.lines,
                    self.slot == 0,
            ;
            return None;
        }
        proof {
            assert(self.position() < all.len()) by (nonlinear_arith)
                requires
                    self.position() == self.line * g1 + self.slot,
                    all.len() == self.lines * g1,
                    self.line < self.lines,
                    0 <= self.slot < g1,
            ;
            lemma_split_index(self.line as int, self.slot as int, g1);
        }
        let ghost l0 = self.line as int;
        let t = if self.slot == self.groups {
            self.line = self.line + 1;
            self.slot = 0;
            proof {
                assert((l0 + 1) * g1 == l0 * g1 + (g1 - 1) + 1) by (nonlinear_arith);
            }
            ScanToken::NewLine
        } else {
            let left: u64 = match self.dir {
                Direction::Horizontal => self.img.width as u64 - 8 * self.slot,
                Direction::Vertical => self.img.height as u64 - 8 * self.slot,
            };
            let valid_bits: u8 = if left >= 8 {
                8
            } else {
                left as u8
            };
            let packed: u8 = match self.dir {
                Direction::Horizontal => {
                    proof {
                        lemma_index_in_image(
                            self.img.width as nat,
                            self.img.height as nat,
                            self.line as nat,
                            (8 * self.slot) as nat,
                        );
                    }
                    let n = self.img.data.len();
                    proof {
                        assert(self.line * self.groups + self.slot < n);
                    }
                    let base: u64 = self.line * self.groups;
                    self.img.data[(base + self.slot) as usize]
                },
                Direction::Vertical => self.column_byte(self.line, self.slot),
            };
            self.slot = self.slot + 1;
            ScanToken::Byte { packed, valid_bits }
        };
        proof {
            assert(self.remaining() =~= old(self).remaining().drop_first());
        }
        Some(t)
    }
}

/// Starts a scan of `img` in direction `dir`.
pub fn scan<'a>(img: &'a MonochromeImage, dir: Direction) -> (r: ScanIter<'a>)
    requires
        img@.wf(),
    ensures
        r.wf(),
        r.remaining() == scan_tokens(img@, dir),
{
    ScanIter::new(img, dir)
}

/// The whole scan of `img` in direction `dir`, collected.
pub fn iterate(img: &MonochromeImage, dir: Direction) -> (r: Vec<ScanToken>)
    requires
        img@.wf(),
    ensures
        r@ == scan_tokens(img@, dir),
{
    let mut it = ScanIter::new(img, dir);
    let mut out: Vec<ScanToken> = Vec::new();
    loop
        invariant
            it.wf(),
            out@ + it.remaining() == scan_tokens(img@, dir),
        decreases it.remaining().len(),
    {
        let ghost before = it.remaining();
        match it.next() {
            None => {
                assert(out@ + before =~= out@);
                return out;
            },
            Some(t) => {
                assert(out@.push(t) + it.remaining() =~= out@ + before);
                out.push(t);
            },
        }
    }
}

} // verus!

//! The byte record of one image: width and height as four little-endian
//! bytes each, then the packed data as it stands.
use vstd::prelude::*;
use crate::image::{ImageView, MonochromeImage, data_len, data_len_of};

verus! {

/// The four little-endian bytes of `x`.
pub open spec fn le32(x: u32) -> Seq<u8> {
    seq![
        (x % 256) as u8,
        (x / 256 % 256) as u8,
        (x / 65536 % 256) as u8,
        (x / 16777216 % 256) as u8,
    ]
}

/// The number held in the four little-endian bytes of `s` at `at`.
pub open spec fn read_le32(s: Seq<u8>, at: int) -> u32 {
    (s[at] + 256 * s[at + 1] + 65536 * s[at + 2] + 16777216 * s[at + 3]) as u32
}

/// The record of one image.
pub open spec fn record_bytes(img: ImageView) -> Seq<u8> {
    le32(img.width) + le32(img.height) + img.data
}

/// The image whose record starts `s`, and the record's length; `None` where
/// `s` ends before the header or before the data that the header declares.
pub open spec fn parse_record(s: Seq<u8>) -> Option<(ImageView, nat)> {
    if s.len() < 8 {
        None
    } else {
        let width = read_le32(s, 0);
        let height = read_le32(s, 4);
        let n = data_len(width as nat, height as nat);
        if s.len() < 8 + n {
            None
        } else {
            Some((ImageView { width, height, data: s.subrange(8, 8 + n as int) }, 8 + n))
        }
    }
}

/// Why bytes could not be read as images.
#[derive(Clone, Copy, Debug, PartialEq, Eq)]
pub enum DecodeError {
    /// A record ends before the length that its header declares.
    Truncated,
    /// The underlying source failed, or its compressed stream is damaged.
    Io,
}

/// Appends the four little-endian bytes of `x`.
fn push_le32(out: &mut Vec<u8>, x: u32)
    ensures
        final(out)@ == old(out)@ + le32(x),
{
    out.push((x % 256) as u8);
    out.push((x / 256 % 256) as u8);
    out.push((x / 65536 % 256) as u8);
    out.push((x / 16777216 % 256) as u8);
    assert(final(out)@ =~= old(out)@ + le32(x));
}

/// Appends the record of `img` to `out`: width, height, then the data.
pub fn encode(img: &MonochromeImage, out: &mut Vec<u8>)
    ensures
        final(out)@ == old(out)@ + record_bytes(img@),
{
    push_le32(out, img.width);
    push_le32(out, img.height);
    let mut i: usize = 0;
    let ghost start = out@;
    while i < img.data.len()
        invariant
            i <= img.data@.len(),
            out@ == start + img.data@.take(i as int),
        decreases img.data@.len() - i,
    {
        proof {
            assert(img.data@.take(i + 1) =~= img.data@.take(i as int).push(img.data@[i as int]));
        }
        out.push(img.data[i]);
        i = i + 1;
    }
    assert(img.data@.take(i as int) =~= img.data@);
    assert(out@ =~= old(out)@ + record_bytes(img@));
}

/// The number held in the four little-endian bytes of `src` at `at`.
fn get_le32(src: &[u8], at: usize) -> (r: u32)
    requires
        at + 4 <= src@.len(),
    ensures
        r == read_le32(src@, at as int),
{
    src[at] as u32 + 256 * src[at + 1] as u32 + 65536 * src[at + 2] as u32 + 16777216 * src[at + 3] as u32
}

/// Reads the record that starts at `pos` in `src`. Returns the image and
/// the position just after the record, or `Truncated` where `src` ends
/// inside the record.
pub fn decode(src: &[u8], pos: usize) -> (r: Result<(MonochromeImage, usize), DecodeError>)
    requires
        pos <= src@.len(),
    ensures
        match parse_record(src@.subrange(pos as int, src@.len() as int)) {
            None => r == Err::<(MonochromeImage, usize), DecodeError>(DecodeError::Truncated),
            Some((v, n)) => r matches Ok((img, next)) && img@ == v && next == pos + n,
        },
{
    let ghost s = src@.subrange(pos as int, src@.len() as int);
    let len = src.len();
    if len - pos < 8 {
        return Err(DecodeError::Truncated);
    }
    let width = get_le32(src, pos);
    let height = get_le32(src, pos + 4);
    assert(read_le32(s, 0) == width);
    assert(read_le32(s, 4) == height);
    let n = data_len_of(width, height);
    if ((len - pos - 8) as u64) < n {
        return Err(DecodeError::Truncated);
    }
    let start = pos + 8;
    let end = start + n as usize;
    let mut data: Vec<u8> = Vec::new();
    let mut i: usize = start;
    while i < end
        invariant
            start <= i <= end,
            end <= src@.len(),
            data@ == src@.subrange(start as int, i as int),
        decreases end - i,
    {
        proof {
            assert(src@.subrange(start as int, i + 1) =~= src@.subrange(start as int, i as int).push(src@[i as int]));
        }
        data.push(src[i]);
        i = i + 1;
    }
    assert(data@ =~= s.subrange(8, 8 + n as int));
    Ok((MonochromeImage { width, height, data }, end))
}

/// The bytes of `x` read back give `x`.
pub proof fn lemma_le32_round_trip(x: u32)
    ensures
        read_le32(le32(x), 0) == x,
{
    assert(x % 256 + 256 * (x / 256 % 256) + 65536 * (x / 65536 % 256) + 16777216 * (x / 16777216 % 256) == x)
        by (bit_vector);
}

/// Decoding the record of a valid image gives that image back, whatever
/// follows the record.
pub proof fn lemma_record_round_trip(img: ImageView, rest: Seq<u8>)
    requires
        img.wf(),
    ensures
        parse_record(record_bytes(img) + rest) == Some((img, (8 + img.data.len()) as nat)),
{
    let s = record_bytes(img) + rest;
    lemma_le32_round_trip(img.width);
    lemma_le32_round_trip(img.height);
    assert(s.subrange(0, 4) =~= le32(img.width));
    assert(s.subrange(4, 8) =~= le32(img.height));
    assert(read_le32(s, 0) == read_le32(le32(img.width), 0));
    assert(read_le32(s, 4) == read_le32(le32(img.height), 0));
    assert(s.subrange(8, 8 + img.data.len() as int) =~= img.data);
}

} // verus!

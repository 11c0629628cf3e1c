use bw_frames::codec::{decode, encode, DecodeError};
use bw_frames::compress::{compress, decompress, Compression};
use bw_frames::container::{
    compress_imgs, decode_frames, decode_stream, decompress_imgs, encode_frames, FrameStream,
};
use bw_frames::convert::{convert, ConvertError};
use bw_frames::image::MonochromeImage;
use bw_frames::scan::{iterate, scan, Direction, ScanToken};
use bw_frames::video::{process_frame, FrameTally};

fn solid(width: u32, height: u32, value: u8) -> Vec<u8> {
    vec![value; (width * height * 3) as usize]
}

fn img(width: u32, height: u32, data: Vec<u8>) -> MonochromeImage {
    MonochromeImage { width, height, data }
}

fn byte(packed: u8, valid_bits: u8) -> ScanToken {
    ScanToken::Byte { packed, valid_bits }
}

#[test]
fn all_white_row_of_eight_is_ff() {
    let i = convert(&solid(8, 1, 255), 8, 1).unwrap();
    assert_eq!(i.data, vec![0xFF]);
    let mut out = Vec::new();
    encode(&i, &mut out);
    assert_eq!(out, vec![8, 0, 0, 0, 1, 0, 0, 0, 0xFF]);
}

#[test]
fn all_black_row_of_eight_is_zero() {
    let i = convert(&solid(8, 1, 0), 8, 1).unwrap();
    assert_eq!(i.data, vec![0x00]);
}

#[test]
fn luma_128_is_black_and_129_is_white() {
    let rgb = vec![128, 128, 128, 129, 129, 129];
    let i = convert(&rgb, 2, 1).unwrap();
    assert_eq!(i.data, vec![0b0100_0000]);
}

#[test]
fn luma_weights_channels() {
    // 0.299 * 255 = 76, 0.587 * 255 = 149, 0.114 * 255 = 29
    let rgb = vec![255, 0, 0, 0, 255, 0, 0, 0, 255, 255, 255, 0];
    let i = convert(&rgb, 4, 1).unwrap();
    assert_eq!(i.data, vec![0b0101_0000]);
}

#[test]
fn wrong_size_buffer_is_refused() {
    let r = convert(&[0u8; 11], 2, 2);
    assert_eq!(r, Err(ConvertError::WrongSize { expected: 12, actual: 11 }));
    let r = convert(&[0u8; 13], 2, 2);
    assert_eq!(r, Err(ConvertError::WrongSize { expected: 13 - 1, actual: 13 }));
}

#[test]
fn size_invariant_with_row_padding() {
    let i = convert(&solid(10, 3, 255), 10, 3).unwrap();
    assert_eq!(i.data.len(), 3 * 2);
    assert!(i.is_valid());
    assert_eq!(i.data, vec![0xFF, 0xC0, 0xFF, 0xC0, 0xFF, 0xC0]);
}

#[test]
fn empty_image_converts_to_no_data() {
    let i = convert(&[], 0, 5).unwrap();
    assert!(i.data.is_empty());
    let i = convert(&[], 7, 0).unwrap();
    assert!(i.data.is_empty());
}

#[test]
fn rows_do_not_share_bytes() {
    // 3x2: top row white, black, white; bottom row black, white, black
    let rgb = vec![255, 255, 255, 0, 0, 0, 255, 255, 255, 0, 0, 0, 255, 255, 255, 0, 0, 0];
    let i = convert(&rgb, 3, 2).unwrap();
    assert_eq!(i.data, vec![0b1010_0000, 0b0100_0000]);
    assert!(i.pixel(0, 0));
    assert!(!i.pixel(0, 1));
    assert!(i.pixel(1, 1));
    assert!(!i.pixel(1, 2));
}

#[test]
fn record_round_trip() {
    let i = img(10, 2, vec![0xAB, 0xC0, 0x12, 0x40]);
    let mut out = vec![7];
    encode(&i, &mut out);
    assert_eq!(out, vec![7, 10, 0, 0, 0, 2, 0, 0, 0, 0xAB, 0xC0, 0x12, 0x40]);
    let (back, next) = decode(&out, 1).unwrap();
    assert_eq!(back, i);
    assert_eq!(next, out.len());
}

#[test]
fn large_dimensions_are_little_endian() {
    let i = img(0x0102_0304, 0, vec![]);
    let mut out = Vec::new();
    encode(&i, &mut out);
    assert_eq!(out, vec![4, 3, 2, 1, 0, 0, 0, 0]);
    assert_eq!(decode(&out, 0).unwrap().0, i);
}

#[test]
fn short_record_is_truncated() {
    let mut out = Vec::new();
    encode(&img(8, 2, vec![1, 2]), &mut out);
    for cut in 0..out.len() {
        assert_eq!(decode(&out[..cut], 0), Err(DecodeError::Truncated));
    }
}

#[test]
fn horizontal_scan_of_two_by_two() {
    let rgb = vec![255, 255, 255, 0, 0, 0, 0, 0, 0, 255, 255, 255];
    let i = convert(&rgb, 2, 2).unwrap();
    assert_eq!(
        iterate(&i, Direction::Horizontal),
        vec![byte(0x80, 2), ScanToken::NewLine, byte(0x40, 2), ScanToken::NewLine]
    );
}

#[test]
fn vertical_scan_of_two_by_two() {
    let rgb = vec![255, 255, 255, 0, 0, 0, 0, 0, 0, 255, 255, 255];
    let i = convert(&rgb, 2, 2).unwrap();
    assert_eq!(
        iterate(&i, Direction::Vertical),
        vec![byte(0x80, 2), ScanToken::NewLine, byte(0x40, 2), ScanToken::NewLine]
    );
}

#[test]
fn scans_differ_on_an_asymmetric_image() {
    // top row white, white; bottom row black, black
    let i = img(2, 2, vec![0xC0, 0x00]);
    assert_eq!(
        iterate(&i, Direction::Horizontal),
        vec![byte(0xC0, 2), ScanToken::NewLine, byte(0x00, 2), ScanToken::NewLine]
    );
    assert_eq!(
        iterate(&i, Direction::Vertical),
        vec![byte(0x80, 2), ScanToken::NewLine, byte(0x80, 2), ScanToken::NewLine]
    );
}

#[test]
fn scan_groups_long_lines() {
    // 10 wide, 1 high: all white
    let i = img(10, 1, vec![0xFF, 0xC0]);
    assert_eq!(
        iterate(&i, Direction::Horizontal),
        vec![byte(0xFF, 8), byte(0xC0, 2), ScanToken::NewLine]
    );
    let column: Vec<ScanToken> = vec![byte(0x80, 1), ScanToken::NewLine];
    let v = iterate(&i, Direction::Vertical);
    assert_eq!(v.len(), 20);
    assert_eq!(v[..2].to_vec(), column);
    // 1 wide, 10 high: alternating white and black
    let i = img(1, 10, vec![0x80, 0, 0x80, 0, 0x80, 0, 0x80, 0, 0x80, 0]);
    assert_eq!(
        iterate(&i, Direction::Vertical),
        vec![byte(0b1010_1010, 8), byte(0b1000_0000, 2), ScanToken::NewLine]
    );
}

#[test]
fn scan_is_lazy_and_ends() {
    let i = img(2, 1, vec![0x40]);
    let mut it = scan(&i, Direction::Horizontal);
    assert_eq!(it.next(), Some(byte(0x40, 2)));
    assert_eq!(it.next(), Some(ScanToken::NewLine));
    assert_eq!(it.next(), None);
    assert_eq!(it.next(), None);
    let empty = img(0, 0, vec![]);
    assert!(iterate(&empty, Direction::Vertical).is_empty());
    let no_width = img(0, 2, vec![]);
    assert_eq!(iterate(&no_width, Direction::Horizontal), vec![ScanToken::NewLine, ScanToken::NewLine]);
}

fn sample() -> Vec<MonochromeImage> {
    vec![
        img(8, 1, vec![0xFF]),
        img(3, 2, vec![0xA0, 0x40]),
        img(0, 0, vec![]),
        img(9, 1, vec![0x12, 0x80]),
    ]
}

#[test]
fn container_round_trip_every_compressor() {
    for method in [Compression::Plain, Compression::Gzip, Compression::Zlib] {
        let packed = compress_imgs(&sample(), method);
        assert_eq!(decompress_imgs(&packed, method), Ok(sample()));
    }
    assert_eq!(decompress_imgs(&compress_imgs(&[], Compression::Zlib), Compression::Zlib), Ok(vec![]));
}

#[test]
fn plain_container_is_the_records() {
    let raw = encode_frames(&sample());
    assert_eq!(compress_imgs(&sample(), Compression::Plain), raw);
    assert_eq!(raw.len(), 9 + 10 + 8 + 10);
    assert_eq!(decode_frames(&raw), Ok(sample()));
}

#[test]
fn compressors_change_the_bytes() {
    let raw = encode_frames(&sample());
    for method in [Compression::Gzip, Compression::Zlib] {
        let packed = compress(method, &raw);
        assert_ne!(packed, raw);
        assert_eq!(decompress(method, &packed).unwrap(), raw);
    }
    let gz = compress(Compression::Gzip, &raw);
    assert_eq!(&gz[..2], &[0x1f, 0x8b]);
}

#[test]
fn damaged_stream_is_io_error() {
    assert_eq!(decompress_imgs(&[1, 2, 3, 4, 5], Compression::Gzip), Err(DecodeError::Io));
    assert_eq!(decompress_imgs(&[1, 2, 3, 4, 5], Compression::Zlib), Err(DecodeError::Io));
    assert!(decode_stream(&[9, 9, 9], Compression::Zlib).is_err());
}

#[test]
fn cut_container_is_truncated() {
    let raw = encode_frames(&sample());
    assert_eq!(decode_frames(&raw[..raw.len() - 1]), Err(DecodeError::Truncated));
    assert_eq!(decode_frames(&raw[..3]), Err(DecodeError::Truncated));
    assert_eq!(decode_frames(&[]), Ok(vec![]));
}

fn collect(mut s: FrameStream) -> Vec<Result<MonochromeImage, DecodeError>> {
    let mut items = Vec::new();
    while let Some(item) = s.next() {
        items.push(item);
    }
    assert!(s.next().is_none());
    items
}

#[test]
fn stream_yields_what_eager_decoding_gives() {
    for method in [Compression::Plain, Compression::Gzip, Compression::Zlib] {
        let packed = compress_imgs(&sample(), method);
        let items = collect(decode_stream(&packed, method).unwrap());
        let collected: Result<Vec<MonochromeImage>, DecodeError> = items.into_iter().collect();
        assert_eq!(collected, decompress_imgs(&packed, method));
    }
}

#[test]
fn stream_yields_images_before_the_error() {
    let raw = encode_frames(&sample());
    let items = collect(FrameStream::from_raw(raw[..raw.len() - 2].to_vec()));
    let s = sample();
    assert_eq!(
        items,
        vec![Ok(s[0].clone()), Ok(s[1].clone()), Ok(s[2].clone()), Err(DecodeError::Truncated)]
    );
    let collected: Result<Vec<MonochromeImage>, DecodeError> = items.into_iter().collect();
    assert_eq!(collected, decode_frames(&raw[..raw.len() - 2]));
}

#[test]
fn frames_of_wrong_size_are_skipped() {
    let mut out = Vec::new();
    let mut tally = FrameTally::new();
    assert!(process_frame(&solid(8, 1, 255), 8, 1, &mut out, &mut tally));
    assert!(!process_frame(&solid(8, 1, 255), 8, 2, &mut out, &mut tally));
    assert!(process_frame(&solid(8, 1, 0), 8, 1, &mut out, &mut tally));
    assert_eq!(tally, FrameTally { processed: 3, skipped: 1 });
    assert_eq!(decode_frames(&out), Ok(vec![img(8, 1, vec![0xFF]), img(8, 1, vec![0x00])]));
}

#[test]
fn nth_picks_an_item_and_passes_on_errors() {
    let packed = compress_imgs(&sample(), Compression::Zlib);
    let mut s = decode_stream(&packed, Compression::Zlib).unwrap();
    assert_eq!(s.nth(1), Some(Ok(sample()[1].clone())));
    assert_eq!(s.nth(0), Some(Ok(sample()[2].clone())));
    assert_eq!(s.nth(5), None);
    let raw = encode_frames(&sample());
    let mut s = FrameStream::from_raw(raw[..raw.len() - 1].to_vec());
    assert_eq!(s.nth(10), Some(Err(DecodeError::Truncated)));
    assert_eq!(s.nth(0), None);
    let mut s = FrameStream::from_raw(raw[..raw.len() - 1].to_vec());
    assert_eq!(s.nth(2), Some(Ok(sample()[2].clone())));
}

#[test]
fn token_pixels_read_the_valid_bits() {
    assert_eq!(byte(0b1010_0000, 3).pixels(), vec![true, false, true]);
    assert_eq!(byte(0xFF, 8).pixels(), vec![true; 8]);
    assert_eq!(byte(0x01, 9).pixels(), vec![false, false, false, false, false, false, false, true]);
    assert!(byte(0xFF, 0).pixels().is_empty());
    assert!(ScanToken::NewLine.pixels().is_empty());
}

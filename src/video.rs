//! What happens to each frame that a video decoder hands over.
use vstd::prelude::*;
use crate::codec::{encode, record_bytes};
use crate::convert::{ConvertError, convert, converted};

verus! {

/// Counts kept while frames are turned into records.
#[derive(Clone, Copy, Debug, PartialEq, Eq, Structural)]
pub struct FrameTally {
    /// Frames received, skipped ones included.
    pub processed: u64,
    /// Frames skipped because their buffer had the wrong size.
    pub skipped: u64,
}

impl FrameTally {
    /// No frame seen yet.
    pub fn new() -> (r: FrameTally)
        ensures
            r == (FrameTally { processed: 0, skipped: 0 }),
    {
        FrameTally { processed: 0, skipped: 0 }
    }
}

/// Takes one decoded frame of `width * height` RGB pixels: converts it and
/// appends its record to `out`, or, where the buffer has the wrong size,
/// skips it. Either way the frame is counted. Returns whether it was kept.
pub fn process_frame(rgb: &[u8], width: u32, height: u32, out: &mut Vec<u8>, tally: &mut FrameTally) -> (kept: bool)
    requires
        old(tally).processed < u64::MAX,
        old(tally).skipped < u64::MAX,
    ensures
        kept == (rgb@.len() == width * height * 3),
        kept ==> final(out)@ == old(out)@ + record_bytes(converted(rgb@, width, height)),
        !kept ==> final(out)@ == old(out)@,
        final(tally).processed == old(tally).processed + 1,
        final(tally).skipped == old(tally).skipped + if kept {
            0int
        } else {
            1int
        },
{
    tally.processed = tally.processed + 1;
    match convert(rgb, width, height) {
        Ok(img) => {
            encode(&img, out);
            true
        },
        Err(ConvertError::WrongSize { .. }) => {
            tally.skipped = tally.skipped + 1;
            false
        },
    }
}

} // verus!

//! Containers of many images: the records one after another, with no count
//! and no separators, the whole optionally compressed. Read either at once
//! (`decompress_imgs`) or one image at a time (`FrameStream`).
use vstd::prelude::*;
use crate::image::{ImageView, MonochromeImage};
use crate::codec::{DecodeError, decode, encode, parse_record, record_bytes, lemma_record_round_trip};
use crate::compress::{Compression, compress, compressed, decompress, decompressed};

verus! {

/// The models of a sequence of images.
pub open spec fn views(imgs: Seq<MonochromeImage>) -> Seq<ImageView> {
    imgs.map_values(|m: MonochromeImage| m@)
}

/// The records of `imgs`, in order, with nothing between them.
pub open spec fn frames_bytes(imgs: Seq<ImageView>) -> Seq<u8>
    decreases imgs.len(),
{
    if imgs.len() == 0 {
        Seq::empty()
    } else {
        frames_bytes(imgs.drop_last()) + record_bytes(imgs.last())
    }
}

/// The images whose records make up `s` from `pos` to its end; `None` where a
/// record there is cut short.
pub open spec fn parse_from(s: Seq<u8>, pos: nat) -> Option<Seq<ImageView>>
    decreases s.len() - pos,
{
    if pos >= s.len() {
        Some(Seq::empty())
    } else {
        match parse_record(s.subrange(pos as int, s.len() as int)) {
            None => None,
            Some((v, n)) => match parse_from(s, pos + n) {
                None => None,
                Some(rest) => Some(seq![v] + rest),
            },
        }
    }
}

/// The items that reading `s` one record at a time from `pos` yields: each
/// image in turn, ending after the last whole record, or with one
/// `Truncated` where a record is cut short.
pub open spec fn stream_items(s: Seq<u8>, pos: nat) -> Seq<Result<ImageView, DecodeError>>
    decreases s.len() - pos,
{
    if pos >= s.len() {
        Seq::empty()
    } else {
        match parse_record(s.subrange(pos as int, s.len() as int)) {
            None => seq![Err(DecodeError::Truncated)],
            Some((v, n)) => seq![Ok(v)] + stream_items(s, pos + n),
        }
    }
}

/// The images of uncompressed container bytes, or `Truncated`.
pub open spec fn decoded_frames(s: Seq<u8>) -> Result<Seq<ImageView>, DecodeError> {
    match parse_from(s, 0) {
        None => Err(DecodeError::Truncated),
        Some(v) => Ok(v),
    }
}

/// The images of a container written with `method`: `Io` where the
/// compressed stream is damaged, `Truncated` where a record is cut short.
pub open spec fn decoded_container(method: Compression, packed: Seq<u8>) -> Result<Seq<ImageView>, DecodeError> {
    match decompressed(method, packed) {
        None => Err(DecodeError::Io),
        Some(raw) => decoded_frames(raw),
    }
}

/// Items collected in order: all the images, or the first error.
pub open spec fn collect_results(items: Seq<Result<ImageView, DecodeError>>) -> Result<Seq<ImageView>, DecodeError>
    decreases items.len(),
{
    if items.len() == 0 {
        Ok(Seq::empty())
    } else {
        match items[0] {
            Err(e) => Err(e),
            Ok(v) => match collect_results(items.drop_first()) {
                Err(e) => Err(e),
                Ok(rest) => Ok(seq![v] + rest),
            },
        }
    }
}

/// The model of a decoded list.
pub open spec fn result_views(r: Result<Vec<MonochromeImage>, DecodeError>) -> Result<Seq<ImageView>, DecodeError> {
    match r {
        Ok(v) => Ok(views(v@)),
        Err(e) => Err(e),
    }
}

/// The model of one item of a stream.
pub open spec fn item_view(item: Result<MonochromeImage, DecodeError>) -> Result<ImageView, DecodeError> {
    match item {
        Ok(img) => Ok(img@),
        Err(e) => Err(e),
    }
}

/// What asking a stream with items `rem` for item `n` gives: the first error
/// among items `0..=n`, else item `n`, else `None` where the stream ends first.
pub open spec fn nth_item(rem: Seq<Result<ImageView, DecodeError>>, n: nat) -> Option<Result<ImageView, DecodeError>>
    decreases rem.len(),
{
    if rem.len() == 0 {
        None
    } else if rem[0] is Err || n == 0 {
        Some(rem[0])
    } else {
        nth_item(rem.drop_first(), (n - 1) as nat)
    }
}

/// How many items asking for item `n` takes from a stream with items `rem`.
pub open spec fn nth_taken(rem: Seq<Result<ImageView, DecodeError>>, n: nat) -> nat
    decreases rem.len(),
{
    if rem.len() == 0 {
        0
    } else if rem[0] is Err || n == 0 {
        1
    } else {
        1 + nth_taken(rem.drop_first(), (n - 1) as nat)
    }
}

/// `a` put before the images of `o`, if there are any.
pub open spec fn prepend(a: Seq<ImageView>, o: Option<Seq<ImageView>>) -> Option<Seq<ImageView>> {
    match o {
        None => None,
        Some(r) => Some(a + r),
    }
}

/// The records of `imgs`, in order.
pub fn encode_frames(imgs: &[MonochromeImage]) -> (r: Vec<u8>)
    ensures
        r@ == frames_bytes(views(imgs@)),
{
    let mut out: Vec<u8> = Vec::new();
    let mut i: usize = 0;
    while i < imgs.len()
        invariant
            i <= imgs@.len(),
            out@ == frames_bytes(views(imgs@).take(i as int)),
        decreases imgs@.len() - i,
    {
        proof {
            let t = views(imgs@).take(i + 1);
            assert(t.drop_last() =~= views(imgs@).take(i as int));
            assert(t.last() == imgs@[i as int]@);
        }
        encode(&imgs[i], &mut out);
        i = i + 1;
    }
    assert(views(imgs@).take(i as int) =~= views(imgs@));
    out
}

/// Writes `imgs` as a container compressed with `method`. Where the images
/// are valid, reading the container back with the same method gives the same
/// images in the same order.
pub fn compress_imgs(imgs: &[MonochromeImage], method: Compression) -> (r: Vec<u8>)
    ensures
        r@ == compressed(method, frames_bytes(views(imgs@))),
        (forall|i: int| 0 <= i < imgs@.len() ==> #[trigger] imgs@[i]@.wf()) ==> decoded_container(method, r@)
            == Ok::<Seq<ImageView>, DecodeError>(views(imgs@)),
{
    let raw = encode_frames(imgs);
    proof {
        if forall|i: int| 0 <= i < imgs@.len() ==> #[trigger] imgs@[i]@.wf() {
            let vs = views(imgs@);
            assert forall|i: int| 0 <= i < vs.len() implies #[trigger] vs[i].wf() by {
                assert(vs[i] == imgs@[i]@);
            }
            lemma_container_round_trip(vs);
        }
    }
    compress(method, raw.as_slice())
}

/// All the images of uncompressed container bytes, in order; `Truncated`,
/// and no image, where a record is cut short.
pub fn decode_frames(src: &[u8]) -> (r: Result<Vec<MonochromeImage>, DecodeError>)
    ensures
        result_views(r) == decoded_frames(src@),
{
    let mut out: Vec<MonochromeImage> = Vec::new();
    let mut pos: usize = 0;
    assert(views(out@) + parse_from(src@, 0)->Some_0 =~= parse_from(src@, 0)->Some_0);
    while pos < src.len()
        invariant
            pos <= src@.len(),
            parse_from(src@, 0) == prepend(views(out@), parse_from(src@, pos as nat)),
        decreases src@.len() - pos,
    {
        match decode(src, pos) {
            Err(e) => {
                return Err(e);
            },
            Ok((img, next)) => {
                proof {
                    let v = img@;
                    let a = views(out@);
                    assert(views(out@.push(img)) =~= a + seq![v]);
                    match parse_from(src@, next as nat) {
                        None => {},
                        Some(rest) => {
                            assert(a + (seq![v] + rest) =~= (a + seq![v]) + rest);
                        },
                    }
                }
                out.push(img);
                pos = next;
            },
        }
    }
    assert(views(out@) + Seq::<ImageView>::empty() =~= views(out@));
    Ok(out)
}

/// All the images of a container written with `method`, in order. `Io` where
/// the compressed stream is damaged, `Truncated` where a record is cut short;
/// no image in either case.
pub fn decompress_imgs(packed: &[u8], method: Compression) -> (r: Result<Vec<MonochromeImage>, DecodeError>)
    ensures
        result_views(r) == decoded_container(method, packed@),
{
    match decompress(method, packed) {
        None => Err(DecodeError::Io),
        Some(raw) => decode_frames(raw.as_slice()),
    }
}

/// Reads the images of a container one at a time, holding one decoded image
/// at a time. It ends after the last whole record, or after one
/// `Truncated` where a record is cut short.
pub struct FrameStream {
    bytes: Vec<u8>,
    pos: usize,
    done: bool,
}

impl FrameStream {
    /// The stream's position lies within its bytes.
    pub closed spec fn wf(&self) -> bool {
        self.pos <= self.bytes@.len()
    }

    /// What the stream has still to yield.
    pub closed spec fn remaining(&self) -> Seq<Result<ImageView, DecodeError>> {
        if self.done {
            Seq::empty()
        } else {
            stream_items(self.bytes@, self.pos as nat)
        }
    }

    /// A stream over uncompressed container bytes.
    pub fn from_raw(raw: Vec<u8>) -> (r: FrameStream)
        ensures
            r.wf(),
            r.remaining() == stream_items(raw@, 0),
    {
        FrameStream { bytes: raw, pos: 0, done: false }
    }

    /// The next image, the error that ends the stream, or `None` once it has
    /// ended.
    pub fn next(&mut self) -> (r: Option<Result<MonochromeImage, DecodeError>>)
        requires
            old(self).wf(),
        ensures
            final(self).wf(),
            old(self).remaining().len() == 0 ==> r is None && final(self).remaining().len() == 0,
            old(self).remaining().len() > 0 ==> (r is Some && item_view(r->Some_0) == old(self).remaining()[0]),
            old(self).remaining().len() > 0 ==> final(self).remaining() == old(self).remaining().drop_first(),
    {
        if self.done || self.pos >= self.bytes.len() {
            self.done = true;
            return None;
        }
        match decode(self.bytes.as_slice(), self.pos) {
            Err(e) => {
                self.done = true;
                Some(Err(e))
            },
            Ok((img, next)) => {
                proof {
                    let s = old(self).remaining();
                    assert(s.drop_first() =~= stream_items(self.bytes@, next as nat));
                }
                self.pos = next;
                Some(Ok(img))
            },
        }
    }
}

impl FrameStream {
    /// Item `n` (counting from the next one), passing on an error met before
    /// it; `None` where the stream ends first. The items up to it are used up.
    pub fn nth(&mut self, n: usize) -> (r: Option<Result<MonochromeImage, DecodeError>>)
        requires
            old(self).wf(),
        ensures
            final(self).wf(),
            match r {
                None => nth_item(old(self).remaining(), n as nat) is None,
                Some(item) => nth_item(old(self).remaining(), n as nat) == Some(item_view(item)),
            },
            final(self).remaining() == old(self).remaining().skip(nth_taken(old(self).remaining(), n as nat) as int),
    {
        let ghost start = self.remaining();
        let mut i: usize = 0;
        assert(start.skip(0) =~= start);
        loop
            invariant
                self.wf(),
                i <= n,
                start == old(self).remaining(),
                self.remaining() == start.skip(i as int),
                i <= start.len(),
                nth_item(start, n as nat) == nth_item(self.remaining(), (n - i) as nat),
                nth_taken(start, n as nat) == i + nth_taken(self.remaining(), (n - i) as nat),
            decreases n - i,
        {
            let ghost before = self.remaining();
            let item = self.next();
            match item {
                None => {
                    return None;
                },
                Some(Err(e)) => {
                    proof {
                        assert(self.remaining() =~= start.skip(i + 1));
                    }
                    return Some(Err(e));
                },
                Some(Ok(img)) => {
                    proof {
                        assert(self.remaining() =~= start.skip(i + 1));
                    }
                    if i == n {
                        return Some(Ok(img));
                    }
                    i = i + 1;
                },
            }
        }
    }
}

/// A stream over the images of a container written with `method`; `Io` where
/// the compressed stream is damaged.
pub fn decode_stream(packed: &[u8], method: Compression) -> (r: Result<FrameStream, DecodeError>)
    ensures
        match decompressed(method, packed@) {
            None => r == Err::<FrameStream, DecodeError>(DecodeError::Io),
            Some(raw) => r matches Ok(s) && s.wf() && s.remaining() == stream_items(raw, 0),
        },
{
    match decompress(method, packed) {
        None => Err(DecodeError::Io),
        Some(raw) => Ok(FrameStream::from_raw(raw)),
    }
}

/// The records of a non-empty list are the first image's record, then the
/// records of the rest.
pub proof fn lemma_frames_bytes_first(imgs: Seq<ImageView>)
    requires
        imgs.len() > 0,
    ensures
        frames_bytes(imgs) == record_bytes(imgs[0]) + frames_bytes(imgs.drop_first()),
    decreases imgs.len(),
{
    if imgs.len() == 1 {
        assert(imgs.drop_last() =~= Seq::<ImageView>::empty());
        assert(imgs.drop_first() =~= Seq::<ImageView>::empty());
        assert(frames_bytes(imgs) =~= record_bytes(imgs[0]) + frames_bytes(imgs.drop_first()));
    } else {
        let init = imgs.drop_last();
        lemma_frames_bytes_first(init);
        assert(init.drop_first() =~= imgs.drop_first().drop_last());
        assert(init[0] == imgs[0]);
        assert(imgs.drop_first().last() == imgs.last());
        assert(frames_bytes(imgs) =~= record_bytes(imgs[0]) + frames_bytes(imgs.drop_first()));
    }
}

/// The first record of the bytes from `pos` on reads back as the first image,
/// and the records of the rest follow it.
proof fn lemma_first_record(s: Seq<u8>, pos: nat, imgs: Seq<ImageView>)
    requires
        pos <= s.len(),
        s.subrange(pos as int, s.len() as int) == frames_bytes(imgs),
        imgs.len() > 0,
        imgs[0].wf(),
    ensures
        pos + 8 + imgs[0].data.len() <= s.len(),
        parse_record(s.subrange(pos as int, s.len() as int)) == Some((imgs[0], (8 + imgs[0].data.len()) as nat)),
        s.subrange((pos + 8 + imgs[0].data.len()) as int, s.len() as int) == frames_bytes(imgs.drop_first()),
{
    let rest = imgs.drop_first();
    let first = imgs[0];
    let head = record_bytes(first);
    let tail = frames_bytes(rest);
    lemma_frames_bytes_first(imgs);
    assert(s.subrange(pos as int, s.len() as int) == head + tail);
    assert(head.len() == 8 + first.data.len());
    lemma_record_round_trip(first, tail);
    lemma_skip_prefix(s, pos as int, head, tail);
}

/// Where `s` from `pos` on is `a` then `b`, `s` from `pos + a.len()` on is `b`.
proof fn lemma_skip_prefix(s: Seq<u8>, pos: int, a: Seq<u8>, b: Seq<u8>)
    requires
        0 <= pos <= s.len(),
        s.subrange(pos, s.len() as int) == a + b,
    ensures
        pos + a.len() <= s.len(),
        s.subrange(pos + a.len(), s.len() as int) == b,
{
    let sub = s.subrange(pos, s.len() as int);
    assert(s.subrange(pos + a.len(), s.len() as int) =~= sub.subrange(a.len() as int, sub.len() as int));
    assert(sub.subrange(a.len() as int, sub.len() as int) =~= b);
}

/// Where the bytes from `pos` on are the records of valid images, reading
/// them gives those images.
proof fn lemma_parse_frames(s: Seq<u8>, pos: nat, imgs: Seq<ImageView>)
    requires
        pos <= s.len(),
        s.subrange(pos as int, s.len() as int) == frames_bytes(imgs),
        forall|i: int| 0 <= i < imgs.len() ==> #[trigger] imgs[i].wf(),
    ensures
        parse_from(s, pos) == Some(imgs),
    decreases imgs.len(),
{
    if imgs.len() == 0 {
        assert(s.subrange(pos as int, s.len() as int).len() == 0);
        assert(imgs =~= Seq::<ImageView>::empty());
    } else {
        let rest = imgs.drop_first();
        assert(imgs[0].wf());
        lemma_first_record(s, pos, imgs);
        let n = (8 + imgs[0].data.len()) as nat;
        assert forall|i: int| 0 <= i < rest.len() implies #[trigger] rest[i].wf() by {
            assert(rest[i] == imgs[i + 1]);
        }
        lemma_parse_frames(s, pos + n, rest);
        assert(seq![imgs[0]] + rest =~= imgs);
    }
}

/// Round trip of a container: reading back the records of a list of valid
/// images gives the same images, in the same order; so does reading back an
/// uncompressed container written from them.
pub proof fn lemma_container_round_trip(imgs: Seq<ImageView>)
    requires
        forall|i: int| 0 <= i < imgs.len() ==> #[trigger] imgs[i].wf(),
    ensures
        decoded_frames(frames_bytes(imgs)) == Ok::<Seq<ImageView>, DecodeError>(imgs),
        decoded_container(Compression::Plain, compressed(Compression::Plain, frames_bytes(imgs)))
            == Ok::<Seq<ImageView>, DecodeError>(imgs),
{
    let s = frames_bytes(imgs);
    assert(s.subrange(0, s.len() as int) =~= s);
    lemma_parse_frames(s, 0, imgs);
}

/// From any position, collecting what the stream yields gives what reading
/// all at once gives.
proof fn lemma_stream_matches_eager_from(s: Seq<u8>, pos: nat)
    ensures
        collect_results(stream_items(s, pos)) == match parse_from(s, pos) {
            None => Err::<Seq<ImageView>, DecodeError>(DecodeError::Truncated),
            Some(v) => Ok(v),
        },
    decreases s.len() - pos,
{
    if pos < s.len() {
        match parse_record(s.subrange(pos as int, s.len() as int)) {
            None => {
                let items = stream_items(s, pos);
                assert(items.drop_first() =~= Seq::<Result<ImageView, DecodeError>>::empty());
            },
            Some((v, n)) => {
                lemma_stream_matches_eager_from(s, pos + n);
                let items = stream_items(s, pos);
                assert(items.drop_first() =~= stream_items(s, pos + n));
            },
        }
    }
}

/// Reading a container one image at a time and collecting the items gives
/// exactly what reading it all at once gives: the same images in the same
/// order, or the same error.
pub proof fn lemma_stream_matches_eager(s: Seq<u8>)
    ensures
        collect_results(stream_items(s, 0)) == decoded_frames(s),
{
    lemma_stream_matches_eager_from(s, 0);
}

/// The same holds of a container written with any compressor: where its
/// stream is damaged both fail with `Io`, and otherwise collecting the
/// stream over what it holds gives what reading it all at once gives.
pub proof fn lemma_stream_matches_eager_container(method: Compression, packed: Seq<u8>)
    ensures
        match decompressed(method, packed) {
            None => decoded_container(method, packed) == Err::<Seq<ImageView>, DecodeError>(DecodeError::Io),
            Some(raw) => collect_results(stream_items(raw, 0)) == decoded_container(method, packed),
        },
{
    if let Some(raw) = decompressed(method, packed) {
        lemma_stream_matches_eager(raw);
    }
}

/// From any position whose records all read back, asking the stream for item
/// `n` gives image `n` of the list, or `None` past its end.
proof fn lemma_nth_matches_eager_from(s: Seq<u8>, pos: nat, n: nat)
    requires
        parse_from(s, pos) is Some,
    ensures
        nth_item(stream_items(s, pos), n) == if n < parse_from(s, pos)->Some_0.len() {
            Some(Ok::<ImageView, DecodeError>(parse_from(s, pos)->Some_0[n as int]))
        } else {
            None
        },
    decreases s.len() - pos,
{
    if pos < s.len() {
        if let Some((v, k)) = parse_record(s.subrange(pos as int, s.len() as int)) {
            let items = stream_items(s, pos);
            assert(items.drop_first() =~= stream_items(s, pos + k));
            if n > 0 {
                lemma_nth_matches_eager_from(s, pos + k, (n - 1) as nat);
            }
        }
    }
}

/// Picking item `n` from the stream agrees with indexing the list that
/// reading all at once gives: image `n` where there is one, `None` past the
/// end; and where reading all at once fails, the stream has an error too.
pub proof fn lemma_nth_matches_eager(s: Seq<u8>, n: nat)
    ensures
        match decoded_frames(s) {
            Ok(v) => nth_item(stream_items(s, 0), n) == if n < v.len() {
                Some(Ok::<ImageView, DecodeError>(v[n as int]))
            } else {
                None
            },
            Err(e) => exists|i: int| 0 <= i < stream_items(s, 0).len()
                && #[trigger] stream_items(s, 0)[i] == Err::<ImageView, DecodeError>(e),
        },
{
    if parse_from(s, 0) is Some {
        lemma_nth_matches_eager_from(s, 0, n);
    } else {
        lemma_stream_matches_eager(s);
        lemma_error_in_items(stream_items(s, 0));
    }
}

/// Where collecting items fails, the error is one of the items.
proof fn lemma_error_in_items(items: Seq<Result<ImageView, DecodeError>>)
    ensures
        collect_results(items) matches Err(e) ==> exists|i: int| 0 <= i < items.len()
            && #[trigger] items[i] == Err::<ImageView, DecodeError>(e),
    decreases items.len(),
{
    if items.len() > 0 {
        if items[0] is Ok {
            lemma_error_in_items(items.drop_first());
            if let Err(e) = collect_results(items) {
                let i = choose|i: int| 0 <= i < items.drop_first().len()
                    && #[trigger] items.drop_first()[i] == Err::<ImageView, DecodeError>(e);
                assert(items[i + 1] == Err::<ImageView, DecodeError>(e));
            }
        }
    }
}

} // verus!

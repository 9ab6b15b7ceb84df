//! MP4 "faststart": the app's `app://` protocol serves no range requests, so a
//! video plays only when its `moov` box comes before its `mdat` box. This module
//! reads the top-level boxes, tells whether a file is already laid out that way,
//! and otherwise moves `moov` in front of `mdat` without touching any sample
//! data, correcting the chunk offsets (`stco`/`co64`) inside `moov` by the
//! distance that `mdat` moved.
//!
//! A box is a 4-byte big-endian size, a 4-byte type and its payload; size 1 means
//! a 64-bit size follows the type, size 0 means the box runs to the end.
use vstd::prelude::*;
use vstd::slice::slice_to_vec;

verus! {

/// Box type `moov` (the four type bytes read big-endian).
pub const MOOV: u32 = 0x6d6f6f76;
/// Box type `mdat`.
pub const MDAT: u32 = 0x6d646174;
/// Box type `stco` (32-bit chunk offsets).
pub const STCO: u32 = 0x7374636f;
/// Box type `co64` (64-bit chunk offsets).
pub const CO64: u32 = 0x636f3634;
/// Box type `trak`.
pub const TRAK: u32 = 0x7472616b;
/// Box type `mdia`.
pub const MDIA: u32 = 0x6d646961;
/// Box type `minf`.
pub const MINF: u32 = 0x6d696e66;
/// Box type `stbl`.
pub const STBL: u32 = 0x7374626c;
/// Box type `edts`.
pub const EDTS: u32 = 0x65647473;
/// Box type `udta`.
pub const UDTA: u32 = 0x75647461;
/// Box type `dinf`.
pub const DINF: u32 = 0x64696e66;

/// A top-level box: its type, where it starts and its whole size, header included.
#[derive(Clone, Copy, Debug, PartialEq, Eq)]
pub struct Mp4Box {
    /// The four type bytes read big-endian.
    pub kind: u32,
    /// Offset of the box's first byte in the file.
    pub offset: usize,
    /// Size of the box including its header.
    pub size: u64,
}

/// The mathematical model of a box.
pub struct BoxView {
    pub kind: int,
    pub offset: int,
    pub size: int,
}

impl View for Mp4Box {
    type V = BoxView;

    open spec fn view(&self) -> BoxView {
        BoxView { kind: self.kind as int, offset: self.offset as int, size: self.size as int }
    }
}

/// What makes a file or a box unusable.
#[derive(Clone, Copy, Debug, PartialEq, Eq)]
pub enum Mp4Error {
    /// Fewer than 8 bytes remain for a top-level box header.
    TruncatedHeader { offset: usize },
    /// A top-level box announces a 64-bit size that the file does not hold.
    TruncatedLargeSize { offset: usize },
    /// A top-level box is smaller than its own header.
    SizeTooSmall { kind: u32, size: u64, header: u64 },
    /// A top-level box runs past the end of the file.
    BoxOutOfBounds { kind: u32, offset: usize, size: u64, len: usize },
    /// The file has no `moov` box.
    MissingMoov,
    /// The file has no `mdat` box.
    MissingMdat,
    /// A box inside `moov` announces a 64-bit size that is not there.
    NestedLargeSizeTruncated { offset: usize },
    /// A box inside `moov` is smaller than its header or runs past its parent.
    NestedBadSize { kind: u32, offset: usize },
    /// An `stco`/`co64` box is shorter than its fixed fields.
    ChunkTableTooShort { len: usize },
    /// The entry count of an `stco`/`co64` box overflows the address space.
    ChunkCountInvalid,
    /// An `stco`/`co64` box holds fewer entries than it announces.
    ChunkEntriesOutOfBounds { count: usize, need: usize, len: usize },
    /// A chunk offset plus the shift overflows a signed 64-bit integer.
    ChunkOffsetOverflow { value: u64, delta: i64 },
    /// A 64-bit chunk offset would become negative.
    ChunkOffsetNegative { value: u64, delta: i64 },
    /// A 32-bit chunk offset would leave the range of `u32`.
    ChunkOffsetOutOfRange { value: u64, delta: i64 },
}

// ---------------------------------------------------------------------------
// Byte-level model
// ---------------------------------------------------------------------------

/// The 32-bit big-endian number at `p`.
pub open spec fn be32(d: Seq<u8>, p: int) -> int {
    d[p] * 16777216 + d[p + 1] * 65536 + d[p + 2] * 256 + d[p + 3]
}

/// The 64-bit big-endian number at `p`.
pub open spec fn be64(d: Seq<u8>, p: int) -> int {
    be32(d, p) * 4294967296 + be32(d, p + 4)
}

/// Header length and total size of the box that starts at `pos`.
pub open spec fn box_header(d: Seq<u8>, pos: int) -> (int, int) {
    let s32 = be32(d, pos);
    if s32 == 1 {
        (16, be64(d, pos + 8))
    } else if s32 == 0 {
        (8, d.len() - pos)
    } else {
        (8, s32)
    }
}

/// The bytes of a box.
pub open spec fn box_bytes(d: Seq<u8>, b: BoxView) -> Seq<u8> {
    d.subrange(b.offset, b.offset + b.size)
}

/// The boxes from `pos` to the end of the file, one after the other.
pub open spec fn parse_boxes_from(d: Seq<u8>, pos: int) -> Result<Seq<BoxView>, Mp4Error>
    decreases d.len() - pos,
{
    if pos < 0 || pos >= d.len() {
        Ok(Seq::empty())
    } else if pos + 8 > d.len() {
        Err(Mp4Error::TruncatedHeader { offset: pos as usize })
    } else if be32(d, pos) == 1 && pos + 16 > d.len() {
        Err(Mp4Error::TruncatedLargeSize { offset: pos as usize })
    } else {
        let (h, size) = box_header(d, pos);
        if size < h {
            Err(
                Mp4Error::SizeTooSmall {
                    kind: be32(d, pos + 4) as u32,
                    size: size as u64,
                    header: h as u64,
                },
            )
        } else if pos + size > d.len() {
            Err(
                Mp4Error::BoxOutOfBounds {
                    kind: be32(d, pos + 4) as u32,
                    offset: pos as usize,
                    size: size as u64,
                    len: d.len() as usize,
                },
            )
        } else {
            match parse_boxes_from(d, pos + size) {
                Err(e) => Err(e),
                Ok(rest) => Ok(
                    seq![BoxView { kind: be32(d, pos + 4), offset: pos, size: size }] + rest,
                ),
            }
        }
    }
}

/// The top-level boxes of a file.
pub open spec fn parse_boxes(d: Seq<u8>) -> Result<Seq<BoxView>, Mp4Error> {
    parse_boxes_from(d, 0)
}

/// The first box of the given type.
pub open spec fn first_of(bs: Seq<BoxView>, kind: int) -> Option<int>
    decreases bs.len(),
{
    if bs.len() == 0 {
        None
    } else if bs[0].kind == kind {
        Some(0)
    } else {
        match first_of(bs.drop_first(), kind) {
            Some(i) => Some(i + 1),
            None => None,
        }
    }
}

/// Whether `moov` comes before `mdat`; an error when the file does not parse or
/// lacks one of them.
pub open spec fn moov_before_mdat_spec(d: Seq<u8>) -> Result<bool, Mp4Error> {
    match parse_boxes(d) {
        Err(e) => Err(e),
        Ok(bs) => match first_of(bs, MOOV as int) {
            None => Err(Mp4Error::MissingMoov),
            Some(mi) => match first_of(bs, MDAT as int) {
                None => Err(Mp4Error::MissingMdat),
                Some(di) => Ok(bs[mi].offset < bs[di].offset),
            },
        },
    }
}

/// Box `i + 1` starts where box `i` ends.
pub open spec fn adjacent(bs: Seq<BoxView>, i: int) -> bool {
    bs[i + 1].offset == bs[i].offset + bs[i].size
}

/// The boxes lie one after the other from `pos` to the end of `d`.
pub open spec fn tiles(d: Seq<u8>, pos: int, bs: Seq<BoxView>) -> bool {
    &&& bs.len() == 0 ==> pos == d.len()
    &&& bs.len() > 0 ==> bs[0].offset == pos && bs.last().offset + bs.last().size == d.len()
    &&& forall|i: int| 0 <= i < bs.len() - 1 ==> #[trigger] adjacent(bs, i)
    &&& forall|i: int|
        0 <= i < bs.len() ==> {
            &&& #[trigger] bs[i].size >= 8
            &&& bs[i].offset >= 0
            &&& bs[i].kind == be32(d, bs[i].offset + 4)
            &&& bs[i].size == box_header(d, bs[i].offset).1
            &&& bs[i].size >= box_header(d, bs[i].offset).0
        }
}

// ---------------------------------------------------------------------------
// Lemmas on the box list
// ---------------------------------------------------------------------------

/// Parsed boxes tile the file.
pub proof fn lemma_parse_tiles(d: Seq<u8>, pos: int)
    requires
        0 <= pos <= d.len(),
        parse_boxes_from(d, pos) is Ok,
    ensures
        tiles(d, pos, parse_boxes_from(d, pos)->Ok_0),
    decreases d.len() - pos,
{
    if pos < d.len() {
        let (h, size) = box_header(d, pos);
        lemma_parse_tiles(d, pos + size);
        let rest = parse_boxes_from(d, pos + size)->Ok_0;
        let bs = parse_boxes_from(d, pos)->Ok_0;
        assert(bs == seq![BoxView { kind: be32(d, pos + 4), offset: pos, size: size }] + rest);
        assert forall|i: int| 0 <= i < bs.len() - 1 implies #[trigger] adjacent(bs, i) by {
            if i > 0 {
                let k = i - 1;
                assert(bs[i] == rest[k]);
                assert(bs[i + 1] == rest[k + 1]);
                assert(adjacent(rest, k));
            } else {
                assert(bs[1] == rest[0]);
            }
        }
        assert forall|i: int| 0 <= i < bs.len() implies {
            &&& #[trigger] bs[i].size >= 8
            &&& bs[i].offset >= 0
            &&& bs[i].kind == be32(d, bs[i].offset + 4)
            &&& bs[i].size == box_header(d, bs[i].offset).1
            &&& bs[i].size >= box_header(d, bs[i].offset).0
        } by {
            if i > 0 {
                assert(bs[i] == rest[i - 1]);
            }
        }
        if rest.len() > 0 {
            assert(bs.last() == rest.last());
        }
    }
}

/// In tiled boxes every box ends at or before any later one starts.
pub proof fn lemma_tiles_ordered(d: Seq<u8>, pos: int, bs: Seq<BoxView>, i: int, j: int)
    requires
        tiles(d, pos, bs),
        0 <= i < j < bs.len(),
    ensures
        bs[i].offset + bs[i].size <= bs[j].offset,
    decreases j - i,
{
    if j > i + 1 {
        lemma_tiles_ordered(d, pos, bs, i, j - 1);
        let k = j - 1;
        assert(bs[k].size >= 8);
        assert(adjacent(bs, k));
    } else {
        assert(adjacent(bs, i));
    }
}

/// Boxes that tile a file of `len` bytes end within it.
pub proof fn lemma_tiles_within(d: Seq<u8>, pos: int, bs: Seq<BoxView>, i: int)
    requires
        tiles(d, pos, bs),
        0 <= i < bs.len(),
    ensures
        pos <= bs[i].offset,
        bs[i].offset + bs[i].size <= d.len(),
{
    if i + 1 < bs.len() {
        lemma_tiles_ordered(d, pos, bs, i, bs.len() - 1);
    }
    if i > 0 {
        lemma_tiles_ordered(d, pos, bs, 0, i);
    }
}

/// What `first_of` returns.
pub proof fn lemma_first_of(bs: Seq<BoxView>, kind: int)
    ensures
        match first_of(bs, kind) {
            Some(i) => 0 <= i < bs.len() && bs[i].kind == kind && forall|j: int|
                0 <= j < i ==> #[trigger] bs[j].kind != kind,
            None => forall|j: int| 0 <= j < bs.len() ==> #[trigger] bs[j].kind != kind,
        },
    decreases bs.len(),
{
    if bs.len() > 0 && bs[0].kind != kind {
        lemma_first_of(bs.drop_first(), kind);
        assert forall|j: int| 1 <= j < bs.len() implies #[trigger] bs[j].kind
            == bs.drop_first()[j - 1].kind by {}
    }
}

// ---------------------------------------------------------------------------
// Reading
// ---------------------------------------------------------------------------

/// The 32-bit big-endian number at `p` (`u32::from_be_bytes`).
pub fn read_be32(d: &[u8], p: usize) -> (r: u32)
    requires
        p + 4 <= d@.len(),
    ensures
        r == be32(d@, p as int),
{
    let n = d.len();
    (d[p] as u32) * 16777216 + (d[p + 1] as u32) * 65536 + (d[p + 2] as u32) * 256 + (d[p
        + 3] as u32)
}

/// The 64-bit big-endian number at `p` (`u64::from_be_bytes`).
pub fn read_be64(d: &[u8], p: usize) -> (r: u64)
    requires
        p + 8 <= d@.len(),
    ensures
        r == be64(d@, p as int),
{
    let n = d.len();
    (read_be32(d, p) as u64) * 4294967296 + (read_be32(d, p + 4) as u64)
}

/// The top-level boxes of an MP4 file, in order.
pub fn parse_top_boxes(data: &[u8]) -> (r: Result<Vec<Mp4Box>, Mp4Error>)
    ensures
        match r {
            Ok(v) => parse_boxes(data@) == Ok::<Seq<BoxView>, Mp4Error>(v@.map_values(|b: Mp4Box| b@)),
            Err(e) => parse_boxes(data@) == Err::<Seq<BoxView>, Mp4Error>(e),
        },
{
    let len = data.len();
    let mut out: Vec<Mp4Box> = Vec::new();
    let mut pos: usize = 0;
    while pos < len
        invariant
            len == data@.len(),
            pos <= len,
            parse_boxes(data@) == match parse_boxes_from(data@, pos as int) {
                Ok(rest) => Ok(out@.map_values(|b: Mp4Box| b@) + rest),
                Err(e) => Err::<Seq<BoxView>, Mp4Error>(e),
            },
        decreases len - pos,
    {
        if len - pos < 8 {
            return Err(Mp4Error::TruncatedHeader { offset: pos });
        }
        let size32 = read_be32(data, pos);
        let kind = read_be32(data, pos + 4);
        let (header, size): (u64, u64) = if size32 == 1 {
            if len - pos < 16 {
                return Err(Mp4Error::TruncatedLargeSize { offset: pos });
            }
            (16, read_be64(data, pos + 8))
        } else if size32 == 0 {
            (8, (len - pos) as u64)
        } else {
            (8, size32 as u64)
        };
        if size < header {
            return Err(Mp4Error::SizeTooSmall { kind, size, header });
        }
        if size > (len - pos) as u64 {
            return Err(Mp4Error::BoxOutOfBounds { kind, offset: pos, size, len });
        }
        let b = Mp4Box { kind, offset: pos, size };
        let ghost old_out = out@;
        out.push(b);
        proof {
            let old_map = old_out.map_values(|b: Mp4Box| b@);
            assert(out@.map_values(|b: Mp4Box| b@) =~= old_map + seq![b@]);
            assert(box_header(data@, pos as int) == (header as int, size as int));
            let nxt = parse_boxes_from(data@, pos + size);
            assert(parse_boxes_from(data@, pos as int) == match nxt {
                Err(e) => Err(e),
                Ok(rest) => Ok(seq![b@] + rest),
            });
            if let Ok(rest) = nxt {
                assert(old_map + (seq![b@] + rest) =~= (old_map + seq![b@]) + rest);
            }
        }
        pos = pos + size as usize;
    }
    proof {
        assert(out@.map_values(|b: Mp4Box| b@) + Seq::<BoxView>::empty() =~= out@.map_values(
            |b: Mp4Box| b@,
        ));
    }
    Ok(out)
}

/// Index of the first box of the given type.
pub fn find_kind(boxes: &Vec<Mp4Box>, kind: u32) -> (r: Option<usize>)
    ensures
        match r {
            Some(i) => first_of(boxes@.map_values(|b: Mp4Box| b@), kind as int) == Some(i as int),
            None => first_of(boxes@.map_values(|b: Mp4Box| b@), kind as int) is None,
        },
{
    let ghost bs = boxes@.map_values(|b: Mp4Box| b@);
    proof {
        lemma_first_of(bs, kind as int);
    }
    let mut i: usize = 0;
    while i < boxes.len()
        invariant
            i <= boxes@.len(),
            bs == boxes@.map_values(|b: Mp4Box| b@),
            forall|j: int| 0 <= j < i ==> #[trigger] bs[j].kind != kind,
            match first_of(bs, kind as int) {
                Some(k) => 0 <= k < bs.len() && bs[k].kind == kind && forall|j: int|
                    0 <= j < k ==> #[trigger] bs[j].kind != kind,
                None => forall|j: int| 0 <= j < bs.len() ==> #[trigger] bs[j].kind != kind,
            },
        decreases boxes@.len() - i,
    {
        if boxes[i].kind == kind {
            assert(bs[i as int].kind == kind);
            return Some(i);
        }
        assert(bs[i as int].kind != kind);
        i = i + 1;
    }
    None
}

/// Whether `moov` comes before `mdat` (the file is already "faststart"). An error
/// when the top-level boxes do not parse or one of the two is missing.
pub fn mp4_moov_before_mdat(data: &[u8]) -> (r: Result<bool, Mp4Error>)
    ensures
        r == moov_before_mdat_spec(data@),
{
    let boxes = parse_top_boxes(data)?;
    let mi = match find_kind(&boxes, MOOV) {
        Some(i) => i,
        None => {
            return Err(Mp4Error::MissingMoov);
        },
    };
    let di = match find_kind(&boxes, MDAT) {
        Some(i) => i,
        None => {
            return Err(Mp4Error::MissingMdat);
        },
    };
    proof {
        lemma_first_of(boxes@.map_values(|b: Mp4Box| b@), MOOV as int);
        lemma_first_of(boxes@.map_values(|b: Mp4Box| b@), MDAT as int);
    }
    Ok(boxes[mi].offset < boxes[di].offset)
}

// ---------------------------------------------------------------------------
// Chunk offsets inside `moov`
// ---------------------------------------------------------------------------

/// A 64-bit word read as a two's-complement signed number (`u64 as i64`).
pub open spec fn signed64(v: int) -> int {
    if v >= 0x8000_0000_0000_0000 {
        v - 0x1_0000_0000_0000_0000
    } else {
        v
    }
}

/// The four big-endian bytes of `v`.
pub open spec fn be4(v: int) -> Seq<u8> {
    seq![
        ((v / 16777216) % 256) as u8,
        ((v / 65536) % 256) as u8,
        ((v / 256) % 256) as u8,
        (v % 256) as u8,
    ]
}

/// The eight big-endian bytes of `v`.
pub open spec fn be8(v: int) -> Seq<u8> {
    be4(v / 4294967296) + be4(v % 4294967296)
}

/// `d` with the bytes at `off` replaced by `bytes`.
pub open spec fn put(d: Seq<u8>, off: int, bytes: Seq<u8>) -> Seq<u8> {
    d.subrange(0, off) + bytes + d.subrange(off + bytes.len(), d.len() as int)
}

/// Shifting chunk entry `i` of an `stco` (4-byte entries) or `co64` (8-byte
/// entries) box by `delta`.
pub open spec fn fix_entry(body: Seq<u8>, i: int, delta: int, wide: bool) -> Result<Seq<u8>, Mp4Error> {
    if wide {
        let off = 16 + 8 * i;
        let v = be64(body, off);
        let nv = signed64(v) + delta;
        if nv < i64::MIN || nv > i64::MAX {
            Err(Mp4Error::ChunkOffsetOverflow { value: v as u64, delta: delta as i64 })
        } else if nv < 0 {
            Err(Mp4Error::ChunkOffsetNegative { value: v as u64, delta: delta as i64 })
        } else {
            Ok(put(body, off, be8(nv)))
        }
    } else {
        let off = 16 + 4 * i;
        let v = be32(body, off);
        let nv = v + delta;
        if nv < i64::MIN || nv > i64::MAX {
            Err(Mp4Error::ChunkOffsetOverflow { value: v as u64, delta: delta as i64 })
        } else if nv < 0 || nv > u32::MAX {
            Err(Mp4Error::ChunkOffsetOutOfRange { value: v as u64, delta: delta as i64 })
        } else {
            Ok(put(body, off, be4(nv)))
        }
    }
}

/// Entries `i..count` shifted in turn; on the first failure the bytes stay as
/// they were when it happened.
pub open spec fn fix_entries(body: Seq<u8>, i: int, count: int, delta: int, wide: bool) -> (
    Seq<u8>,
    Result<(), Mp4Error>,
)
    decreases count - i,
{
    if i >= count {
        (body, Ok(()))
    } else {
        match fix_entry(body, i, delta, wide) {
            Err(e) => (body, Err(e)),
            Ok(nb) => fix_entries(nb, i + 1, count, delta, wide),
        }
    }
}

/// An `stco`/`co64` box (header included) with every chunk offset shifted by
/// `delta`: 8 bytes of header, 4 of version and flags, a 4-byte entry count and
/// the entries.
pub open spec fn fix_chunks(body: Seq<u8>, delta: int, wide: bool) -> (Seq<u8>, Result<(), Mp4Error>) {
    if body.len() < 16 {
        (body, Err(Mp4Error::ChunkTableTooShort { len: body.len() as usize }))
    } else {
        let count = be32(body, 12);
        let need = if wide {
            count * 8 + 16
        } else {
            count * 4 + 16
        };
        if need > usize::MAX {
            (body, Err(Mp4Error::ChunkCountInvalid))
        } else if body.len() < need {
            (
                body,
                Err(
                    Mp4Error::ChunkEntriesOutOfBounds {
                        count: count as usize,
                        need: need as usize,
                        len: body.len() as usize,
                    },
                ),
            )
        } else {
            fix_entries(body, 0, count, delta, wide)
        }
    }
}

/// Box types whose payload is a list of boxes.
pub open spec fn is_container(kind: int) -> bool {
    ||| kind == MOOV as int
    ||| kind == TRAK as int
    ||| kind == MDIA as int
    ||| kind == MINF as int
    ||| kind == STBL as int
    ||| kind == EDTS as int
    ||| kind == UDTA as int
    ||| kind == DINF as int
}

/// A byte prefix put in front of a result.
pub open spec fn glue(p: Seq<u8>, r: (Seq<u8>, Result<(), Mp4Error>)) -> (Seq<u8>, Result<(), Mp4Error>) {
    (p + r.0, r.1)
}

#[verifier::opaque]
/// One box inside `moov` (header included) with its chunk offsets shifted:
/// `stco`/`co64` boxes are fixed, container boxes are entered (their payload
/// starts after `h` header bytes), other boxes are left alone.
pub open spec fn fix_box(body: Seq<u8>, h: int, kind: int, delta: int) -> (Seq<u8>, Result<(), Mp4Error>)
    decreases body.len(), 0int,
{
    if kind == STCO as int {
        fix_chunks(body, delta, false)
    } else if kind == CO64 as int {
        fix_chunks(body, delta, true)
    } else if is_container(kind) && 0 < h <= body.len() {
        glue(body.subrange(0, h), fix_tree(body.subrange(h, body.len() as int), delta, 0))
    } else {
        (body, Ok(()))
    }
}

#[verifier::opaque]
/// A list of boxes inside `moov` with the chunk offsets shifted: `stco`/`co64`
/// boxes are fixed, container boxes are entered, other boxes and fewer than 8
/// trailing bytes are left alone. `base` is the position of `r` in the list, for
/// error reports. On the first failure the bytes stay as they were then.
pub open spec fn fix_tree(r: Seq<u8>, delta: int, base: int) -> (Seq<u8>, Result<(), Mp4Error>)
    decreases r.len(), 1int,
{
    if r.len() < 8 {
        (r, Ok(()))
    } else if be32(r, 0) == 1 && r.len() < 16 {
        (r, Err(Mp4Error::NestedLargeSizeTruncated { offset: base as usize }))
    } else {
        let (h, size) = box_header(r, 0);
        if size < h || size > r.len() {
            (r, Err(Mp4Error::NestedBadSize { kind: be32(r, 4) as u32, offset: base as usize }))
        } else {
            let kind = be32(r, 4);
            let body = r.subrange(0, size);
            let rest = r.subrange(size, r.len() as int);
            let (nb, res) = fix_box(body, h, kind, delta);
            match res {
                Err(e) => (nb + rest, Err(e)),
                Ok(()) => glue(nb, fix_tree(rest, delta, base + size)),
            }
        }
    }
}


/// Shifting entries keeps the length of the box.
pub proof fn lemma_fix_entries_len(body: Seq<u8>, i: int, count: int, delta: int, wide: bool)
    requires
        0 <= i,
        wide ==> count * 8 + 16 <= body.len(),
        !wide ==> count * 4 + 16 <= body.len(),
    ensures
        fix_entries(body, i, count, delta, wide).0.len() == body.len(),
    decreases count - i,
{
    if i < count {
        if let Ok(nb) = fix_entry(body, i, delta, wide) {
            lemma_fix_entries_len(nb, i + 1, count, delta, wide);
        }
    }
}

/// Width in bytes of one chunk entry.
pub open spec fn entry_width(wide: bool) -> int {
    if wide {
        8
    } else {
        4
    }
}

/// The bytes that a chunk entry at `p` becomes when shifted by `delta`: its
/// old value plus `delta`, big-endian (a 64-bit entry read as signed).
pub open spec fn shifted_at(d: Seq<u8>, p: int, delta: int, wide: bool) -> Seq<u8> {
    if wide {
        be8(signed64(be64(d, p)) + delta)
    } else {
        be4(be32(d, p) + delta)
    }
}

/// Offset of entry `j` in an `stco`/`co64` box.
pub open spec fn entry_offset(j: int, wide: bool) -> int {
    16 + entry_width(wide) * j
}

/// The bytes that entry `j` of a chunk table becomes when shifted by `delta`.
pub open spec fn shifted_entry(body: Seq<u8>, j: int, delta: int, wide: bool) -> Seq<u8> {
    shifted_at(body, entry_offset(j, wide), delta, wide)
}

/// What `put` leaves: the same length, the new bytes at `off`, the rest as it was.
proof fn lemma_put_facts(d: Seq<u8>, off: int, bytes: Seq<u8>)
    requires
        0 <= off,
        off + bytes.len() <= d.len(),
    ensures
        put(d, off, bytes).len() == d.len(),
        put(d, off, bytes).subrange(off, off + bytes.len()) == bytes,
        forall|k: int|
            0 <= k < d.len() && (k < off || k >= off + bytes.len()) ==> #[trigger] put(d, off, bytes)[k]
                == d[k],
{
    let p = put(d, off, bytes);
    assert(p.subrange(off, off + bytes.len()) =~= bytes);
    assert forall|k: int| 0 <= k < d.len() && (k < off || k >= off + bytes.len()) implies #[trigger] p[k]
        == d[k] by {
        if k >= off + bytes.len() {
            assert(p[k] == d.subrange(off + bytes.len(), d.len() as int)[k - off - bytes.len()]);
        }
    }
}

/// An entry reads the same from two tables that agree on its bytes.
proof fn lemma_entry_same(a: Seq<u8>, b: Seq<u8>, j: int, delta: int, wide: bool)
    requires
        0 <= j,
        16 + entry_width(wide) * j + entry_width(wide) <= a.len(),
        16 + entry_width(wide) * j + entry_width(wide) <= b.len(),
        forall|k: int|
            16 + entry_width(wide) * j <= k < 16 + entry_width(wide) * j + entry_width(wide) ==> #[trigger] a[k]
                == b[k],
    ensures
        shifted_entry(a, j, delta, wide) == shifted_entry(b, j, delta, wide),
{
    let o = 16 + entry_width(wide) * j;
    assert(a[o] == b[o]);
    assert(a[o + 1] == b[o + 1]);
    assert(a[o + 2] == b[o + 2]);
    assert(a[o + 3] == b[o + 3]);
    if wide {
        assert(a[o + 4] == b[o + 4]);
        assert(a[o + 5] == b[o + 5]);
        assert(a[o + 6] == b[o + 6]);
        assert(a[o + 7] == b[o + 7]);
    }
}

/// When shifting entries `i..count` succeeds, each of those entries holds its
/// old value plus `delta` and every other byte is as it was.
#[verifier::spinoff_prover]
pub proof fn lemma_fix_entries_each(body: Seq<u8>, i: int, count: int, delta: int, wide: bool)
    requires
        0 <= i,
        count * entry_width(wide) + 16 <= body.len(),
        fix_entries(body, i, count, delta, wide).1 is Ok,
    ensures
        fix_entries(body, i, count, delta, wide).0.len() == body.len(),
        forall|k: int|
            0 <= k < body.len() && (k < 16 + entry_width(wide) * i || k >= 16 + entry_width(wide) * count)
                ==> #[trigger] fix_entries(body, i, count, delta, wide).0[k] == body[k],
        forall|j: int|
            i <= j < count ==> #[trigger] fix_entries(body, i, count, delta, wide).0.subrange(
                16 + entry_width(wide) * j,
                16 + entry_width(wide) * j + entry_width(wide),
            ) == shifted_entry(body, j, delta, wide),
    decreases count - i,
{
    let w = entry_width(wide);
    if i < count {
        let off = 16 + w * i;
        assert(off + w <= 16 + w * count) by (nonlinear_arith)
            requires
                off == 16 + w * i,
                i < count,
                w > 0,
        ;
        let nb = fix_entry(body, i, delta, wide)->Ok_0;
        let bytes = shifted_entry(body, i, delta, wide);
        assert(nb == put(body, off, bytes));
        assert(bytes.len() == w);
        lemma_put_facts(body, off, bytes);
        lemma_fix_entries_each(nb, i + 1, count, delta, wide);
        let r = fix_entries(body, i, count, delta, wide).0;
        assert(r == fix_entries(nb, i + 1, count, delta, wide).0);
        assert(16 + w * (i + 1) == off + w);
        assert forall|k: int|
            0 <= k < body.len() && (k < 16 + w * i || k >= 16 + w * count) implies #[trigger] r[k]
                == body[k] by {
            assert(r[k] == nb[k]);
        }
        assert forall|j: int| i <= j < count implies #[trigger] r.subrange(16 + w * j, 16 + w * j + w)
            == shifted_entry(body, j, delta, wide) by {
            if j == i {
                assert forall|m: int| 0 <= m < w implies #[trigger] r.subrange(off, off + w)[m] == bytes[m] by {
                    assert(r[off + m] == nb[off + m]);
                    assert(nb.subrange(off, off + w)[m] == nb[off + m]);
                }
                assert(r.subrange(off, off + w) =~= bytes);
            } else {
                let oj = 16 + w * j;
                assert(off + w <= oj && oj + w <= 16 + w * count) by (nonlinear_arith)
                    requires
                        off == 16 + w * i,
                        oj == 16 + w * j,
                        i < j,
                        j < count,
                        w > 0,
                ;
                assert forall|k: int| oj <= k < oj + w implies #[trigger] nb[k] == body[k] by {}
                lemma_entry_same(nb, body, j, delta, wide);
            }
        }
    }
}

/// Shifting the chunk offsets of an `stco`/`co64` box, when it succeeds, sets
/// every entry to its old value plus `delta` and leaves every other byte
/// (header, version, flags, count, anything after the entries) as it was.
pub proof fn law_fix_chunks_each(body: Seq<u8>, delta: int, wide: bool)
    requires
        fix_chunks(body, delta, wide).1 is Ok,
    ensures
        ({
            let r = fix_chunks(body, delta, wide).0;
            let w = entry_width(wide);
            let count = be32(body, 12);
            &&& r.len() == body.len()
            &&& forall|k: int| 0 <= k < body.len() && (k < 16 || k >= 16 + w * count) ==> #[trigger] r[k] == body[k]
            &&& forall|j: int|
                0 <= j < count ==> #[trigger] r.subrange(16 + w * j, 16 + w * j + w) == shifted_entry(
                    body,
                    j,
                    delta,
                    wide,
                )
        }),
{
    let count = be32(body, 12);
    assert(count * entry_width(wide) + 16 <= body.len());
    lemma_fix_entries_each(body, 0, count, delta, wide);
}

/// Shifting chunk offsets keeps the length of the box.
pub proof fn lemma_fix_chunks_len(body: Seq<u8>, delta: int, wide: bool)
    ensures
        fix_chunks(body, delta, wide).0.len() == body.len(),
{
    if body.len() >= 16 {
        let count = be32(body, 12);
        let need = if wide {
            count * 8 + 16
        } else {
            count * 4 + 16
        };
        if need <= usize::MAX && body.len() >= need {
            lemma_fix_entries_len(body, 0, count, delta, wide);
        }
    }
}

/// Fixing one box keeps its length.
pub proof fn lemma_fix_box_len(body: Seq<u8>, h: int, kind: int, delta: int)
    ensures
        fix_box(body, h, kind, delta).0.len() == body.len(),
    decreases body.len(), 0int,
{
    reveal(fix_tree);
    reveal(fix_box);
    lemma_fix_chunks_len(body, delta, false);
    lemma_fix_chunks_len(body, delta, true);
    if kind == STCO as int {
        assert(fix_box(body, h, kind, delta) == fix_chunks(body, delta, false));
    } else if kind == CO64 as int {
        assert(fix_box(body, h, kind, delta) == fix_chunks(body, delta, true));
    } else if is_container(kind) && 0 < h <= body.len() {
        let t = fix_tree(body.subrange(h, body.len() as int), delta, 0);
        lemma_fix_tree_len(body.subrange(h, body.len() as int), delta, 0);
        assert(fix_box(body, h, kind, delta) == glue(body.subrange(0, h), t));
    } else {
        assert(fix_box(body, h, kind, delta) == (body, Ok::<(), Mp4Error>(())));
    }
}

/// Fixing a list of boxes keeps its length.
pub proof fn lemma_fix_tree_len(r: Seq<u8>, delta: int, base: int)
    ensures
        fix_tree(r, delta, base).0.len() == r.len(),
    decreases r.len(), 1int,
{
    reveal(fix_tree);
    reveal(fix_box);
    if r.len() >= 8 && !(be32(r, 0) == 1 && r.len() < 16) {
        let (h, size) = box_header(r, 0);
        if !(size < h || size > r.len()) {
            let kind = be32(r, 4);
            let body = r.subrange(0, size);
            let rest = r.subrange(size, r.len() as int);
            lemma_fix_box_len(body, h, kind, delta);
            lemma_fix_tree_len(rest, delta, base + size);
        }
    }
}

/// Four bytes read as a big-endian number and written back are the same bytes.
proof fn lemma_be4_of_be32(d: Seq<u8>, p: int)
    requires
        0 <= p,
        p + 4 <= d.len(),
    ensures
        be4(be32(d, p)) == d.subrange(p, p + 4),
        0 <= be32(d, p) < 4294967296,
{
    let b0 = d[p] as int;
    let b1 = d[p + 1] as int;
    let b2 = d[p + 2] as int;
    let b3 = d[p + 3] as int;
    let v = be32(d, p);
    vstd::arithmetic::div_mod::lemma_fundamental_div_mod_converse(v, 16777216, b0, b1 * 65536 + b2 * 256 + b3);
    vstd::arithmetic::div_mod::lemma_fundamental_div_mod_converse(b0, 256, 0, b0);
    vstd::arithmetic::div_mod::lemma_fundamental_div_mod_converse(v, 65536, b0 * 256 + b1, b2 * 256 + b3);
    vstd::arithmetic::div_mod::lemma_fundamental_div_mod_converse(b0 * 256 + b1, 256, b0, b1);
    vstd::arithmetic::div_mod::lemma_fundamental_div_mod_converse(v, 256, b0 * 65536 + b1 * 256 + b2, b3);
    vstd::arithmetic::div_mod::lemma_fundamental_div_mod_converse(b0 * 65536 + b1 * 256 + b2, 256, b0 * 256 + b1, b2);
    assert(be4(v) =~= d.subrange(p, p + 4));
}

/// Shifting one chunk entry by zero, when it succeeds, writes back the bytes
/// that were there.
proof fn lemma_fix_entry_zero(body: Seq<u8>, i: int, wide: bool)
    requires
        0 <= i,
        16 + entry_width(wide) * i + entry_width(wide) <= body.len(),
    ensures
        fix_entry(body, i, 0, wide) is Ok ==> fix_entry(body, i, 0, wide)->Ok_0 == body,
{
    let w = entry_width(wide);
    let off = 16 + w * i;
    if wide {
        lemma_be4_of_be32(body, off);
        lemma_be4_of_be32(body, off + 4);
        let hi = be32(body, off);
        let lo = be32(body, off + 4);
        let v = be64(body, off);
        vstd::arithmetic::div_mod::lemma_fundamental_div_mod_converse(v, 4294967296, hi, lo);
        if fix_entry(body, i, 0, wide) is Ok {
            assert(signed64(v) == v);
            assert(be8(v) =~= body.subrange(off, off + 8));
            assert(put(body, off, be8(v)) =~= body);
        }
    } else {
        lemma_be4_of_be32(body, off);
        assert(put(body, off, be4(be32(body, off))) =~= body);
    }
}

/// Shifting entries by zero leaves the bytes as they were.
proof fn lemma_fix_entries_zero(body: Seq<u8>, i: int, count: int, wide: bool)
    requires
        0 <= i,
        count * entry_width(wide) + 16 <= body.len(),
    ensures
        fix_entries(body, i, count, 0, wide).0 == body,
    decreases count - i,
{
    if i < count {
        let w = entry_width(wide);
        assert(16 + w * i + w <= 16 + w * count) by (nonlinear_arith)
            requires
                i < count,
                w > 0,
        ;
        lemma_fix_entry_zero(body, i, wide);
        lemma_fix_entries_zero(body, i + 1, count, wide);
    }
}

/// Shifting a chunk table by zero leaves its bytes as they were.
proof fn lemma_fix_chunks_zero(body: Seq<u8>, wide: bool)
    ensures
        fix_chunks(body, 0, wide).0 == body,
{
    if body.len() >= 16 {
        let count = be32(body, 12);
        if count * entry_width(wide) + 16 <= body.len() {
            lemma_fix_entries_zero(body, 0, count, wide);
        }
    }
}

/// Fixing one box by zero leaves its bytes as they were.
proof fn lemma_fix_box_zero(body: Seq<u8>, h: int, kind: int)
    ensures
        fix_box(body, h, kind, 0).0 == body,
    decreases body.len(), 0int,
{
    reveal(fix_tree);
    reveal(fix_box);
    lemma_fix_chunks_zero(body, false);
    lemma_fix_chunks_zero(body, true);
    if kind != STCO as int && kind != CO64 as int && is_container(kind) && 0 < h <= body.len() {
        let inner = body.subrange(h, body.len() as int);
        law_fix_tree_zero(inner, 0);
        assert(body.subrange(0, h) + inner =~= body);
    }
}

/// Shifting chunk offsets by zero changes no byte of a list of boxes inside
/// `moov`, whether or not the walk meets a malformed box on the way.
pub proof fn law_fix_tree_zero(r: Seq<u8>, base: int)
    ensures
        fix_tree(r, 0, base).0 == r,
    decreases r.len(), 1int,
{
    reveal(fix_tree);
    reveal(fix_box);
    if r.len() >= 8 && !(be32(r, 0) == 1 && r.len() < 16) {
        let (h, size) = box_header(r, 0);
        if !(size < h || size > r.len()) {
            let kind = be32(r, 4);
            let body = r.subrange(0, size);
            let rest = r.subrange(size, r.len() as int);
            lemma_fix_box_zero(body, h, kind);
            law_fix_tree_zero(rest, base + size);
            assert(body + rest =~= r);
        }
    }
}

/// The entries of an `stco` (`wide` false) or `co64` box whose table fits in
/// it, each as its offset in the box and whether it is 8 bytes wide.
pub open spec fn chunk_entries(body: Seq<u8>, wide: bool) -> Set<(int, bool)> {
    let count = be32(body, 12);
    if body.len() >= 16 && count * entry_width(wide) + 16 <= body.len() {
        Set::new(
            |e: (int, bool)|
                e.1 == wide && exists|j: int| 0 <= j < count && e.0 == #[trigger] entry_offset(j, wide),
        )
    } else {
        Set::empty()
    }
}

/// Entries moved `off` bytes further on.
pub open spec fn shift_entries(s: Set<(int, bool)>, off: int) -> Set<(int, bool)> {
    Set::new(|e: (int, bool)| s.contains((e.0 - off, e.1)))
}

/// Byte `k` lies inside one of the entries.
pub open spec fn covered(s: Set<(int, bool)>, k: int) -> bool {
    exists|e: (int, bool)| #[trigger] s.contains(e) && e.0 <= k < e.0 + entry_width(e.1)
}

#[verifier::opaque]
/// The chunk entries that shifting reaches in one box inside `moov`: those of an
/// `stco`/`co64` box, and those reached in the payload of a container box.
pub open spec fn box_entries(body: Seq<u8>, h: int, kind: int) -> Set<(int, bool)>
    decreases body.len(), 0int,
{
    if kind == STCO as int {
        chunk_entries(body, false)
    } else if kind == CO64 as int {
        chunk_entries(body, true)
    } else if is_container(kind) && 0 < h <= body.len() {
        shift_entries(tree_entries(body.subrange(h, body.len() as int)), h)
    } else {
        Set::empty()
    }
}

#[verifier::opaque]
/// The chunk entries that shifting reaches in a list of boxes inside `moov`,
/// box after box, up to the first malformed header.
pub open spec fn tree_entries(r: Seq<u8>) -> Set<(int, bool)>
    decreases r.len(), 1int,
{
    if r.len() < 8 || (be32(r, 0) == 1 && r.len() < 16) {
        Set::empty()
    } else {
        let (h, size) = box_header(r, 0);
        if size < h || size > r.len() {
            Set::empty()
        } else {
            box_entries(r.subrange(0, size), h, be32(r, 4)).union(
                shift_entries(tree_entries(r.subrange(size, r.len() as int)), size),
            )
        }
    }
}

/// The shifted value of an entry depends only on the entry's own bytes.
proof fn lemma_shifted_same(a: Seq<u8>, p: int, b: Seq<u8>, q: int, delta: int, wide: bool)
    requires
        0 <= p,
        p + entry_width(wide) <= a.len(),
        0 <= q,
        q + entry_width(wide) <= b.len(),
        a.subrange(p, p + entry_width(wide)) == b.subrange(q, q + entry_width(wide)),
    ensures
        shifted_at(a, p, delta, wide) == shifted_at(b, q, delta, wide),
{
    let sa = a.subrange(p, p + entry_width(wide));
    let sb = b.subrange(q, q + entry_width(wide));
    assert(a[p] == sa[0] && b[q] == sb[0]);
    assert(a[p + 1] == sa[1] && b[q + 1] == sb[1]);
    assert(a[p + 2] == sa[2] && b[q + 2] == sb[2]);
    assert(a[p + 3] == sa[3] && b[q + 3] == sb[3]);
    if wide {
        assert(a[p + 4] == sa[4] && b[q + 4] == sb[4]);
        assert(a[p + 5] == sa[5] && b[q + 5] == sb[5]);
        assert(a[p + 6] == sa[6] && b[q + 6] == sb[6]);
        assert(a[p + 7] == sa[7] && b[q + 7] == sb[7]);
    }
}

/// The entry slot that holds byte `k` of a table of `count` entries.
proof fn lemma_slot(k: int, wide: bool, count: int)
    requires
        16 <= k < 16 + entry_width(wide) * count,
    ensures
        0 <= (k - 16) / entry_width(wide) < count,
        entry_offset((k - 16) / entry_width(wide), wide) <= k < entry_offset((k - 16) / entry_width(wide), wide)
            + entry_width(wide),
{
    let w = entry_width(wide);
    let q = (k - 16) / w;
    let r = (k - 16) % w;
    vstd::arithmetic::div_mod::lemma_fundamental_div_mod(k - 16, w);
    vstd::arithmetic::div_mod::lemma_mod_pos_bound(k - 16, w);
    assert(0 <= q < count) by (nonlinear_arith)
        requires
            k - 16 == w * q + r,
            0 <= r < w,
            0 <= k - 16 < w * count,
            w > 0,
    ;
}

/// Entry `j` of a table of `count` entries lies inside the table.
proof fn lemma_slot_within(j: int, wide: bool, count: int)
    requires
        0 <= j < count,
    ensures
        16 <= entry_offset(j, wide),
        entry_offset(j, wide) + entry_width(wide) <= 16 + entry_width(wide) * count,
{
    let w = entry_width(wide);
    assert(0 <= w * j && w * j + w <= w * count) by (nonlinear_arith)
        requires
            0 <= j < count,
            w > 0,
    ;
}

/// Shifting one `stco`/`co64` table, when it succeeds, sets each entry to its
/// old value plus `delta` and leaves every byte outside the entries alone.
proof fn lemma_chunks_each(body: Seq<u8>, delta: int, wide: bool)
    requires
        fix_chunks(body, delta, wide).1 is Ok,
    ensures
        fix_chunks(body, delta, wide).0.len() == body.len(),
        forall|e: (int, bool)| #[trigger]
            chunk_entries(body, wide).contains(e) ==> 0 <= e.0 && e.0 + entry_width(e.1) <= body.len()
                && fix_chunks(body, delta, wide).0.subrange(e.0, e.0 + entry_width(e.1)) == shifted_at(
                body,
                e.0,
                delta,
                e.1,
            ),
        forall|k: int|
            0 <= k < body.len() && !covered(chunk_entries(body, wide), k) ==> #[trigger] fix_chunks(
                body,
                delta,
                wide,
            ).0[k] == body[k],
{
    let r2 = fix_chunks(body, delta, wide).0;
    let s = chunk_entries(body, wide);
    let w = entry_width(wide);
    let count = be32(body, 12);
    law_fix_chunks_each(body, delta, wide);
    assert(body.len() >= 16 && count * w + 16 <= body.len());
    assert forall|e: (int, bool)| #[trigger] s.contains(e) implies 0 <= e.0 && e.0 + entry_width(e.1) <= body.len()
        && r2.subrange(e.0, e.0 + entry_width(e.1)) == shifted_at(body, e.0, delta, e.1) by {
        let j = choose|j: int| 0 <= j < count && e.0 == #[trigger] entry_offset(j, wide);
        lemma_slot_within(j, wide, count);
        assert(r2.subrange(16 + w * j, 16 + w * j + w) == shifted_entry(body, j, delta, wide));
    }
    assert forall|k: int| 0 <= k < body.len() && !covered(s, k) implies #[trigger] r2[k] == body[k] by {
        if 16 <= k < 16 + w * count {
            lemma_slot(k, wide, count);
            let j = (k - 16) / w;
            assert(s.contains((entry_offset(j, wide), wide)));
        }
    }
}

/// Fixing one box, when it succeeds, shifts each entry that `box_entries`
/// reaches and leaves every other byte alone.
proof fn lemma_fix_box_each(body: Seq<u8>, h: int, kind: int, delta: int)
    requires
        fix_box(body, h, kind, delta).1 is Ok,
    ensures
        fix_box(body, h, kind, delta).0.len() == body.len(),
        forall|e: (int, bool)| #[trigger]
            box_entries(body, h, kind).contains(e) ==> 0 <= e.0 && e.0 + entry_width(e.1) <= body.len()
                && fix_box(body, h, kind, delta).0.subrange(e.0, e.0 + entry_width(e.1)) == shifted_at(
                body,
                e.0,
                delta,
                e.1,
            ),
        forall|k: int|
            0 <= k < body.len() && !covered(box_entries(body, h, kind), k) ==> #[trigger] fix_box(
                body,
                h,
                kind,
                delta,
            ).0[k] == body[k],
    decreases body.len(), 0int,
{
    reveal(fix_tree);
    reveal(fix_box);
    reveal(tree_entries);
    reveal(box_entries);
    let r2 = fix_box(body, h, kind, delta).0;
    let s = box_entries(body, h, kind);
    if kind == STCO as int {
        lemma_chunks_each(body, delta, false);
    } else if kind == CO64 as int {
        lemma_chunks_each(body, delta, true);
    } else if is_container(kind) && 0 < h <= body.len() {
        let inner = body.subrange(h, body.len() as int);
        let t = fix_tree(inner, delta, 0);
        let ti = tree_entries(inner);
        law_fix_tree_each(inner, delta, 0);
        assert(r2 == body.subrange(0, h) + t.0);
        assert(s == shift_entries(ti, h));
        assert forall|e: (int, bool)| #[trigger] s.contains(e) implies 0 <= e.0 && e.0 + entry_width(e.1) <= body.len()
            && r2.subrange(e.0, e.0 + entry_width(e.1)) == shifted_at(body, e.0, delta, e.1) by {
            let p = e.0 - h;
            let w = entry_width(e.1);
            assert(ti.contains((p, e.1)));
            assert(r2.subrange(e.0, e.0 + w) =~= t.0.subrange(p, p + w));
            assert(inner.subrange(p, p + w) =~= body.subrange(e.0, e.0 + w));
            lemma_shifted_same(inner, p, body, e.0, delta, e.1);
        }
        assert forall|k: int| 0 <= k < body.len() && !covered(s, k) implies #[trigger] r2[k] == body[k] by {
            if k >= h {
                if covered(ti, k - h) {
                    let e = choose|e: (int, bool)| #[trigger] ti.contains(e) && e.0 <= k - h < e.0 + entry_width(e.1);
                    assert(s.contains((e.0 + h, e.1)));
                }
                assert(r2[k] == t.0[k - h]);
            }
        }
    } else {
        assert(r2 == body);
        assert(s == Set::<(int, bool)>::empty());
    }
}

/// Shifting chunk offsets in a list of boxes inside `moov`, when it succeeds,
/// sets every entry of every `stco`/`co64` box reached through container boxes
/// (`tree_entries`) to its old value plus `delta`, and leaves every other byte
/// as it was.
pub proof fn law_fix_tree_each(r: Seq<u8>, delta: int, base: int)
    requires
        fix_tree(r, delta, base).1 is Ok,
    ensures
        fix_tree(r, delta, base).0.len() == r.len(),
        forall|e: (int, bool)| #[trigger]
            tree_entries(r).contains(e) ==> 0 <= e.0 && e.0 + entry_width(e.1) <= r.len() && fix_tree(
                r,
                delta,
                base,
            ).0.subrange(e.0, e.0 + entry_width(e.1)) == shifted_at(r, e.0, delta, e.1),
        forall|k: int|
            0 <= k < r.len() && !covered(tree_entries(r), k) ==> #[trigger] fix_tree(r, delta, base).0[k]
                == r[k],
    decreases r.len(), 1int,
{
    reveal(fix_tree);
    reveal(fix_box);
    reveal(tree_entries);
    reveal(box_entries);
    let r2 = fix_tree(r, delta, base).0;
    let s = tree_entries(r);
    if r.len() < 8 {
        assert(s == Set::<(int, bool)>::empty());
    } else {
        let (h, size) = box_header(r, 0);
        let kind = be32(r, 4);
        let body = r.subrange(0, size);
        let rest = r.subrange(size, r.len() as int);
        let step = fix_box(body, h, kind, delta);
        let tail = fix_tree(rest, delta, base + size);
        assert(step.1 is Ok);
        assert(r2 == step.0 + tail.0);
        lemma_fix_box_each(body, h, kind, delta);
        law_fix_tree_each(rest, delta, base + size);
        let sb = box_entries(body, h, kind);
        let st = tree_entries(rest);
        assert(s == sb.union(shift_entries(st, size)));
        assert forall|e: (int, bool)| #[trigger] s.contains(e) implies 0 <= e.0 && e.0 + entry_width(e.1) <= r.len()
            && r2.subrange(e.0, e.0 + entry_width(e.1)) == shifted_at(r, e.0, delta, e.1) by {
            let w = entry_width(e.1);
            if sb.contains(e) {
                assert(r2.subrange(e.0, e.0 + w) =~= step.0.subrange(e.0, e.0 + w));
                assert(body.subrange(e.0, e.0 + w) =~= r.subrange(e.0, e.0 + w));
                lemma_shifted_same(body, e.0, r, e.0, delta, e.1);
            } else {
                let p = e.0 - size;
                assert(st.contains((p, e.1)));
                assert(r2.subrange(e.0, e.0 + w) =~= tail.0.subrange(p, p + w));
                assert(rest.subrange(p, p + w) =~= r.subrange(e.0, e.0 + w));
                lemma_shifted_same(rest, p, r, e.0, delta, e.1);
            }
        }
        assert forall|k: int| 0 <= k < r.len() && !covered(s, k) implies #[trigger] r2[k] == r[k] by {
            if k < size {
                if covered(sb, k) {
                    let e = choose|e: (int, bool)| #[trigger] sb.contains(e) && e.0 <= k < e.0 + entry_width(e.1);
                    assert(s.contains(e));
                }
                assert(r2[k] == step.0[k]);
            } else {
                if covered(st, k - size) {
                    let e = choose|e: (int, bool)| #[trigger] st.contains(e) && e.0 <= k - size < e.0 + entry_width(e.1);
                    assert(s.contains((e.0 + size, e.1)));
                }
                assert(r2[k] == tail.0[k - size]);
            }
        }
    }
}

/// Writes the four big-endian bytes of `v` at `off`.
fn write_be4(body: &mut [u8], off: usize, v: u64)
    requires
        off + 4 <= old(body)@.len(),
    ensures
        final(body)@ == put(old(body)@, off as int, be4(v as int)),
{
    body[off] = ((v / 16777216) % 256) as u8;
    body[off + 1] = ((v / 65536) % 256) as u8;
    body[off + 2] = ((v / 256) % 256) as u8;
    body[off + 3] = (v % 256) as u8;
    assert(body@ =~= put(old(body)@, off as int, be4(v as int)));
}

/// Writes the eight big-endian bytes of `v` at `off`.
fn write_be8(body: &mut [u8], off: usize, v: u64)
    requires
        off + 8 <= old(body)@.len(),
    ensures
        final(body)@ == put(old(body)@, off as int, be8(v as int)),
{
    let n = body.len();
    write_be4(body, off, v / 4294967296);
    let ghost mid = body@;
    write_be4(body, off + 4, v % 4294967296);
    assert(body@ =~= put(old(body)@, off as int, be8(v as int)));
}

/// Shifts every chunk offset of one `stco` (`wide == false`) or `co64`
/// (`wide == true`) box by `delta`. `body` is the whole box, header included.
pub fn fix_chunk_offsets(body: &mut [u8], delta: i64, wide: bool) -> (r: Result<(), Mp4Error>)
    ensures
        (final(body)@, r) == fix_chunks(old(body)@, delta as int, wide),
{
    let len = body.len();
    if len < 16 {
        return Err(Mp4Error::ChunkTableTooShort { len });
    }
    let count = read_be32(body, 12) as usize;
    let esz: usize = if wide {
        8
    } else {
        4
    };
    let need = match count.checked_mul(esz) {
        Some(n) => match n.checked_add(16) {
            Some(m) => m,
            None => {
                return Err(Mp4Error::ChunkCountInvalid);
            },
        },
        None => {
            return Err(Mp4Error::ChunkCountInvalid);
        },
    };
    if len < need {
        return Err(Mp4Error::ChunkEntriesOutOfBounds { count, need, len });
    }
    let mut i: usize = 0;
    while i < count
        invariant
            len == body@.len() == old(body)@.len(),
            wide ==> count * 8 + 16 <= len,
            !wide ==> count * 4 + 16 <= len,
            count == be32(old(body)@, 12),
            i <= count,
            fix_chunks(old(body)@, delta as int, wide) == fix_entries(
                body@,
                i as int,
                count as int,
                delta as int,
                wide,
            ),
        decreases count - i,
    {
        let ghost cur = body@;
        if wide {
            let off = 16 + i * 8;
            let v = read_be64(body, off);
            let sv: i128 = if v >= 0x8000_0000_0000_0000 {
                v as i128 - 0x1_0000_0000_0000_0000
            } else {
                v as i128
            };
            let nv: i128 = sv + delta as i128;
            if nv < i64::MIN as i128 || nv > i64::MAX as i128 {
                return Err(Mp4Error::ChunkOffsetOverflow { value: v, delta });
            }
            if nv < 0 {
                return Err(Mp4Error::ChunkOffsetNegative { value: v, delta });
            }
            write_be8(body, off, nv as u64);
        } else {
            let off = 16 + i * 4;
            let v = read_be32(body, off) as u64;
            let nv: i128 = v as i128 + delta as i128;
            if nv < i64::MIN as i128 || nv > i64::MAX as i128 {
                return Err(Mp4Error::ChunkOffsetOverflow { value: v, delta });
            }
            if nv < 0 || nv > u32::MAX as i128 {
                return Err(Mp4Error::ChunkOffsetOutOfRange { value: v, delta });
            }
            write_be4(body, off, nv as u64);
        }
        i = i + 1;
    }
    Ok(())
}

/// Whether boxes of this type hold further boxes.
pub fn is_container_exec(kind: u32) -> (r: bool)
    ensures
        r == is_container(kind as int),
{
    kind == MOOV || kind == TRAK || kind == MDIA || kind == MINF || kind == STBL || kind == EDTS
        || kind == UDTA || kind == DINF
}

/// One step of `fix_tree`: the first box of `r` when its header is sound.
pub proof fn lemma_fix_tree_step(r: Seq<u8>, delta: int, base: int)
    requires
        r.len() >= 8,
        !(be32(r, 0) == 1 && r.len() < 16),
        box_header(r, 0).0 <= box_header(r, 0).1 <= r.len(),
    ensures
        ({
            let (h, size) = box_header(r, 0);
            let step = fix_box(r.subrange(0, size), h, be32(r, 4), delta);
            let rest = r.subrange(size, r.len() as int);
            fix_tree(r, delta, base) == match step.1 {
                Err(e) => (step.0 + rest, Err(e)),
                Ok(()) => glue(step.0, fix_tree(rest, delta, base + size)),
            }
        }),
{
    reveal(fix_tree);
    reveal(fix_box);
}

/// The cases of `fix_tree` that stop at the first box header.
pub proof fn lemma_fix_tree_stops(r: Seq<u8>, delta: int, base: int)
    ensures
        r.len() < 8 ==> fix_tree(r, delta, base) == (r, Ok::<(), Mp4Error>(())),
        r.len() >= 8 && be32(r, 0) == 1 && r.len() < 16 ==> fix_tree(r, delta, base) == (
            r,
            Err::<(), Mp4Error>(Mp4Error::NestedLargeSizeTruncated { offset: base as usize }),
        ),
        r.len() >= 8 && !(be32(r, 0) == 1 && r.len() < 16) && (box_header(r, 0).1 < box_header(
            r,
            0,
        ).0 || box_header(r, 0).1 > r.len()) ==> fix_tree(r, delta, base) == (
            r,
            Err::<(), Mp4Error>(
                Mp4Error::NestedBadSize { kind: be32(r, 4) as u32, offset: base as usize },
            ),
        ),
{
    reveal(fix_tree);
}

/// Fixes the one box at `region[pos..pos + size]` in place.
fn fix_box_at(region: &mut [u8], pos: usize, size: usize, header: usize, kind: u32, delta: i64) -> (r: Result<(), Mp4Error>)
    requires
        pos + size <= old(region)@.len(),
        0 < header <= size,
    ensures
        ({
            let step = fix_box(old(region)@.subrange(pos as int, pos + size), header as int, kind as int, delta as int);
            &&& r == step.1
            &&& final(region)@ == old(region)@.subrange(0, pos as int) + step.0 + old(region)@.subrange(pos + size, old(region)@.len() as int)
        }),
    decreases old(region)@.len(), 0int,
{
    let ghost body_old = old(region)@.subrange(pos as int, pos + size);
    proof {
        lemma_fix_box_len(body_old, header as int, kind as int, delta as int);
    }
    proof {
        reveal(fix_tree);
        reveal(fix_box);
    }
    let ghost old_all = region@;
    let ghost step = fix_box(body_old, header as int, kind as int, delta as int);
    let r = {
        let (head, tail) = region.split_at_mut(pos);
        let (body, rest) = tail.split_at_mut(size);
        assert(body@ =~= body_old);
        let r = if kind == STCO {
            fix_chunk_offsets(body, delta, false)
        } else if kind == CO64 {
            fix_chunk_offsets(body, delta, true)
        } else if is_container_exec(kind) {
            let (bh, inner) = body.split_at_mut(header);
            assert(inner@ =~= body_old.subrange(header as int, size as int));
            assert(bh@ =~= body_old.subrange(0, header as int));
            let r = fix_moov_tree(inner, delta);
            r
        } else {
            Ok(())
        };
        assert(body@ == step.0);
        assert(head@ == old_all.subrange(0, pos as int));
        assert(rest@ == old_all.subrange(pos + size, old_all.len() as int));
        r
    };
    assert(region@ =~= old_all.subrange(0, pos as int) + step.0 + old_all.subrange(pos + size, old_all.len() as int));
    r
}

/// Shifts by `delta` the chunk offsets of every `stco`/`co64` box in a list of
/// boxes inside `moov`, entering container boxes.
#[verifier::rlimit(60)]
pub fn fix_moov_tree(region: &mut [u8], delta: i64) -> (r: Result<(), Mp4Error>)
    ensures
        (final(region)@, r) == fix_tree(old(region)@, delta as int, 0),
    decreases old(region)@.len(), 1int,
{
    let len = region.len();
    let mut pos: usize = 0;
    assert(region@.subrange(0, len as int) =~= old(region)@);
    assert(region@.subrange(0, 0) + old(region)@ =~= old(region)@);
    while pos < len && len - pos >= 8
        invariant
            len == region@.len() == old(region)@.len(),
            pos <= len,
            region@.subrange(pos as int, len as int) == old(region)@.subrange(pos as int, len as int),
            fix_tree(old(region)@, delta as int, 0) == glue(
                region@.subrange(0, pos as int),
                fix_tree(old(region)@.subrange(pos as int, len as int), delta as int, pos as int),
            ),
        decreases len - pos,
    {
        let ghost suf = old(region)@.subrange(pos as int, len as int);
        let ghost pre = region@.subrange(0, pos as int);
        assert(region@ =~= pre + suf);
        proof {
            lemma_fix_tree_stops(suf, delta as int, pos as int);
        }
        let size32 = read_be32(region, pos);
        let kind = read_be32(region, pos + 4);
        assert(be32(suf, 0) == size32);
        assert(be32(suf, 4) == kind);
        let (header, size): (usize, u64) = if size32 == 1 {
            if len - pos < 16 {
                return Err(Mp4Error::NestedLargeSizeTruncated { offset: pos });
            }
            let s = read_be64(region, pos + 8);
            assert(be64(suf, 8) == s);
            (16, s)
        } else if size32 == 0 {
            (8, (len - pos) as u64)
        } else {
            (8, size32 as u64)
        };
        assert(box_header(suf, 0) == (header as int, size as int));
        if size < header as u64 || size > (len - pos) as u64 {
            return Err(Mp4Error::NestedBadSize { kind, offset: pos });
        }
        let sz = size as usize;
        let ghost rest_old = suf.subrange(sz as int, suf.len() as int);
        proof {
            lemma_fix_tree_step(suf, delta as int, pos as int);
            assert(suf.subrange(0, sz as int) =~= old(region)@.subrange(pos as int, pos + sz));
            assert(region@.subrange(pos as int, pos + sz) =~= suf.subrange(0, sz as int));
        }
        let ghost before = region@;
        let res = fix_box_at(region, pos, sz, header, kind, delta);
        proof {
            let step = fix_box(suf.subrange(0, sz as int), header as int, kind as int, delta as int);
            lemma_fix_box_len(suf.subrange(0, sz as int), header as int, kind as int, delta as int);
            assert(before.subrange(pos + sz, len as int) =~= rest_old);
            assert(region@ =~= pre + step.0 + rest_old);
            assert(old(region)@.subrange(pos + sz, len as int) =~= rest_old);
            assert(region@.subrange(0, pos + sz) =~= pre + step.0);
            assert(region@.subrange(pos + sz, len as int) =~= rest_old);
            if let Ok(()) = step.1 {
                let tail = fix_tree(rest_old, delta as int, pos + sz);
                assert(pre + (step.0 + tail.0) =~= (pre + step.0) + tail.0);
            } else {
                assert(pre + (step.0 + rest_old) =~= region@);
            }
        }
        if let Err(e) = res {
            return Err(e);
        }
        pos = pos + sz;
    }
    proof {
        let suf = old(region)@.subrange(pos as int, len as int);
        lemma_fix_tree_stops(suf, delta as int, pos as int);
        assert(region@ =~= region@.subrange(0, pos as int) + suf);
    }
    Ok(())
}

// ---------------------------------------------------------------------------
// Faststart re-layout
// ---------------------------------------------------------------------------

/// Total size of the boxes that start before `lim`.
pub open spec fn sum_before(bs: Seq<BoxView>, lim: int) -> int
    decreases bs.len(),
{
    if bs.len() == 0 {
        0
    } else {
        sum_before(bs.drop_last(), lim) + if bs.last().offset < lim {
            bs.last().size
        } else {
            0
        }
    }
}

/// The bytes of the boxes that start before `lim`, in file order.
pub open spec fn concat_before(d: Seq<u8>, bs: Seq<BoxView>, lim: int) -> Seq<u8>
    decreases bs.len(),
{
    if bs.len() == 0 {
        Seq::empty()
    } else {
        concat_before(d, bs.drop_last(), lim) + if bs.last().offset < lim {
            box_bytes(d, bs.last())
        } else {
            Seq::empty()
        }
    }
}

/// The bytes of the boxes that start after `lim` and are not `moov`, in file order.
pub open spec fn concat_after(d: Seq<u8>, bs: Seq<BoxView>, lim: int) -> Seq<u8>
    decreases bs.len(),
{
    if bs.len() == 0 {
        Seq::empty()
    } else {
        concat_after(d, bs.drop_last(), lim) + if bs.last().offset > lim && bs.last().kind
            != MOOV as int {
            box_bytes(d, bs.last())
        } else {
            Seq::empty()
        }
    }
}

/// Header length of a box whose bytes are `m`.
pub open spec fn header_len(m: Seq<u8>) -> int {
    if be32(m, 0) == 1 {
        16
    } else {
        8
    }
}

/// The faststart layout: the boxes before `mdat`, then `moov` with its chunk
/// offsets shifted by the distance `mdat` moves, then `mdat`, then the remaining
/// boxes other than `moov`; every other byte as it was. A file whose `moov`
/// already precedes `mdat` is returned as it is.
pub open spec fn faststart_spec(d: Seq<u8>) -> Result<Seq<u8>, Mp4Error> {
    match parse_boxes(d) {
        Err(e) => Err(e),
        Ok(bs) => match first_of(bs, MOOV as int) {
            None => Err(Mp4Error::MissingMoov),
            Some(mi) => match first_of(bs, MDAT as int) {
                None => Err(Mp4Error::MissingMdat),
                Some(di) => reorder_spec(d, bs, mi, di),
            },
        },
    }
}

/// The layout once `moov` (box `mi`) and `mdat` (box `di`) are known.
#[verifier::opaque]
pub open spec fn reorder_spec(d: Seq<u8>, bs: Seq<BoxView>, mi: int, di: int) -> Result<Seq<u8>, Mp4Error> {
    let moov = bs[mi];
    let mdat = bs[di];
    if moov.offset < mdat.offset {
        Ok(d)
    } else {
        let delta = sum_before(bs, mdat.offset) + moov.size - mdat.offset;
        let mb = box_bytes(d, moov);
        let h = header_len(mb);
        let (fixed, r) = fix_tree(mb.subrange(h, mb.len() as int), delta, 0);
        match r {
            Err(e) => Err(e),
            Ok(()) => Ok(
                concat_before(d, bs, mdat.offset) + mb.subrange(0, h) + fixed + box_bytes(d, mdat)
                    + concat_after(d, bs, mdat.offset),
            ),
        }
    }
}

/// Appends the bytes of `src` to `out`.
fn append_bytes(out: &mut Vec<u8>, src: &[u8])
    ensures
        final(out)@ == old(out)@ + src@,
{
    out.extend_from_slice(src);
    assert forall|i: int| 0 <= i < out@.len() implies #[trigger] out@[i] == (old(out)@ + src@)[i] by {
        if i >= old(out)@.len() {
            assert(cloned::<u8>(src@[i - old(out)@.len()], out@[i]));
        }
    }
    assert(out@ =~= old(out)@ + src@);
}

/// The total size of the boxes that start before `mdat`, which is where `mdat`
/// starts, since the boxes tile the file.
fn size_before(boxes: &Vec<Mp4Box>, Ghost(d): Ghost<Seq<u8>>, di: usize) -> (sum: u64)
    requires
        tiles(d, 0, boxes@.map_values(|b: Mp4Box| b@)),
        di < boxes@.len(),
    ensures
        sum == sum_before(boxes@.map_values(|b: Mp4Box| b@), boxes@[di as int].offset as int),
        sum == boxes@[di as int].offset,
{
    let ghost bs = boxes@.map_values(|b: Mp4Box| b@);
    let lim = boxes[di].offset;
    assert(bs[di as int].offset == lim);
    let mut sum: u64 = 0;
    let mut i: usize = 0;
    assert(bs[0].offset == 0);
    while i < boxes.len()
        invariant
            bs == boxes@.map_values(|b: Mp4Box| b@),
            tiles(d, 0, bs),
            di < bs.len(),
            bs[di as int].offset == lim,
            i <= bs.len(),
            sum == sum_before(bs.take(i as int), lim as int),
            i <= di ==> sum == bs[i as int].offset,
            i > di ==> sum == lim,
        decreases bs.len() - i,
    {
        let b = boxes[i];
        assert(bs[i as int] == b@);
        assert(bs.take(i + 1).drop_last() =~= bs.take(i as int));
        assert(bs.take(i + 1).last() == b@);
        if i < di {
            proof {
                lemma_tiles_ordered(d, 0, bs, i as int, di as int);
            }
        } else if i > di {
            proof {
                lemma_tiles_ordered(d, 0, bs, di as int, i as int);
            }
        }
        if b.offset < lim {
            proof {
                assert(adjacent(bs, i as int));
            }
            sum = sum + b.size;
        }
        i = i + 1;
    }
    assert(bs.take(bs.len() as int) =~= bs);
    sum
}

/// Appends the bytes of the boxes that start before `lim`.
fn append_before(out: &mut Vec<u8>, data: &[u8], boxes: &Vec<Mp4Box>, lim: usize)
    requires
        tiles(data@, 0, boxes@.map_values(|b: Mp4Box| b@)),
    ensures
        final(out)@ == old(out)@ + concat_before(data@, boxes@.map_values(|b: Mp4Box| b@), lim as int),
{
    let ghost bs = boxes@.map_values(|b: Mp4Box| b@);
    let n = data.len();
    let mut i: usize = 0;
    assert(old(out)@ + concat_before(data@, bs.take(0), lim as int) =~= old(out)@);
    while i < boxes.len()
        invariant
            bs == boxes@.map_values(|b: Mp4Box| b@),
            tiles(data@, 0, bs),
            n == data@.len(),
            i <= bs.len(),
            out@ == old(out)@ + concat_before(data@, bs.take(i as int), lim as int),
        decreases bs.len() - i,
    {
        let b = boxes[i];
        assert(bs[i as int] == b@);
        assert(bs.take(i + 1).drop_last() =~= bs.take(i as int));
        assert(bs.take(i + 1).last() == b@);
        let ghost prev = out@;
        if b.offset < lim {
            proof {
                lemma_tiles_within(data@, 0, bs, i as int);
            }
            append_bytes(out, &data[b.offset..b.offset + b.size as usize]);
            assert(out@ =~= old(out)@ + (concat_before(data@, bs.take(i as int), lim as int) + box_bytes(data@, b@)));
        } else {
            assert(concat_before(data@, bs.take(i + 1), lim as int) =~= concat_before(data@, bs.take(i as int), lim as int));
        }
        i = i + 1;
    }
    assert(bs.take(bs.len() as int) =~= bs);
}

/// Appends the bytes of the boxes that start after `lim` and are not `moov`.
fn append_after(out: &mut Vec<u8>, data: &[u8], boxes: &Vec<Mp4Box>, lim: usize)
    requires
        tiles(data@, 0, boxes@.map_values(|b: Mp4Box| b@)),
    ensures
        final(out)@ == old(out)@ + concat_after(data@, boxes@.map_values(|b: Mp4Box| b@), lim as int),
{
    let ghost bs = boxes@.map_values(|b: Mp4Box| b@);
    let n = data.len();
    let mut i: usize = 0;
    assert(old(out)@ + concat_after(data@, bs.take(0), lim as int) =~= old(out)@);
    while i < boxes.len()
        invariant
            bs == boxes@.map_values(|b: Mp4Box| b@),
            tiles(data@, 0, bs),
            n == data@.len(),
            i <= bs.len(),
            out@ == old(out)@ + concat_after(data@, bs.take(i as int), lim as int),
        decreases bs.len() - i,
    {
        let b = boxes[i];
        assert(bs[i as int] == b@);
        assert(bs.take(i + 1).drop_last() =~= bs.take(i as int));
        assert(bs.take(i + 1).last() == b@);
        if b.offset > lim && b.kind != MOOV {
            proof {
                lemma_tiles_within(data@, 0, bs, i as int);
            }
            append_bytes(out, &data[b.offset..b.offset + b.size as usize]);
            assert(out@ =~= old(out)@ + (concat_after(data@, bs.take(i as int), lim as int) + box_bytes(data@, b@)));
        } else {
            assert(concat_after(data@, bs.take(i + 1), lim as int) =~= concat_after(data@, bs.take(i as int), lim as int));
        }
        i = i + 1;
    }
    assert(bs.take(bs.len() as int) =~= bs);
}

/// The bytes of `moov` with its chunk offsets shifted by `delta`.
fn moov_fixed(data: &[u8], moov: Mp4Box, delta: i64) -> (r: Result<Vec<u8>, Mp4Error>)
    requires
        moov.offset + moov.size <= data@.len(),
        moov.size >= box_header(data@, moov.offset as int).0,
    ensures
        ({
            let mb = box_bytes(data@, moov@);
            let h = header_len(mb);
            let t = fix_tree(mb.subrange(h, mb.len() as int), delta as int, 0);
            match r {
                Ok(v) => t.1 is Ok && v@ == mb.subrange(0, h) + t.0,
                Err(e) => t.1 == Err::<(), Mp4Error>(e),
            }
        }),
{
    let n = data.len();
    let end = moov.offset + moov.size as usize;
    let mut moov_bytes = slice_to_vec(&data[moov.offset..end]);
    let ghost mb = moov_bytes@;
    assert(mb == box_bytes(data@, moov@));
    assert(be32(mb, 0) == be32(data@, moov.offset as int));
    let header: usize = if read_be32(moov_bytes.as_slice(), 0) == 1 {
        16
    } else {
        8
    };
    let fixed = {
        let (head, inner) = moov_bytes.as_mut_slice().split_at_mut(header);
        fix_moov_tree(inner, delta)
    };
    if let Err(e) = fixed {
        return Err(e);
    }
    assert(moov_bytes@ =~= mb.subrange(0, header as int) + fix_tree(
        mb.subrange(header as int, mb.len() as int),
        delta as int,
        0,
    ).0);
    Ok(moov_bytes)
}

/// The faststart layout of a parsed file, `moov` being box `mi` and `mdat` box `di`.
#[verifier::rlimit(100)]
#[verifier::spinoff_prover]
fn reorder(data: &[u8], boxes: &Vec<Mp4Box>, mi: usize, di: usize) -> (r: Result<Vec<u8>, Mp4Error>)
    requires
        data@.len() <= isize::MAX,
        tiles(data@, 0, boxes@.map_values(|b: Mp4Box| b@)),
        mi < boxes@.len(),
        di < boxes@.len(),
        boxes@[mi as int].kind == MOOV,
        boxes@[di as int].kind == MDAT,
    ensures
        match r {
            Ok(v) => reorder_spec(data@, boxes@.map_values(|b: Mp4Box| b@), mi as int, di as int)
                == Ok::<Seq<u8>, Mp4Error>(v@),
            Err(e) => reorder_spec(data@, boxes@.map_values(|b: Mp4Box| b@), mi as int, di as int)
                == Err::<Seq<u8>, Mp4Error>(e),
        },
{
    let ghost bs = boxes@.map_values(|b: Mp4Box| b@);
    let moov = boxes[mi];
    let mdat = boxes[di];
    assert(bs[mi as int] == moov@);
    assert(bs[di as int] == mdat@);
    if moov.offset < mdat.offset {
        let v = slice_to_vec(data);
        assert(reorder_spec(data@, bs, mi as int, di as int) == Ok::<Seq<u8>, Mp4Error>(v@)) by {
            reveal(reorder_spec);
        }
        return Ok(v);
    }
    let lim = mdat.offset;
    proof {
        lemma_tiles_within(data@, 0, bs, mi as int);
        lemma_tiles_within(data@, 0, bs, di as int);
        if mi < di {
            lemma_tiles_ordered(data@, 0, bs, mi as int, di as int);
        }
    }
    let sum = size_before(boxes, Ghost(data@), di);
    let new_off: u64 = sum + moov.size;
    assert(new_off <= data@.len());
    let delta: i64 = new_off as i64 - lim as i64;
    let moov_bytes = match moov_fixed(data, moov, delta) {
        Ok(v) => v,
        Err(e) => {
            assert(reorder_spec(data@, bs, mi as int, di as int) == Err::<Seq<u8>, Mp4Error>(e)) by {
                reveal(reorder_spec);
            }
            return Err(e);
        },
    };
    let mut out: Vec<u8> = Vec::new();
    append_before(&mut out, data, boxes, lim);
    append_bytes(&mut out, moov_bytes.as_slice());
    append_bytes(&mut out, &data[mdat.offset..mdat.offset + mdat.size as usize]);
    append_after(&mut out, data, boxes, lim);
    proof {
        let mb = box_bytes(data@, moov@);
        let h = header_len(mb);
        let t = fix_tree(mb.subrange(h, mb.len() as int), delta as int, 0);
        let cb = concat_before(data@, bs, lim as int);
        let ca = concat_after(data@, bs, lim as int);
        assert(delta as int == sum_before(bs, lim as int) + moov.size - lim);
        assert(out@ =~= cb + mb.subrange(0, h) + t.0 + box_bytes(data@, mdat@) + ca);
        reveal(reorder_spec);
    }
    Ok(out)
}

/// Rearranges an MP4 file so that `moov` precedes `mdat` ("faststart"), moving
/// whole boxes without re-encoding and shifting the chunk offsets in `moov` by
/// the distance `mdat` moves. A file already in that order is returned as a copy.
pub fn faststart_remux(data: &[u8]) -> (r: Result<Vec<u8>, Mp4Error>)
    requires
        data@.len() <= isize::MAX,
    ensures
        match r {
            Ok(v) => faststart_spec(data@) == Ok::<Seq<u8>, Mp4Error>(v@),
            Err(e) => faststart_spec(data@) == Err::<Seq<u8>, Mp4Error>(e),
        },
{
    let boxes = parse_top_boxes(data)?;
    let ghost bs = boxes@.map_values(|b: Mp4Box| b@);
    proof {
        lemma_parse_tiles(data@, 0);
        lemma_first_of(bs, MOOV as int);
        lemma_first_of(bs, MDAT as int);
    }
    let mi = match find_kind(&boxes, MOOV) {
        Some(i) => i,
        None => {
            return Err(Mp4Error::MissingMoov);
        },
    };
    let di = match find_kind(&boxes, MDAT) {
        Some(i) => i,
        None => {
            return Err(Mp4Error::MissingMdat);
        },
    };
    reorder(data, &boxes, mi, di)
}

// ---------------------------------------------------------------------------
// Deploying a video
// ---------------------------------------------------------------------------

/// What was done to a video before it was deployed.
#[derive(Clone, Copy, Debug, PartialEq, Eq)]
pub enum VideoPrep {
    /// `moov` already came first: deployed as it is.
    AlreadyFaststart,
    /// Rearranged so that `moov` comes first.
    Remuxed,
    /// The file could not be checked: deployed as it is.
    CheckFailed(Mp4Error),
    /// The file could not be rearranged: deployed as it is.
    RemuxFailed(Mp4Error),
}

/// The bytes to deploy for a video, and what was done. The app serves videos
/// without range requests, so `moov` must come before `mdat`: a file in that
/// order is kept, another is rearranged, and when checking or rearranging fails
/// the file is kept as it is.
pub fn prepare_video(data: Vec<u8>) -> (r: (Vec<u8>, VideoPrep))
    requires
        data@.len() <= isize::MAX,
    ensures
        match moov_before_mdat_spec(data@) {
            Ok(true) => r.0@ == data@ && r.1 == VideoPrep::AlreadyFaststart,
            Ok(false) => match faststart_spec(data@) {
                Ok(v) => r.0@ == v && r.1 == VideoPrep::Remuxed,
                Err(e) => r.0@ == data@ && r.1 == VideoPrep::RemuxFailed(e),
            },
            Err(e) => r.0@ == data@ && r.1 == VideoPrep::CheckFailed(e),
        },
{
    match mp4_moov_before_mdat(data.as_slice()) {
        Ok(true) => (data, VideoPrep::AlreadyFaststart),
        Ok(false) => match faststart_remux(data.as_slice()) {
            Ok(v) => (v, VideoPrep::Remuxed),
            Err(e) => (data, VideoPrep::RemuxFailed(e)),
        },
        Err(e) => (data, VideoPrep::CheckFailed(e)),
    }
}

/// A file whose `moov` already comes before `mdat` is left exactly as it is.
pub proof fn law_faststart_keeps_faststart(d: Seq<u8>)
    requires
        moov_before_mdat_spec(d) == Ok::<bool, Mp4Error>(true),
    ensures
        faststart_spec(d) == Ok::<Seq<u8>, Mp4Error>(d),
{
    reveal(reorder_spec);
}

} // verus!

use kimi_bg_tool::mp4::{
    faststart_remux, fix_chunk_offsets, fix_moov_tree, mp4_moov_before_mdat, parse_top_boxes,
    prepare_video, Mp4Error, VideoPrep, MDAT, MOOV,
};

/// A whole box: 4-byte big-endian size, 4-byte type, payload.
fn bx(typ: &[u8; 4], payload: &[u8]) -> Vec<u8> {
    let mut v = Vec::with_capacity(8 + payload.len());
    v.extend_from_slice(&((payload.len() as u32 + 8).to_be_bytes()));
    v.extend_from_slice(typ);
    v.extend_from_slice(payload);
    v
}

/// moov>trak>mdia>minf>stbl>stco/co64 holding the given chunk offsets.
fn toy_moov(wide: bool, entries: &[u64]) -> Vec<u8> {
    let mut stco_payload = vec![0u8; 4];
    stco_payload.extend_from_slice(&(entries.len() as u32).to_be_bytes());
    for &e in entries {
        if wide {
            stco_payload.extend_from_slice(&e.to_be_bytes());
        } else {
            stco_payload.extend_from_slice(&(e as u32).to_be_bytes());
        }
    }
    let leaf_typ: &[u8; 4] = if wide { b"co64" } else { b"stco" };
    let stbl = bx(b"stbl", &bx(leaf_typ, &stco_payload));
    let minf = bx(b"minf", &stbl);
    let mdia = bx(b"mdia", &minf);
    let trak = bx(b"trak", &mdia);
    bx(b"moov", &trak)
}

fn find_subslice(hay: &[u8], needle: &[u8]) -> Option<usize> {
    hay.windows(needle.len()).position(|w| w == needle)
}

/// The entries of the (single) stco/co64 box.
fn read_chunk_entries(mp4: &[u8], wide: bool) -> Vec<u64> {
    let typ: &[u8; 4] = if wide { b"co64" } else { b"stco" };
    let pos = find_subslice(mp4, typ).expect("stco/co64 box present");
    let count = u32::from_be_bytes(mp4[pos + 8..pos + 12].try_into().unwrap()) as usize;
    let esz = if wide { 8 } else { 4 };
    (0..count)
        .map(|i| {
            let off = pos + 12 + i * esz;
            if wide {
                u64::from_be_bytes(mp4[off..off + 8].try_into().unwrap())
            } else {
                u32::from_be_bytes(mp4[off..off + 4].try_into().unwrap()) as u64
            }
        })
        .collect()
}

/// The payload bytes of mdat.
fn read_mdat_payload(mp4: &[u8]) -> Vec<u8> {
    let pos = find_subslice(mp4, b"mdat").expect("mdat box present");
    let size = u32::from_be_bytes(mp4[pos - 4..pos].try_into().unwrap()) as usize;
    mp4[pos + 4..pos - 4 + size].to_vec()
}

#[test]
fn test_mp4_moov_before_mdat() {
    let ftyp = bx(b"ftyp", b"isom0000");
    let moov = toy_moov(false, &[1000, 2000]);
    let mdat = bx(b"mdat", &[0xABu8; 64]);

    let mut good = ftyp.clone();
    good.extend_from_slice(&moov);
    good.extend_from_slice(&mdat);
    assert!(mp4_moov_before_mdat(&good).unwrap(), "moov before mdat is true");
    assert_eq!(faststart_remux(&good).unwrap(), good, "faststart input comes back unchanged");

    let mut bad = ftyp.clone();
    bad.extend_from_slice(&mdat);
    bad.extend_from_slice(&moov);
    assert!(!mp4_moov_before_mdat(&bad).unwrap(), "moov after mdat is false");

    let mut no_moov = ftyp.clone();
    no_moov.extend_from_slice(&mdat);
    assert!(mp4_moov_before_mdat(&no_moov).is_err());
    let mut no_mdat = ftyp.clone();
    no_mdat.extend_from_slice(&moov);
    assert!(mp4_moov_before_mdat(&no_mdat).is_err());
    assert!(mp4_moov_before_mdat(b"this is definitely not an mp4 file at all").is_err());
}

#[test]
fn test_faststart_remux_stco() {
    let ftyp = bx(b"ftyp", b"isom0000");
    let moov = toy_moov(false, &[1000, 2000]);
    let mdat_payload = [0xCDu8; 64];
    let mdat = bx(b"mdat", &mdat_payload);
    let mdat_old_off = ftyp.len() as i64;
    let delta = (ftyp.len() as i64 + moov.len() as i64) - mdat_old_off;

    let mut src = ftyp.clone();
    src.extend_from_slice(&mdat);
    src.extend_from_slice(&moov);

    let out = faststart_remux(&src).unwrap();
    assert!(mp4_moov_before_mdat(&out).unwrap(), "moov precedes mdat after remux");
    assert_eq!(out.len(), src.len());
    assert_eq!(&out[..ftyp.len()], &ftyp[..]);
    assert_eq!(
        read_chunk_entries(&out, false),
        vec![(1000 + delta) as u32 as u64, (2000 + delta) as u32 as u64],
        "stco entries shifted by delta={delta}"
    );
    assert_eq!(read_mdat_payload(&out), mdat_payload.to_vec(), "mdat bytes unchanged");
    assert_eq!(faststart_remux(&out).unwrap(), out, "remux is idempotent");
}

#[test]
fn test_faststart_remux_co64() {
    let ftyp = bx(b"ftyp", b"isom0000");
    let moov = toy_moov(true, &[50_000, 90_000, 130_000]);
    let mdat_payload = [0x77u8; 48];
    let mdat = bx(b"mdat", &mdat_payload);
    let mdat_old_off = ftyp.len() as i64;
    let delta = (ftyp.len() as i64 + moov.len() as i64) - mdat_old_off;

    let mut src = ftyp.clone();
    src.extend_from_slice(&mdat);
    src.extend_from_slice(&moov);

    let out = faststart_remux(&src).unwrap();
    assert!(mp4_moov_before_mdat(&out).unwrap());
    assert_eq!(
        read_chunk_entries(&out, true),
        vec![(50_000 + delta) as u64, (90_000 + delta) as u64, (130_000 + delta) as u64],
        "co64 entries shifted by delta={delta}"
    );
    assert_eq!(read_mdat_payload(&out), mdat_payload.to_vec());
    assert_eq!(faststart_remux(&out).unwrap(), out, "remux is idempotent");
}

#[test]
fn mp4_parse_lists_boxes_in_order() {
    let ftyp = bx(b"ftyp", b"isom0000");
    let mdat = bx(b"mdat", &[1u8; 10]);
    let mut data = ftyp.clone();
    data.extend_from_slice(&mdat);
    let boxes = parse_top_boxes(&data).unwrap();
    assert_eq!(boxes.len(), 2);
    assert_eq!(boxes[0].kind, 0x66747970);
    assert_eq!(boxes[0].offset, 0);
    assert_eq!(boxes[0].size, 16);
    assert_eq!(boxes[1].kind, MDAT);
    assert_eq!(boxes[1].offset, 16);
    assert_eq!(boxes[1].size, 18);
}

#[test]
fn mp4_parse_errors() {
    assert_eq!(parse_top_boxes(&[0, 0, 0, 8]), Err(Mp4Error::TruncatedHeader { offset: 0 }));
    let mut large = vec![0, 0, 0, 1];
    large.extend_from_slice(b"mdat");
    large.extend_from_slice(&[0, 0]);
    assert_eq!(parse_top_boxes(&large), Err(Mp4Error::TruncatedLargeSize { offset: 0 }));
    let small = [0u8, 0, 0, 4, b'f', b'r', b'e', b'e'];
    assert_eq!(
        parse_top_boxes(&small),
        Err(Mp4Error::SizeTooSmall { kind: 0x66726565, size: 4, header: 8 })
    );
    let long = [0u8, 0, 0, 20, b'f', b'r', b'e', b'e'];
    assert_eq!(
        parse_top_boxes(&long),
        Err(Mp4Error::BoxOutOfBounds { kind: 0x66726565, offset: 0, size: 20, len: 8 })
    );
    let ftyp = bx(b"ftyp", b"isom0000");
    assert_eq!(mp4_moov_before_mdat(&ftyp), Err(Mp4Error::MissingMoov));
    let mut no_mdat = ftyp.clone();
    no_mdat.extend_from_slice(&bx(b"moov", &[]));
    assert_eq!(mp4_moov_before_mdat(&no_mdat), Err(Mp4Error::MissingMdat));
    assert_eq!(faststart_remux(&no_mdat), Err(Mp4Error::MissingMdat));
}

#[test]
fn mp4_size_zero_runs_to_end_and_largesize() {
    // size 0: the box runs to the end of the file
    let mut data = bx(b"ftyp", b"isom0000");
    data.extend_from_slice(&[0, 0, 0, 0]);
    data.extend_from_slice(b"mdat");
    data.extend_from_slice(&[9u8; 5]);
    let boxes = parse_top_boxes(&data).unwrap();
    assert_eq!(boxes[1].size, 13);
    // size 1: a 64-bit size follows
    let mut big = vec![0, 0, 0, 1];
    big.extend_from_slice(b"free");
    big.extend_from_slice(&20u64.to_be_bytes());
    big.extend_from_slice(&[0u8; 4]);
    let boxes = parse_top_boxes(&big).unwrap();
    assert_eq!(boxes.len(), 1);
    assert_eq!(boxes[0].size, 20);
}

#[test]
fn mp4_chunk_offsets_shift_and_errors() {
    let mut stco = bx(b"stco", &[0, 0, 0, 0, 0, 0, 0, 2, 0, 0, 0, 10, 0, 0, 1, 0]);
    fix_chunk_offsets(&mut stco, 5, false).unwrap();
    assert_eq!(&stco[16..24], &[0, 0, 0, 15, 0, 0, 1, 5]);

    let mut neg = bx(b"stco", &[0, 0, 0, 0, 0, 0, 0, 1, 0, 0, 0, 3]);
    assert_eq!(
        fix_chunk_offsets(&mut neg, -4, false),
        Err(Mp4Error::ChunkOffsetOutOfRange { value: 3, delta: -4 })
    );
    let mut wide_neg = bx(b"co64", &[0, 0, 0, 0, 0, 0, 0, 1, 0, 0, 0, 0, 0, 0, 0, 3]);
    assert_eq!(
        fix_chunk_offsets(&mut wide_neg, -4, true),
        Err(Mp4Error::ChunkOffsetNegative { value: 3, delta: -4 })
    );
    let mut wide_top = bx(b"co64", &[0, 0, 0, 0, 0, 0, 0, 1, 0x7f, 0xff, 0xff, 0xff, 0xff, 0xff, 0xff, 0xff]);
    assert_eq!(
        fix_chunk_offsets(&mut wide_top, 1, true),
        Err(Mp4Error::ChunkOffsetOverflow { value: 0x7fff_ffff_ffff_ffff, delta: 1 })
    );
    let mut short = vec![0u8; 12];
    assert_eq!(fix_chunk_offsets(&mut short, 1, false), Err(Mp4Error::ChunkTableTooShort { len: 12 }));
    let mut missing = bx(b"stco", &[0, 0, 0, 0, 0, 0, 0, 3, 0, 0, 0, 1]);
    assert_eq!(
        fix_chunk_offsets(&mut missing, 1, false),
        Err(Mp4Error::ChunkEntriesOutOfBounds { count: 3, need: 28, len: 20 })
    );
}

#[test]
fn mp4_moov_tree_fixes_nested_tables() {
    let moov = toy_moov(false, &[100]);
    let mut inner = moov[8..].to_vec();
    fix_moov_tree(&mut inner, 7).unwrap();
    assert_eq!(read_chunk_entries(&inner, false), vec![107]);
    let mut bad = vec![0, 0, 0, 99, b't', b'r', b'a', b'k'];
    assert_eq!(
        fix_moov_tree(&mut bad, 1),
        Err(Mp4Error::NestedBadSize { kind: 0x7472616b, offset: 0 })
    );
    let _ = MOOV;
}

#[test]
fn prepare_video_outcomes() {
    let ftyp = bx(b"ftyp", b"isom0000");
    let mdat = bx(b"mdat", &[7u8; 64]);
    let moov = toy_moov(false, &[16, 40]);
    let fast: Vec<u8> = [ftyp.clone(), moov.clone(), mdat.clone()].concat();
    let slow: Vec<u8> = [ftyp.clone(), mdat.clone(), moov.clone()].concat();

    let (out, what) = prepare_video(fast.clone());
    assert_eq!(what, VideoPrep::AlreadyFaststart);
    assert_eq!(out, fast);

    let (out, what) = prepare_video(slow.clone());
    assert_eq!(what, VideoPrep::Remuxed);
    assert_eq!(out, faststart_remux(&slow).unwrap());
    assert_eq!(mp4_moov_before_mdat(&out), Ok(true));

    let junk = b"this is definitely not an mp4 file at all".to_vec();
    let (out, what) = prepare_video(junk.clone());
    assert!(matches!(what, VideoPrep::CheckFailed(_)));
    assert_eq!(out, junk);
}

#[test]
fn remux_of_size_zero_moov_loses_mdat() {
    // A last `moov` may say size 0 ("to the end of the file"); moved before
    // `mdat`, it then runs over it.
    let ftyp = bx(b"ftyp", b"isom0000");
    let mdat = bx(b"mdat", &[1u8; 32]);
    let mut moov = toy_moov(false, &[16]);
    moov[0..4].copy_from_slice(&0u32.to_be_bytes());
    let file: Vec<u8> = [ftyp, mdat, moov].concat();
    assert_eq!(mp4_moov_before_mdat(&file), Ok(false));
    let out = faststart_remux(&file).unwrap();
    assert_eq!(mp4_moov_before_mdat(&out), Err(Mp4Error::MissingMdat));
}

#[test]
fn remux_result_is_faststart_and_stable() {
    let ftyp = bx(b"ftyp", b"isom0000");
    let free = bx(b"free", b"abcd");
    let mdat = bx(b"mdat", &[9u8; 100]);
    let moov = toy_moov(true, &[24, 60]);
    let file: Vec<u8> = [ftyp, mdat.clone(), free, moov].concat();
    let out = faststart_remux(&file).unwrap();
    assert_eq!(mp4_moov_before_mdat(&out), Ok(true));
    assert_eq!(faststart_remux(&out).unwrap(), out);
    let boxes = parse_top_boxes(&out).unwrap();
    let m = boxes.iter().find(|b| b.kind == MDAT).unwrap();
    assert_eq!(&out[m.offset..m.offset + m.size as usize], &mdat[..]);
}

#[test]
fn mp4_moov_tree_zero_shift_changes_nothing() {
    for wide in [false, true] {
        let moov = toy_moov(wide, &[5, 0xFFFF_FFF0, 1 << 20]);
        let mut inner = moov[8..].to_vec();
        let before = inner.clone();
        assert_eq!(fix_moov_tree(&mut inner, 0), Ok(()));
        assert_eq!(inner, before);
    }
    // A malformed list is left as it was, too.
    let mut bad = vec![0, 0, 0, 99, b't', b'r', b'a', b'k', 1, 2, 3];
    let before = bad.clone();
    assert!(fix_moov_tree(&mut bad, 0).is_err());
    assert_eq!(bad, before);
}

#[test]
fn mp4_moov_tree_shifts_only_reached_entries() {
    // trak holding an stco, followed by a free box whose payload looks like an
    // stco table but is not reached.
    let moov = toy_moov(false, &[100, 200]);
    let mut inner = moov[8..].to_vec();
    let decoy = bx(b"free", &bx(b"stco", &[0, 0, 0, 0, 0, 0, 0, 1, 0, 0, 0, 9]));
    inner.extend_from_slice(&decoy);
    let before = inner.clone();
    fix_moov_tree(&mut inner, 1000).unwrap();
    assert_eq!(read_chunk_entries(&inner, false), vec![1100, 1200]);
    let pos = find_subslice(&before, b"stco").unwrap();
    let first = pos + 12;
    for k in 0..inner.len() {
        if k < first || k >= first + 8 {
            assert_eq!(inner[k], before[k], "byte {k}");
        }
    }
}

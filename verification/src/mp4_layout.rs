//! Why the faststart layout reads back as intended: the rearranged file parses
//! into the same boxes, `moov` now first, `mdat` unchanged, and rearranging it
//! again changes nothing.
use vstd::prelude::*;
use crate::mp4::{
    be32, be64, box_bytes, box_header, concat_after, concat_before, faststart_spec, first_of,
    fix_tree, header_len, law_faststart_keeps_faststart, lemma_first_of, lemma_fix_tree_len,
    lemma_parse_tiles, lemma_tiles_ordered, lemma_tiles_within, moov_before_mdat_spec,
    parse_boxes, parse_boxes_from, reorder_spec, tiles, BoxView, Mp4Error, MDAT, MOOV,
};
use crate::mp4::{covered, entry_width, law_fix_tree_each, shifted_at, tree_entries};

verus! {

// ---------------------------------------------------------------------------
// Files as runs of boxes
// ---------------------------------------------------------------------------

/// The chunks one after the other.
pub open spec fn cat(cs: Seq<Seq<u8>>) -> Seq<u8>
    decreases cs.len(),
{
    if cs.len() == 0 {
        Seq::empty()
    } else {
        cat(cs.drop_last()) + cs.last()
    }
}

/// A chunk that is one whole box on its own: its header gives its length.
pub open spec fn box_chunk(c: Seq<u8>) -> bool {
    &&& c.len() >= 8
    &&& box_header(c, 0).1 == c.len()
    &&& box_header(c, 0).0 <= c.len()
}

/// The boxes that the chunks make when laid out from `pos`.
pub open spec fn chunk_boxes(cs: Seq<Seq<u8>>, pos: int) -> Seq<BoxView>
    decreases cs.len(),
{
    if cs.len() == 0 {
        Seq::empty()
    } else {
        seq![BoxView { kind: be32(cs[0], 4), offset: pos, size: cs[0].len() as int }] + chunk_boxes(
            cs.drop_first(),
            pos + cs[0].len(),
        )
    }
}

/// The bytes of the boxes at the given indices.
pub open spec fn chunks_at(d: Seq<u8>, bs: Seq<BoxView>, idx: Seq<int>) -> Seq<Seq<u8>> {
    idx.map_values(|i: int| box_bytes(d, bs[i]))
}

/// The indices below `n` of the boxes that start before `lim`.
pub open spec fn before_idx(bs: Seq<BoxView>, lim: int, n: int) -> Seq<int>
    decreases n,
{
    if n <= 0 {
        Seq::empty()
    } else {
        let p = before_idx(bs, lim, n - 1);
        if bs[n - 1].offset < lim {
            p.push(n - 1)
        } else {
            p
        }
    }
}

/// The indices below `n` of the boxes that start after `lim` and are not `moov`.
pub open spec fn after_idx(bs: Seq<BoxView>, lim: int, n: int) -> Seq<int>
    decreases n,
{
    if n <= 0 {
        Seq::empty()
    } else {
        let p = after_idx(bs, lim, n - 1);
        if bs[n - 1].offset > lim && bs[n - 1].kind != MOOV as int {
            p.push(n - 1)
        } else {
            p
        }
    }
}

/// The first `moov` box does not use size 0 ("runs to the end of the file"):
/// moved before `mdat`, such a box would swallow everything after it.
pub open spec fn moov_size_given(d: Seq<u8>) -> bool {
    match parse_boxes(d) {
        Ok(bs) => match first_of(bs, MOOV as int) {
            Some(mi) => be32(d, bs[mi].offset) != 0,
            None => true,
        },
        Err(_) => true,
    }
}

/// The bytes of the first `mdat` box, if the file parses and has one.
pub open spec fn first_mdat_bytes(d: Seq<u8>) -> Option<Seq<u8>> {
    match parse_boxes(d) {
        Ok(bs) => match first_of(bs, MDAT as int) {
            Some(di) => Some(box_bytes(d, bs[di])),
            None => None,
        },
        Err(_) => None,
    }
}

// ---------------------------------------------------------------------------
// Lemmas on runs of chunks
// ---------------------------------------------------------------------------

/// The chunks of two runs are those of the first, then the second.
proof fn lemma_cat_concat(a: Seq<Seq<u8>>, b: Seq<Seq<u8>>)
    ensures
        cat(a + b) == cat(a) + cat(b),
    decreases b.len(),
{
    if b.len() == 0 {
        assert(a + b =~= a);
        assert(cat(a) + cat(b) =~= cat(a));
    } else {
        lemma_cat_concat(a, b.drop_last());
        assert((a + b).drop_last() =~= a + b.drop_last());
        assert((a + b).last() == b.last());
        assert(cat(a + b) =~= cat(a) + cat(b));
    }
}

/// One chunk alone.
proof fn lemma_cat_one(c: Seq<u8>)
    ensures
        cat(seq![c]) == c,
{
    assert(seq![c].drop_last() =~= Seq::<Seq<u8>>::empty());
    assert(seq![c].last() == c);
    assert(cat(seq![c].drop_last()) =~= Seq::<u8>::empty());
    assert(cat(seq![c]) =~= c);
}

/// A run is its first chunk, then the rest.
proof fn lemma_cat_first(cs: Seq<Seq<u8>>)
    requires
        cs.len() > 0,
    ensures
        cat(cs) == cs[0] + cat(cs.drop_first()),
{
    assert(cs =~= seq![cs[0]] + cs.drop_first());
    lemma_cat_concat(seq![cs[0]], cs.drop_first());
    lemma_cat_one(cs[0]);
}

/// Where chunk `j` lies in the run.
proof fn lemma_cat_slice(cs: Seq<Seq<u8>>, j: int)
    requires
        0 <= j < cs.len(),
    ensures
        cat(cs) == cat(cs.take(j)) + cs[j] + cat(cs.skip(j + 1)),
{
    assert(cs =~= cs.take(j) + seq![cs[j]] + cs.skip(j + 1));
    lemma_cat_concat(cs.take(j) + seq![cs[j]], cs.skip(j + 1));
    lemma_cat_concat(cs.take(j), seq![cs[j]]);
    lemma_cat_one(cs[j]);
}

/// Bytes that agree give the same header fields.
proof fn lemma_bytes_agree(a: Seq<u8>, pa: int, b: Seq<u8>, pb: int, n: int)
    requires
        8 <= n,
        0 <= pa,
        pa + n <= a.len(),
        0 <= pb,
        pb + n <= b.len(),
        forall|k: int| 0 <= k < n ==> #[trigger] a[pa + k] == b[pb + k],
    ensures
        be32(a, pa) == be32(b, pb),
        be32(a, pa + 4) == be32(b, pb + 4),
        n >= 16 ==> be64(a, pa + 8) == be64(b, pb + 8),
{
    assert(a[pa + 0] == b[pb + 0]);
    assert(a[pa + 1] == b[pb + 1]);
    assert(a[pa + 2] == b[pb + 2]);
    assert(a[pa + 3] == b[pb + 3]);
    assert(a[pa + 4] == b[pb + 4]);
    assert(a[pa + 5] == b[pb + 5]);
    assert(a[pa + 6] == b[pb + 6]);
    assert(a[pa + 7] == b[pb + 7]);
    if n >= 16 {
        assert(a[pa + 8] == b[pb + 8]);
        assert(a[pa + 9] == b[pb + 9]);
        assert(a[pa + 10] == b[pb + 10]);
        assert(a[pa + 11] == b[pb + 11]);
        assert(a[pa + 12] == b[pb + 12]);
        assert(a[pa + 13] == b[pb + 13]);
        assert(a[pa + 14] == b[pb + 14]);
        assert(a[pa + 15] == b[pb + 15]);
    }
}

/// Chunks that are whole boxes, only the last one possibly running to the end,
/// parse as the boxes they make.
proof fn lemma_parse_chunks(x: Seq<u8>, pos: int, cs: Seq<Seq<u8>>)
    requires
        0 <= pos <= x.len(),
        x.subrange(pos, x.len() as int) == cat(cs),
        forall|i: int| 0 <= i < cs.len() ==> box_chunk(#[trigger] cs[i]),
        forall|i: int| 0 <= i < cs.len() - 1 ==> be32(#[trigger] cs[i], 0) != 0,
    ensures
        parse_boxes_from(x, pos) == Ok::<Seq<BoxView>, Mp4Error>(chunk_boxes(cs, pos)),
    decreases cs.len(),
{
    if cs.len() == 0 {
        assert(x.subrange(pos, x.len() as int).len() == 0);
    } else {
        let c = cs[0];
        let rest = cs.drop_first();
        lemma_cat_first(cs);
        assert(box_chunk(cs[0]));
        let n = c.len() as int;
        assert(x.subrange(pos, x.len() as int).len() == x.len() - pos);
        assert(x.len() - pos == n + cat(rest).len());
        assert forall|k: int| 0 <= k < n implies #[trigger] x[pos + k] == c[k] by {
            assert((c + cat(rest))[k] == c[k]);
            assert(x.subrange(pos, x.len() as int)[k] == x[pos + k]);
        }
        lemma_bytes_agree(x, pos, c, 0, if n >= 16 { 16 } else { 8 });
        if be32(c, 0) == 0 {
            if rest.len() > 0 {
                assert(be32(cs[0], 0) != 0);
            }
            assert(cat(rest) =~= Seq::<u8>::empty());
            assert(x.len() - pos == n);
        }
        assert(box_header(x, pos) == box_header(c, 0));
        assert forall|k: int| 0 <= k < cat(rest).len() implies #[trigger] x.subrange(
            pos + n,
            x.len() as int,
        )[k] == cat(rest)[k] by {
            assert(x.subrange(pos, x.len() as int)[n + k] == x[pos + n + k]);
            assert((c + cat(rest))[n + k] == cat(rest)[k]);
        }
        assert(x.subrange(pos + n, x.len() as int) =~= cat(rest));
        assert forall|i: int| 0 <= i < rest.len() implies box_chunk(#[trigger] rest[i]) by {
            assert(rest[i] == cs[i + 1]);
        }
        assert forall|i: int| 0 <= i < rest.len() - 1 implies be32(#[trigger] rest[i], 0) != 0 by {
            assert(rest[i] == cs[i + 1]);
        }
        lemma_parse_chunks(x, pos + n, rest);
    }
}

/// The boxes that chunks make: one per chunk, each where the earlier ones end.
proof fn lemma_chunk_boxes(cs: Seq<Seq<u8>>, pos: int)
    ensures
        chunk_boxes(cs, pos).len() == cs.len(),
        forall|j: int|
            0 <= j < cs.len() ==> #[trigger] chunk_boxes(cs, pos)[j] == (BoxView {
                kind: be32(cs[j], 4),
                offset: pos + cat(cs.take(j)).len(),
                size: cs[j].len() as int,
            }),
    decreases cs.len(),
{
    if cs.len() > 0 {
        let rest = cs.drop_first();
        let c = cs[0];
        lemma_chunk_boxes(rest, pos + c.len());
        assert forall|j: int| 0 <= j < cs.len() implies #[trigger] chunk_boxes(cs, pos)[j] == (BoxView {
            kind: be32(cs[j], 4),
            offset: pos + cat(cs.take(j)).len(),
            size: cs[j].len() as int,
        }) by {
            if j == 0 {
                assert(cs.take(0) =~= Seq::<Seq<u8>>::empty());
            } else {
                assert(chunk_boxes(cs, pos)[j] == chunk_boxes(rest, pos + c.len())[j - 1]);
                assert(cs.take(j) =~= seq![c] + rest.take(j - 1));
                lemma_cat_concat(seq![c], rest.take(j - 1));
                lemma_cat_one(c);
                assert(rest[j - 1] == cs[j]);
            }
        }
    }
}

/// The first box of a kind is the one that has it with none before.
proof fn lemma_first_at(bs: Seq<BoxView>, kind: int, j: int)
    requires
        0 <= j < bs.len(),
        bs[j].kind == kind,
        forall|k: int| 0 <= k < j ==> #[trigger] bs[k].kind != kind,
    ensures
        first_of(bs, kind) == Some(j),
    decreases j,
{
    if j > 0 {
        let t = bs.drop_first();
        assert forall|k: int| 0 <= k < j - 1 implies #[trigger] t[k].kind != kind by {
            assert(t[k] == bs[k + 1]);
        }
        assert(bs[0].kind != kind);
        lemma_first_at(t, kind, j - 1);
    }
}

/// A parsed box on its own is a whole box, with the same header fields; only
/// the last box of the file can use size 0.
proof fn lemma_box_chunk(d: Seq<u8>, bs: Seq<BoxView>, i: int)
    requires
        tiles(d, 0, bs),
        0 <= i < bs.len(),
    ensures
        box_chunk(box_bytes(d, bs[i])),
        be32(box_bytes(d, bs[i]), 0) == be32(d, bs[i].offset),
        be32(box_bytes(d, bs[i]), 4) == bs[i].kind,
        i < bs.len() - 1 ==> be32(d, bs[i].offset) != 0,
{
    let b = bs[i];
    lemma_tiles_within(d, 0, bs, i);
    let c = box_bytes(d, b);
    assert(b.size >= 8);
    assert forall|k: int| 0 <= k < b.size implies #[trigger] c[0 + k] == d[b.offset + k] by {}
    lemma_bytes_agree(c, 0, d, b.offset, if b.size >= 16 { 16 } else { 8 });
    if be32(d, b.offset) == 1 {
        assert(box_header(d, b.offset).0 == 16);
    }
    assert(box_header(c, 0) == box_header(d, b.offset)) by {
        if be32(d, b.offset) == 0 {
            assert(b.size == d.len() - b.offset);
        }
    }
    if i < bs.len() - 1 && be32(d, b.offset) == 0 {
        assert(crate::mp4::adjacent(bs, i));
        lemma_tiles_within(d, 0, bs, i + 1);
        assert(bs[i + 1].size >= 8);
    }
}

/// The boxes before `lim`, as chunks.
proof fn lemma_before_idx(d: Seq<u8>, bs: Seq<BoxView>, lim: int, n: int)
    requires
        0 <= n <= bs.len(),
    ensures
        concat_before(d, bs.take(n), lim) == cat(chunks_at(d, bs, before_idx(bs, lim, n))),
        forall|k: int|
            0 <= k < before_idx(bs, lim, n).len() ==> 0 <= #[trigger] before_idx(bs, lim, n)[k] < n
                && bs[before_idx(bs, lim, n)[k]].offset < lim,
    decreases n,
{
    if n == 0 {
        assert(bs.take(0) =~= Seq::<BoxView>::empty());
        assert(chunks_at(d, bs, Seq::<int>::empty()) =~= Seq::<Seq<u8>>::empty());
    } else {
        lemma_before_idx(d, bs, lim, n - 1);
        assert(bs.take(n).drop_last() =~= bs.take(n - 1));
        assert(bs.take(n).last() == bs[n - 1]);
        let p = before_idx(bs, lim, n - 1);
        if bs[n - 1].offset < lim {
            assert(chunks_at(d, bs, p.push(n - 1)) =~= chunks_at(d, bs, p).push(box_bytes(d, bs[n - 1])));
            assert(chunks_at(d, bs, p).push(box_bytes(d, bs[n - 1])).drop_last() =~= chunks_at(d, bs, p));
        } else {
            assert(concat_before(d, bs.take(n), lim) =~= concat_before(d, bs.take(n - 1), lim));
        }
    }
}

/// The boxes after `lim` other than `moov`, as chunks, in increasing order.
proof fn lemma_after_idx(d: Seq<u8>, bs: Seq<BoxView>, lim: int, n: int)
    requires
        0 <= n <= bs.len(),
    ensures
        concat_after(d, bs.take(n), lim) == cat(chunks_at(d, bs, after_idx(bs, lim, n))),
        forall|k: int|
            0 <= k < after_idx(bs, lim, n).len() ==> 0 <= #[trigger] after_idx(bs, lim, n)[k] < n
                && bs[after_idx(bs, lim, n)[k]].offset > lim,
        forall|k: int, l: int|
            0 <= k < l < after_idx(bs, lim, n).len() ==> #[trigger] after_idx(bs, lim, n)[k]
                < #[trigger] after_idx(bs, lim, n)[l],
    decreases n,
{
    if n == 0 {
        assert(bs.take(0) =~= Seq::<BoxView>::empty());
        assert(chunks_at(d, bs, Seq::<int>::empty()) =~= Seq::<Seq<u8>>::empty());
    } else {
        lemma_after_idx(d, bs, lim, n - 1);
        assert(bs.take(n).drop_last() =~= bs.take(n - 1));
        assert(bs.take(n).last() == bs[n - 1]);
        let p = after_idx(bs, lim, n - 1);
        if bs[n - 1].offset > lim && bs[n - 1].kind != MOOV as int {
            assert(chunks_at(d, bs, p.push(n - 1)) =~= chunks_at(d, bs, p).push(box_bytes(d, bs[n - 1])));
            assert(chunks_at(d, bs, p).push(box_bytes(d, bs[n - 1])).drop_last() =~= chunks_at(d, bs, p));
            assert forall|k: int, l: int|
                0 <= k < l < p.push(n - 1).len() implies #[trigger] p.push(n - 1)[k]
                    < #[trigger] p.push(n - 1)[l] by {
                if l == p.len() {
                    assert(p[k] < n - 1);
                } else {
                    assert(p[k] < p[l]);
                }
            }
        } else {
            assert(concat_after(d, bs.take(n), lim) =~= concat_after(d, bs.take(n - 1), lim));
        }
    }
}

/// The boxes before `lim`, laid end to end, are as long as their sizes add up to.
proof fn lemma_concat_before_len(d: Seq<u8>, bs: Seq<BoxView>, lim: int)
    requires
        forall|i: int|
            0 <= i < bs.len() ==> 0 <= #[trigger] bs[i].offset && bs[i].offset + bs[i].size <= d.len()
                && bs[i].size >= 0,
    ensures
        concat_before(d, bs, lim).len() == crate::mp4::sum_before(bs, lim),
    decreases bs.len(),
{
    if bs.len() > 0 {
        let p = bs.drop_last();
        assert forall|i: int| 0 <= i < p.len() implies 0 <= #[trigger] p[i].offset && p[i].offset + p[i].size
            <= d.len() && p[i].size >= 0 by {
            assert(p[i] == bs[i]);
        }
        lemma_concat_before_len(d, p, lim);
        assert(bs.last() == bs[bs.len() - 1]);
    }
}

// ---------------------------------------------------------------------------
// The law
// ---------------------------------------------------------------------------

/// The moved `moov`: its header and length as before, its body with the chunk
/// offsets shifted.
proof fn lemma_moved_moov(d: Seq<u8>, bs: Seq<BoxView>, mi: int, delta: int)
    requires
        tiles(d, 0, bs),
        0 <= mi < bs.len(),
        be32(d, bs[mi].offset) != 0,
        fix_tree(
            box_bytes(d, bs[mi]).subrange(
                header_len(box_bytes(d, bs[mi])),
                box_bytes(d, bs[mi]).len() as int,
            ),
            delta,
            0,
        ).1 is Ok,
    ensures
        ({
            let mb = box_bytes(d, bs[mi]);
            let h = header_len(mb);
            let m2 = mb.subrange(0, h) + fix_tree(mb.subrange(h, mb.len() as int), delta, 0).0;
            &&& box_chunk(m2)
            &&& be32(m2, 0) != 0
            &&& be32(m2, 4) == bs[mi].kind
            &&& m2.len() == mb.len()
        }),
{
    let mb = box_bytes(d, bs[mi]);
    let h = header_len(mb);
    lemma_box_chunk(d, bs, mi);
    let t = fix_tree(mb.subrange(h, mb.len() as int), delta, 0);
    lemma_fix_tree_len(mb.subrange(h, mb.len() as int), delta, 0);
    let m2 = mb.subrange(0, h) + t.0;
    assert(m2.len() == mb.len());
    assert forall|k: int| 0 <= k < h implies #[trigger] m2[0 + k] == mb[0 + k] by {}
    lemma_bytes_agree(m2, 0, mb, 0, h);
    assert(box_header(m2, 0) == box_header(mb, 0));
}

/// The rearranged file as a run of whole boxes: those before `mdat`, the moved
/// `moov`, `mdat`, and the rest but `moov`; only the last may use size 0.
#[verifier::rlimit(50)]
#[verifier::spinoff_prover]
proof fn lemma_reordered(d: Seq<u8>) -> (r: (Seq<Seq<u8>>, int))
    requires
        moov_before_mdat_spec(d) == Ok::<bool, Mp4Error>(false),
        faststart_spec(d) is Ok,
        moov_size_given(d),
    ensures
        faststart_spec(d) == Ok::<Seq<u8>, Mp4Error>(cat(r.0)),
        0 <= r.1,
        r.1 + 2 <= r.0.len(),
        forall|i: int| 0 <= i < r.0.len() ==> box_chunk(#[trigger] r.0[i]),
        forall|i: int| 0 <= i < r.0.len() - 1 ==> be32(#[trigger] r.0[i], 0) != 0,
        forall|k: int| 0 <= k < r.1 ==> be32(#[trigger] r.0[k], 4) != MOOV as int && be32(r.0[k], 4) != MDAT as int,
        be32(r.0[r.1], 4) == MOOV as int,
        be32(r.0[r.1 + 1], 4) == MDAT as int,
        first_mdat_bytes(d) == Some(r.0[r.1 + 1]),
        ({
            let bs = parse_boxes(d)->Ok_0;
            let mi = first_of(bs, MOOV as int)->Some_0;
            let di = first_of(bs, MDAT as int)->Some_0;
            let mb = box_bytes(d, bs[mi]);
            let h = header_len(mb);
            let t = fix_tree(mb.subrange(h, mb.len() as int), cat(r.0.take(r.1)).len() + mb.len() - bs[di].offset, 0);
            &&& t.1 is Ok
            &&& r.0[r.1] == mb.subrange(0, h) + t.0
            &&& r.0[r.1].len() == mb.len()
        }),
{
    let bs = parse_boxes(d)->Ok_0;
    lemma_parse_tiles(d, 0);
    lemma_first_of(bs, MOOV as int);
    lemma_first_of(bs, MDAT as int);
    let mi = first_of(bs, MOOV as int)->Some_0;
    let di = first_of(bs, MDAT as int)->Some_0;
    let moov = bs[mi];
    let mdat = bs[di];
    if mi < di {
        lemma_tiles_ordered(d, 0, bs, mi, di);
    }
    assert(di < mi);
    let lim = mdat.offset;
    let delta = crate::mp4::sum_before(bs, lim) + moov.size - lim;
    let mb = box_bytes(d, moov);
    let h = header_len(mb);
    let t = fix_tree(mb.subrange(h, mb.len() as int), delta, 0);
    let md = box_bytes(d, mdat);
    assert(t.1 is Ok && faststart_spec(d) == Ok::<Seq<u8>, Mp4Error>(
        concat_before(d, bs, lim) + mb.subrange(0, h) + t.0 + md + concat_after(d, bs, lim),
    )) by {
        reveal(reorder_spec);
    }
    let m2 = mb.subrange(0, h) + t.0;
    lemma_moved_moov(d, bs, mi, delta);
    lemma_box_chunk(d, bs, di);
    let n = bs.len() as int;
    lemma_before_idx(d, bs, lim, n);
    lemma_after_idx(d, bs, lim, n);
    assert(bs.take(n) =~= bs);
    let bi = before_idx(bs, lim, n);
    let ai = after_idx(bs, lim, n);
    let cb = chunks_at(d, bs, bi);
    let ca = chunks_at(d, bs, ai);
    let cs = cb + seq![m2, md] + ca;
    lemma_cat_concat(cb + seq![m2, md], ca);
    lemma_cat_concat(cb, seq![m2, md]);
    lemma_cat_first(seq![m2, md]);
    assert(seq![m2, md].drop_first() =~= seq![md]);
    lemma_cat_one(md);
    assert(concat_before(d, bs, lim) + mb.subrange(0, h) + t.0 + md + concat_after(d, bs, lim) =~= cat(cs));
    let nb = cb.len() as int;
    // Boxes before `mdat` come before it in the list too.
    assert forall|k: int| 0 <= k < nb implies #[trigger] bi[k] < di by {
        if bi[k] > di {
            lemma_tiles_ordered(d, 0, bs, di, bi[k]);
        }
    }
    assert forall|i: int| 0 <= i < cs.len() implies box_chunk(#[trigger] cs[i]) by {
        if i < nb {
            lemma_box_chunk(d, bs, bi[i]);
        } else if i >= nb + 2 {
            lemma_box_chunk(d, bs, ai[i - nb - 2]);
        }
    }
    assert forall|i: int| 0 <= i < cs.len() - 1 implies be32(#[trigger] cs[i], 0) != 0 by {
        if i < nb {
            lemma_box_chunk(d, bs, bi[i]);
        } else if i >= nb + 2 {
            let k = i - nb - 2;
            assert(ai[k] < ai[ca.len() - 1]);
            lemma_box_chunk(d, bs, ai[k]);
        }
    }
    assert forall|k: int| 0 <= k < nb implies be32(#[trigger] cs[k], 4) != MOOV as int && be32(cs[k], 4)
        != MDAT as int by {
        lemma_box_chunk(d, bs, bi[k]);
        assert(cs[k] == box_bytes(d, bs[bi[k]]));
    }
    // `mdat` moves to where the boxes before it and `moov` end.
    assert(cat(cs.take(nb)).len() + mb.len() - lim == delta) by {
        assert(cs.take(nb) =~= cb);
        assert forall|i: int| 0 <= i < bs.len() implies 0 <= #[trigger] bs[i].offset && bs[i].offset
            + bs[i].size <= d.len() && bs[i].size >= 0 by {
            lemma_tiles_within(d, 0, bs, i);
        }
        lemma_concat_before_len(d, bs, lim);
    }
    assert(cs[nb] == m2);
    (cs, nb)
}

/// A rearranged file has `moov` before `mdat`, holds the same `mdat` bytes, and
/// is left as it is when rearranged again. This holds unless the first `moov`
/// uses size 0 (the only input on which it fails: moved before `mdat`, that
/// box would run to the end of the new file).
pub proof fn law_faststart_result(d: Seq<u8>, out: Seq<u8>)
    requires
        faststart_spec(d) == Ok::<Seq<u8>, Mp4Error>(out),
        moov_size_given(d),
    ensures
        moov_before_mdat_spec(out) == Ok::<bool, Mp4Error>(true),
        faststart_spec(out) == Ok::<Seq<u8>, Mp4Error>(out),
        first_mdat_bytes(out) == first_mdat_bytes(d),
{
    assert(moov_before_mdat_spec(d) is Ok) by {
        reveal(reorder_spec);
    }
    if moov_before_mdat_spec(d) == Ok::<bool, Mp4Error>(true) {
        law_faststart_keeps_faststart(d);
        return;
    }
    let (cs, nb) = lemma_reordered(d);
    assert(out.subrange(0, out.len() as int) =~= out);
    lemma_parse_chunks(out, 0, cs);
    let obs = chunk_boxes(cs, 0);
    lemma_chunk_boxes(cs, 0);
    assert forall|k: int| 0 <= k < nb implies #[trigger] obs[k].kind != MOOV as int by {
        assert(obs[k].kind == be32(cs[k], 4));
    }
    assert forall|k: int| 0 <= k < nb + 1 implies #[trigger] obs[k].kind != MDAT as int by {
        assert(obs[k].kind == be32(cs[k], 4));
    }
    assert(obs[nb].kind == MOOV as int);
    assert(obs[nb + 1].kind == MDAT as int);
    lemma_first_at(obs, MOOV as int, nb);
    lemma_first_at(obs, MDAT as int, nb + 1);
    assert(cs.take(nb + 1) =~= cs.take(nb).push(cs[nb]));
    assert(cs.take(nb + 1).drop_last() =~= cs.take(nb));
    assert(obs[nb].offset < obs[nb + 1].offset);
    assert(moov_before_mdat_spec(out) == Ok::<bool, Mp4Error>(true));
    law_faststart_keeps_faststart(out);
    lemma_cat_slice(cs, nb + 1);
    assert(box_bytes(out, obs[nb + 1]) =~= cs[nb + 1]);
}

/// Where `moov` and `mdat` land in the rearranged file, and what `moov` holds.
#[verifier::spinoff_prover]
#[verifier::rlimit(50)]
proof fn lemma_moved_layout(d: Seq<u8>, out: Seq<u8>) -> (r: (int, int))
    requires
        faststart_spec(d) == Ok::<Seq<u8>, Mp4Error>(out),
        moov_size_given(d),
        moov_before_mdat_spec(d) == Ok::<bool, Mp4Error>(false),
    ensures
        parse_boxes(out) is Ok,
        first_of(parse_boxes(out)->Ok_0, MOOV as int) == Some(r.0),
        first_of(parse_boxes(out)->Ok_0, MDAT as int) == Some(r.1),
        ({
            let bs = parse_boxes(d)->Ok_0;
            let mb = box_bytes(d, bs[first_of(bs, MOOV as int)->Some_0]);
            let obs = parse_boxes(out)->Ok_0;
            let delta = obs[r.1].offset - bs[first_of(bs, MDAT as int)->Some_0].offset;
            let h = header_len(mb);
            let t = fix_tree(mb.subrange(h, mb.len() as int), delta, 0);
            &&& h <= mb.len()
            &&& t.1 is Ok
            &&& box_bytes(out, obs[r.0]) == mb.subrange(0, h) + t.0
        }),
{
    let (cs, n) = lemma_reordered(d);
    let bs = parse_boxes(d)->Ok_0;
    let mi = first_of(bs, MOOV as int)->Some_0;
    let di = first_of(bs, MDAT as int)->Some_0;
    let mb = box_bytes(d, bs[mi]);
    let h = header_len(mb);
    let obs = chunk_boxes(cs, 0);
    assert(parse_boxes(out) == Ok::<Seq<BoxView>, Mp4Error>(obs) && first_of(obs, MOOV as int) == Some(n)
        && first_of(obs, MDAT as int) == Some(n + 1) && obs[n + 1].offset == cat(cs.take(n)).len()
        + cs[n].len() && box_bytes(out, obs[n]) == cs[n]) by {
        assert(out.subrange(0, out.len() as int) =~= out);
        lemma_parse_chunks(out, 0, cs);
        lemma_chunk_boxes(cs, 0);
        assert forall|k: int| 0 <= k < n implies #[trigger] obs[k].kind != MOOV as int by {
            assert(obs[k].kind == be32(cs[k], 4));
        }
        assert forall|k: int| 0 <= k < n + 1 implies #[trigger] obs[k].kind != MDAT as int by {
            assert(obs[k].kind == be32(cs[k], 4));
        }
        lemma_first_at(obs, MOOV as int, n);
        lemma_first_at(obs, MDAT as int, n + 1);
        assert(cs.take(n + 1).drop_last() =~= cs.take(n));
        assert(cs.take(n + 1).last() == cs[n]);
        lemma_cat_slice(cs, n);
        assert(box_bytes(out, obs[n]) =~= cs[n]);
    }
    let payload = mb.subrange(h, mb.len() as int);
    let delta = obs[n + 1].offset - bs[di].offset;
    assert(h <= mb.len()) by {
        lemma_parse_tiles(d, 0);
        lemma_first_of(bs, MOOV as int);
        lemma_box_chunk(d, bs, mi);
    }
    assert(fix_tree(payload, delta, 0).1 is Ok && box_bytes(out, obs[n]) == mb.subrange(0, h) + fix_tree(
        payload,
        delta,
        0,
    ).0) by {
        let dl = cat(cs.take(n)).len() + mb.len() - bs[di].offset;
        assert(cs[n].len() == mb.len());
        assert(delta == dl);
    }
    (n, n + 1)
}

/// When `moov` followed `mdat`, the rearranged file's `moov` is the old one
/// with its chunk offsets shifted by exactly the distance `mdat` moved: from
/// its offset in the old file to its offset in the new one. Every entry of every
/// `stco`/`co64` box reached through container boxes holds its old value plus
/// that distance; every other byte of `moov` is as it was. (As for
/// `law_faststart_result`, the first `moov` must not use size 0.)
pub proof fn law_faststart_shifts_chunks(d: Seq<u8>, out: Seq<u8>)
    requires
        faststart_spec(d) == Ok::<Seq<u8>, Mp4Error>(out),
        moov_size_given(d),
        moov_before_mdat_spec(d) == Ok::<bool, Mp4Error>(false),
    ensures
        parse_boxes(out) is Ok,
        first_of(parse_boxes(out)->Ok_0, MOOV as int) is Some,
        first_of(parse_boxes(out)->Ok_0, MDAT as int) is Some,
        ({
            let bs = parse_boxes(d)->Ok_0;
            let mb = box_bytes(d, bs[first_of(bs, MOOV as int)->Some_0]);
            let old_mdat = bs[first_of(bs, MDAT as int)->Some_0].offset;
            let obs = parse_boxes(out)->Ok_0;
            let nb = box_bytes(out, obs[first_of(obs, MOOV as int)->Some_0]);
            let new_mdat = obs[first_of(obs, MDAT as int)->Some_0].offset;
            let delta = new_mdat - old_mdat;
            let h = header_len(mb);
            let payload = mb.subrange(h, mb.len() as int);
            &&& nb.len() == mb.len()
            &&& nb.subrange(0, h) == mb.subrange(0, h)
            &&& fix_tree(payload, delta, 0).1 is Ok
            &&& nb.subrange(h, nb.len() as int) == fix_tree(payload, delta, 0).0
            &&& forall|e: (int, bool)| #[trigger]
                tree_entries(payload).contains(e) ==> nb.subrange(h + e.0, h + e.0 + entry_width(e.1))
                    == shifted_at(payload, e.0, delta, e.1)
            &&& forall|k: int|
                0 <= k < payload.len() && !covered(tree_entries(payload), k) ==> #[trigger] nb[h + k]
                    == payload[k]
        }),
{
    let (omi, odi) = lemma_moved_layout(d, out);
    let bs = parse_boxes(d)->Ok_0;
    let mb = box_bytes(d, bs[first_of(bs, MOOV as int)->Some_0]);
    let obs = parse_boxes(out)->Ok_0;
    let nb = box_bytes(out, obs[first_of(obs, MOOV as int)->Some_0]);
    let delta = obs[first_of(obs, MDAT as int)->Some_0].offset - bs[first_of(bs, MDAT as int)->Some_0].offset;
    let h = header_len(mb);
    let payload = mb.subrange(h, mb.len() as int);
    let t = fix_tree(payload, delta, 0);
    lemma_fix_tree_len(payload, delta, 0);
    law_fix_tree_each(payload, delta, 0);
    assert(nb.subrange(0, h) =~= mb.subrange(0, h));
    assert(nb.subrange(h, nb.len() as int) =~= t.0);
    assert forall|e: (int, bool)| #[trigger] tree_entries(payload).contains(e) implies nb.subrange(
        h + e.0,
        h + e.0 + entry_width(e.1),
    ) == shifted_at(payload, e.0, delta, e.1) by {
        assert(nb.subrange(h + e.0, h + e.0 + entry_width(e.1)) =~= t.0.subrange(e.0, e.0 + entry_width(e.1)));
    }
    assert forall|k: int| 0 <= k < payload.len() && !covered(tree_entries(payload), k) implies #[trigger] nb[h
        + k] == payload[k] by {
        assert(nb[h + k] == t.0[k]);
    }
}

} // verus!

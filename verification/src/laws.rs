//! Laws of the reassembly model.
//!
//! The central result is chunk-boundary independence: however the same
//! byte stream is split into chunks, the emitted fragments carry the same
//! bytes and the buffer and atom caches end in the same state.  Two
//! supporting lemmas carry the proof: draining commutes with appending
//! more bytes, and draining is indifferent to the aggregated metadata as
//! far as bytes are concerned.

use crate::atom::{atom_size_of, atom_type_of, is_complete_atom, ATOM_TYPE_MDAT};
use crate::meta::{empty_meta, ChunkMeta, FragmentMeta};
use crate::parser::{bad_front_length, can_pop, pending_mdat};
use crate::state::{drain, route_atom, step, OutputModel, StateModel};
use vstd::prelude::*;

verus! {

/// The byte-level parts of two states agree: same buffered bytes, same
/// cached atoms.  The aggregated metadata is left free.
pub open spec fn same_framing(a: StateModel, b: StateModel) -> bool {
    &&& a.buf == b.buf
    &&& a.ftype == b.ftype
    &&& a.moov == b.moov
    &&& a.moof == b.moof
}

/// The bytes of a sequence of emitted fragments, their metadata dropped.
pub open spec fn out_bytes(outs: Seq<OutputModel>) -> Seq<Seq<u8>> {
    outs.map_values(|o: OutputModel| o.bytes)
}

/// Draining commutes with appending more bytes: draining a buffer extended
/// by `extra` extracts first exactly what the unextended buffer yields,
/// then continues on the leftover with `extra` appended.
pub proof fn lemma_drain_extend(s: StateModel, extra: Seq<u8>)
    ensures
        ({
            let r1 = drain(s);
            let r2 = drain(StateModel { buf: r1.state.buf + extra, ..r1.state });
            let whole = drain(StateModel { buf: s.buf + extra, ..s });
            &&& whole.state == r2.state
            &&& whole.outs == r1.outs + r2.outs
            &&& whole.err == r2.err
            &&& (r1.err ==> r2.err)
        }),
    decreases s.buf.len(),
{
    let r1 = drain(s);
    let r2 = drain(StateModel { buf: r1.state.buf + extra, ..r1.state });
    let whole = drain(StateModel { buf: s.buf + extra, ..s });
    let ext = StateModel { buf: s.buf + extra, ..s };
    assert(forall|j: int| 0 <= j < s.buf.len() ==> ext.buf[j] == s.buf[j]);
    if bad_front_length(s.buf) {
        crate::atom::lemma_be_u32_prefix(s.buf, ext.buf, 0);
        assert(bad_front_length(ext.buf));
        assert(whole.outs =~= r1.outs + r2.outs);
    } else if !can_pop(s.buf) {
        assert(whole.outs =~= r1.outs + r2.outs);
    } else {
        let size = atom_size_of(s.buf);
        crate::atom::lemma_be_u32_prefix(s.buf, ext.buf, 0);
        assert(can_pop(ext.buf));
        let atom = s.buf.take(size);
        assert(ext.buf.take(size) =~= atom);
        let routed = route_atom(s, atom);
        let routed_ext = route_atom(ext, atom);
        let s1 = StateModel { buf: s.buf.skip(size), ..routed.0 };
        let s1_ext = StateModel { buf: ext.buf.skip(size), ..routed_ext.0 };
        assert(ext.buf.skip(size) =~= s.buf.skip(size) + extra);
        assert(routed_ext.1 == routed.1);
        assert(s1_ext == StateModel { buf: s1.buf + extra, ..s1 });
        lemma_drain_extend(s1, extra);
        let r1n = drain(s1);
        let r2n = drain(StateModel { buf: r1n.state.buf + extra, ..r1n.state });
        assert(r1.state == r1n.state);
        assert(r2 == r2n);
        assert(whole.state == r2.state);
        match routed.1 {
            Some(o) => {
                assert(whole.outs =~= (seq![o] + r1n.outs) + r2n.outs);
                assert(r1.outs == seq![o] + r1n.outs);
            },
            None => {
                assert(whole.outs == r1n.outs + r2n.outs);
                assert(r1.outs == r1n.outs);
            },
        }
        assert(whole.outs == r1.outs + r2.outs);
    }
}

/// Draining reads and writes the aggregated metadata only to stamp it onto
/// emitted fragments: two states with the same framing drain to states
/// with the same framing, the same error, and outputs equal in bytes.
pub proof fn lemma_drain_meta_free(a: StateModel, b: StateModel)
    requires
        same_framing(a, b),
    ensures
        ({
            let ra = drain(a);
            let rb = drain(b);
            &&& same_framing(ra.state, rb.state)
            &&& ra.err == rb.err
            &&& out_bytes(ra.outs) == out_bytes(rb.outs)
        }),
    decreases a.buf.len(),
{
    let ra = drain(a);
    let rb = drain(b);
    if bad_front_length(a.buf) {
        assert(out_bytes(ra.outs) =~= out_bytes(rb.outs));
    } else if !can_pop(a.buf) {
        assert(out_bytes(ra.outs) =~= out_bytes(rb.outs));
    } else {
        let size = atom_size_of(a.buf);
        let atom = a.buf.take(size);
        let ra0 = route_atom(a, atom);
        let rb0 = route_atom(b, atom);
        let a1 = StateModel { buf: a.buf.skip(size), ..ra0.0 };
        let b1 = StateModel { buf: b.buf.skip(size), ..rb0.0 };
        assert(same_framing(a1, b1));
        lemma_drain_meta_free(a1, b1);
        let ran = drain(a1);
        let rbn = drain(b1);
        match ra0.1 {
            Some(oa) => {
                let ob = rb0.1.unwrap();
                assert(oa.bytes == ob.bytes);
                assert(out_bytes(ra.outs) =~= seq![oa.bytes] + out_bytes(ran.outs));
                assert(out_bytes(rb.outs) =~= seq![ob.bytes] + out_bytes(rbn.outs));
            },
            None => {
                assert(rb0.1 is None);
                assert(out_bytes(ra.outs) =~= out_bytes(ran.outs));
                assert(out_bytes(rb.outs) =~= out_bytes(rbn.outs));
            },
        }
    }
}

/// The aggregated metadata of the state and the chunk metadata handed to a
/// step influence only the metadata stamped onto emitted fragments, never
/// their bytes, the final buffer, the caches, or the outcome.
pub proof fn lemma_step_meta_free(
    a: StateModel,
    b: StateModel,
    chunk: Seq<u8>,
    ma: ChunkMeta,
    mb: ChunkMeta,
)
    requires
        same_framing(a, b),
        ma.pts is Some,
        mb.pts is Some,
    ensures
        ({
            let ra = step(a, chunk, ma);
            let rb = step(b, chunk, mb);
            &&& same_framing(ra.state, rb.state)
            &&& out_bytes(ra.outs) == out_bytes(rb.outs)
            &&& ra.err == rb.err
        }),
{
    let ba = a.buf + chunk;
    let merged_a = if pending_mdat(ba) {
        crate::meta::merge_meta(a.meta, ma)
    } else {
        a.meta
    };
    let merged_b = if pending_mdat(ba) {
        crate::meta::merge_meta(b.meta, mb)
    } else {
        b.meta
    };
    lemma_drain_meta_free(
        StateModel { buf: ba, meta: merged_a, ..a },
        StateModel { buf: ba, meta: merged_b, ..b },
    );
}

/// Feeding the same chunks from two states that agree on buffer and
/// caches emits byte-identical fragments and ends in states that again
/// agree on buffer and caches, whatever the metadata on either side.
pub proof fn lemma_feed_meta_free(
    a: StateModel,
    b: StateModel,
    chunks: Seq<Seq<u8>>,
    metas_a: Seq<ChunkMeta>,
    metas_b: Seq<ChunkMeta>,
)
    requires
        same_framing(a, b),
        chunks.len() == metas_a.len(),
        chunks.len() == metas_b.len(),
        forall|i: int| 0 <= i < metas_a.len() ==> (#[trigger] metas_a[i]).pts is Some,
        forall|i: int| 0 <= i < metas_b.len() ==> (#[trigger] metas_b[i]).pts is Some,
    ensures
        ({
            let ra = feed(a, chunks, metas_a);
            let rb = feed(b, chunks, metas_b);
            &&& same_framing(ra.state, rb.state)
            &&& out_bytes(ra.outs) == out_bytes(rb.outs)
        }),
    decreases chunks.len(),
{
    let ra = feed(a, chunks, metas_a);
    let rb = feed(b, chunks, metas_b);
    if chunks.len() == 0 {
        assert(out_bytes(ra.outs) =~= out_bytes(rb.outs));
    } else {
        let fa = step(a, chunks[0], metas_a[0]);
        let fb = step(b, chunks[0], metas_b[0]);
        lemma_step_meta_free(a, b, chunks[0], metas_a[0], metas_b[0]);
        let rest_a = metas_a.skip(1);
        let rest_b = metas_b.skip(1);
        assert(forall|i: int| 0 <= i < rest_a.len() ==> (#[trigger] rest_a[i]) == metas_a[i + 1]);
        assert(forall|i: int| 0 <= i < rest_b.len() ==> (#[trigger] rest_b[i]) == metas_b[i + 1]);
        lemma_feed_meta_free(fa.state, fb.state, chunks.skip(1), rest_a, rest_b);
        let na = feed(fa.state, chunks.skip(1), rest_a);
        let nb = feed(fb.state, chunks.skip(1), rest_b);
        assert(out_bytes(ra.outs) =~= out_bytes(fa.outs) + out_bytes(na.outs));
        assert(out_bytes(rb.outs) =~= out_bytes(fb.outs) + out_bytes(nb.outs));
    }
}

/// Feeding one chunk cut in two equals feeding it whole, up to the
/// metadata stamped onto the emitted fragments: the final buffer, the
/// caches, the outcome, and the bytes of every fragment agree.
pub proof fn lemma_step_split(
    s: StateModel,
    c1: Seq<u8>,
    c2: Seq<u8>,
    m1: ChunkMeta,
    m2: ChunkMeta,
    m: ChunkMeta,
)
    requires
        m1.pts is Some,
        m2.pts is Some,
        m.pts is Some,
    ensures
        ({
            let whole = step(s, c1 + c2, m);
            let r1 = step(s, c1, m1);
            let r2 = step(r1.state, c2, m2);
            &&& same_framing(whole.state, r2.state)
            &&& out_bytes(whole.outs) == out_bytes(r1.outs) + out_bytes(r2.outs)
            &&& whole.err == r2.err
        }),
{
    let whole = step(s, c1 + c2, m);
    let r1 = step(s, c1, m1);
    let r2 = step(r1.state, c2, m2);
    let b1 = s.buf + c1;
    let merged1 = if pending_mdat(b1) {
        crate::meta::merge_meta(s.meta, m1)
    } else {
        s.meta
    };
    let first_arg = StateModel { buf: b1, meta: merged1, ..s };
    let d1 = drain(first_arg);
    assert(r1.state == d1.state && r1.outs == d1.outs);
    lemma_drain_extend(first_arg, c2);
    let ext_arg = StateModel { buf: d1.state.buf + c2, ..d1.state };
    let d_ext = drain(ext_arg);
    let whole_arg_1 = StateModel { buf: first_arg.buf + c2, ..first_arg };
    let whole_ext = drain(whole_arg_1);

    let bw = s.buf + (c1 + c2);
    let mergedw = if pending_mdat(bw) {
        crate::meta::merge_meta(s.meta, m)
    } else {
        s.meta
    };
    let whole_arg = StateModel { buf: bw, meta: mergedw, ..s };
    assert(bw =~= b1 + c2);
    assert(same_framing(whole_arg, whole_arg_1));
    lemma_drain_meta_free(whole_arg, whole_arg_1);
    let dw = drain(whole_arg);
    assert(whole.state == dw.state && whole.outs == dw.outs);

    let b2 = r1.state.buf + c2;
    let merged2 = if pending_mdat(b2) {
        crate::meta::merge_meta(r1.state.meta, m2)
    } else {
        r1.state.meta
    };
    let second_arg = StateModel { buf: b2, meta: merged2, ..r1.state };
    assert(same_framing(second_arg, ext_arg));
    lemma_drain_meta_free(second_arg, ext_arg);
    let d2 = drain(second_arg);
    assert(r2.state == d2.state && r2.outs == d2.outs);

    assert(out_bytes(whole_ext.outs) =~= out_bytes(d1.outs) + out_bytes(d_ext.outs));
    assert(out_bytes(whole.outs) == out_bytes(r1.outs) + out_bytes(r2.outs));
    assert(whole.err == r2.err);
}

/// The result of feeding a run of chunks, each with its metadata, in order.
pub ghost struct FeedResult {
    pub state: StateModel,
    pub outs: Seq<OutputModel>,
}

/// Feeds the chunks one step at a time, collecting every emitted fragment.
pub open spec fn feed(s: StateModel, chunks: Seq<Seq<u8>>, metas: Seq<ChunkMeta>) -> FeedResult
    recommends
        chunks.len() == metas.len(),
    decreases chunks.len(),
{
    if chunks.len() == 0 {
        FeedResult { state: s, outs: Seq::empty() }
    } else {
        let first = step(s, chunks[0], metas[0]);
        let rest = feed(first.state, chunks.skip(1), metas.skip(1));
        FeedResult { state: rest.state, outs: first.outs + rest.outs }
    }
}

/// The chunks joined back into one byte stream.
pub open spec fn concat_chunks(chunks: Seq<Seq<u8>>) -> Seq<u8>
    decreases chunks.len(),
{
    if chunks.len() == 0 {
        Seq::empty()
    } else {
        chunks[0] + concat_chunks(chunks.skip(1))
    }
}

/// Chunk boundaries do not matter: feeding a byte stream as any non-empty
/// run of chunks emits fragments with exactly the bytes emitted when the
/// whole stream arrives as one chunk, and leaves the buffer and the cached
/// atoms in the same state.  (The metadata stamped onto the fragments
/// aggregates per contributing chunk and so depends on the chunking; the
/// merge laws pin it down.)
pub proof fn lemma_chunking_independent(
    s: StateModel,
    chunks: Seq<Seq<u8>>,
    metas: Seq<ChunkMeta>,
    m: ChunkMeta,
)
    requires
        chunks.len() == metas.len(),
        chunks.len() > 0,
        forall|i: int| 0 <= i < metas.len() ==> (#[trigger] metas[i]).pts is Some,
        m.pts is Some,
    ensures
        ({
            let many = feed(s, chunks, metas);
            let one = step(s, concat_chunks(chunks), m);
            &&& same_framing(many.state, one.state)
            &&& out_bytes(many.outs) == out_bytes(one.outs)
        }),
    decreases chunks.len(),
{
    let many = feed(s, chunks, metas);
    let one = step(s, concat_chunks(chunks), m);
    let first = step(s, chunks[0], metas[0]);
    if chunks.len() == 1 {
        assert(concat_chunks(chunks.skip(1)) == Seq::<u8>::empty());
        assert(concat_chunks(chunks) =~= chunks[0]);
        assert(feed(first.state, chunks.skip(1), metas.skip(1)).outs == Seq::<
            OutputModel,
        >::empty());
        lemma_step_meta_free(s, s, chunks[0], metas[0], m);
        assert(many.outs =~= first.outs);
    } else {
        let rest_chunks = chunks.skip(1);
        let rest_metas = metas.skip(1);
        assert(forall|i: int|
            0 <= i < rest_metas.len() ==> (#[trigger] rest_metas[i]) == metas[i + 1]);
        lemma_chunking_independent(first.state, rest_chunks, rest_metas, m);
        let rest = feed(first.state, rest_chunks, rest_metas);
        let rest_one = step(first.state, concat_chunks(rest_chunks), m);
        lemma_step_split(s, chunks[0], concat_chunks(rest_chunks), metas[0], m, m);
        assert(concat_chunks(chunks) == chunks[0] + concat_chunks(rest_chunks));
        assert(out_bytes(many.outs) =~= out_bytes(first.outs) + out_bytes(rest.outs));
        assert(out_bytes(one.outs) == out_bytes(first.outs) + out_bytes(rest_one.outs));
    }
}

/// Any two chunkings of the same byte stream, fed from the same state,
/// emit fragments with identical bytes and end with the same buffer and
/// cached atoms.
pub proof fn lemma_two_chunkings_agree(
    s: StateModel,
    chunks_a: Seq<Seq<u8>>,
    metas_a: Seq<ChunkMeta>,
    chunks_b: Seq<Seq<u8>>,
    metas_b: Seq<ChunkMeta>,
)
    requires
        chunks_a.len() == metas_a.len(),
        chunks_b.len() == metas_b.len(),
        chunks_a.len() > 0,
        chunks_b.len() > 0,
        forall|i: int| 0 <= i < metas_a.len() ==> (#[trigger] metas_a[i]).pts is Some,
        forall|i: int| 0 <= i < metas_b.len() ==> (#[trigger] metas_b[i]).pts is Some,
        concat_chunks(chunks_a) == concat_chunks(chunks_b),
    ensures
        ({
            let ra = feed(s, chunks_a, metas_a);
            let rb = feed(s, chunks_b, metas_b);
            &&& same_framing(ra.state, rb.state)
            &&& out_bytes(ra.outs) == out_bytes(rb.outs)
        }),
{
    lemma_chunking_independent(s, chunks_a, metas_a, metas_a[0]);
    lemma_chunking_independent(s, chunks_b, metas_b, metas_a[0]);
}

/// The metadata of the chunks that contribute to a media-data payload:
/// walking the chunks with `buffered` bytes of the atom already in the
/// buffer, a chunk contributes exactly when, after it is appended, more
/// than 8 bytes of the atom are buffered.
pub open spec fn contributing_metas(
    buffered: int,
    chunks: Seq<Seq<u8>>,
    metas: Seq<ChunkMeta>,
) -> Seq<ChunkMeta>
    recommends
        chunks.len() == metas.len(),
    decreases chunks.len(),
{
    if chunks.len() == 0 {
        Seq::empty()
    } else {
        let now = buffered + chunks[0].len();
        let rest = contributing_metas(now, chunks.skip(1), metas.skip(1));
        if now > 8 {
            seq![metas[0]] + rest
        } else {
            rest
        }
    }
}

/// Folding a sequence of merges starts with its first element.
proof fn lemma_fold_merge_cons(m: FragmentMeta, x: ChunkMeta, cs: Seq<ChunkMeta>)
    ensures
        crate::meta::fold_merge(m, seq![x] + cs) == crate::meta::fold_merge(
            crate::meta::merge_meta(m, x),
            cs,
        ),
{
    assert((seq![x] + cs)[0] == x);
    assert((seq![x] + cs).skip(1) =~= cs);
}

/// Feeding the remainder of one media-data atom, in any number of
/// non-empty chunks, to a state whose caches are filled: exactly one
/// fragment is emitted, its bytes are the cached atoms followed by the
/// whole media-data atom, and its metadata is the aggregate folded, in
/// order, over exactly the contributing chunks' metadata.
proof fn lemma_mdat_feed(
    s: StateModel,
    a: Seq<u8>,
    done: int,
    chunks: Seq<Seq<u8>>,
    metas: Seq<ChunkMeta>,
)
    requires
        is_complete_atom(a),
        atom_type_of(a) == ATOM_TYPE_MDAT,
        0 <= done < a.len(),
        s.buf == a.take(done),
        s.ftype is Some,
        s.moov is Some,
        s.moof is Some,
        chunks.len() == metas.len(),
        chunks.len() > 0,
        forall|i: int| 0 <= i < chunks.len() ==> (#[trigger] chunks[i]).len() > 0,
        forall|i: int| 0 <= i < metas.len() ==> (#[trigger] metas[i]).pts is Some,
        concat_chunks(chunks) == a.skip(done),
    ensures
        ({
            let r = feed(s, chunks, metas);
            &&& r.outs.len() == 1
            &&& r.outs[0].bytes == s.ftype.unwrap() + s.moov.unwrap() + s.moof.unwrap() + a
            &&& r.outs[0].meta == crate::meta::fold_merge(
                s.meta,
                contributing_metas(done, chunks, metas),
            )
            &&& r.state == StateModel { buf: Seq::empty(), meta: empty_meta(), ..s }
        }),
    decreases chunks.len(),
{
    let r = feed(s, chunks, metas);
    let c0 = chunks[0];
    let m0 = metas[0];
    let now = done + c0.len();
    let b = s.buf + c0;
    let rest_chunks = chunks.skip(1);
    let rest_metas = metas.skip(1);
    assert(concat_chunks(chunks) == c0 + concat_chunks(rest_chunks));
    assert(c0.len() + concat_chunks(rest_chunks).len() == a.len() - done);
    assert(forall|j: int| 0 <= j < c0.len() ==> c0[j] == a[done + j]) by {
        assert(forall|j: int|
            0 <= j < c0.len() ==> c0[j] == (c0 + concat_chunks(rest_chunks))[j]);
        assert(forall|j: int| 0 <= j < a.len() - done ==> a.skip(done)[j] == a[done + j]);
    }
    assert(b =~= a.take(now));
    assert(forall|j: int| 0 <= j < now ==> b[j] == a[j]);
    if now >= 8 {
        crate::atom::lemma_be_u32_prefix(b, a, 0);
        crate::atom::lemma_be_u32_prefix(b, a, 4);
    }
    assert(pending_mdat(b) <==> now > 8);
    let merged = if now > 8 {
        crate::meta::merge_meta(s.meta, m0)
    } else {
        s.meta
    };
    let first = step(s, c0, m0);
    let arg = StateModel { buf: b, meta: merged, ..s };
    assert(forall|i: int|
        0 <= i < rest_chunks.len() ==> (#[trigger] rest_chunks[i]) == chunks[i + 1]);
    assert(forall|i: int| 0 <= i < rest_metas.len() ==> (#[trigger] rest_metas[i]) == metas[i + 1]);
    if now == a.len() {
        // This chunk completes the atom; no later chunk can be non-empty.
        if chunks.len() > 1 {
            assert(concat_chunks(rest_chunks).len() == 0);
            assert(rest_chunks[0].len() > 0);
            assert(concat_chunks(rest_chunks) == rest_chunks[0] + concat_chunks(
                rest_chunks.skip(1),
            ));
            assert(false);
        }
        assert(b =~= a);
        let size = atom_size_of(a);
        assert(can_pop(a));
        assert(a.take(size) =~= a);
        let routed = route_atom(arg, a);
        let s1 = StateModel { buf: a.skip(size), ..routed.0 };
        assert(a.skip(size) =~= Seq::<u8>::empty());
        assert(drain(s1).state == s1 && drain(s1).outs == Seq::<OutputModel>::empty() && !drain(
            s1,
        ).err);
        assert(drain(arg).outs =~= seq![routed.1.unwrap()]);
        assert(feed(first.state, rest_chunks, rest_metas).outs == Seq::<OutputModel>::empty());
        assert(r.outs =~= first.outs);
        assert(contributing_metas(now, rest_chunks, rest_metas) == Seq::<ChunkMeta>::empty());
        if now > 8 {
            lemma_fold_merge_cons(s.meta, m0, Seq::empty());
            assert(contributing_metas(done, chunks, metas) =~= seq![m0]);
        } else {
            assert(contributing_metas(done, chunks, metas) =~= Seq::<ChunkMeta>::empty());
        }
    } else {
        // The atom is still incomplete: nothing can be drained yet.
        assert(chunks.len() > 1) by {
            if chunks.len() == 1 {
                assert(concat_chunks(chunks.skip(1)).len() == 0);
                assert(concat_chunks(chunks) =~= c0);
                assert(a.skip(done).len() == a.len() - done);
            }
        }
        if b.len() >= 8 {
            assert(atom_size_of(b) == a.len());
        }
        assert(!bad_front_length(b) && !can_pop(b));
        assert(drain(arg).state == arg && drain(arg).outs == Seq::<OutputModel>::empty()
            && !drain(arg).err);
        assert(first.state == arg);
        assert(concat_chunks(rest_chunks) =~= a.skip(now)) by {
            assert(concat_chunks(chunks) == c0 + concat_chunks(rest_chunks));
            assert(forall|j: int|
                0 <= j < concat_chunks(rest_chunks).len() ==> concat_chunks(rest_chunks)[j]
                    == concat_chunks(chunks)[c0.len() + j]);
        }
        lemma_mdat_feed(arg, a, now, rest_chunks, rest_metas);
        let rest = feed(arg, rest_chunks, rest_metas);
        assert(r.outs =~= rest.outs);
        if now > 8 {
            lemma_fold_merge_cons(s.meta, m0, contributing_metas(now, rest_chunks, rest_metas));
            assert(contributing_metas(done, chunks, metas) == seq![m0] + contributing_metas(
                now,
                rest_chunks,
                rest_metas,
            ));
        }
    }
}

/// Merge attribution: a media-data atom's payload arriving in any number
/// of non-empty chunks after the three caches are filled yields one
/// fragment whose metadata is the reset aggregate folded, in order, over
/// exactly the contributing chunks' metadata — the chunks that overlap the
/// media-data atom past its first 8 bytes.  The merge-law lemmas then pin
/// each field of that fold.
pub proof fn lemma_fragment_meta_is_fold(
    s: StateModel,
    chunks: Seq<Seq<u8>>,
    metas: Seq<ChunkMeta>,
)
    requires
        s.buf.len() == 0,
        s.meta == empty_meta(),
        s.ftype is Some,
        s.moov is Some,
        s.moof is Some,
        chunks.len() == metas.len(),
        chunks.len() > 0,
        forall|i: int| 0 <= i < chunks.len() ==> (#[trigger] chunks[i]).len() > 0,
        forall|i: int| 0 <= i < metas.len() ==> (#[trigger] metas[i]).pts is Some,
        is_complete_atom(concat_chunks(chunks)),
        atom_type_of(concat_chunks(chunks)) == ATOM_TYPE_MDAT,
    ensures
        ({
            let r = feed(s, chunks, metas);
            let a = concat_chunks(chunks);
            &&& r.outs.len() == 1
            &&& r.outs[0].bytes == s.ftype.unwrap() + s.moov.unwrap() + s.moof.unwrap() + a
            &&& r.outs[0].meta == crate::meta::fold_merge(
                empty_meta(),
                contributing_metas(0, chunks, metas),
            )
        }),
{
    let a = concat_chunks(chunks);
    assert(s.buf =~= a.take(0));
    assert(a.skip(0) =~= a);
    lemma_mdat_feed(s, a, 0, chunks, metas);
}

/// One complete media-data atom fed to a state whose buffer is empty and
/// whose three caches are filled completes exactly one fragment: the
/// concatenation of the cached file-type, movie and movie-fragment bytes
/// with the media-data bytes.  The caches are not consumed and the
/// aggregated metadata is reset.
pub proof fn lemma_mdat_emits(s: StateModel, a: Seq<u8>, cm: ChunkMeta)
    requires
        s.buf.len() == 0,
        s.ftype is Some,
        s.moov is Some,
        s.moof is Some,
        is_complete_atom(a),
        atom_type_of(a) == ATOM_TYPE_MDAT,
        cm.pts is Some,
    ensures
        ({
            let r = step(s, a, cm);
            &&& r.err is None
            &&& r.outs.len() == 1
            &&& r.outs[0].bytes == s.ftype.unwrap() + s.moov.unwrap() + s.moof.unwrap() + a
            &&& r.outs[0].meta == (if pending_mdat(a) {
                crate::meta::merge_meta(s.meta, cm)
            } else {
                s.meta
            })
            &&& r.state == StateModel { buf: Seq::empty(), meta: empty_meta(), ..s }
        }),
{
    let r = step(s, a, cm);
    let b = s.buf + a;
    assert(b =~= a);
    let merged = if pending_mdat(a) {
        crate::meta::merge_meta(s.meta, cm)
    } else {
        s.meta
    };
    let arg = StateModel { buf: a, meta: merged, ..s };
    let size = atom_size_of(a);
    assert(can_pop(a));
    assert(a.take(size) =~= a);
    let routed = route_atom(arg, a);
    let s1 = StateModel { buf: a.skip(size), ..routed.0 };
    assert(a.skip(size) =~= Seq::<u8>::empty());
    assert(drain(s1).state == s1 && drain(s1).outs == Seq::<OutputModel>::empty() && !drain(
        s1,
    ).err);
    assert(drain(arg).outs =~= seq![routed.1.unwrap()]);
}

/// Caching idempotence: two media-data atoms drained in a row with no
/// intervening file-type, movie or movie-fragment atom yield two
/// fragments that reuse the identical cached bytes.
pub proof fn lemma_cached_atoms_reused(
    s: StateModel,
    a1: Seq<u8>,
    a2: Seq<u8>,
    m1: ChunkMeta,
    m2: ChunkMeta,
)
    requires
        s.buf.len() == 0,
        s.ftype is Some,
        s.moov is Some,
        s.moof is Some,
        is_complete_atom(a1),
        atom_type_of(a1) == ATOM_TYPE_MDAT,
        is_complete_atom(a2),
        atom_type_of(a2) == ATOM_TYPE_MDAT,
        m1.pts is Some,
        m2.pts is Some,
    ensures
        ({
            let r1 = step(s, a1, m1);
            let r2 = step(r1.state, a2, m2);
            &&& r1.err is None && r2.err is None
            &&& r1.outs.len() == 1 && r2.outs.len() == 1
            &&& r1.outs[0].bytes == s.ftype.unwrap() + s.moov.unwrap() + s.moof.unwrap() + a1
            &&& r2.outs[0].bytes == s.ftype.unwrap() + s.moov.unwrap() + s.moof.unwrap() + a2
            &&& r2.state.ftype == s.ftype && r2.state.moov == s.moov && r2.state.moof == s.moof
            &&& r2.state.buf.len() == 0
        }),
{
    lemma_mdat_emits(s, a1, m1);
    let r1 = step(s, a1, m1);
    lemma_mdat_emits(r1.state, a2, m2);
}

/// A media-data atom arriving while any of the three caches is still
/// absent produces no output and no error, and leaves the buffer and the
/// caches exactly as they were: the next well-formed sequence starts from
/// an uncorrupted state.
pub proof fn lemma_orphan_mdat_harmless(s: StateModel, a: Seq<u8>, cm: ChunkMeta)
    requires
        s.buf.len() == 0,
        s.ftype is None || s.moov is None || s.moof is None,
        is_complete_atom(a),
        atom_type_of(a) == ATOM_TYPE_MDAT,
        cm.pts is Some,
    ensures
        ({
            let r = step(s, a, cm);
            &&& r.err is None
            &&& r.outs.len() == 0
            &&& same_framing(r.state, s)
            &&& r.state.buf == s.buf
        }),
{
    let r = step(s, a, cm);
    let b = s.buf + a;
    assert(b =~= a);
    let merged = if pending_mdat(a) {
        crate::meta::merge_meta(s.meta, cm)
    } else {
        s.meta
    };
    let arg = StateModel { buf: a, meta: merged, ..s };
    let size = atom_size_of(a);
    assert(can_pop(a));
    assert(a.take(size) =~= a);
    let routed = route_atom(arg, a);
    let s1 = StateModel { buf: a.skip(size), ..routed.0 };
    assert(a.skip(size) =~= Seq::<u8>::empty());
    assert(drain(s1).state == s1 && drain(s1).outs == Seq::<OutputModel>::empty() && !drain(
        s1,
    ).err);
    assert(s1.buf =~= s.buf);
}

} // verus!


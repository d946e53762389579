//! Fragment state and the reassembly driver.
//!
//! The behaviour of one `process_chunk` call is pinned down by a
//! mathematical model: `step` appends the chunk, merges its metadata when
//! the buffer is known to hold media-data payload, and then `drain`
//! extracts and routes complete atoms until none is left, emitting one
//! output per completed media-data atom.

use crate::atom::{
    atom_size_of, atom_type_of, Mp4Atom, Mp4Error, ATOM_TYPE_FTYPE, ATOM_TYPE_MDAT, ATOM_TYPE_MOOF,
    ATOM_TYPE_MOOV,
};
use crate::meta::{empty_meta, merge_meta, ChunkMeta, FragmentMeta};
use crate::parser::{bad_front_length, can_pop, pending_mdat, Mp4Parser};
use vstd::prelude::*;

verus! {

/// Mathematical state of the reassembler: the buffered bytes, the encoded
/// bytes of the cached atoms, and the aggregated fragment metadata.
pub ghost struct StateModel {
    pub buf: Seq<u8>,
    pub ftype: Option<Seq<u8>>,
    pub moov: Option<Seq<u8>>,
    pub moof: Option<Seq<u8>>,
    pub meta: FragmentMeta,
}

/// Mathematical value of one emitted fragment.
pub ghost struct OutputModel {
    pub bytes: Seq<u8>,
    pub meta: FragmentMeta,
}

/// Result of draining every complete atom out of a state.
pub ghost struct DrainResult {
    pub state: StateModel,
    pub outs: Seq<OutputModel>,
    pub err: bool,
}

/// Result of processing one chunk.
pub ghost struct StepResult {
    pub state: StateModel,
    pub outs: Seq<OutputModel>,
    pub err: Option<Mp4Error>,
}

/// The state of a freshly created reassembler.
pub open spec fn initial_state() -> StateModel {
    StateModel {
        buf: Seq::empty(),
        ftype: None,
        moov: None,
        moof: None,
        meta: empty_meta(),
    }
}

/// Routes one extracted atom: the three initialization/fragment atoms
/// replace their cache; a media-data atom completes a fragment when all
/// three caches are present (emitting the concatenation and resetting the
/// aggregated metadata) and is discarded otherwise; unrecognized atoms are
/// discarded.  The buffer is left untouched here.
pub open spec fn route_atom(s: StateModel, atom: Seq<u8>) -> (StateModel, Option<OutputModel>) {
    let t = atom_type_of(atom);
    if t == ATOM_TYPE_FTYPE {
        (StateModel { ftype: Some(atom), ..s }, None)
    } else if t == ATOM_TYPE_MOOV {
        (StateModel { moov: Some(atom), ..s }, None)
    } else if t == ATOM_TYPE_MOOF {
        (StateModel { moof: Some(atom), ..s }, None)
    } else if t == ATOM_TYPE_MDAT {
        match (s.ftype, s.moov, s.moof) {
            (Some(f), Some(m), Some(q)) => (
                StateModel { meta: empty_meta(), ..s },
                Some(OutputModel { bytes: f + m + q + atom, meta: s.meta }),
            ),
            _ => (s, None),
        }
    } else {
        (s, None)
    }
}

/// Extracts and routes complete atoms from the front of the buffer until
/// none is left, collecting the emitted outputs in order.  Stops with
/// `err` when a buffered header declares a size smaller than the header.
pub open spec fn drain(s: StateModel) -> DrainResult
    decreases s.buf.len(),
{
    if bad_front_length(s.buf) {
        DrainResult { state: s, outs: Seq::empty(), err: true }
    } else if !can_pop(s.buf) {
        DrainResult { state: s, outs: Seq::empty(), err: false }
    } else {
        let size = atom_size_of(s.buf);
        let atom = s.buf.take(size);
        let routed = route_atom(s, atom);
        let s1 = StateModel { buf: s.buf.skip(size), ..routed.0 };
        let rest = drain(s1);
        let outs = match routed.1 {
            Some(o) => seq![o] + rest.outs,
            None => rest.outs,
        };
        DrainResult { state: rest.state, outs, err: rest.err }
    }
}

/// One `process_chunk` call: append the chunk; if the buffer now holds the
/// front of a media-data atom, require a presentation time and merge the
/// chunk's metadata into the aggregate; then drain.
pub open spec fn step(s: StateModel, chunk: Seq<u8>, cm: ChunkMeta) -> StepResult {
    let b = s.buf + chunk;
    if pending_mdat(b) && cm.pts is None {
        StepResult {
            state: StateModel { buf: b, ..s },
            outs: Seq::empty(),
            err: Some(Mp4Error::MissingTimestamp),
        }
    } else {
        let merged = if pending_mdat(b) {
            merge_meta(s.meta, cm)
        } else {
            s.meta
        };
        let d = drain(StateModel { buf: b, meta: merged, ..s });
        StepResult {
            state: d.state,
            outs: d.outs,
            err: if d.err {
                Some(Mp4Error::AtomLength)
            } else {
                None
            },
        }
    }
}

/// The encoded bytes of an optionally cached atom.
pub open spec fn cached_bytes(a: Option<Mp4Atom>) -> Option<Seq<u8>> {
    match a {
        Some(atom) => Some(atom.atom_bytes@),
        None => None,
    }
}

/// One emitted fragment: the concatenated file-type, movie, movie-fragment
/// and media-data atoms, carrying the metadata aggregated over every chunk
/// that contributed to the media-data payload.
#[derive(Debug)]
pub struct FragmentOutput {
    pub bytes: Vec<u8>,
    pub meta: FragmentMeta,
}

impl View for FragmentOutput {
    type V = OutputModel;

    open spec fn view(&self) -> OutputModel {
        OutputModel { bytes: self.bytes@, meta: self.meta }
    }
}

/// Per-stream state, long-lived for the life of the media session: the box
/// buffer, the cached initialization and movie-fragment atoms, and the
/// aggregated metadata of the fragment in progress.
#[derive(Debug)]
pub struct FragmentState {
    pub mp4_parser: Mp4Parser,
    pub ftype_atom: Option<Mp4Atom>,
    pub moov_atom: Option<Mp4Atom>,
    pub moof_atom: Option<Mp4Atom>,
    pub fragment_meta: FragmentMeta,
}

impl View for FragmentState {
    type V = StateModel;

    open spec fn view(&self) -> StateModel {
        StateModel {
            buf: self.mp4_parser@,
            ftype: cached_bytes(self.ftype_atom),
            moov: cached_bytes(self.moov_atom),
            moof: cached_bytes(self.moof_atom),
            meta: self.fragment_meta,
        }
    }
}

/// Appends all of `src` to `dst`.
fn append_bytes(dst: &mut Vec<u8>, src: &Vec<u8>)
    ensures
        final(dst)@ == old(dst)@ + src@,
{
    let n = src.len();
    let mut i: usize = 0;
    while i < n
        invariant
            i <= n,
            n == src@.len(),
            dst@ == old(dst)@ + src@.take(i as int),
        decreases n - i,
    {
        dst.push(src[i]);
        proof {
            assert(old(dst)@ + src@.take(i + 1) =~= (old(dst)@ + src@.take(i as int)).push(
                src@[i as int],
            ));
        }
        i = i + 1;
    }
    proof {
        assert(src@.take(n as int) =~= src@);
    }
}

impl FragmentState {
    /// Fresh per-stream state: empty buffer, no cached atoms, reset
    /// aggregated metadata.
    pub fn new() -> (s: FragmentState)
        ensures
            s@ == initial_state(),
    {
        FragmentState {
            mp4_parser: Mp4Parser::new(),
            ftype_atom: None,
            moov_atom: None,
            moof_atom: None,
            fragment_meta: FragmentMeta::empty(),
        }
    }

    /// Feeds one chunk of the byte stream together with its transport
    /// metadata and returns the fragments it completed, in order.
    ///
    /// On `Err` the stream has violated the framing contract and processing
    /// of it should end: `Mp4Error::MissingTimestamp` when the chunk
    /// carries media-data payload but no presentation time (the chunk's
    /// bytes are buffered, its metadata is not merged, nothing is drained),
    /// `Mp4Error::AtomLength` when a buffered header declares a size
    /// smaller than the header itself (atoms drained before the malformed
    /// one are dropped; the malformed bytes stay buffered, so subsequent
    /// calls fail the same way).
    pub fn process_chunk(&mut self, chunk: &[u8], meta: &ChunkMeta) -> (r: Result<
        Vec<FragmentOutput>,
        Mp4Error,
    >)
        ensures
            ({
                let m = step(old(self)@, chunk@, *meta);
                &&& final(self)@ == m.state
                &&& (match m.err {
                    None => r matches Ok(outs) && outs@.len() == m.outs.len() && (forall|i: int|
                        0 <= i < m.outs.len() ==> (#[trigger] outs@[i])@ == m.outs[i]),
                    Some(e) => r matches Err(got) && got == e,
                })
            }),
    {
        self.mp4_parser.add(chunk);
        if self.mp4_parser.have_mdat() {
            if meta.pts.is_none() {
                return Err(Mp4Error::MissingTimestamp);
            }
            self.fragment_meta.merge(meta);
        }
        let ghost start = self@;
        proof {
            let m = step(old(self)@, chunk@, *meta);
            assert(m.state == drain(start).state);
            assert(m.outs == drain(start).outs);
            assert(m.err == if drain(start).err {
                Some(Mp4Error::AtomLength)
            } else {
                None::<Mp4Error>
            });
        }
        let mut outs: Vec<FragmentOutput> = Vec::new();
        loop
            invariant
                ({
                    let m = step(old(self)@, chunk@, *meta);
                    &&& m.state == drain(start).state
                    &&& m.outs == drain(start).outs
                    &&& m.err == if drain(start).err {
                        Some(Mp4Error::AtomLength)
                    } else {
                        None::<Mp4Error>
                    }
                }),
                drain(start).state == drain(self@).state,
                drain(start).err == drain(self@).err,
                drain(start).outs == outs@.map_values(|o: FragmentOutput| o@) + drain(self@).outs,
            ensures
                self@ == drain(start).state,
                !drain(start).err,
                drain(start).outs == outs@.map_values(|o: FragmentOutput| o@),
            decreases self.mp4_parser@.len(),
        {
            let ghost pre = self@;
            let popped = match self.mp4_parser.pop_atom() {
                Ok(p) => p,
                Err(e) => {
                    proof {
                        assert(drain(pre).err);
                        assert(drain(pre).state == pre);
                    }
                    return Err(e);
                },
            };
            let atom = match popped {
                Some(atom) => atom,
                None => {
                    proof {
                        assert(drain(pre).state == pre);
                        assert(drain(pre).outs == Seq::<OutputModel>::empty());
                        assert(outs@.map_values(|o: FragmentOutput| o@) + drain(pre).outs
                            =~= outs@.map_values(|o: FragmentOutput| o@));
                    }
                    break;
                },
            };
            let ghost size = atom_size_of(pre.buf);
            let ghost routed = route_atom(pre, pre.buf.take(size));
            let ghost s1 = StateModel { buf: pre.buf.skip(size), ..routed.0 };
            proof {
                assert(drain(pre).state == drain(s1).state);
                assert(drain(pre).err == drain(s1).err);
                assert(drain(pre).outs == match routed.1 {
                    Some(o) => seq![o] + drain(s1).outs,
                    None => drain(s1).outs,
                });
            }
            let ghost outs_before = outs@;
            if atom.atom_type == ATOM_TYPE_FTYPE {
                self.ftype_atom = Some(atom);
            } else if atom.atom_type == ATOM_TYPE_MOOV {
                self.moov_atom = Some(atom);
            } else if atom.atom_type == ATOM_TYPE_MOOF {
                self.moof_atom = Some(atom);
            } else if atom.atom_type == ATOM_TYPE_MDAT {
                let built: Option<Vec<u8>> = match (
                    &self.ftype_atom,
                    &self.moov_atom,
                    &self.moof_atom,
                ) {
                    (Some(f), Some(m), Some(q)) => {
                        let mut bytes: Vec<u8> = Vec::new();
                        append_bytes(&mut bytes, &f.atom_bytes);
                        append_bytes(&mut bytes, &m.atom_bytes);
                        append_bytes(&mut bytes, &q.atom_bytes);
                        append_bytes(&mut bytes, &atom.atom_bytes);
                        Some(bytes)
                    },
                    _ => None,
                };
                match built {
                    Some(bytes) => {
                        let out = FragmentOutput { bytes, meta: self.fragment_meta };
                        proof {
                            assert(out@.bytes =~= routed.1.unwrap().bytes);
                            assert(out@ == routed.1.unwrap());
                        }
                        outs.push(out);
                        self.fragment_meta = FragmentMeta::empty();
                    },
                    None => {},
                }
            }
            proof {
                assert(self@ == s1);
                assert(outs@.map_values(|o: FragmentOutput| o@) + drain(self@).outs
                    =~= outs_before.map_values(|o: FragmentOutput| o@) + drain(pre).outs);
            }
        }
        Ok(outs)
    }
}

} // verus!

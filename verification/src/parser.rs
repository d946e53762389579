//! The box buffer: an append-only byte accumulator with box-aware
//! extraction.  Chunks are appended with no alignment assumption; complete
//! atoms are drained from the front one at a time, the unconsumed remainder
//! staying buffered.

use crate::atom::{
    atom_size_of, atom_type_of, is_complete_atom, read_be_u32, Mp4Atom, Mp4Error, ATOM_TYPE_MDAT,
};
use vstd::prelude::*;

verus! {

/// True when at least 9 bytes are buffered and the type field at offset 4
/// names the media-data box: the next atom to be drained, still incomplete,
/// is known to be media data, so the current chunk carries its payload.
pub open spec fn pending_mdat(s: Seq<u8>) -> bool {
    s.len() > 8 && atom_type_of(s) == ATOM_TYPE_MDAT
}

/// A full header is buffered but it declares a size smaller than the header
/// itself: the framing contract is broken and no atom can be extracted.
pub open spec fn bad_front_length(s: Seq<u8>) -> bool {
    s.len() >= 8 && atom_size_of(s) < 8
}

/// The atom at the front is completely buffered and can be extracted.
pub open spec fn can_pop(s: Seq<u8>) -> bool {
    s.len() >= 8 && atom_size_of(s) >= 8 && s.len() >= atom_size_of(s)
}

/// The box buffer.  Its view is the sequence of buffered bytes.
#[derive(Debug)]
pub struct Mp4Parser {
    buf: Vec<u8>,
}

impl View for Mp4Parser {
    type V = Seq<u8>;

    closed spec fn view(&self) -> Seq<u8> {
        self.buf@
    }
}

impl Mp4Parser {
    /// An empty buffer.
    pub fn new() -> (p: Mp4Parser)
        ensures
            p@ == Seq::<u8>::empty(),
    {
        Mp4Parser { buf: Vec::new() }
    }

    /// Appends a chunk.  A chunk may hold zero, one, several, or parts of
    /// several atoms' bytes.
    pub fn add(&mut self, chunk: &[u8])
        ensures
            final(self)@ == old(self)@ + chunk@,
    {
        let n = chunk.len();
        let mut i: usize = 0;
        while i < n
            invariant
                i <= n,
                n == chunk@.len(),
                self.buf@ == old(self)@ + chunk@.take(i as int),
            decreases n - i,
        {
            self.buf.push(chunk[i]);
            proof {
                assert(old(self)@ + chunk@.take(i + 1) =~= (old(self)@ + chunk@.take(i as int))
                    .push(chunk@[i as int]));
            }
            i = i + 1;
        }
        proof {
            assert(chunk@.take(n as int) =~= chunk@);
        }
    }

    /// True iff all or part of a media-data atom's bytes are buffered.
    pub fn have_mdat(&self) -> (r: bool)
        ensures
            r == pending_mdat(self@),
    {
        if self.buf.len() > 8 {
            read_be_u32(&self.buf, 4) == ATOM_TYPE_MDAT
        } else {
            false
        }
    }

    /// Extracts the atom at the front if it is completely buffered.
    ///
    /// Reads the declared total size from bytes 0-3 and the type from bytes
    /// 4-7; once at least that many bytes are buffered, returns an atom of
    /// exactly the declared size and retains the remainder.  Returns
    /// `Ok(None)` while the front atom is still incomplete, and
    /// `Err(Mp4Error::AtomLength)` when the header declares a size smaller
    /// than the header itself.
    pub fn pop_atom(&mut self) -> (r: Result<Option<Mp4Atom>, Mp4Error>)
        ensures
            bad_front_length(old(self)@) ==> r == Err::<Option<Mp4Atom>, Mp4Error>(
                Mp4Error::AtomLength,
            ) && final(self)@ == old(self)@,
            !bad_front_length(old(self)@) && !can_pop(old(self)@) ==> r == Ok::<
                Option<Mp4Atom>,
                Mp4Error,
            >(None) && final(self)@ == old(self)@,
            can_pop(old(self)@) ==> (r matches Ok(Some(atom)) && {
                let size = atom_size_of(old(self)@);
                &&& atom.wf()
                &&& atom.atom_type == atom_type_of(old(self)@)
                &&& atom.atom_bytes@ == old(self)@.take(size)
                &&& final(self)@ == old(self)@.skip(size)
            }),
    {
        if self.buf.len() >= 8 {
            let atom_size = read_be_u32(&self.buf, 0) as usize;
            let atom_type = read_be_u32(&self.buf, 4);
            if atom_size < 8 {
                Err(Mp4Error::AtomLength)
            } else if self.buf.len() >= atom_size {
                let mut atom_bytes = self.buf.split_off(atom_size);
                core::mem::swap(&mut self.buf, &mut atom_bytes);
                proof {
                    let pre = old(self)@;
                    let size = atom_size_of(pre);
                    assert(forall|j: int| 0 <= j < 8 ==> pre.take(size)[j] == pre[j]);
                    crate::atom::lemma_be_u32_prefix(pre.take(size), pre, 0);
                    crate::atom::lemma_be_u32_prefix(pre.take(size), pre, 4);
                    assert(is_complete_atom(pre.take(size)));
                }
                Ok(Some(Mp4Atom { atom_type, atom_bytes }))
            } else {
                Ok(None)
            }
        } else {
            Ok(None)
        }
    }
}

} // verus!

//! Atoms: the self-delimiting units of the container format.
//!
//! An atom's encoded form is 4 bytes of big-endian total length (header
//! included), 4 bytes of big-endian FourCC type tag, then the payload.

use vstd::prelude::*;

verus! {

/// FourCC tag of the file-type box, read as a big-endian u32.
pub const ATOM_TYPE_FTYPE: u32 = 1718909296;

/// FourCC tag of the movie box, read as a big-endian u32.
pub const ATOM_TYPE_MOOV: u32 = 1836019574;

/// FourCC tag of the movie-fragment box, read as a big-endian u32.
pub const ATOM_TYPE_MOOF: u32 = 1836019558;

/// FourCC tag of the media-data box, read as a big-endian u32.
pub const ATOM_TYPE_MDAT: u32 = 1835295092;

/// The big-endian u32 held in the four bytes of `s` starting at `i`.
pub open spec fn be_u32_at(s: Seq<u8>, i: int) -> u32
    recommends
        0 <= i,
        i + 4 <= s.len(),
{
    (s[i] * 0x100_0000 + s[i + 1] * 0x1_0000 + s[i + 2] * 0x100 + s[i + 3]) as u32
}

/// The total size that the atom at the front of `s` declares for itself.
pub open spec fn atom_size_of(s: Seq<u8>) -> int
    recommends
        s.len() >= 4,
{
    be_u32_at(s, 0) as int
}

/// The type tag of the atom at the front of `s`.
pub open spec fn atom_type_of(s: Seq<u8>) -> u32
    recommends
        s.len() >= 8,
{
    be_u32_at(s, 4)
}

/// The encoded bytes of one complete atom: at least a full header, exactly
/// as long as the size its own header declares.
pub open spec fn is_complete_atom(s: Seq<u8>) -> bool {
    s.len() >= 8 && s.len() == atom_size_of(s)
}

/// Errors that end processing of a stream: violations of the framing
/// contract by the upstream producer.
#[derive(Clone, Copy, Debug, PartialEq, Eq, Structural)]
pub enum Mp4Error {
    /// An atom header declares a total size smaller than the 8-byte header
    /// itself, so no well-formed atom can be extracted.
    AtomLength,
    /// A chunk carrying media-data payload arrived without a presentation
    /// time.
    MissingTimestamp,
}

/// A fully reassembled atom. `atom_bytes` is the complete encoded
/// representation, its own 8-byte header included.
#[derive(Debug)]
pub struct Mp4Atom {
    pub atom_type: u32,
    pub atom_bytes: Vec<u8>,
}

impl Mp4Atom {
    /// The encoded bytes are self-consistent: a full header is present, the
    /// length equals the declared size, and the tag equals the type field.
    pub open spec fn wf(self) -> bool {
        &&& is_complete_atom(self.atom_bytes@)
        &&& self.atom_type == atom_type_of(self.atom_bytes@)
    }

    /// Length of the complete encoded representation, header included.
    pub fn len(&self) -> (n: usize)
        ensures
            n == self.atom_bytes@.len(),
    {
        self.atom_bytes.len()
    }
}

/// Reads the big-endian u32 stored at offset `off` of `v`.
pub fn read_be_u32(v: &Vec<u8>, off: usize) -> (r: u32)
    requires
        off + 4 <= v.len(),
    ensures
        r == be_u32_at(v@, off as int),
{
    let b0 = v[off] as u32;
    let b1 = v[off + 1] as u32;
    let b2 = v[off + 2] as u32;
    let b3 = v[off + 3] as u32;
    b0 * 0x100_0000 + b1 * 0x1_0000 + b2 * 0x100 + b3
}

/// Four equal leading bytes give equal big-endian reads: the value at `i`
/// does not depend on anything at or after `i + 4`.
pub proof fn lemma_be_u32_prefix(s: Seq<u8>, t: Seq<u8>, i: int)
    requires
        0 <= i,
        i + 4 <= s.len(),
        i + 4 <= t.len(),
        forall|j: int| i <= j < i + 4 ==> s[j] == t[j],
    ensures
        be_u32_at(s, i) == be_u32_at(t, i),
{
}

} // verus!

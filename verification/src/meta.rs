//! Per-chunk transport metadata and the aggregate kept for the fragment in
//! progress.  Aggregation is first-wins for pts, dts and start offset,
//! last-wins for the end offset, a saturating sum for the duration, and
//! sticky for the two flags: delta-unit is cleared by the first chunk that
//! is itself not a delta unit, discontinuity is set by the first chunk that
//! carries it.

use vstd::prelude::*;

verus! {

/// Transport metadata carried by one input chunk.  Times are nanoseconds;
/// an absent value is one the transport did not provide.
#[derive(Clone, Copy, Debug, PartialEq, Eq)]
pub struct ChunkMeta {
    pub pts: Option<u64>,
    pub dts: Option<u64>,
    pub duration: Option<u64>,
    pub offset: Option<u64>,
    pub offset_end: Option<u64>,
    pub delta_unit: bool,
    pub discontinuity: bool,
}

/// Metadata aggregated over every chunk that contributed to the in-progress
/// fragment's media-data payload.  Emitted with the fragment, then reset.
#[derive(Clone, Copy, Debug, PartialEq, Eq)]
pub struct FragmentMeta {
    pub pts: Option<u64>,
    pub dts: Option<u64>,
    pub duration: u64,
    pub offset: Option<u64>,
    pub offset_end: Option<u64>,
    pub delta_unit: bool,
    pub discontinuity: bool,
}

/// The reset value: nothing seen yet, zero duration, delta-unit set,
/// no discontinuity.
pub open spec fn empty_meta() -> FragmentMeta {
    FragmentMeta {
        pts: None,
        dts: None,
        duration: 0,
        offset: None,
        offset_end: None,
        delta_unit: true,
        discontinuity: false,
    }
}

/// The duration a chunk contributes to the sum: zero when absent.
pub open spec fn chunk_duration(c: ChunkMeta) -> u64 {
    match c.duration {
        Some(d) => d,
        None => 0,
    }
}

/// u64 addition that stops at the largest representable value.
pub open spec fn sat_add_u64(a: u64, b: u64) -> u64 {
    if a + b > u64::MAX {
        u64::MAX
    } else {
        (a + b) as u64
    }
}

/// One chunk's metadata merged into the aggregate.
pub open spec fn merge_meta(m: FragmentMeta, c: ChunkMeta) -> FragmentMeta {
    FragmentMeta {
        pts: if m.pts is None {
            c.pts
        } else {
            m.pts
        },
        dts: if m.dts is None {
            c.dts
        } else {
            m.dts
        },
        duration: sat_add_u64(m.duration, chunk_duration(c)),
        offset: if m.offset is None && c.offset is Some {
            c.offset
        } else {
            m.offset
        },
        offset_end: if c.offset_end is Some {
            c.offset_end
        } else {
            m.offset_end
        },
        delta_unit: m.delta_unit && c.delta_unit,
        discontinuity: m.discontinuity || c.discontinuity,
    }
}

/// `merge_meta` folded over a sequence of chunk metadata, oldest first.
pub open spec fn fold_merge(m: FragmentMeta, cs: Seq<ChunkMeta>) -> FragmentMeta
    decreases cs.len(),
{
    if cs.len() == 0 {
        m
    } else {
        fold_merge(merge_meta(m, cs[0]), cs.skip(1))
    }
}

/// Exact (unsaturated) sum of the durations of a sequence of chunks.
pub open spec fn duration_sum(cs: Seq<ChunkMeta>) -> int
    decreases cs.len(),
{
    if cs.len() == 0 {
        0
    } else {
        chunk_duration(cs[0]) + duration_sum(cs.skip(1))
    }
}

impl FragmentMeta {
    /// The reset value, for building a fresh aggregate.
    pub fn empty() -> (m: FragmentMeta)
        ensures
            m == empty_meta(),
    {
        FragmentMeta {
            pts: None,
            dts: None,
            duration: 0,
            offset: None,
            offset_end: None,
            delta_unit: true,
            discontinuity: false,
        }
    }

    /// Merges one contributing chunk's metadata into the aggregate.
    pub fn merge(&mut self, c: &ChunkMeta)
        ensures
            *final(self) == merge_meta(*old(self), *c),
    {
        if self.pts.is_none() {
            self.pts = c.pts;
        }
        if self.dts.is_none() {
            self.dts = c.dts;
        }
        let d = match c.duration {
            Some(d) => d,
            None => 0,
        };
        self.duration = if self.duration <= u64::MAX - d {
            self.duration + d
        } else {
            u64::MAX
        };
        if self.offset.is_none() && c.offset.is_some() {
            self.offset = c.offset;
        }
        if c.offset_end.is_some() {
            self.offset_end = c.offset_end;
        }
        self.delta_unit = self.delta_unit && c.delta_unit;
        self.discontinuity = self.discontinuity || c.discontinuity;
    }
}

/// Merge law for the presentation time: the aggregate over a non-empty run
/// of contributing chunks, each carrying a pts, holds the first chunk's pts.
pub proof fn lemma_merged_pts_is_first(cs: Seq<ChunkMeta>)
    requires
        cs.len() > 0,
        forall|i: int| 0 <= i < cs.len() ==> (#[trigger] cs[i]).pts is Some,
    ensures
        fold_merge(empty_meta(), cs).pts == cs[0].pts,
{
    lemma_fold_pts_set(merge_meta(empty_meta(), cs[0]), cs.skip(1));
}

/// Once the aggregate's pts is set, further merging never changes it.
proof fn lemma_fold_pts_set(m: FragmentMeta, cs: Seq<ChunkMeta>)
    requires
        m.pts is Some,
    ensures
        fold_merge(m, cs).pts == m.pts,
    decreases cs.len(),
{
    if cs.len() > 0 {
        lemma_fold_pts_set(merge_meta(m, cs[0]), cs.skip(1));
    }
}

/// Merge law for the decode time: the aggregate over a non-empty run of
/// contributing chunks, each carrying a dts, holds the first chunk's dts.
pub proof fn lemma_merged_dts_is_first(cs: Seq<ChunkMeta>)
    requires
        cs.len() > 0,
        forall|i: int| 0 <= i < cs.len() ==> (#[trigger] cs[i]).dts is Some,
    ensures
        fold_merge(empty_meta(), cs).dts == cs[0].dts,
{
    lemma_fold_dts_set(merge_meta(empty_meta(), cs[0]), cs.skip(1));
}

/// Once the aggregate's dts is set, further merging never changes it.
proof fn lemma_fold_dts_set(m: FragmentMeta, cs: Seq<ChunkMeta>)
    requires
        m.dts is Some,
    ensures
        fold_merge(m, cs).dts == m.dts,
    decreases cs.len(),
{
    if cs.len() > 0 {
        lemma_fold_dts_set(merge_meta(m, cs[0]), cs.skip(1));
    }
}

/// Merge law for the duration: the aggregate holds the sum of the
/// contributing chunks' durations whenever that sum is representable,
/// and saturates at `u64::MAX` otherwise.
pub proof fn lemma_merged_duration_is_sum(cs: Seq<ChunkMeta>)
    ensures
        duration_sum(cs) <= u64::MAX ==> fold_merge(empty_meta(), cs).duration == duration_sum(cs),
        duration_sum(cs) > u64::MAX ==> fold_merge(empty_meta(), cs).duration == u64::MAX,
{
    lemma_fold_duration(empty_meta(), cs);
}

/// Folding adds the duration sum onto the aggregate, saturating.
proof fn lemma_fold_duration(m: FragmentMeta, cs: Seq<ChunkMeta>)
    ensures
        duration_sum(cs) >= 0,
        m.duration + duration_sum(cs) <= u64::MAX ==> fold_merge(m, cs).duration == m.duration
            + duration_sum(cs),
        m.duration + duration_sum(cs) > u64::MAX ==> fold_merge(m, cs).duration == u64::MAX,
    decreases cs.len(),
{
    if cs.len() > 0 {
        lemma_fold_duration(merge_meta(m, cs[0]), cs.skip(1));
    }
}

/// Merge law for the start offset: the aggregate holds the first
/// present offset among the contributing chunks.
pub proof fn lemma_merged_offset_is_first_present(cs: Seq<ChunkMeta>, i: int)
    requires
        0 <= i < cs.len(),
        cs[i].offset is Some,
        forall|j: int| 0 <= j < i ==> (#[trigger] cs[j]).offset is None,
    ensures
        fold_merge(empty_meta(), cs).offset == cs[i].offset,
{
    lemma_fold_offset_first(empty_meta(), cs, i);
}

/// Folding from an aggregate with no offset picks the first present one.
proof fn lemma_fold_offset_first(m: FragmentMeta, cs: Seq<ChunkMeta>, i: int)
    requires
        m.offset is None,
        0 <= i < cs.len(),
        cs[i].offset is Some,
        forall|j: int| 0 <= j < i ==> (#[trigger] cs[j]).offset is None,
    ensures
        fold_merge(m, cs).offset == cs[i].offset,
    decreases cs.len(),
{
    if i == 0 {
        lemma_fold_offset_set(merge_meta(m, cs[0]), cs.skip(1));
    } else {
        lemma_fold_offset_first(merge_meta(m, cs[0]), cs.skip(1), i - 1);
    }
}

/// Once the aggregate's offset is set, further merging never changes it.
proof fn lemma_fold_offset_set(m: FragmentMeta, cs: Seq<ChunkMeta>)
    requires
        m.offset is Some,
    ensures
        fold_merge(m, cs).offset == m.offset,
    decreases cs.len(),
{
    if cs.len() > 0 {
        lemma_fold_offset_set(merge_meta(m, cs[0]), cs.skip(1));
    }
}

/// Merge law for the end offset: the aggregate holds the last present
/// offset_end among the contributing chunks.
pub proof fn lemma_merged_offset_end_is_last_present(cs: Seq<ChunkMeta>, i: int)
    requires
        0 <= i < cs.len(),
        cs[i].offset_end is Some,
        forall|j: int| i < j < cs.len() ==> (#[trigger] cs[j]).offset_end is None,
    ensures
        fold_merge(empty_meta(), cs).offset_end == cs[i].offset_end,
{
    lemma_fold_offset_end_last(empty_meta(), cs, i);
}

/// Folding keeps the last present offset_end, whatever the aggregate held.
proof fn lemma_fold_offset_end_last(m: FragmentMeta, cs: Seq<ChunkMeta>, i: int)
    requires
        0 <= i < cs.len(),
        cs[i].offset_end is Some,
        forall|j: int| i < j < cs.len() ==> (#[trigger] cs[j]).offset_end is None,
    ensures
        fold_merge(m, cs).offset_end == cs[i].offset_end,
    decreases cs.len(),
{
    if i == 0 {
        lemma_fold_offset_end_none(merge_meta(m, cs[0]), cs.skip(1));
    } else {
        lemma_fold_offset_end_last(merge_meta(m, cs[0]), cs.skip(1), i - 1);
    }
}

/// Folding chunks that all lack offset_end leaves the aggregate's value.
proof fn lemma_fold_offset_end_none(m: FragmentMeta, cs: Seq<ChunkMeta>)
    requires
        forall|j: int| 0 <= j < cs.len() ==> (#[trigger] cs[j]).offset_end is None,
    ensures
        fold_merge(m, cs).offset_end == m.offset_end,
    decreases cs.len(),
{
    if cs.len() > 0 {
        lemma_fold_offset_end_none(merge_meta(m, cs[0]), cs.skip(1));
    }
}

/// Merge law for the delta-unit flag: it is cleared on the aggregate if and
/// only if at least one contributing chunk was not itself a delta unit.
pub proof fn lemma_merged_delta_unit_iff(cs: Seq<ChunkMeta>)
    ensures
        !fold_merge(empty_meta(), cs).delta_unit <==> exists|i: int|
            0 <= i < cs.len() && !(#[trigger] cs[i]).delta_unit,
{
    lemma_fold_delta_unit(empty_meta(), cs);
}

/// The folded delta-unit flag is the conjunction of the aggregate's flag
/// and every contributing chunk's flag.
proof fn lemma_fold_delta_unit(m: FragmentMeta, cs: Seq<ChunkMeta>)
    ensures
        fold_merge(m, cs).delta_unit <==> m.delta_unit && forall|i: int|
            0 <= i < cs.len() ==> (#[trigger] cs[i]).delta_unit,
    decreases cs.len(),
{
    if cs.len() > 0 {
        let rest = cs.skip(1);
        lemma_fold_delta_unit(merge_meta(m, cs[0]), rest);
        if fold_merge(m, cs).delta_unit {
            assert forall|i: int| 0 <= i < cs.len() implies (#[trigger] cs[i]).delta_unit by {
                if i > 0 {
                    assert(rest[i - 1].delta_unit);
                }
            }
        } else {
            if m.delta_unit && cs[0].delta_unit {
                let i = choose|i: int| 0 <= i < rest.len() && !(#[trigger] rest[i]).delta_unit;
                assert(!cs[i + 1].delta_unit);
            }
        }
    }
}

/// Merge law for the discontinuity flag: it is set on the aggregate if and
/// only if at least one contributing chunk carried it.
pub proof fn lemma_merged_discontinuity_iff(cs: Seq<ChunkMeta>)
    ensures
        fold_merge(empty_meta(), cs).discontinuity <==> exists|i: int|
            0 <= i < cs.len() && (#[trigger] cs[i]).discontinuity,
{
    lemma_fold_discontinuity(empty_meta(), cs);
}

/// The folded discontinuity flag is the disjunction of the aggregate's flag
/// and every contributing chunk's flag.
proof fn lemma_fold_discontinuity(m: FragmentMeta, cs: Seq<ChunkMeta>)
    ensures
        fold_merge(m, cs).discontinuity <==> m.discontinuity || exists|i: int|
            0 <= i < cs.len() && (#[trigger] cs[i]).discontinuity,
    decreases cs.len(),
{
    if cs.len() > 0 {
        let rest = cs.skip(1);
        lemma_fold_discontinuity(merge_meta(m, cs[0]), rest);
        if fold_merge(m, cs).discontinuity {
            if !m.discontinuity && !cs[0].discontinuity {
                let i = choose|i: int| 0 <= i < rest.len() && (#[trigger] rest[i]).discontinuity;
                assert(cs[i + 1].discontinuity);
            }
        } else {
            assert forall|i: int|
                0 <= i < cs.len() implies !(#[trigger] cs[i]).discontinuity by {
                if i > 0 {
                    assert(!rest[i - 1].discontinuity);
                }
            }
        }
    }
}

} // verus!

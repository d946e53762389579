//! Tests of the metadata aggregation: merging per contributing chunk,
//! first-wins, last-wins, summed and sticky fields, and the reset after a
//! fragment is emitted.

use fragmp4pay::atom::ATOM_TYPE_MDAT;
use fragmp4pay::atom::ATOM_TYPE_FTYPE;
use fragmp4pay::atom::ATOM_TYPE_MOOF;
use fragmp4pay::atom::ATOM_TYPE_MOOV;
use fragmp4pay::meta::{ChunkMeta, FragmentMeta};
use fragmp4pay::state::FragmentState;

fn atom(tag: u32, total: usize, fill: u8) -> Vec<u8> {
    assert!(total >= 8);
    let mut v = Vec::new();
    v.extend_from_slice(&(total as u32).to_be_bytes());
    v.extend_from_slice(&tag.to_be_bytes());
    for i in 8..total {
        v.push(fill.wrapping_add(i as u8));
    }
    v
}

fn quiet_meta(pts: u64) -> ChunkMeta {
    ChunkMeta {
        pts: Some(pts),
        dts: Some(pts),
        duration: Some(0),
        offset: None,
        offset_end: None,
        delta_unit: true,
        discontinuity: false,
    }
}

/// Feeds the three header atoms so that the next media-data atom emits.
fn primed_state() -> FragmentState {
    let mut state = FragmentState::new();
    state
        .process_chunk(&atom(ATOM_TYPE_FTYPE, 16, 1), &quiet_meta(1))
        .unwrap();
    state
        .process_chunk(&atom(ATOM_TYPE_MOOV, 24, 2), &quiet_meta(2))
        .unwrap();
    state
        .process_chunk(&atom(ATOM_TYPE_MOOF, 12, 3), &quiet_meta(3))
        .unwrap();
    state
}

#[test]
fn merge_is_first_wins_summed_and_sticky() {
    let mut m = FragmentMeta::empty();
    assert_eq!(m.pts, None);
    assert_eq!(m.duration, 0);
    assert!(m.delta_unit);
    assert!(!m.discontinuity);

    m.merge(&ChunkMeta {
        pts: Some(100),
        dts: None,
        duration: Some(10),
        offset: None,
        offset_end: Some(50),
        delta_unit: true,
        discontinuity: false,
    });
    m.merge(&ChunkMeta {
        pts: Some(999),
        dts: Some(90),
        duration: Some(15),
        offset: Some(7),
        offset_end: None,
        delta_unit: false,
        discontinuity: true,
    });
    m.merge(&ChunkMeta {
        pts: Some(888),
        dts: Some(80),
        duration: None,
        offset: Some(8),
        offset_end: Some(60),
        delta_unit: true,
        discontinuity: false,
    });

    // pts: first-wins; dts: first present wins.
    assert_eq!(m.pts, Some(100));
    assert_eq!(m.dts, Some(90));
    // duration: sum, an absent duration contributing zero.
    assert_eq!(m.duration, 25);
    // offset: first present wins; offset_end: last present wins.
    assert_eq!(m.offset, Some(7));
    assert_eq!(m.offset_end, Some(60));
    // delta-unit cleared once, stays cleared; discontinuity set, stays set.
    assert!(!m.delta_unit);
    assert!(m.discontinuity);
}

#[test]
fn merge_duration_saturates() {
    let mut m = FragmentMeta::empty();
    m.merge(&ChunkMeta {
        pts: Some(1),
        dts: None,
        duration: Some(u64::MAX - 5),
        offset: None,
        offset_end: None,
        delta_unit: true,
        discontinuity: false,
    });
    m.merge(&ChunkMeta {
        pts: Some(2),
        dts: None,
        duration: Some(10),
        offset: None,
        offset_end: None,
        delta_unit: true,
        discontinuity: false,
    });
    assert_eq!(m.duration, u64::MAX);
}

#[test]
fn split_media_data_merges_both_chunks() {
    let mdat = atom(ATOM_TYPE_MDAT, 40, 9);
    let mut state = primed_state();

    let first_half = ChunkMeta {
        pts: Some(500),
        dts: None,
        duration: Some(20),
        offset: Some(70),
        offset_end: Some(90),
        delta_unit: false,
        discontinuity: false,
    };
    let second_half = ChunkMeta {
        pts: Some(777),
        dts: Some(450),
        duration: Some(22),
        offset: Some(71),
        offset_end: Some(110),
        delta_unit: true,
        discontinuity: true,
    };
    assert!(state.process_chunk(&mdat[0..20], &first_half).unwrap().is_empty());
    let outs = state.process_chunk(&mdat[20..40], &second_half).unwrap();
    assert_eq!(outs.len(), 1);
    let got = &outs[0].meta;
    assert_eq!(got.pts, Some(500));
    assert_eq!(got.dts, Some(450));
    assert_eq!(got.duration, 42);
    assert_eq!(got.offset, Some(70));
    assert_eq!(got.offset_end, Some(110));
    assert!(!got.delta_unit);
    assert!(got.discontinuity);
}

#[test]
fn aggregate_resets_after_emission() {
    let mut state = primed_state();
    let loud = ChunkMeta {
        pts: Some(500),
        dts: Some(400),
        duration: Some(20),
        offset: Some(70),
        offset_end: Some(90),
        delta_unit: false,
        discontinuity: true,
    };
    let outs = state
        .process_chunk(&atom(ATOM_TYPE_MDAT, 24, 5), &loud)
        .unwrap();
    assert_eq!(outs.len(), 1);
    assert!(!outs[0].meta.delta_unit);

    // The next fragment starts from the reset value.
    let calm = ChunkMeta {
        pts: Some(900),
        dts: Some(800),
        duration: Some(7),
        offset: None,
        offset_end: None,
        delta_unit: true,
        discontinuity: false,
    };
    let outs = state
        .process_chunk(&atom(ATOM_TYPE_MDAT, 24, 6), &calm)
        .unwrap();
    assert_eq!(outs.len(), 1);
    let got = &outs[0].meta;
    assert_eq!(got.pts, Some(900));
    assert_eq!(got.dts, Some(800));
    assert_eq!(got.duration, 7);
    assert_eq!(got.offset, None);
    assert_eq!(got.offset_end, None);
    assert!(got.delta_unit);
    assert!(!got.discontinuity);
}

#[test]
fn metadata_of_orphan_chunk_lingers_until_emission() {
    // An orphan media-data atom is dropped without resetting the
    // aggregate: its metadata still colours the next emitted fragment.
    let mut state = FragmentState::new();
    let orphan_meta = ChunkMeta {
        pts: Some(111),
        dts: Some(110),
        duration: Some(5),
        offset: None,
        offset_end: None,
        delta_unit: true,
        discontinuity: false,
    };
    assert!(state
        .process_chunk(&atom(ATOM_TYPE_MDAT, 20, 1), &orphan_meta)
        .unwrap()
        .is_empty());

    state
        .process_chunk(&atom(ATOM_TYPE_FTYPE, 16, 1), &quiet_meta(1))
        .unwrap();
    state
        .process_chunk(&atom(ATOM_TYPE_MOOV, 24, 2), &quiet_meta(2))
        .unwrap();
    state
        .process_chunk(&atom(ATOM_TYPE_MOOF, 12, 3), &quiet_meta(3))
        .unwrap();
    let outs = state
        .process_chunk(&atom(ATOM_TYPE_MDAT, 24, 4), &quiet_meta(999))
        .unwrap();
    assert_eq!(outs.len(), 1);
    // First-wins pts: the orphan chunk's pts was merged first.
    assert_eq!(outs[0].meta.pts, Some(111));
}

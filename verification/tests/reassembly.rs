//! End-to-end tests of the incremental reassembler: atom extraction across
//! chunk boundaries, fragment emission, cache reuse, and error reporting.

use fragmp4pay::atom::{
    Mp4Error, ATOM_TYPE_FTYPE, ATOM_TYPE_MDAT, ATOM_TYPE_MOOF, ATOM_TYPE_MOOV,
};
use fragmp4pay::meta::ChunkMeta;
use fragmp4pay::parser::Mp4Parser;
use fragmp4pay::state::FragmentState;

/// Builds one complete atom of `total` bytes: 4-byte big-endian length,
/// 4-byte big-endian tag, payload filled from `fill`.
fn atom(tag: u32, total: usize, fill: u8) -> Vec<u8> {
    assert!(total >= 8);
    let mut v = Vec::new();
    v.extend_from_slice(&(total as u32).to_be_bytes());
    v.extend_from_slice(&tag.to_be_bytes());
    for i in 8..total {
        v.push(fill.wrapping_add(i as u8));
    }
    v
}

fn plain_meta(pts: u64) -> ChunkMeta {
    ChunkMeta {
        pts: Some(pts),
        dts: Some(pts),
        duration: Some(0),
        offset: None,
        offset_end: None,
        delta_unit: true,
        discontinuity: false,
    }
}

#[test]
fn parser_reassembles_split_header() {
    let a = atom(ATOM_TYPE_FTYPE, 20, 1);
    let mut p = Mp4Parser::new();
    p.add(&a[0..5]);
    assert!(matches!(p.pop_atom(), Ok(None)));
    p.add(&a[5..12]);
    assert!(matches!(p.pop_atom(), Ok(None)));
    p.add(&a[12..20]);
    let got = p.pop_atom().unwrap().unwrap();
    assert_eq!(got.atom_type, ATOM_TYPE_FTYPE);
    assert_eq!(got.atom_bytes, a);
    assert_eq!(got.len(), 20);
    assert!(matches!(p.pop_atom(), Ok(None)));
}

#[test]
fn parser_retains_remainder_after_extraction() {
    let a = atom(ATOM_TYPE_MOOF, 12, 2);
    let b = atom(ATOM_TYPE_MDAT, 16, 3);
    let mut both = a.clone();
    both.extend_from_slice(&b);
    let mut p = Mp4Parser::new();
    p.add(&both);
    let first = p.pop_atom().unwrap().unwrap();
    assert_eq!(first.atom_bytes, a);
    let second = p.pop_atom().unwrap().unwrap();
    assert_eq!(second.atom_bytes, b);
    assert!(matches!(p.pop_atom(), Ok(None)));
}

#[test]
fn parser_have_mdat_needs_nine_bytes() {
    let a = atom(ATOM_TYPE_MDAT, 40, 4);
    let mut p = Mp4Parser::new();
    p.add(&a[0..8]);
    assert!(!p.have_mdat());
    p.add(&a[8..9]);
    assert!(p.have_mdat());
    let other = atom(ATOM_TYPE_MOOV, 20, 5);
    let mut q = Mp4Parser::new();
    q.add(&other);
    assert!(!q.have_mdat());
}

#[test]
fn parser_rejects_undersized_length() {
    let mut bad = vec![0u8, 0, 0, 4];
    bad.extend_from_slice(&ATOM_TYPE_MDAT.to_be_bytes());
    let mut p = Mp4Parser::new();
    p.add(&bad);
    assert_eq!(p.pop_atom().unwrap_err(), Mp4Error::AtomLength);
    // The malformed header stays buffered, so the failure repeats.
    assert_eq!(p.pop_atom().unwrap_err(), Mp4Error::AtomLength);
}

#[test]
fn five_chunk_scenario_emits_one_fragment() {
    let ftype = atom(ATOM_TYPE_FTYPE, 20, 10);
    let moov = atom(ATOM_TYPE_MOOV, 50, 20);
    let moof = atom(ATOM_TYPE_MOOF, 30, 30);
    let mdat = atom(ATOM_TYPE_MDAT, 100, 40);

    let mut state = FragmentState::new();
    // The file-type atom arrives with its header split mid-atom.
    assert!(state
        .process_chunk(&ftype[0..8], &plain_meta(1))
        .unwrap()
        .is_empty());
    assert!(state
        .process_chunk(&ftype[8..20], &plain_meta(2))
        .unwrap()
        .is_empty());
    assert!(state.process_chunk(&moov, &plain_meta(3)).unwrap().is_empty());
    assert!(state.process_chunk(&moof, &plain_meta(4)).unwrap().is_empty());

    let mdat_meta = ChunkMeta {
        pts: Some(700),
        dts: Some(600),
        duration: Some(40),
        offset: Some(1000),
        offset_end: Some(1100),
        delta_unit: false,
        discontinuity: true,
    };
    let outs = state.process_chunk(&mdat, &mdat_meta).unwrap();
    assert_eq!(outs.len(), 1);

    let mut expected = Vec::new();
    expected.extend_from_slice(&ftype);
    expected.extend_from_slice(&moov);
    expected.extend_from_slice(&moof);
    expected.extend_from_slice(&mdat);
    assert_eq!(expected.len(), 200);
    assert_eq!(outs[0].bytes, expected);

    // Metadata comes from the one chunk overlapping the media-data atom.
    assert_eq!(outs[0].meta.pts, Some(700));
    assert_eq!(outs[0].meta.dts, Some(600));
    assert_eq!(outs[0].meta.duration, 40);
    assert_eq!(outs[0].meta.offset, Some(1000));
    assert_eq!(outs[0].meta.offset_end, Some(1100));
    assert!(!outs[0].meta.delta_unit);
    assert!(outs[0].meta.discontinuity);
}

#[test]
fn whole_stream_in_one_chunk_emits_same_bytes() {
    let ftype = atom(ATOM_TYPE_FTYPE, 20, 10);
    let moov = atom(ATOM_TYPE_MOOV, 50, 20);
    let moof = atom(ATOM_TYPE_MOOF, 30, 30);
    let mdat = atom(ATOM_TYPE_MDAT, 100, 40);
    let mut stream = Vec::new();
    stream.extend_from_slice(&ftype);
    stream.extend_from_slice(&moov);
    stream.extend_from_slice(&moof);
    stream.extend_from_slice(&mdat);

    let mut one = FragmentState::new();
    let outs_one = one.process_chunk(&stream, &plain_meta(1)).unwrap();

    let mut many = FragmentState::new();
    let mut outs_many = Vec::new();
    for piece in stream.chunks(7) {
        outs_many.extend(many.process_chunk(piece, &plain_meta(2)).unwrap());
    }

    assert_eq!(outs_one.len(), 1);
    assert_eq!(outs_many.len(), 1);
    assert_eq!(outs_one[0].bytes, outs_many[0].bytes);
}

#[test]
fn second_fragment_reuses_cached_atoms() {
    let ftype = atom(ATOM_TYPE_FTYPE, 20, 10);
    let moov = atom(ATOM_TYPE_MOOV, 50, 20);
    let moof1 = atom(ATOM_TYPE_MOOF, 30, 30);
    let mdat1 = atom(ATOM_TYPE_MDAT, 44, 40);
    let moof2 = atom(ATOM_TYPE_MOOF, 30, 77);
    let mdat2 = atom(ATOM_TYPE_MDAT, 52, 90);

    let mut state = FragmentState::new();
    state.process_chunk(&ftype, &plain_meta(1)).unwrap();
    state.process_chunk(&moov, &plain_meta(2)).unwrap();
    state.process_chunk(&moof1, &plain_meta(3)).unwrap();
    let first = state.process_chunk(&mdat1, &plain_meta(4)).unwrap();
    state.process_chunk(&moof2, &plain_meta(5)).unwrap();
    let second = state.process_chunk(&mdat2, &plain_meta(6)).unwrap();

    assert_eq!(first.len(), 1);
    assert_eq!(second.len(), 1);
    // Identical file-type and movie sections in both outputs.
    assert_eq!(first[0].bytes[0..70], second[0].bytes[0..70]);
    // They differ only in the movie-fragment and media-data sections.
    assert_eq!(&first[0].bytes[70..100], &moof1[..]);
    assert_eq!(&second[0].bytes[70..100], &moof2[..]);
    assert_eq!(&first[0].bytes[100..], &mdat1[..]);
    assert_eq!(&second[0].bytes[100..], &mdat2[..]);
}

#[test]
fn orphan_mdat_is_dropped_and_stream_recovers() {
    let orphan = atom(ATOM_TYPE_MDAT, 50, 3);
    let mut state = FragmentState::new();
    let outs = state.process_chunk(&orphan, &plain_meta(1)).unwrap();
    assert!(outs.is_empty());

    // A subsequent well-formed sequence still succeeds.
    let ftype = atom(ATOM_TYPE_FTYPE, 16, 10);
    let moov = atom(ATOM_TYPE_MOOV, 24, 20);
    let moof = atom(ATOM_TYPE_MOOF, 12, 30);
    let mdat = atom(ATOM_TYPE_MDAT, 32, 40);
    state.process_chunk(&ftype, &plain_meta(2)).unwrap();
    state.process_chunk(&moov, &plain_meta(3)).unwrap();
    state.process_chunk(&moof, &plain_meta(4)).unwrap();
    let outs = state.process_chunk(&mdat, &plain_meta(5)).unwrap();
    assert_eq!(outs.len(), 1);
    let mut expected = Vec::new();
    expected.extend_from_slice(&ftype);
    expected.extend_from_slice(&moov);
    expected.extend_from_slice(&moof);
    expected.extend_from_slice(&mdat);
    assert_eq!(outs[0].bytes, expected);
}

#[test]
fn replaced_ftype_is_used_for_later_fragments() {
    let ftype1 = atom(ATOM_TYPE_FTYPE, 16, 1);
    let ftype2 = atom(ATOM_TYPE_FTYPE, 16, 200);
    let moov = atom(ATOM_TYPE_MOOV, 24, 20);
    let moof = atom(ATOM_TYPE_MOOF, 12, 30);
    let mdat = atom(ATOM_TYPE_MDAT, 20, 40);

    let mut state = FragmentState::new();
    state.process_chunk(&ftype1, &plain_meta(1)).unwrap();
    state.process_chunk(&moov, &plain_meta(2)).unwrap();
    state.process_chunk(&moof, &plain_meta(3)).unwrap();
    let first = state.process_chunk(&mdat, &plain_meta(4)).unwrap();
    assert_eq!(&first[0].bytes[0..16], &ftype1[..]);

    state.process_chunk(&ftype2, &plain_meta(5)).unwrap();
    let second = state.process_chunk(&mdat, &plain_meta(6)).unwrap();
    assert_eq!(second.len(), 1);
    assert_eq!(&second[0].bytes[0..16], &ftype2[..]);
}

#[test]
fn unknown_atom_is_skipped() {
    // "free" box: 0x66726565
    let unknown = atom(0x66726565, 24, 9);
    let ftype = atom(ATOM_TYPE_FTYPE, 16, 10);
    let moov = atom(ATOM_TYPE_MOOV, 24, 20);
    let moof = atom(ATOM_TYPE_MOOF, 12, 30);
    let mdat = atom(ATOM_TYPE_MDAT, 20, 40);

    let mut state = FragmentState::new();
    state.process_chunk(&ftype, &plain_meta(1)).unwrap();
    state.process_chunk(&moov, &plain_meta(2)).unwrap();
    assert!(state
        .process_chunk(&unknown, &plain_meta(3))
        .unwrap()
        .is_empty());
    state.process_chunk(&moof, &plain_meta(4)).unwrap();
    let outs = state.process_chunk(&mdat, &plain_meta(5)).unwrap();
    assert_eq!(outs.len(), 1);
    // The unknown atom's bytes appear nowhere in the output.
    assert_eq!(outs[0].bytes.len(), 16 + 24 + 12 + 20);
}

#[test]
fn empty_chunk_is_harmless() {
    let mut state = FragmentState::new();
    let outs = state.process_chunk(&[], &plain_meta(1)).unwrap();
    assert!(outs.is_empty());
}

#[test]
fn bad_atom_length_aborts_processing() {
    let mut bad = vec![0u8, 0, 0, 7];
    bad.extend_from_slice(&ATOM_TYPE_MOOV.to_be_bytes());
    let mut state = FragmentState::new();
    assert_eq!(
        state.process_chunk(&bad, &plain_meta(1)).unwrap_err(),
        Mp4Error::AtomLength
    );
    // The malformed bytes stay buffered: later calls fail the same way.
    assert_eq!(
        state.process_chunk(&[], &plain_meta(2)).unwrap_err(),
        Mp4Error::AtomLength
    );
}

#[test]
fn media_data_chunk_without_pts_is_rejected() {
    let mdat = atom(ATOM_TYPE_MDAT, 40, 4);
    let mut state = FragmentState::new();
    let mut no_pts = plain_meta(0);
    no_pts.pts = None;
    assert_eq!(
        state.process_chunk(&mdat[0..10], &no_pts).unwrap_err(),
        Mp4Error::MissingTimestamp
    );
}

#[test]
fn non_media_chunk_without_pts_is_accepted() {
    let moov = atom(ATOM_TYPE_MOOV, 24, 20);
    let mut state = FragmentState::new();
    let mut no_pts = plain_meta(0);
    no_pts.pts = None;
    assert!(state.process_chunk(&moov, &no_pts).unwrap().is_empty());
}

use chainvisor_state::barrier::{
    device_to_file, drop_range, get, mdbx_mapping, parse_hex, read_sidecar, Barrier, DropPlan,
    Pending,
};
use chainvisor_state::static_file::{
    iter_static_files, load_threads, LoadedFile, SegmentRangeInclusive, StaticFile,
    StaticFileSegment,
};

fn barrier() -> Barrier {
    get(&Some(" /run/cv.lock\n".to_string()), "/data/db").unwrap()
}

fn sidecar(seq: u64, ranges: &[(u64, u64)]) -> Vec<u8> {
    let mut out = seq.to_le_bytes().to_vec();
    for (off, len) in ranges {
        out.extend_from_slice(&off.to_le_bytes());
        out.extend_from_slice(&len.to_le_bytes());
    }
    out
}

#[test]
fn the_barrier_is_inert_unless_configured() {
    assert!(get(&None, "/data/db").is_none());
    let b = barrier();
    assert_eq!(b.lock_path, "/run/cv.lock");
    assert_eq!(b.ranges_path, "/run/cv.lock.ranges");
    assert_eq!(b.data_path, "/data/db/mdbx.dat");
    assert_eq!(b.last_seq, 0);
    assert_eq!(get(&Some("l".to_string()), "/d/").unwrap().data_path, "/d/mdbx.dat");
    assert_eq!(get(&Some("l".to_string()), "").unwrap().data_path, "mdbx.dat");
}

#[test]
fn a_batch_is_consumed_once() {
    let mut b = barrier();
    let body = sidecar(7, &[(4096, 8192), (1 << 40, 1)]);
    let pending = b.consume_ranges(&body);
    match &pending {
        Pending::Ranges { seq, ranges } => {
            assert_eq!(*seq, 7);
            assert_eq!(*ranges, [(4096, 8192), (1 << 40, 1)]);
        }
        other => panic!("{other:?}"),
    }
    assert_eq!(b.drops(&pending, &None, Some(1 << 20), 9), [(0, 1 << 20)]);
    b.consumed(&pending);
    assert_eq!(b.last_seq, 7);
    assert!(matches!(b.consume_ranges(&body), Pending::Nothing));
    assert!(matches!(
        b.consume_ranges(&sidecar(8, &[])),
        Pending::Ranges { seq: 8, ranges } if ranges.is_empty()
    ));
}

#[test]
fn a_sidecar_that_cannot_be_read_drops_everything() {
    assert!(matches!(read_sidecar(&[1, 2, 3], 0), Pending::Whole { seq: None }));
    let mut torn = sidecar(9, &[(0, 1)]);
    torn.pop();
    assert!(matches!(read_sidecar(&torn, 0), Pending::Whole { seq: Some(9) }));
    assert!(matches!(read_sidecar(&torn, 9), Pending::Whole { seq: None }));
    let mut b = barrier();
    let pending = b.consume_ranges(&torn);
    assert_eq!(b.drops(&pending, &Some(vec![(0, 0, 8)]), Some(77), 99), [(0, 77)]);
    b.consumed(&pending);
    assert_eq!(b.last_seq, 9);
    let pending = b.consume_ranges(&torn);
    assert_eq!(b.drops(&pending, &None, None, 99), [(0, 99)]);
    b.consumed(&pending);
    assert_eq!(b.last_seq, 9);
}

#[test]
fn without_a_mapping_the_whole_file_is_dropped_once() {
    let mut b = barrier();
    let body = sidecar(3, &[(0, 1)]);
    let extents = Some(vec![(16, 0, 8)]);
    let pending = b.consume_ranges(&body);
    assert_eq!(b.drops(&pending, &extents, Some(4096), 8192), [(16, 1)]);
    assert_eq!(b.drops(&pending, &extents, None, 8192), [(0, 8192)]);
    b.consumed(&pending);
    assert_eq!(b.last_seq, 3);
    let pending = b.consume_ranges(&body);
    assert!(matches!(pending, Pending::Nothing));
    assert!(b.drops(&pending, &None, None, 8192).is_empty());
    b.consumed(&pending);
    assert_eq!(b.last_seq, 3);
    assert_eq!(drop_range(0, 0, 8192), DropPlan { off: 0, span: 8192, span_in_map: None });
}

#[test]
fn device_ranges_become_file_ranges() {
    let extents = [(0, 1000, 100), (100, 5000, 50), (150, 900, 100)];
    assert_eq!(device_to_file(&extents, 950, 100), [(0, 50), (200, 50)]);
    assert_eq!(device_to_file(&extents, 5010, 10), [(110, 10)]);
    assert!(device_to_file(&extents, 1100, 3900).is_empty());
    assert!(device_to_file(&extents, 2000, 0).is_empty());
}

#[test]
fn without_extents_the_whole_file_is_dropped() {
    let b = barrier();
    let ranges = vec![(950, 100), (5010, 10)];
    let extents = Some(vec![(0, 1000, 100), (100, 5000, 50)]);
    let dropped = |ranges: &Vec<(u64, u64)>, extents: &Option<Vec<(u64, u64, u64)>>| {
        b.invalidate_device_ranges(ranges, extents, Some(77), 99)
    };
    assert_eq!(dropped(&ranges, &extents), [(0, 50), (110, 10)]);
    assert_eq!(dropped(&ranges, &None), [(0, 77)]);
    assert_eq!(dropped(&ranges, &Some(vec![])), [(0, 77)]);
    assert_eq!(dropped(&ranges, &Some(vec![(0, u64::MAX, 2)])), [(0, 77)]);
    assert_eq!(dropped(&vec![(u64::MAX, 2)], &extents), [(0, 77)]);
    assert_eq!(b.invalidate_device_ranges(&ranges, &extents, None, 99), [(0, 99)]);
    assert_eq!(b.invalidate_device_ranges(&vec![], &None, None, 99), [(0, 99)]);
}

#[test]
fn a_range_is_widened_to_pages() {
    assert_eq!(
        drop_range(1 << 20, 5000, 10),
        DropPlan { off: 4096, span: 4096, span_in_map: Some(4096) }
    );
    assert_eq!(
        drop_range(10_000, 8192, 8192),
        DropPlan { off: 8192, span: 8192, span_in_map: Some(1808) }
    );
    assert_eq!(
        drop_range(4096, 4096, 4096),
        DropPlan { off: 4096, span: 4096, span_in_map: None }
    );
}

#[test]
fn the_mapping_is_found_by_its_path() {
    let maps = "00400000-00452000 r-xp 00000000 08:02 17 /bin/x\n\
                7f0000000000-7f0000100000 r--s 00000000 08:02 18 /data/db/mdbx.dat\n\
                7f1000000000-7f1000100000 r--s 00000000 08:02 18 /data/db/mdbx.dat\n";
    assert_eq!(mdbx_mapping(maps, "/data/db/mdbx.dat"), Some((0x7f0000000000, 0x100000)));
    assert_eq!(mdbx_mapping(maps, "/data/other"), None);
    assert_eq!(mdbx_mapping("zz-10 /m", "/m"), None);
    assert_eq!(mdbx_mapping("20-10 /m", "/m"), None);
    assert_eq!(mdbx_mapping("20 /m", "/m"), None);
    assert_eq!(parse_hex("ffffffffffffffff"), Some(u64::MAX));
    assert_eq!(parse_hex("10000000000000000"), None);
    assert_eq!(parse_hex("+1F"), Some(31));
    assert_eq!(parse_hex(""), None);
    assert_eq!(parse_hex("+"), None);
}

fn loaded(segment: StaticFileSegment, start: u64, end: u64) -> LoadedFile<&'static str> {
    LoadedFile {
        segment,
        file: StaticFile { block_range: SegmentRangeInclusive { start, end }, header: "h" },
    }
}

#[test]
fn static_files_are_grouped_and_sorted_by_their_end() {
    let sorted = iter_static_files::<_, String>(vec![
        Ok(Some(loaded(StaticFileSegment::Receipts, 0, 9))),
        Ok(None),
        Ok(Some(loaded(StaticFileSegment::Headers, 10, 19))),
        Ok(Some(loaded(StaticFileSegment::Headers, 0, 9))),
    ])
    .unwrap();
    assert_eq!(sorted.groups.len(), 2);
    let of = |segment| {
        let group = sorted.groups.iter().find(|g| g.segment == segment).unwrap();
        group.files.iter().map(|f| f.block_range.end).collect::<Vec<_>>()
    };
    assert_eq!(of(StaticFileSegment::Headers), [9, 19]);
    assert_eq!(of(StaticFileSegment::Receipts), [9]);
}

#[test]
fn a_file_that_cannot_be_loaded_fails_the_listing() {
    let r = iter_static_files(vec![
        Ok(Some(loaded(StaticFileSegment::Headers, 0, 9))),
        Err("torn jar"),
        Err("second"),
    ]);
    assert_eq!(r.err(), Some("torn jar"));
}

#[test]
fn loading_is_bounded() {
    assert_eq!(load_threads(0), 1);
    assert_eq!(load_threads(17), 17);
    assert_eq!(load_threads(1000), 64);
}

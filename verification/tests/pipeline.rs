use archive_sync::block_maps::BlockMaps;
use archive_sync::fetcher::FetchOutcome;
use archive_sync::gaps::{dedup, finer_stride, plan_rescan, Rescan};
use archive_sync::pipeline::{ContiguityPipeline, PipelineStep};
use archive_sync::range::ARCHIVE_SLICE;
use archive_sync::replay::{gaps_handler, process_maps, start_download, Stalled};

fn archive(lowest: u32, highest: u32) -> BlockMaps {
    BlockMaps::new(lowest, highest).unwrap()
}

/// Peers that hold the archives `width * k ..= width * k + width - 1` for
/// `k < count`.
fn peers(width: u32, count: u32) -> Vec<FetchOutcome> {
    (0..count)
        .map(|k| FetchOutcome::Archive(archive(width * k, width * k + width - 1)))
        .collect()
}

#[test]
fn pipeline_forwards_a_contiguous_pair() {
    let mut p = ContiguityPipeline::new(archive(0, 9));
    assert_eq!(p.pending(), archive(0, 9));
    assert_eq!(
        p.advance(archive(10, 19)),
        PipelineStep::Forward { archive: archive(0, 9) }
    );
    assert_eq!(p.pending(), archive(10, 19));
}

#[test]
fn pipeline_asks_for_the_gap_to_be_filled() {
    let mut p = ContiguityPipeline::new(archive(0, 9));
    assert_eq!(
        p.advance(archive(100, 109)),
        PipelineStep::Heal { gap_start: 10, gap_end: 99, archive: archive(0, 9) }
    );
    assert_eq!(p.pending(), archive(100, 109));
    assert_eq!(
        p.advance(archive(110, 119)),
        PipelineStep::Forward { archive: archive(100, 109) }
    );
}

#[test]
fn pipeline_reports_an_overlap_as_a_malformed_gap() {
    let mut p = ContiguityPipeline::new(archive(0, 9));
    assert_eq!(
        p.advance(archive(5, 19)),
        PipelineStep::Heal { gap_start: 10, gap_end: 4, archive: archive(0, 9) }
    );
    assert_eq!(
        p.advance(archive(5, 19)),
        PipelineStep::Heal { gap_start: 20, gap_end: 4, archive: archive(5, 19) }
    );
}

#[test]
fn finer_stride_is_half_less_one() {
    assert_eq!(ARCHIVE_SLICE, 100);
    assert_eq!(finer_stride(ARCHIVE_SLICE), Some(49));
    assert_eq!(finer_stride(100), Some(49));
    assert_eq!(finer_stride(49), Some(23));
    assert_eq!(finer_stride(23), Some(10));
    assert_eq!(finer_stride(10), Some(4));
    assert_eq!(finer_stride(5), Some(1));
    assert_eq!(finer_stride(4), Some(1));
    assert_eq!(finer_stride(u32::MAX), Some(2147483646));
}

#[test]
fn finer_stride_ends_below_four() {
    assert_eq!(finer_stride(3), None);
    assert_eq!(finer_stride(2), None);
    assert_eq!(finer_stride(1), None);
    assert_eq!(finer_stride(0), None);
}

#[test]
fn plan_rescan_scans_the_gap_at_the_finer_stride() {
    assert_eq!(plan_rescan(10, 99, 100), Some(Rescan { step: 49, from: 10, to: 99 }));
    assert_eq!(plan_rescan(7, 7, 4), Some(Rescan { step: 1, from: 7, to: 7 }));
    assert_eq!(plan_rescan(10, 99, 3), None);
}

#[test]
fn plan_rescan_has_nothing_for_a_malformed_gap() {
    assert_eq!(plan_rescan(10, 9, 100), None);
    assert_eq!(plan_rescan(u32::MAX, 0, 100), None);
}

#[test]
fn dedup_drops_adjacent_repeats_only() {
    let a = archive(0, 9);
    let b = archive(10, 19);
    let c = archive(20, 29);
    assert_eq!(dedup(vec![a, a, b, b, b, a, c, c]), vec![a, b, a, c]);
    assert_eq!(dedup(vec![a, b, c]), vec![a, b, c]);
    assert_eq!(dedup(vec![a, a, a]), vec![a]);
    assert_eq!(dedup(vec![a]), vec![a]);
    assert_eq!(dedup(Vec::new()), Vec::<BlockMaps>::new());
}

#[test]
fn gap_filler_returns_nothing_for_a_malformed_gap() {
    let outcomes = peers(10, 25);
    assert_eq!(gaps_handler(5, 3, &outcomes, 4, 100), Ok(Vec::new()));
    assert_eq!(gaps_handler(u32::MAX, 0, &outcomes, 4, 100), Ok(Vec::new()));
    assert_eq!(gaps_handler(1, 0, &Vec::new(), 4, 100), Ok(Vec::new()));
}

#[test]
fn gap_filler_returns_nothing_without_a_finer_stride() {
    let outcomes = peers(1, 10);
    assert_eq!(gaps_handler(1, 5, &outcomes, 4, 3), Ok(Vec::new()));
    assert_eq!(gaps_handler(1, 5, &outcomes, 4, 0), Ok(Vec::new()));
}

#[test]
fn gap_filler_returns_nothing_for_a_gap_of_one() {
    // the scan stops short of the gap's end, so it has nothing to fetch
    let outcomes = peers(1, 10);
    assert_eq!(gaps_handler(3, 3, &outcomes, 4, 100), Ok(Vec::new()));
}

#[test]
fn gap_filler_scans_at_the_finer_stride() {
    // stride 4 is followed by stride 1: the scan fetches 2, 3, 4 and 5, and
    // the pipeline over them holds the last one back
    let outcomes = peers(1, 10);
    assert_eq!(
        gaps_handler(2, 6, &outcomes, 4, 4),
        Ok(vec![archive(2, 2), archive(3, 3), archive(4, 4)])
    );
}

#[test]
fn gap_filler_leaves_no_adjacent_duplicates() {
    let outcomes = vec![
        FetchOutcome::Archive(archive(0, 9)),
        FetchOutcome::Archive(archive(10, 200)),
        FetchOutcome::Archive(archive(201, 300)),
    ];
    // the scan at stride 49 fetches 10, 59, 108, 157 and 206; the first four
    // are served by the same archive
    assert_eq!(gaps_handler(10, 250, &outcomes, 4, 100), Ok(vec![archive(10, 200)]));
    assert_eq!(
        start_download(&outcomes, 4, 49, 10, 250),
        Ok(Some(vec![archive(10, 200), archive(10, 200), archive(10, 200), archive(10, 200)]))
    );
}

#[test]
fn gap_filler_stalls_where_a_fetch_does() {
    let outcomes = vec![FetchOutcome::Archive(archive(10, 19)), FetchOutcome::ParseError];
    assert_eq!(gaps_handler(10, 99, &outcomes, 4, 100), Err(Stalled { mc_seq_no: 59 }));
}

#[test]
fn process_maps_of_an_empty_stream_has_no_result() {
    assert_eq!(process_maps(Vec::new(), &peers(1, 5), 4, 100), Ok(None));
}

#[test]
fn process_maps_holds_the_last_archive_back() {
    let outcomes = peers(1, 5);
    assert_eq!(process_maps(vec![archive(0, 0)], &outcomes, 4, 100), Ok(Some(Vec::new())));
    assert_eq!(
        process_maps(vec![archive(0, 0), archive(1, 1)], &outcomes, 4, 100),
        Ok(Some(vec![archive(0, 0)]))
    );
}

#[test]
fn process_maps_puts_the_filling_before_the_held_archive() {
    let outcomes = peers(1, 20);
    // the gap 1..=9 is scanned at stride 1: 1, 2, ..., 8, of which the
    // pipeline of the scan holds 8 back
    let stream = vec![archive(0, 0), archive(10, 10), archive(11, 11)];
    assert_eq!(
        process_maps(stream, &outcomes, 4, 4),
        Ok(Some(vec![
            archive(1, 1),
            archive(2, 2),
            archive(3, 3),
            archive(4, 4),
            archive(5, 5),
            archive(6, 6),
            archive(7, 7),
            archive(0, 0),
            archive(10, 10),
        ]))
    );
}

#[test]
fn download_of_an_empty_range_has_no_result() {
    let outcomes = peers(1, 5);
    assert_eq!(start_download(&outcomes, 4, 1, 5, 5), Ok(None));
    assert_eq!(start_download(&outcomes, 4, 1, 5, 0), Ok(None));
    assert_eq!(start_download(&Vec::new(), 4, 1, 5, 5), Ok(None));
}

#[test]
fn download_of_contiguous_archives_emits_all_but_the_last() {
    let outcomes = peers(1, 5);
    assert_eq!(
        start_download(&outcomes, 4, 1, 0, 5),
        Ok(Some(vec![archive(0, 0), archive(1, 1), archive(2, 2), archive(3, 3)]))
    );
}

#[test]
fn download_without_gaps_delivers_a_contiguous_stream() {
    for (width, step) in [(1u32, 1u32), (10, 10), (100, 100), (25, 25)] {
        let outcomes = peers(width, 40);
        let archives = start_download(&outcomes, 4, step, 0, width * 40).unwrap().unwrap();
        assert_eq!(archives.len(), 39);
        for pair in archives.windows(2) {
            assert!(BlockMaps::is_contiguous(&pair[0], &pair[1]));
        }
        for (k, found) in archives.iter().enumerate() {
            assert_eq!(*found, archive(width * k as u32, width * k as u32 + width - 1));
        }
    }
}

#[test]
fn filling_covers_sequence_numbers_of_the_gap() {
    let outcomes = peers(7, 200);
    for (gap_start, gap_end) in [(10u32, 99u32), (100, 1000), (0, 1399), (500, 520), (3, 3)] {
        for stride in [4u32, 10, 49, 100, 1000] {
            let found = gaps_handler(gap_start, gap_end, &outcomes, 3, stride).unwrap();
            for filling in &found {
                assert!(filling.lowest_id().unwrap() < gap_end);
                assert!(filling.highest_id().unwrap() >= gap_start);
            }
            for pair in found.windows(2) {
                assert_ne!(pair[0], pair[1]);
            }
        }
    }
}

#[test]
fn download_keeps_the_order_of_the_range() {
    // the peers offer their archives in no particular order
    let outcomes = vec![
        FetchOutcome::Archive(archive(300, 399)),
        FetchOutcome::TransportError,
        FetchOutcome::Archive(archive(100, 199)),
        FetchOutcome::Archive(archive(0, 99)),
        FetchOutcome::NoArchive,
        FetchOutcome::Archive(archive(200, 299)),
    ];
    assert_eq!(
        start_download(&outcomes, 4, 100, 0, 400),
        Ok(Some(vec![archive(0, 99), archive(100, 199), archive(200, 299)]))
    );
    assert_eq!(
        start_download(&outcomes, 4, 100, 50, 400),
        Ok(Some(vec![archive(0, 99), archive(100, 199), archive(200, 299)]))
    );
}

#[test]
fn download_over_gaps_at_a_stride_that_cannot_be_refined() {
    // stride 2 over 0..5 fetches 0, 2 and 4. The gaps 1..=1 and 3..=3 are
    // found, but below stride 4 there is no finer scan: nothing is put in,
    // and the last archive is held back.
    let outcomes = peers(1, 5);
    assert_eq!(
        start_download(&outcomes, 4, 2, 0, 5),
        Ok(Some(vec![archive(0, 0), archive(2, 2)]))
    );
}

#[test]
fn download_over_gaps_fills_them_level_by_level() {
    // archives of ten sequence numbers each, scanned at stride 100
    let outcomes = peers(10, 25);
    assert_eq!(
        start_download(&outcomes, 4, 100, 0, 250),
        Ok(Some(vec![
            archive(20, 29),
            archive(10, 19),
            archive(0, 9),
            archive(120, 129),
            archive(110, 119),
            archive(100, 109),
        ]))
    );
}

#[test]
fn download_does_not_depend_on_the_number_of_parallel_tasks() {
    let outcomes = peers(10, 25);
    let alone = start_download(&outcomes, 1, 100, 0, 250);
    for parallel_tasks in 2..20 {
        assert_eq!(start_download(&outcomes, parallel_tasks, 100, 0, 250), alone);
    }
    let dense = start_download(&outcomes, 1, 7, 3, 240);
    assert_eq!(dense.as_ref().map(|found| found.as_ref().map(|archives| archives.len())), Ok(Some(33)));
    for parallel_tasks in [2, 3, 16, 34, 35, 1000, usize::MAX] {
        assert_eq!(start_download(&outcomes, parallel_tasks, 7, 3, 240), dense);
    }
}

#[test]
fn download_stalls_on_a_sequence_number_that_no_peer_serves() {
    let outcomes = peers(1, 3);
    assert_eq!(start_download(&outcomes, 4, 1, 0, 5), Err(Stalled { mc_seq_no: 3 }));
    assert_eq!(start_download(&Vec::new(), 4, 1, 0, 5), Err(Stalled { mc_seq_no: 0 }));
    // a stall inside a gap
    let holed = vec![
        FetchOutcome::Archive(archive(0, 9)),
        FetchOutcome::Archive(archive(100, 109)),
        FetchOutcome::Archive(archive(200, 209)),
    ];
    assert_eq!(start_download(&holed, 4, 100, 0, 250), Err(Stalled { mc_seq_no: 10 }));
}

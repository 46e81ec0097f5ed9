use archive_sync::block_maps::BlockMaps;
use archive_sync::range::{range_indices, FetchRequest, RangeDownloader};

fn archive(lowest: u32, highest: u32) -> BlockMaps {
    BlockMaps::new(lowest, highest).unwrap()
}

#[test]
fn range_indices_step_through_the_range() {
    assert_eq!(range_indices(0, 5, 1), vec![0, 1, 2, 3, 4]);
    assert_eq!(range_indices(0, 5, 2), vec![0, 2, 4]);
    assert_eq!(range_indices(0, 6, 2), vec![0, 2, 4]);
    assert_eq!(range_indices(0, 7, 2), vec![0, 2, 4, 6]);
    assert_eq!(range_indices(10, 99, 49), vec![10, 59]);
    assert_eq!(range_indices(100, 1000, 100), vec![100, 200, 300, 400, 500, 600, 700, 800, 900]);
}

#[test]
fn range_indices_of_an_empty_range() {
    assert_eq!(range_indices(5, 5, 1), Vec::<u32>::new());
    assert_eq!(range_indices(6, 5, 1), Vec::<u32>::new());
    assert_eq!(range_indices(u32::MAX, 0, 7), Vec::<u32>::new());
}

#[test]
fn range_indices_with_a_step_beyond_the_range() {
    assert_eq!(range_indices(3, 5, 100), vec![3]);
    assert_eq!(range_indices(3, 4, u32::MAX), vec![3]);
}

#[test]
fn range_indices_at_the_top_of_the_number_space() {
    assert_eq!(
        range_indices(u32::MAX - 5, u32::MAX, 2),
        vec![u32::MAX - 5, u32::MAX - 3, u32::MAX - 1]
    );
    assert_eq!(range_indices(u32::MAX - 1, u32::MAX, u32::MAX), vec![u32::MAX - 1]);
    assert_eq!(range_indices(0, u32::MAX, u32::MAX), vec![0]);
}

#[test]
fn downloader_has_nothing_for_an_empty_range() {
    assert!(RangeDownloader::new(4, 1, 5, 5).is_none());
    assert!(RangeDownloader::new(4, 1, 9, 5).is_none());
    assert!(RangeDownloader::new(4, 1, 5, 6).is_some());
}

#[test]
fn downloader_never_exceeds_the_bound() {
    let mut d = RangeDownloader::new(2, 1, 0, 5).unwrap();
    assert_eq!(d.parallel_tasks(), 2);
    assert_eq!(d.fetches_in_flight(), 0);
    assert_eq!(d.next_request(), Some(FetchRequest { slot: 0, mc_seq_no: 0 }));
    assert_eq!(d.fetches_in_flight(), 1);
    assert_eq!(d.next_request(), Some(FetchRequest { slot: 1, mc_seq_no: 1 }));
    assert_eq!(d.fetches_in_flight(), 2);
    assert_eq!(d.next_request(), None);
    assert_eq!(d.next_request(), None);
    assert_eq!(d.fetches_in_flight(), 2);

    // an archive that arrived and waits for its turn still takes its place
    assert!(d.complete(1, archive(1, 1)));
    assert_eq!(d.fetches_in_flight(), 1);
    assert_eq!(d.next_request(), None);
    assert_eq!(d.next_ready(), None);

    assert!(d.complete(0, archive(0, 0)));
    assert_eq!(d.fetches_in_flight(), 0);
    assert_eq!(d.next_request(), None);
    assert_eq!(d.next_ready(), Some(archive(0, 0)));
    assert_eq!(d.next_request(), Some(FetchRequest { slot: 2, mc_seq_no: 2 }));
    assert_eq!(d.next_request(), None);
    assert_eq!(d.fetches_in_flight(), 1);
}

#[test]
fn downloader_bound_holds_through_a_whole_range() {
    for limit in 1..6usize {
        let mut d = RangeDownloader::new(limit, 3, 10, 100).unwrap();
        let mut in_flight: Vec<FetchRequest> = Vec::new();
        let mut handed_on: Vec<BlockMaps> = Vec::new();
        while !d.is_finished() {
            while let Some(request) = d.next_request() {
                in_flight.push(request);
                assert!(in_flight.len() <= limit);
                assert_eq!(d.fetches_in_flight(), in_flight.len());
            }
            // the fetch started last is the first to come back
            let request = in_flight.pop().unwrap();
            assert!(d.complete(request.slot, archive(request.mc_seq_no, request.mc_seq_no + 2)));
            assert_eq!(d.fetches_in_flight(), in_flight.len());
            while let Some(a) = d.next_ready() {
                handed_on.push(a);
            }
        }
        assert!(in_flight.is_empty());
        let expected: Vec<BlockMaps> =
            range_indices(10, 100, 3).into_iter().map(|n| archive(n, n + 2)).collect();
        assert_eq!(handed_on, expected);
    }
}

#[test]
fn downloader_with_a_wide_bound_starts_the_whole_range() {
    let mut d = RangeDownloader::new(usize::MAX, 1, 0, 4).unwrap();
    assert_eq!(d.parallel_tasks(), usize::MAX);
    for n in 0..4u32 {
        assert_eq!(d.next_request(), Some(FetchRequest { slot: n as usize, mc_seq_no: n }));
    }
    assert_eq!(d.next_request(), None);
    assert_eq!(d.fetches_in_flight(), 4);
}

#[test]
fn downloader_with_one_task_fetches_one_by_one() {
    let mut d = RangeDownloader::new(1, 5, 0, 11).unwrap();
    for (slot, n) in [(0usize, 0u32), (1, 5), (2, 10)] {
        assert!(!d.is_finished());
        assert_eq!(d.next_request(), Some(FetchRequest { slot, mc_seq_no: n }));
        assert_eq!(d.next_request(), None);
        assert_eq!(d.next_ready(), None);
        assert!(d.complete(slot, archive(n, n)));
        assert_eq!(d.next_request(), None);
        assert_eq!(d.next_ready(), Some(archive(n, n)));
    }
    assert!(d.is_finished());
}

#[test]
fn downloader_hands_on_in_the_order_of_the_range() {
    let mut d = RangeDownloader::new(3, 10, 0, 30).unwrap();
    let first = d.next_request().unwrap();
    let second = d.next_request().unwrap();
    let third = d.next_request().unwrap();
    assert_eq!((first.mc_seq_no, second.mc_seq_no, third.mc_seq_no), (0, 10, 20));
    assert_eq!(d.next_request(), None);

    assert!(d.complete(third.slot, archive(20, 29)));
    assert_eq!(d.next_ready(), None);
    assert!(d.complete(second.slot, archive(10, 19)));
    assert_eq!(d.next_ready(), None);
    assert!(!d.is_finished());
    assert!(d.complete(first.slot, archive(0, 9)));
    assert_eq!(d.next_ready(), Some(archive(0, 9)));
    assert_eq!(d.next_ready(), Some(archive(10, 19)));
    assert_eq!(d.next_ready(), Some(archive(20, 29)));
    assert_eq!(d.next_ready(), None);
    assert!(d.is_finished());
    assert_eq!(d.next_request(), None);
}

#[test]
fn downloader_refuses_what_it_did_not_ask_for() {
    let mut d = RangeDownloader::new(2, 10, 0, 30).unwrap();
    // no fetch has been started
    assert!(!d.complete(0, archive(0, 9)));
    let first = d.next_request().unwrap();
    // the archive does not cover the sequence number
    assert!(!d.complete(first.slot, archive(1, 9)));
    assert!(!d.complete(first.slot, BlockMaps::empty()));
    // a slot that is not started, and one beyond the range
    assert!(!d.complete(1, archive(10, 19)));
    assert!(!d.complete(3, archive(30, 39)));
    assert!(!d.complete(usize::MAX, archive(0, 9)));
    assert_eq!(d.fetches_in_flight(), 1);
    assert_eq!(d.next_ready(), None);

    assert!(d.complete(first.slot, archive(0, 9)));
    // the same slot a second time
    assert!(!d.complete(first.slot, archive(0, 9)));
    assert_eq!(d.fetches_in_flight(), 0);
    assert_eq!(d.next_ready(), Some(archive(0, 9)));
    // a slot that has been handed on
    assert!(!d.complete(first.slot, archive(0, 9)));
}

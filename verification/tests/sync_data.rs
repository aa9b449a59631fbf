use chronicle_broker::sync::{FetchError, SelectResponse, SyncData, SyncRange, SyncRecord};
use std::ops::Range;

fn row(milestone_index: u32, logged_by: Option<u8>) -> SyncRecord {
    SyncRecord { milestone_index, logged_by }
}

fn fetch(rows: Vec<SyncRecord>, from: u32, to: u32) -> SyncData {
    let range = SyncRange { from, to };
    assert!(range.admits(&rows));
    SyncData::try_fetch(SelectResponse::Rows(rows), &range).unwrap()
}

fn lists(data: &SyncData) -> (Vec<Range<u32>>, Vec<Range<u32>>, Vec<Range<u32>>) {
    (data.completed().clone(), data.synced_but_unlogged().clone(), data.gaps().clone())
}

fn holds(ranges: &[Range<u32>], index: u32) -> usize {
    ranges.iter().filter(|range| range.contains(&index)).count()
}

fn descends(ranges: &[Range<u32>]) -> bool {
    ranges.iter().all(|range| range.start < range.end)
        && ranges.windows(2).all(|pair| pair[1].end < pair[0].start)
}

#[test]
fn three_rows_with_holes() {
    let data = fetch(vec![row(100, Some(1)), row(98, None), row(95, Some(1))], 90, 101);
    let (completed, unlogged, gaps) = lists(&data);
    assert_eq!(completed, vec![100..101, 95..96]);
    assert_eq!(unlogged, vec![98..99]);
    assert_eq!(gaps, vec![99..100, 96..98, 90..95]);
}

#[test]
fn no_rows_is_one_gap() {
    let data = fetch(vec![], 10, 20);
    let (completed, unlogged, gaps) = lists(&data);
    assert!(completed.is_empty());
    assert!(unlogged.is_empty());
    assert_eq!(gaps, vec![10..20]);
}

#[test]
fn no_rows_of_an_empty_range_is_nothing() {
    let data = fetch(vec![], 7, 7);
    let (completed, unlogged, gaps) = lists(&data);
    assert!(completed.is_empty() && unlogged.is_empty() && gaps.is_empty());
}

#[test]
fn range_from_zero_has_its_lowest_gap() {
    let data = fetch(vec![row(3, Some(0))], 0, 5);
    let (completed, unlogged, gaps) = lists(&data);
    assert_eq!(completed, vec![3..4]);
    assert!(unlogged.is_empty());
    assert_eq!(gaps, vec![4..5, 0..3]);
}

#[test]
fn full_range_has_no_gap() {
    let data = fetch(vec![row(4, Some(1)), row(3, Some(1)), row(2, Some(1))], 2, 5);
    let (completed, unlogged, gaps) = lists(&data);
    assert_eq!(completed, vec![2..5]);
    assert!(unlogged.is_empty());
    assert!(gaps.is_empty());
}

#[test]
fn neighbours_of_one_kind_share_a_range() {
    let data = fetch(vec![row(9, None), row(8, None), row(7, None), row(5, None), row(4, None)], 4, 10);
    let (completed, unlogged, gaps) = lists(&data);
    assert!(completed.is_empty());
    assert_eq!(unlogged, vec![7..10, 4..6]);
    assert_eq!(gaps, vec![6..7]);
}

#[test]
fn a_change_of_kind_starts_a_new_range() {
    let data = fetch(
        vec![row(9, Some(1)), row(8, None), row(7, Some(1)), row(6, Some(2)), row(5, None), row(4, None)],
        4,
        10,
    );
    let (completed, unlogged, gaps) = lists(&data);
    assert_eq!(completed, vec![9..10, 6..8]);
    assert_eq!(unlogged, vec![8..9, 4..6]);
    assert!(gaps.is_empty());
}

#[test]
fn lists_share_the_range_out() {
    let rows = vec![
        row(48, Some(1)),
        row(47, None),
        row(46, None),
        row(40, Some(1)),
        row(39, Some(1)),
        row(31, None),
        row(30, Some(3)),
        row(22, None),
    ];
    let data = fetch(rows, 20, 50);
    let (completed, unlogged, gaps) = lists(&data);
    for index in 0..60 {
        let count = holds(&completed, index) + holds(&unlogged, index) + holds(&gaps, index);
        assert_eq!(count, if (20..50).contains(&index) { 1 } else { 0 }, "index {}", index);
    }
    assert_eq!(completed, vec![48..49, 39..41, 30..31]);
    assert_eq!(unlogged, vec![46..48, 31..32, 22..23]);
    assert_eq!(gaps, vec![49..50, 41..46, 32..39, 23..30, 20..22]);
}

#[test]
fn each_list_descends() {
    let rows = vec![row(18, None), row(15, Some(1)), row(14, Some(1)), row(11, None), row(10, Some(1))];
    let data = fetch(rows, 5, 20);
    let (completed, unlogged, gaps) = lists(&data);
    assert!(descends(&completed));
    assert!(descends(&unlogged));
    assert!(descends(&gaps));
}

#[test]
fn failed_responses_are_errors() {
    let range = SyncRange { from: 0, to: 10 };
    assert_eq!(SyncData::try_fetch(SelectResponse::Closed, &range).unwrap_err(), FetchError::ChannelClosed);
    assert_eq!(
        SyncData::try_fetch(SelectResponse::Exhausted, &range).unwrap_err(),
        FetchError::RetriesExhausted
    );
}

#[test]
fn admits_only_descending_rows_of_the_range() {
    let range = SyncRange { from: 10, to: 20 };
    assert!(range.admits(&vec![]));
    assert!(range.admits(&vec![row(19, None), row(10, Some(1))]));
    assert!(!range.admits(&vec![row(20, None)]));
    assert!(!range.admits(&vec![row(9, None)]));
    assert!(!range.admits(&vec![row(12, None), row(12, Some(1))]));
    assert!(!range.admits(&vec![row(12, None), row(13, None)]));
    assert!(!SyncRange { from: 5, to: 4 }.admits(&vec![]));
}

#[test]
fn take_lowest_gap_drains_the_gaps_from_below() {
    let mut data = fetch(vec![row(100, Some(1)), row(98, None), row(95, Some(1))], 90, 101);
    assert_eq!(data.take_lowest_gap(), Some(90..95));
    assert_eq!(data.take_lowest_gap(), Some(96..98));
    assert_eq!(data.take_lowest_gap(), Some(99..100));
    assert_eq!(data.take_lowest_gap(), None);
    assert_eq!(data.synced_but_unlogged(), &vec![98..99]);
    assert_eq!(data.completed(), &vec![100..101, 95..96]);
}

#[test]
fn take_lowest_unlogged_drains_the_unlogged_from_below() {
    let mut data = fetch(vec![row(9, None), row(7, None), row(6, None)], 5, 10);
    assert_eq!(data.take_lowest_unlogged(), Some(6..8));
    assert_eq!(data.take_lowest_unlogged(), Some(9..10));
    assert_eq!(data.take_lowest_unlogged(), None);
    assert_eq!(data.gaps(), &vec![8..9, 5..6]);
}

#[test]
fn take_lowest_gap_or_unlogged_takes_the_lower_start() {
    let mut data = fetch(vec![row(100, Some(1)), row(98, None), row(95, Some(1)), row(92, None)], 90, 101);
    assert_eq!(data.get_lowest_gap_or_unlogged(), Some(&(90..92)));
    assert_eq!(data.take_lowest_gap_or_unlogged(), Some(90..92));
    assert_eq!(data.get_lowest_gap_or_unlogged(), Some(&(92..93)));
    assert_eq!(data.take_lowest_gap_or_unlogged(), Some(92..93));
    assert_eq!(data.take_lowest_gap_or_unlogged(), Some(93..95));
    assert_eq!(data.take_lowest_gap_or_unlogged(), Some(96..98));
    assert_eq!(data.take_lowest_gap_or_unlogged(), Some(98..99));
    assert_eq!(data.take_lowest_gap_or_unlogged(), Some(99..100));
    assert_eq!(data.take_lowest_gap_or_unlogged(), None);
    assert_eq!(data.get_lowest_gap_or_unlogged(), None);
}

#[test]
fn take_lowest_gap_or_unlogged_with_one_list_empty() {
    let mut only_gaps = fetch(vec![row(5, Some(1))], 3, 8);
    assert_eq!(only_gaps.take_lowest_gap_or_unlogged(), Some(3..5));
    assert_eq!(only_gaps.take_lowest_gap_or_unlogged(), Some(6..8));
    assert_eq!(only_gaps.take_lowest_gap_or_unlogged(), None);
    let mut only_unlogged = fetch(vec![row(4, None), row(3, None)], 3, 5);
    assert_eq!(only_unlogged.take_lowest_gap_or_unlogged(), Some(3..5));
    assert_eq!(only_unlogged.take_lowest_gap_or_unlogged(), None);
}

#[test]
fn take_lowest_uncomplete_joins_touching_ranges() {
    let mut data = fetch(vec![row(100, Some(1)), row(98, None), row(95, Some(1))], 90, 101);
    assert_eq!(data.take_lowest_uncomplete(), Some(90..95));
    assert_eq!(data.take_lowest_uncomplete(), Some(96..100));
    assert_eq!(data.take_lowest_uncomplete(), None);
    assert!(data.gaps().is_empty());
    assert!(data.synced_but_unlogged().is_empty());
    assert_eq!(data.completed(), &vec![100..101, 95..96]);
}

#[test]
fn take_lowest_uncomplete_stops_at_a_completed_index() {
    let rows = vec![row(19, None), row(16, None), row(15, Some(1)), row(13, None), row(12, None)];
    let mut data = fetch(rows, 10, 21);
    assert_eq!(data.take_lowest_uncomplete(), Some(10..15));
    assert_eq!(data.gaps(), &vec![20..21, 17..19]);
    assert_eq!(data.synced_but_unlogged(), &vec![19..20, 16..17]);
    assert_eq!(data.take_lowest_uncomplete(), Some(16..21));
    assert_eq!(data.take_lowest_uncomplete(), None);
}

#[test]
fn default_sync_data_is_empty() {
    let mut data = SyncData::default();
    assert!(data.completed().is_empty());
    assert!(data.synced_but_unlogged().is_empty());
    assert!(data.gaps().is_empty());
    assert_eq!(data.take_lowest_uncomplete(), None);
    assert_eq!(data.take_lowest_gap(), None);
    assert_eq!(data.take_lowest_unlogged(), None);
}

#[test]
fn proceed_carries_the_last_range_on() {
    let mut ranges = vec![20..21, 10..12];
    SyncData::proceed(&mut ranges, 9, true);
    assert_eq!(ranges, vec![20..21, 9..12]);
}

#[test]
fn proceed_opens_a_range_without_the_check() {
    let mut ranges = vec![20..21, 10..12];
    SyncData::proceed(&mut ranges, 9, false);
    assert_eq!(ranges, vec![20..21, 10..12, 9..10]);
}

#[test]
fn proceed_opens_a_range_after_a_hole() {
    let mut ranges = vec![10..12];
    SyncData::proceed(&mut ranges, 7, true);
    assert_eq!(ranges, vec![10..12, 7..8]);
    let mut none: Vec<Range<u32>> = Vec::new();
    SyncData::proceed(&mut none, 0, true);
    assert_eq!(none, vec![0..1]);
}

#[test]
fn process_gaps_records_a_hole_only() {
    let mut data = SyncData::default();
    data.process_gaps(10, 9);
    assert!(data.gaps().is_empty());
    data.process_gaps(10, 6);
    assert_eq!(data.gaps(), &vec![7..10]);
}

#[test]
fn process_rest_files_by_the_log() {
    let mut data = SyncData::default();
    data.process_rest(&Some(1), 9, &None);
    data.process_rest(&Some(1), 8, &Some(1));
    data.process_rest(&None, 7, &Some(1));
    data.process_rest(&None, 6, &None);
    data.process_rest(&Some(2), 5, &None);
    assert_eq!(data.completed(), &vec![8..10, 5..6]);
    assert_eq!(data.synced_but_unlogged(), &vec![6..8]);
    assert!(data.gaps().is_empty());
}

#[test]
fn a_gap_wins_a_tie() {
    let mut data = SyncData::default();
    data.process_gaps(8, 4);
    data.process_rest(&None, 5, &None);
    assert_eq!(data.gaps(), &vec![5..8]);
    assert_eq!(data.synced_but_unlogged(), &vec![5..6]);
    assert_eq!(data.get_lowest_gap_or_unlogged(), Some(&(5..8)));
    assert_eq!(data.take_lowest_gap_or_unlogged(), Some(5..8));
    assert_eq!(data.take_lowest_gap_or_unlogged(), Some(5..6));
    assert_eq!(data.take_lowest_gap_or_unlogged(), None);
}

#[test]
fn an_unlogged_range_that_starts_lower_is_taken_first() {
    let mut data = SyncData::default();
    data.process_gaps(9, 6);
    data.process_rest(&None, 6, &None);
    assert_eq!(data.take_lowest_gap_or_unlogged(), Some(6..7));
    assert_eq!(data.take_lowest_gap_or_unlogged(), Some(7..9));
}

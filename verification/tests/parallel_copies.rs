use eonsort::copy::{concurrency_for, default_concurrency, CopyOptions, LARGE_FILE_BYTES, MEDIUM_FILE_BYTES};
use eonsort::model::PlanEntry;

fn files(sizes: &[u64]) -> Vec<PlanEntry> {
    sizes
        .iter()
        .enumerate()
        .map(|(i, &size)| PlanEntry { source: format!("/src/{i}.jpg"), size, ..PlanEntry::default() })
        .collect()
}

#[test]
fn the_machine_default_is_held_between_one_and_eight() {
    assert_eq!(default_concurrency(Some(0)), 1);
    assert_eq!(default_concurrency(Some(6)), 6);
    assert_eq!(default_concurrency(Some(64)), 8);
    assert_eq!(default_concurrency(None), 4);
}

#[test]
fn many_small_files_are_copied_as_widely_as_the_machine_allows() {
    let small = files(&[4_000_000, 3_000_000, 5_000_000]);
    assert_eq!(concurrency_for(&small, Some(16)), 8);
    assert_eq!(concurrency_for(&small, Some(3)), 3);
}

#[test]
fn middling_files_are_copied_four_at_a_time() {
    let middling = files(&[MEDIUM_FILE_BYTES, MEDIUM_FILE_BYTES + 10]);
    assert_eq!(concurrency_for(&middling, Some(16)), 4);
    assert_eq!(concurrency_for(&middling, Some(2)), 2);
}

#[test]
fn large_files_are_copied_two_at_a_time() {
    let large = files(&[LARGE_FILE_BYTES * 3, 1_000]);
    assert_eq!(concurrency_for(&large, Some(16)), 2);
    assert_eq!(concurrency_for(&large, Some(1)), 1);
    assert_eq!(CopyOptions::for_files(&large, None).concurrency, 2);
}

#[test]
fn nothing_to_copy_leaves_the_machine_default() {
    assert_eq!(concurrency_for(&[], Some(5)), 5);
}

#[test]
fn sizes_near_the_top_of_the_range_still_average() {
    let huge = files(&[u64::MAX, u64::MAX, u64::MAX]);
    assert_eq!(concurrency_for(&huge, Some(8)), 2);
}

use eonsort::digest::content_digest;
use eonsort::duplicates::{
    content_groups, exact, first_look, rank_groups, second_look, size_groups, wasted, ContentFacts,
    DuplicateGroup, OnDisk, Verdict,
};
use eonsort::error::Error;

/// One listed file: its path, the path it is reached by in the end, and its bytes
/// (`None` where they cannot be read), with the size the listing gave.
struct Listed {
    path: &'static str,
    same: &'static str,
    size: u64,
    body: Option<&'static [u8]>,
}

fn file(path: &'static str, body: &'static [u8]) -> Listed {
    Listed { path, same: path, size: body.len() as u64, body: Some(body) }
}

fn search(listed: &[Listed], cancelled: bool) -> Result<Vec<DuplicateGroup>, Error> {
    let files: Vec<(String, u64)> = listed.iter().map(|l| (l.path.to_string(), l.size)).collect();
    let facts: Vec<Vec<ContentFacts>> = size_groups(&files)
        .iter()
        .map(|(_, members)| {
            members
                .iter()
                .map(|&at| ContentFacts {
                    source: listed[at].path.to_string(),
                    same_file: listed[at].same.to_string(),
                    digest: listed[at].body.map(content_digest),
                })
                .collect()
        })
        .collect();
    exact(&files, &facts, cancelled)
}

#[test]
fn finds_files_that_hold_the_same_bytes() {
    let listed = [
        file("/d/a.jpg", b"same picture"),
        file("/d/b.jpg", b"same picture"),
        file("/d/c.jpg", b"another one!"),
    ];

    let groups = search(&listed, false).unwrap();

    assert_eq!(groups.len(), 1);
    assert_eq!(groups[0].sources.len(), 2);
    assert_eq!(groups[0].bytes, 12);
    assert_eq!(groups[0].wasted, 12);
    assert_eq!(wasted(&groups), 12);
}

#[test]
fn files_of_the_same_length_are_not_taken_for_each_other() {
    let listed = [file("/d/a.jpg", b"aaaaa"), file("/d/b.jpg", b"bbbbb")];

    assert!(search(&listed, false).unwrap().is_empty());
}

#[test]
fn empty_files_are_not_reported_as_copies_of_each_other() {
    let listed = [file("/d/a.jpg", b""), file("/d/b.jpg", b"")];

    assert!(search(&listed, false).unwrap().is_empty());
}

#[test]
fn the_heaviest_group_is_reported_first() {
    let listed = [
        file("/d/small1.jpg", b"tiny"),
        file("/d/small2.jpg", b"tiny"),
        file("/d/big1.jpg", b"a much larger picture"),
        file("/d/big2.jpg", b"a much larger picture"),
        file("/d/big3.jpg", b"a much larger picture"),
    ];

    let groups = search(&listed, false).unwrap();

    assert_eq!(groups.len(), 2);
    assert_eq!(groups[0].sources.len(), 3);
    assert_eq!(groups[0].wasted, 42);
    assert_eq!(groups[1].wasted, 4);
}

#[test]
fn a_cancelled_search_stops_rather_than_reporting_half_of_it() {
    let listed = [file("/d/a.jpg", b"same"), file("/d/b.jpg", b"same")];

    assert!(matches!(search(&listed, true), Err(Error::Cancelled)));
}

#[test]
fn one_file_listed_twice_is_not_a_copy_of_itself() {
    let twice = [file("/d/a.jpg", b"same picture"), file("/d/a.jpg", b"same picture")];

    assert!(search(&twice, false).unwrap().is_empty());
}

#[test]
fn one_path_reached_two_ways_is_not_a_copy_of_itself() {
    let twice = [
        file("/d/2023/a.jpg", b"same picture"),
        Listed {
            path: "/d/./2023/a.jpg",
            same: "/d/2023/a.jpg",
            size: 12,
            body: Some(b"same picture"),
        },
    ];

    assert!(search(&twice, false).unwrap().is_empty());
}

#[test]
fn a_real_copy_beside_a_path_listed_twice_still_reports_one_extra() {
    let listing = [
        file("/d/a.jpg", b"same picture"),
        file("/d/a.jpg", b"same picture"),
        file("/d/b.jpg", b"same picture"),
    ];

    let groups = search(&listing, false).unwrap();

    assert_eq!(groups.len(), 1);
    assert_eq!(groups[0].sources.len(), 2);
    assert_eq!(groups[0].wasted, 12);
}

#[test]
fn a_file_that_cannot_be_read_is_skipped_rather_than_fatal() {
    let listed = [
        file("/d/a.jpg", b"same"),
        file("/d/b.jpg", b"same"),
        Listed { path: "/d/gone.jpg", same: "/d/gone.jpg", size: 4, body: None },
    ];

    let groups = search(&listed, false).unwrap();
    assert_eq!(groups.len(), 1);
    assert_eq!(groups[0].sources.len(), 2);
}

fn on_disk(len: u64) -> Option<OnDisk> {
    Some(OnDisk { is_file: true, len })
}

#[test]
fn a_copy_still_holding_the_same_bytes_may_go() {
    assert_eq!(first_look(false, on_disk(12), on_disk(12)), None);
    let one = Some(content_digest(b"same picture"));
    let two = Some(content_digest(b"same picture"));
    assert_eq!(second_look(&one, &two), Verdict::Removable);
}

#[test]
fn a_copy_rewritten_since_the_search_stays() {
    assert_eq!(first_look(false, on_disk(12), on_disk(12)), None);
    let one = Some(content_digest(b"same picture"));
    let two = Some(content_digest(b"different!!!"));
    assert_eq!(second_look(&one, &two), Verdict::Changed);
}

#[test]
fn a_copy_of_another_length_stays_without_reading_it() {
    assert_eq!(first_look(false, on_disk(12), on_disk(18)), Some(Verdict::Changed));
}

#[test]
fn a_keeper_that_went_away_takes_the_whole_group_with_it() {
    assert_eq!(first_look(false, None, on_disk(12)), Some(Verdict::Vanished));
}

#[test]
fn the_keeper_reached_by_another_path_is_never_removable() {
    assert_eq!(first_look(true, on_disk(12), on_disk(12)), Some(Verdict::TheKeeperItself));
}

#[test]
fn a_directory_in_place_of_a_copy_is_not_removed() {
    let folder = Some(OnDisk { is_file: false, len: 12 });
    assert_eq!(first_look(false, on_disk(12), folder), Some(Verdict::Vanished));
}

#[test]
fn a_digest_that_cannot_be_read_counts_as_gone() {
    let one = Some(content_digest(b"same"));
    assert_eq!(second_look(&one, &None), Verdict::Vanished);
}

#[test]
fn sizes_shared_by_two_files_are_listed_in_the_order_they_first_appear() {
    let files = vec![
        ("/a".to_string(), 5),
        ("/b".to_string(), 3),
        ("/c".to_string(), 5),
        ("/d".to_string(), 0),
        ("/e".to_string(), 3),
        ("/f".to_string(), 0),
        ("/g".to_string(), 9),
    ];
    assert_eq!(size_groups(&files), vec![(5, vec![0, 2]), (3, vec![1, 4])]);
}

#[test]
fn the_paths_of_a_group_are_sorted() {
    let facts = vec![
        ContentFacts { source: "/z.jpg".to_string(), same_file: "/z.jpg".to_string(), digest: Some("ab".to_string()) },
        ContentFacts { source: "/m.jpg".to_string(), same_file: "/m.jpg".to_string(), digest: Some("ab".to_string()) },
        ContentFacts { source: "/a.jpg".to_string(), same_file: "/a.jpg".to_string(), digest: Some("ab".to_string()) },
    ];
    let groups = content_groups(7, &facts);
    assert_eq!(groups.len(), 1);
    assert_eq!(groups[0].sources, vec!["/a.jpg".to_string(), "/m.jpg".to_string(), "/z.jpg".to_string()]);
    assert_eq!(groups[0].wasted, 14);
}

#[test]
fn groups_that_waste_the_same_go_by_their_first_path() {
    let group = |first: &str, wasted: u64| DuplicateGroup {
        bytes: wasted,
        wasted,
        sources: vec![first.to_string(), "/zz".to_string()],
    };
    let ranked = rank_groups(vec![group("/b", 4), group("/c", 9), group("/a", 4)]);
    let order: Vec<&str> = ranked.iter().map(|g| g.sources[0].as_str()).collect();
    assert_eq!(order, vec!["/c", "/a", "/b"]);
}

#[test]
fn every_verdict_is_told() {
    assert_eq!(Verdict::Removable.describe(), "an identical copy is still there");
    assert_eq!(Verdict::Vanished.describe(), "it is no longer on disk");
    assert_eq!(
        Verdict::Changed.describe(),
        "it no longer holds the same bytes as the copy that is kept"
    );
    assert_eq!(
        Verdict::TheKeeperItself.describe(),
        "it is the copy that is kept, reached by another path"
    );
}

#[test]
fn the_digest_of_nothing_is_the_known_blake3_value() {
    assert_eq!(
        content_digest(b""),
        "af1349b9f5f9a1a6a0404dea36dcc9499bcb25c9adc112b7cc9a93cae41f3262"
    );
}

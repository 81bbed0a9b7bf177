use eonsort::similar::{group_bursts, hashable, BurstFacts};

fn shot(name: &str, second: i64, size: u64, hash: u64) -> BurstFacts {
    BurstFacts {
        source: format!("/cam/{name}"),
        taken: 1_562_234_400 + second,
        size,
        hash: Some(hash),
        rating: None,
    }
}

fn rating_key(value: f32) -> Option<i32> {
    if !value.is_finite() {
        return None;
    }
    let bits = value.to_bits() as i32;
    Some(if bits < 0 { bits ^ 0x7fff_ffff } else { bits })
}

fn shot_rated(name: &str, second: i64, size: u64, hash: u64, rating: f32) -> BurstFacts {
    BurstFacts {
        rating: rating_key(rating),
        ..shot(name, second, size, hash)
    }
}

#[test]
fn groups_near_identical_shots_taken_seconds_apart() {
    let facts = vec![
        shot("a.jpg", 0, 100, 0b0000),
        shot("b.jpg", 2, 500, 0b0001),
        shot("c.jpg", 4, 200, 0b0011),
    ];

    let bursts = group_bursts(&facts);
    assert_eq!(bursts.len(), 1);
    assert_eq!(bursts[0].members.len(), 3);
    assert!(bursts[0].keeper.ends_with("b.jpg"));
    assert_eq!(bursts[0].others().len(), 2);
}

#[test]
fn a_long_gap_breaks_the_burst_even_when_the_pictures_match() {
    let facts = vec![shot("a.jpg", 0, 100, 0), shot("b.jpg", 40, 100, 0)];
    assert!(group_bursts(&facts).is_empty());
}

#[test]
fn different_looking_pictures_are_not_a_burst() {
    let facts = vec![
        shot("a.jpg", 0, 100, 0x0000_0000_0000_0000),
        shot("b.jpg", 1, 100, 0xFFFF_FFFF_FFFF_FFFF),
    ];
    assert!(group_bursts(&facts).is_empty());
}

#[test]
fn shots_in_different_folders_never_group() {
    let facts = vec![
        BurstFacts {
            source: "/one/a.jpg".to_string(),
            taken: 0,
            size: 100,
            hash: Some(0),
            rating: None,
        },
        BurstFacts {
            source: "/two/b.jpg".to_string(),
            taken: 1,
            size: 100,
            hash: Some(0),
            rating: None,
        },
    ];
    assert!(group_bursts(&facts).is_empty());
}

#[test]
fn a_lone_shot_is_not_a_burst() {
    assert!(group_bursts(&[shot("only.jpg", 0, 100, 0)]).is_empty());
}

#[test]
fn files_without_a_fingerprint_are_left_out() {
    let facts = vec![
        BurstFacts {
            source: "/cam/clip.mp4".to_string(),
            taken: 0,
            size: 100,
            hash: None,
            rating: None,
        },
        BurstFacts {
            source: "/cam/other.mp4".to_string(),
            taken: 1,
            size: 100,
            hash: None,
            rating: None,
        },
    ];
    assert!(group_bursts(&facts).is_empty());
}

#[test]
fn two_separate_bursts_in_one_folder_stay_separate() {
    let facts = vec![
        shot("a.jpg", 0, 100, 0b0000),
        shot("b.jpg", 1, 100, 0b0001),
        shot("c.jpg", 30, 100, 0b0000),
        shot("d.jpg", 31, 100, 0b0001),
    ];
    assert_eq!(group_bursts(&facts).len(), 2);
}

#[test]
fn only_looks_at_pictures_it_can_decode() {
    assert!(hashable("/a/x.JPG"));
    assert!(hashable("/a/x.png"));
    assert!(!hashable("/a/x.mp4"));
    assert!(!hashable("/a/x"));
}

#[test]
fn a_burst_keeps_the_best_looking_shot() {
    let run = vec![
        shot_rated("a.jpg", 0, 9_000_000, 0b0, 4.1),
        shot_rated("b.jpg", 2, 1_000_000, 0b1, 6.8),
        shot_rated("c.jpg", 4, 5_000_000, 0b11, 5.2),
    ];

    let bursts = group_bursts(&run);
    assert_eq!(bursts.len(), 1);
    assert!(
        bursts[0].keeper.ends_with("b.jpg"),
        "the best rated shot keeps, not the biggest file: {:?}",
        bursts[0].keeper
    );
}

#[test]
fn without_ratings_the_biggest_file_still_keeps() {
    let run = vec![shot("a.jpg", 0, 1_000_000, 0b0), shot("b.jpg", 2, 9_000_000, 0b1)];

    let bursts = group_bursts(&run);
    assert!(bursts[0].keeper.ends_with("b.jpg"), "{:?}", bursts[0].keeper);
}

#[test]
fn an_unrated_shot_never_beats_a_rated_one() {
    let run = vec![shot("big.jpg", 0, 9_000_000, 0b0), shot_rated("rated.jpg", 2, 1_000, 0b1, 3.0)];

    let bursts = group_bursts(&run);
    assert!(bursts[0].keeper.ends_with("rated.jpg"), "{:?}", bursts[0].keeper);
}

#[test]
fn a_burst_keeps_its_shots_in_the_order_they_were_taken() {
    let facts = vec![
        shot("late.jpg", 6, 100, 0b0000),
        shot("early.jpg", 2, 100, 0b0001),
        shot("middle.jpg", 4, 100, 0b0011),
        shot("alone.jpg", 100, 100, 0b0011),
    ];
    let bursts = group_bursts(&facts);
    assert_eq!(bursts.len(), 1);
    assert_eq!(
        bursts[0].members,
        vec!["/cam/early.jpg".to_string(), "/cam/middle.jpg".to_string(), "/cam/late.jpg".to_string()]
    );
    assert_eq!(bursts[0].keeper, "/cam/early.jpg");
}

#[test]
fn larger_bursts_are_listed_first() {
    let facts = vec![
        shot("a.jpg", 0, 100, 0),
        shot("b.jpg", 1, 100, 0),
        shot("c.jpg", 30, 100, 0),
        shot("d.jpg", 31, 100, 0),
        shot("e.jpg", 32, 100, 0),
    ];
    let bursts = group_bursts(&facts);
    assert_eq!(bursts.len(), 2);
    assert_eq!(bursts[0].members.len(), 3);
    assert_eq!(bursts[1].members.len(), 2);
}

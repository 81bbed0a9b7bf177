use eonsort::similar::{group_lookalikes, BurstFacts};

fn anywhere(name: &str, folder: &str, size: u64, hash: u64) -> BurstFacts {
    BurstFacts {
        source: format!("/{folder}/{name}"),
        taken: 1_562_234_400,
        size,
        hash: Some(hash),
        rating: None,
    }
}

fn unhashed(facts: &[BurstFacts]) -> Vec<Option<String>> {
    facts.iter().map(|f| Some(f.source.clone())).collect()
}

#[test]
fn finds_the_same_picture_saved_into_three_different_folders() {
    let facts = vec![
        anywhere("IMG_1.jpg", "phone", 3_000_000, 0x0F0F_0F0F_0F0F_0F0F),
        anywhere("IMG_1.jpg", "whatsapp", 200_000, 0x0F0F_0F0F_0F0F_0F0E),
        anywhere("copy.jpg", "backup", 900_000, 0x0F0F_0F0F_0F0F_0F0B),
    ];

    let found = group_lookalikes(&facts, &unhashed(&facts));
    assert_eq!(found.len(), 1);
    assert_eq!(found[0].members.len(), 3);
    assert_eq!(found[0].folders, 3);
    assert!(found[0].keeper.ends_with("phone/IMG_1.jpg"));
}

#[test]
fn a_run_inside_one_folder_is_left_to_the_burst_list() {
    let facts = vec![
        anywhere("a.jpg", "cam", 100, 0x0F0F_0F0F_0F0F_0F0F),
        anywhere("b.jpg", "cam", 100, 0x0F0F_0F0F_0F0F_0F0E),
    ];

    assert!(group_lookalikes(&facts, &unhashed(&facts)).is_empty());
}

#[test]
fn files_holding_the_same_bytes_are_left_to_the_identical_list() {
    let facts = vec![
        anywhere("a.jpg", "one", 100, 0x0F0F_0F0F_0F0F_0F0F),
        anywhere("a.jpg", "two", 100, 0x0F0F_0F0F_0F0F_0F0F),
    ];
    let same = vec![Some("same".to_string()); 2];

    assert!(group_lookalikes(&facts, &same).is_empty());
}

#[test]
fn one_re_encoded_copy_beside_two_identical_ones_is_still_reported() {
    let facts = vec![
        anywhere("a.jpg", "one", 100, 0x0F0F_0F0F_0F0F_0F0F),
        anywhere("a.jpg", "two", 100, 0x0F0F_0F0F_0F0F_0F0F),
        anywhere("a.jpg", "three", 900, 0x0F0F_0F0F_0F0F_0F0B),
    ];
    let digests: Vec<Option<String>> = facts
        .iter()
        .map(|f| {
            if f.source.contains("three") {
                Some("other".to_string())
            } else {
                Some("same".to_string())
            }
        })
        .collect();

    let found = group_lookalikes(&facts, &digests);
    assert_eq!(found.len(), 1);
    assert_eq!(found[0].members.len(), 2);
}

#[test]
fn pictures_that_only_look_roughly_alike_are_not_grouped() {
    let facts = vec![
        anywhere("a.jpg", "one", 100, 0x0000_0000_0000_0000),
        anywhere("b.jpg", "two", 100, 0xFFFF_FFFF_FFFF_FFFF),
    ];

    assert!(group_lookalikes(&facts, &unhashed(&facts)).is_empty());
}

#[test]
fn a_picture_no_hash_could_be_read_from_is_skipped() {
    let mut facts = vec![
        anywhere("a.jpg", "one", 100, 0x0F0F_0F0F_0F0F_0F0F),
        anywhere("b.jpg", "two", 100, 0x0F0F_0F0F_0F0F_0F0F),
    ];
    facts[1].hash = None;

    assert!(group_lookalikes(&facts, &unhashed(&facts)).is_empty());
}

#[test]
fn a_chain_of_close_copies_makes_one_ring() {
    let facts = vec![
        anywhere("a.jpg", "one", 100, 0x0000_0000_0000_0000),
        anywhere("b.jpg", "two", 100, 0x0000_0000_0000_003F),
        anywhere("c.jpg", "three", 100, 0x0000_0000_0000_0FFF),
    ];
    let found = group_lookalikes(&facts, &unhashed(&facts));
    assert_eq!(found.len(), 1);
    assert_eq!(found[0].members, vec!["/one/a.jpg".to_string(), "/three/c.jpg".to_string(), "/two/b.jpg".to_string()]);
    assert_eq!(found[0].keeper, "/one/a.jpg");
}

#[test]
fn copies_whose_bytes_could_not_be_read_all_stay() {
    let facts = vec![
        anywhere("a.jpg", "one", 100, 0x0F0F_0F0F_0F0F_0F0F),
        anywhere("a.jpg", "two", 100, 0x0F0F_0F0F_0F0F_0F0F),
    ];
    let found = group_lookalikes(&facts, &vec![None, None]);
    assert_eq!(found.len(), 1);
    assert_eq!(found[0].folders, 2);
}

#[test]
fn distances_between_fingerprints_behave_like_distances() {
    let (a, b, c) = (0b1011u64, 0b1001u64, 0xF0F0u64);
    assert_eq!(eonsort::similar::hamming(a, b), 1);
    assert_eq!(eonsort::similar::hamming(u64::MAX, 0), 64);
    assert!(eonsort::similar::hamming(a, c) <= eonsort::similar::hamming(a, b) + eonsort::similar::hamming(b, c));
    assert_eq!(eonsort::similar::hamming(c, c), 0);
    assert_ne!(eonsort::similar::hamming(a, b), 0);
}

#[test]
fn only_files_linked_to_another_need_their_bytes_read() {
    let mut facts = vec![
        anywhere("IMG_1.jpg", "phone", 3_000_000, 0x0F0F_0F0F_0F0F_0F0F),
        anywhere("IMG_1.jpg", "whatsapp", 200_000, 0x0F0F_0F0F_0F0F_0F0E),
        anywhere("alone.jpg", "backup", 900_000, 0xF0F0_F0F0_F0F0_F0F0),
    ];
    facts.push(BurstFacts { hash: None, ..anywhere("raw.cr2", "phone", 10, 0) });

    let needed = eonsort::partners::needs_digest(&facts);
    assert_eq!(needed, vec![true, true, false, false]);

    let read: Vec<Option<String>> =
        facts.iter().zip(&needed).map(|(f, &n)| if n { Some(f.source.clone()) } else { None }).collect();
    let found = group_lookalikes(&facts, &read);
    assert_eq!(found.len(), 1);
    assert_eq!(found[0].members.len(), 2);
}

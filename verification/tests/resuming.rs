use eonsort::copy::{last_record, resume, JournalRecord, Outcome};
use eonsort::model::PlanEntry;

fn entry(name: &str, size: u64) -> PlanEntry {
    PlanEntry { source: format!("/src/{name}"), destination: format!("/out/{name}"), size, ..PlanEntry::default() }
}

fn record(name: &str, outcome: Outcome) -> JournalRecord {
    JournalRecord { source: format!("/src/{name}"), outcome, written: None }
}

#[test]
fn a_stopped_copy_carries_on_with_what_the_journal_does_not_name() {
    let entries = vec![entry("a.jpg", 10), entry("b.jpg", 20), entry("c.jpg", 30), entry("d.jpg", 40)];
    let journal = vec![
        record("a.jpg", Outcome::Failed { error: "disk full".to_string() }),
        record("c.jpg", Outcome::Duplicate { destination: "/out/c_dup_1.jpg".to_string() }),
        record("a.jpg", Outcome::Copied { destination: "/out/a.jpg".to_string() }),
        record("gone.jpg", Outcome::AlreadyPresent { destination: "/out/gone.jpg".to_string() }),
    ];

    let (pending, progress) = resume(&entries, &journal);

    assert_eq!(pending, vec![1, 3]);
    assert_eq!(progress.files_total, 4);
    assert_eq!(progress.bytes_total, 100);
    assert_eq!(progress.files_done, 2);
    assert_eq!(progress.bytes_done, 40);
    assert_eq!(progress.copied, 1);
    assert_eq!(progress.duplicates, 1);
    assert_eq!(progress.already_present, 1);
    assert_eq!(progress.failed, 0);
    assert_eq!(progress.turned, 0);
    assert_eq!(progress.current, None);
}

#[test]
fn the_last_record_of_a_source_is_the_one_that_stands() {
    let journal = vec![
        record("a.jpg", Outcome::Failed { error: "busy".to_string() }),
        record("b.jpg", Outcome::Copied { destination: "/out/b.jpg".to_string() }),
        record("a.jpg", Outcome::Copied { destination: "/out/a.jpg".to_string() }),
    ];
    assert_eq!(last_record(&journal, "/src/a.jpg"), Some(2));
    assert_eq!(last_record(&journal, "/src/b.jpg"), Some(1));
    assert_eq!(last_record(&journal, "/src/c.jpg"), None);
}

#[test]
fn a_fresh_copy_has_everything_still_to_do() {
    let entries = vec![entry("a.jpg", 10), entry("b.jpg", 20)];
    let (pending, progress) = resume(&entries, &Vec::new());
    assert_eq!(pending, vec![0, 1]);
    assert_eq!(progress.files_done, 0);
    assert_eq!(progress.bytes_done, 0);
}

use eonsort::moment::Moment;
use eonsort::providers::filesystem::{latest, resolve};
use eonsort::providers::Provider;

fn at(year: i32, month: u32, day: u32, hour: u32, minute: u32, second: u32) -> Moment {
    Moment { year, month, day, hour, minute, second }
}

#[test]
fn prefers_the_earlier_of_created_and_modified() {
    let created = at(2020, 6, 15, 12, 0, 0);
    let modified = at(2000, 1, 1, 0, 0, 0);

    let found = resolve(Some(created), Some(modified)).unwrap();
    assert_eq!(found.taken, modified);
    assert_eq!(found.info.as_deref(), Some("modified"));
}

#[test]
fn falls_back_to_created_when_not_earlier_than_modified() {
    let created = at(2020, 6, 15, 12, 0, 0);
    let modified = created;

    let found = resolve(Some(created), Some(modified)).unwrap();
    assert_eq!(found.taken, created);
    assert_eq!(found.info.as_deref(), Some("created"));
}

#[test]
fn an_earlier_creation_time_is_reported_as_created() {
    let created = at(2019, 3, 1, 8, 30, 0);
    let modified = at(2021, 11, 2, 17, 5, 9);
    let found = resolve(Some(created), Some(modified)).unwrap();
    assert_eq!(found.provider, Provider::Filesystem);
    assert_eq!(found.taken, created);
    assert_eq!(found.info.as_deref(), Some("created"));
}

#[test]
fn one_known_time_is_the_answer_and_none_gives_nothing() {
    let only = at(2018, 2, 28, 23, 59, 59);
    let found = resolve(None, Some(only)).unwrap();
    assert_eq!((found.taken, found.info.as_deref()), (only, Some("modified")));
    let found = resolve(Some(only), None).unwrap();
    assert_eq!((found.taken, found.info.as_deref()), (only, Some("created")));
    assert!(resolve(None, None).is_none());
}

#[test]
fn the_latest_time_is_the_later_of_the_two() {
    let early = at(2010, 1, 1, 0, 0, 0);
    let late = at(2010, 1, 1, 0, 0, 1);
    assert_eq!(latest(Some(early), Some(late)), Some(late));
    assert_eq!(latest(Some(late), Some(early)), Some(late));
    assert_eq!(latest(None, Some(early)), Some(early));
    assert_eq!(latest(Some(early), None), Some(early));
    assert_eq!(latest(None, None), None);
}

use eonsort::moment::Moment;
use eonsort::providers::media::{
    find_box, is_media, movie_date, BoxScan, BoxStep, MovieDate, CREATION_KEY, EPOCH_OFFSET_SECONDS, MOOV,
};

fn boxed(kind: &[u8; 4], payload: &[u8]) -> Vec<u8> {
    let mut out = ((payload.len() + 8) as u32).to_be_bytes().to_vec();
    out.extend_from_slice(kind);
    out.extend_from_slice(payload);
    out
}

fn raw(unix: i64) -> u32 {
    (unix + EPOCH_OFFSET_SECONDS) as u32
}

fn mvhd(created: u32, modified: u32) -> Vec<u8> {
    let mut mvhd = vec![0u8; 4];
    mvhd.extend_from_slice(&created.to_be_bytes());
    mvhd.extend_from_slice(&modified.to_be_bytes());
    mvhd.extend_from_slice(&1000u32.to_be_bytes());
    mvhd.extend_from_slice(&5000u32.to_be_bytes());
    boxed(b"mvhd", &mvhd)
}

fn keys(names: &[&str]) -> Vec<u8> {
    let mut payload = vec![0u8; 4];
    payload.extend_from_slice(&(names.len() as u32).to_be_bytes());
    for name in names {
        payload.extend_from_slice(&((name.len() + 8) as u32).to_be_bytes());
        payload.extend_from_slice(b"mdta");
        payload.extend_from_slice(name.as_bytes());
    }
    boxed(b"keys", &payload)
}

fn ilst(index: u32, value: &str) -> Vec<u8> {
    let mut data = 1u32.to_be_bytes().to_vec();
    data.extend_from_slice(&0u32.to_be_bytes());
    data.extend_from_slice(value.as_bytes());
    let data = boxed(b"data", &data);

    let mut entry = ((data.len() + 8) as u32).to_be_bytes().to_vec();
    entry.extend_from_slice(&index.to_be_bytes());
    entry.extend_from_slice(&data);
    boxed(b"ilst", &entry)
}

fn quicktime_moov(value: &str, mvhd_unix: i64) -> Vec<u8> {
    let mut meta = boxed(b"hdlr", &[0u8; 24]);
    meta.extend_from_slice(&keys(&["com.apple.quicktime.make", CREATION_KEY]));
    meta.extend_from_slice(&ilst(2, value));

    let mut moov = mvhd(raw(mvhd_unix), raw(mvhd_unix));
    moov.extend_from_slice(&boxed(b"meta", &meta));
    moov
}

fn file_with(moov: &[u8]) -> Vec<u8> {
    let mut out = boxed(b"ftyp", b"qt  \0\0\0\0");
    out.extend_from_slice(&boxed(b"free", &[0u8; 4]));
    out.extend_from_slice(&boxed(b"moov", moov));
    out
}

#[test]
fn prefers_the_wall_clock_time_the_camera_recorded() {
    let moov = quicktime_moov("2019-05-14T09:22:03+0200", 1_557_818_523);
    match movie_date(&moov) {
        Some(MovieDate::Recorded { taken, info }) => {
            assert_eq!(taken, Moment { year: 2019, month: 5, day: 14, hour: 9, minute: 22, second: 3 });
            assert_eq!(info, "com.apple.quicktime.creationdate +02:00");
        }
        other => panic!("{other:?}"),
    }
}

#[test]
fn reads_a_wall_clock_time_written_with_a_colon_in_the_offset() {
    let moov = quicktime_moov("2019-05-14T09:22:03-07:00", 1_557_818_523);
    match movie_date(&moov) {
        Some(MovieDate::Recorded { taken, info }) => {
            assert_eq!(taken, Moment { year: 2019, month: 5, day: 14, hour: 9, minute: 22, second: 3 });
            assert_eq!(info, "com.apple.quicktime.creationdate -07:00");
        }
        other => panic!("{other:?}"),
    }
}

#[test]
fn falls_back_to_mvhd_when_the_recorded_time_makes_no_sense() {
    let moov = quicktime_moov("not a date", 1_304_665_689);
    match movie_date(&moov) {
        Some(MovieDate::Header { unix, field }) => {
            assert_eq!(unix, 1_304_665_689);
            assert_eq!(field, "mvhd.creation_time");
        }
        other => panic!("{other:?}"),
    }
}

#[test]
fn reads_creation_time_from_mvhd() {
    let moov = mvhd(raw(1_304_665_689), raw(1_400_000_000));
    match movie_date(&moov) {
        Some(MovieDate::Header { unix, field }) => {
            assert_eq!(unix, 1_304_665_689);
            assert_eq!(field, "mvhd.creation_time");
        }
        other => panic!("{other:?}"),
    }
}

#[test]
fn falls_back_to_modification_time_when_creation_is_unset() {
    let moov = mvhd(0, raw(1_400_000_000));
    match movie_date(&moov) {
        Some(MovieDate::Header { unix, field }) => {
            assert_eq!(unix, 1_400_000_000);
            assert_eq!(field, "mvhd.modification_time");
        }
        other => panic!("{other:?}"),
    }
}

#[test]
fn finds_the_movie_box_behind_others() {
    let moov = mvhd(raw(1_304_665_689), raw(1_400_000_000));
    let file = file_with(&moov);
    let (start, end) = find_box(&file, 0, file.len() as u64, &MOOV).unwrap();
    assert_eq!(&file[start as usize..end as usize], moov.as_slice());

    let mut scan = BoxScan::new(0, file.len() as u64);
    let found = loop {
        let at = scan.pos as usize;
        let header = &file[at.min(file.len())..(at + 16).min(file.len())];
        match scan.advance(header, &MOOV) {
            BoxStep::Found { start, end } => break Some((start, end)),
            BoxStep::Next { .. } => {}
            BoxStep::Stop => break None,
        }
    };
    assert_eq!(found, Some((start, end)));
}

#[test]
fn returns_none_when_there_is_no_moov_box() {
    let file = boxed(b"ftyp", b"isom\0\0\0\0");
    assert!(find_box(&file, 0, file.len() as u64, &MOOV).is_none());
}

#[test]
fn skips_files_without_a_media_extension() {
    assert!(is_media("/a/clip.MOV"));
    assert!(is_media("/a/clip.mp4"));
    assert!(!is_media("/a/clip.bin"));
}

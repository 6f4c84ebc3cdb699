//! Tests of logfile naming, candidate selection, trim and rotation
//! decisions, and the plain-text formatter.

use pinenut_log::extract::select_logfiles;
use pinenut_log::logfile::{logfile_name, parse_logfile_name};
use pinenut_log::logger::{should_trim, Io};
use pinenut_log::parse::render_line;
use pinenut_log::record::{Level, LocationBuilder, MetaBuilder, RecordBuilder};
use pinenut_log::time::{CivilParts, DateTime, TimeDimension};

#[test]
fn test_logfile_name_roundtrip() {
    let name = logfile_name("test", 1384781712);
    assert_eq!(name, b"test-1384781712.pine");
    let name = String::from_utf8(name).unwrap();
    assert_eq!(parse_logfile_name(&name, "test"), Some(1384781712));
    assert_eq!(parse_logfile_name(&name, "other"), None);
    assert_eq!(parse_logfile_name("test-12.log", "test"), None);
    assert_eq!(parse_logfile_name("test-abc.pine", "test"), None);
    assert_eq!(parse_logfile_name("test.pine", "test"), None);
    // The split is at the last separator, so an identifier holding one still
    // round-trips.
    let name = String::from_utf8(logfile_name("my-app", 42)).unwrap();
    assert_eq!(name, "my-app-42.pine");
    assert_eq!(parse_logfile_name(&name, "my-app"), Some(42));
    assert_eq!(parse_logfile_name("test--5.pine", "test"), None);
    assert_eq!(parse_logfile_name("test--5.pine", "test-"), Some(5));
}

#[test]
fn test_select_logfiles_window() {
    // Files at hours 13, 14, 15; range [13:36, 14:05] keeps the 13-hour file
    // as starting bucket and the 14-hour file, stopping before 15.
    let files = vec![1384779600i64, 1384783200, 1384786800];
    let (lo, hi) = select_logfiles(&files, 1384781760, 1384783523);
    assert_eq!((lo, hi), (0, 2));

    // A range beginning after the second file supersedes the first.
    let (lo, hi) = select_logfiles(&files, 1384783300, 1384786801);
    assert_eq!((lo, hi), (1, 3));

    // A range wholly before everything selects nothing.
    let (lo, hi) = select_logfiles(&files, 0, 1384779600);
    assert_eq!((lo, hi), (0, 0));
}

#[test]
fn test_trim_lifetimes() {
    let now = 1_000_000i64;
    let hour = 3600u64;
    // Files 1h, 2h and 5h old with a 3h lifetime: only the oldest goes.
    assert!(!should_trim(now - 3600, now, 3 * hour));
    assert!(!should_trim(now - 7200, now, 3 * hour));
    assert!(should_trim(now - 18000, now, 3 * hour));
}

#[test]
fn test_check_match_dimensions() {
    let a = CivilParts { year: 2013, month: 11, day: 18, hour: 13, minute: 35, second: 12 };
    let same_minute = CivilParts { second: 59, ..a };
    let same_hour = CivilParts { minute: 36, second: 0, ..a };
    let same_day = CivilParts { hour: 14, minute: 0, second: 0, ..a };
    let other_day = CivilParts { day: 19, hour: 13, minute: 35, second: 12, ..a };

    assert!(TimeDimension::Minute.check_match(&a, &same_minute));
    assert!(!TimeDimension::Minute.check_match(&a, &same_hour));
    assert!(TimeDimension::Hour.check_match(&a, &same_hour));
    assert!(!TimeDimension::Hour.check_match(&a, &same_day));
    assert!(TimeDimension::Day.check_match(&a, &same_day));
    assert!(!TimeDimension::Day.check_match(&a, &other_day));

    assert_eq!(TimeDimension::Minute.file_dimension(), TimeDimension::Hour);
    assert_eq!(TimeDimension::Hour.file_dimension(), TimeDimension::Day);
    assert_eq!(TimeDimension::Day.file_dimension(), TimeDimension::Day);
}

#[test]
fn test_io_file_rotation() {
    // Minute rotation groups chunks into hour files.
    let mut io = Io::new(TimeDimension::Minute);
    let p1 = CivilParts { year: 2013, month: 11, day: 18, hour: 13, minute: 35, second: 12 };
    let p2 = CivilParts { minute: 36, ..p1 };
    let p3 = CivilParts { hour: 14, minute: 0, ..p1 };

    let (file, opened) = io.file_for_chunk(1000, &p1);
    assert!(opened);
    assert_eq!(file, 1000);

    // Same hour: the chunk joins the same file.
    let (file, opened) = io.file_for_chunk(1060, &p2);
    assert!(!opened);
    assert_eq!(file, 1000);

    // New hour: a new file named by the chunk.
    let (file, opened) = io.file_for_chunk(2440, &p3);
    assert!(opened);
    assert_eq!(file, 2440);
}

#[test]
fn test_render_line() {
    let parts = CivilParts { year: 2013, month: 11, day: 18, hour: 13, minute: 35, second: 12 };
    let datetime = DateTime::new(1384781712, 123_000_000).unwrap();
    let location = LocationBuilder::new().file("main.rs").line(42).build();
    let meta = MetaBuilder::new()
        .level(Level::Warn)
        .datetime(datetime)
        .location(location)
        .tag("net")
        .thread_id(7)
        .build();
    let record = RecordBuilder::new().meta(meta).content("hello").build();

    let line = render_line(&record, &parts);
    assert_eq!(
        String::from_utf8(line).unwrap(),
        "[W] 2013-11-18 13:35:12.123|7|main.rs:42|net|hello\n"
    );
}

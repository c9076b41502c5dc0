use scanner::dates::{convert_sys_time, SysTime, _convert_sys_time, DATE_FORMAT};
use scanner::entry::{ItemFS, ItemType, RawEntry, RawMetadata, BAD_TIME};
use scanner::text::{decimal_text, parse_decimal, replace_char};

fn entry(path: &str, name: &str, is_dir: bool, len: u64, secs: i64) -> RawEntry {
    RawEntry {
        path: path.to_string(),
        file_name: name.to_string(),
        is_dir,
        metadata: Ok(RawMetadata { len, modified: Ok(SysTime { secs, nanos: 0 }) }),
    }
}

#[test]
fn epoch_is_first_of_january_1970() {
    let t = SysTime { secs: 0, nanos: 0 };
    assert_eq!(convert_sys_time(t), Some("01-01-1970".to_string()));
    assert_eq!(DATE_FORMAT, "%d-%m-%Y");
}

#[test]
fn dates_are_days_in_utc() {
    assert_eq!(
        convert_sys_time(SysTime { secs: 1431648000, nanos: 0 }),
        Some("15-05-2015".to_string())
    );
    assert_eq!(
        convert_sys_time(SysTime { secs: 1431648000 + 86399, nanos: 999_999_999 }),
        Some("15-05-2015".to_string())
    );
    assert_eq!(
        convert_sys_time(SysTime { secs: 1431648000 + 86400, nanos: 0 }),
        Some("16-05-2015".to_string())
    );
    assert_eq!(convert_sys_time(SysTime { secs: -1, nanos: 0 }), Some("31-12-1969".to_string()));
    assert_eq!(
        convert_sys_time(SysTime { secs: 951782400, nanos: 0 }),
        Some("29-02-2000".to_string())
    );
}

#[test]
fn custom_format_is_used() {
    let t = SysTime { secs: 1431648000, nanos: 0 };
    assert_eq!(_convert_sys_time(t, Some("%Y/%m/%d")), Some("2015/05/15".to_string()));
    assert_eq!(_convert_sys_time(t, None), Some("15-05-2015".to_string()));
    assert_eq!(_convert_sys_time(t, Some("day")), Some("day".to_string()));
}

#[test]
fn time_without_a_date_gives_none() {
    assert_eq!(convert_sys_time(SysTime { secs: i64::MAX, nanos: 0 }), None);
    assert_eq!(convert_sys_time(SysTime { secs: i64::MIN, nanos: 0 }), None);
    assert_eq!(convert_sys_time(SysTime { secs: 0, nanos: 2_000_000_000 }), None);
}

#[test]
fn format_that_cannot_be_written_gives_none() {
    let t = SysTime { secs: 0, nanos: 0 };
    assert_eq!(_convert_sys_time(t, Some("%")), None);
    assert_eq!(_convert_sys_time(t, Some("%Q")), None);
}

#[test]
fn decimal_text_of_numbers() {
    assert_eq!(decimal_text(0), "0");
    assert_eq!(decimal_text(7), "7");
    assert_eq!(decimal_text(10), "10");
    assert_eq!(decimal_text(1234567890), "1234567890");
    assert_eq!(decimal_text(u128::MAX), u128::MAX.to_string());
}

#[test]
fn replace_char_replaces_every_occurrence() {
    assert_eq!(replace_char("a.b.c", '.', '-'), "a-b-c");
    assert_eq!(replace_char("", '.', '-'), "");
    assert_eq!(replace_char("...", '.', '.'), "...");
    assert_eq!(replace_char("héllo wörld", 'ö', 'o'), "héllo world");
}

#[test]
fn item_prints_as_two_lines() {
    let item = ItemFS::new(
        "/tmp/a.txt".to_string(),
        "a.txt".to_string(),
        ItemType::FILE,
        42,
        "15-05-2015".to_string(),
    );
    assert_eq!(item.to_string(), "file: /tmp/a.txt\na.txt: 15-05-2015 - 42 bytes");
    let d = ItemFS::new("/tmp".to_string(), "tmp".to_string(), ItemType::DIR, 0, "".to_string());
    assert_eq!(d.to_string(), "directory: /tmp\ntmp:  - 0 bytes");
}

#[test]
fn kinds_print_as_tags() {
    assert_eq!(ItemType::DIR.to_string(), "directory");
    assert_eq!(ItemType::FILE.to_string(), "file");
}

#[test]
fn new_keeps_the_five_fields() {
    let item = ItemFS::new(
        "/x/y".to_string(),
        "y".to_string(),
        ItemType::DIR,
        u128::MAX,
        "01-02-2003".to_string(),
    );
    assert_eq!(item.abs_path(), "/x/y");
    assert_eq!(item.name(), "y");
    assert_eq!(item.f_type(), ItemType::DIR);
    assert_eq!(item.get_size(), u128::MAX);
    assert_eq!(item.last_edit(), "01-02-2003");
    let smaller = item.clone().with_size(5);
    assert_eq!(smaller.get_size(), 5);
    assert_eq!(smaller.abs_path(), "/x/y");
    assert_eq!(item.get_size(), u128::MAX);
}

#[test]
fn file_entry_is_classified() {
    let raw = entry("/home/me/notes.txt", "notes.txt", false, 1234, 1431648000);
    let item = ItemFS::from_dir_entry(&raw, false).unwrap();
    assert_eq!(item.abs_path(), "/home/me/notes.txt");
    assert_eq!(item.name(), "notes.txt");
    assert_eq!(item.f_type(), ItemType::FILE);
    assert_eq!(item.get_size(), 1234);
    assert_eq!(item.last_edit(), "15-05-2015");
}

#[test]
fn directory_entry_is_classified() {
    let raw = entry("C:\\Users\\me", "me", true, 4096, 0);
    let item = ItemFS::from_dir_entry(&raw, true).unwrap();
    assert_eq!(item.abs_path(), "C:/Users/me");
    assert_eq!(item.name(), "me");
    assert_eq!(item.f_type(), ItemType::DIR);
    assert_eq!(item.get_size(), 4096);
    assert_eq!(item.last_edit(), "01-01-1970");
}

#[test]
fn largest_length_is_kept() {
    let raw = entry("/big", "big", false, u64::MAX, 0);
    let item = ItemFS::from_dir_entry(&raw, false).unwrap();
    assert_eq!(item.get_size(), u64::MAX as u128);
}

#[test]
fn unreadable_metadata_is_an_error() {
    let raw = RawEntry {
        path: "/gone".to_string(),
        file_name: "gone".to_string(),
        is_dir: false,
        metadata: Err("No such file or directory (os error 2)".to_string()),
    };
    assert_eq!(
        ItemFS::from_dir_entry(&raw, false).unwrap_err(),
        "No such file or directory (os error 2)"
    );
}

#[test]
fn unreadable_modification_time_is_an_error() {
    let raw = RawEntry {
        path: "/odd".to_string(),
        file_name: "odd".to_string(),
        is_dir: false,
        metadata: Ok(RawMetadata {
            len: 1,
            modified: Err("creation time is not available on this platform".to_string()),
        }),
    };
    assert_eq!(
        ItemFS::from_dir_entry(&raw, false).unwrap_err(),
        "creation time is not available on this platform"
    );
}

#[test]
fn time_without_a_date_is_an_error() {
    let raw = entry("/far", "far", false, 1, i64::MAX);
    assert_eq!(ItemFS::from_dir_entry(&raw, false).unwrap_err(), BAD_TIME);
    assert_eq!(BAD_TIME, "Invalid modification time");
}

#[test]
fn with_date_takes_the_date_as_given() {
    let raw = entry("/a\\b", "b", false, 5, 0);
    let item = ItemFS::with_date(&raw, true, 77, Some("any text".to_string())).unwrap();
    assert_eq!(item.abs_path(), "/a/b");
    assert_eq!(item.get_size(), 77);
    assert_eq!(item.last_edit(), "any text");
    assert_eq!(ItemFS::with_date(&raw, true, 77, None).unwrap_err(), BAD_TIME);
}

#[test]
fn parse_decimal_reads_what_decimal_text_writes() {
    assert_eq!(parse_decimal("0"), Some(0));
    assert_eq!(parse_decimal("9"), Some(9));
    assert_eq!(parse_decimal("10"), Some(10));
    assert_eq!(parse_decimal("1234567890"), Some(1234567890));
    assert_eq!(parse_decimal(&u128::MAX.to_string()), Some(u128::MAX));
    assert_eq!(parse_decimal("340282366920938463463374607431768211456"), None);
    assert_eq!(parse_decimal("999999999999999999999999999999999999999"), None);
    assert_eq!(parse_decimal("3402823669209384634633746074317682114550"), None);
    assert_eq!(parse_decimal(""), None);
    assert_eq!(parse_decimal("00"), None);
    assert_eq!(parse_decimal("01"), None);
    assert_eq!(parse_decimal("1x"), None);
    assert_eq!(parse_decimal("x1"), None);
    assert_eq!(parse_decimal("١٢"), None);
    for n in [0u128, 5, 99, 100, 65535, 1 << 64, u128::MAX - 1] {
        assert_eq!(parse_decimal(&decimal_text(n)), Some(n));
    }
}

#[test]
fn times_around_the_epoch() {
    assert_eq!(SysTime::after_epoch(0, 0), Some(SysTime { secs: 0, nanos: 0 }));
    assert_eq!(SysTime::after_epoch(5, 7), Some(SysTime { secs: 5, nanos: 7 }));
    assert_eq!(
        SysTime::after_epoch(i64::MAX as u64, 999_999_999),
        Some(SysTime { secs: i64::MAX, nanos: 999_999_999 })
    );
    assert_eq!(SysTime::after_epoch(i64::MAX as u64 + 1, 0), None);
    assert_eq!(SysTime::after_epoch(0, 1_000_000_000), None);
    assert_eq!(SysTime::before_epoch(0, 0), Some(SysTime { secs: 0, nanos: 0 }));
    assert_eq!(SysTime::before_epoch(5, 0), Some(SysTime { secs: -5, nanos: 0 }));
    assert_eq!(SysTime::before_epoch(0, 1), Some(SysTime { secs: -1, nanos: 999_999_999 }));
    assert_eq!(
        SysTime::before_epoch(5, 250_000_000),
        Some(SysTime { secs: -6, nanos: 750_000_000 })
    );
    assert_eq!(
        SysTime::before_epoch(1 << 63, 0),
        Some(SysTime { secs: i64::MIN, nanos: 0 })
    );
    assert_eq!(SysTime::before_epoch(1 << 63, 1), None);
    assert_eq!(
        SysTime::before_epoch((1 << 63) - 1, 1),
        Some(SysTime { secs: i64::MIN, nanos: 999_999_999 })
    );
    assert_eq!(SysTime::before_epoch((1 << 63) + 1, 0), None);
    assert_eq!(SysTime::before_epoch(1, 1_000_000_000), None);
    assert_eq!(
        convert_sys_time(SysTime::before_epoch(0, 1).unwrap()),
        Some("31-12-1969".to_string())
    );
}

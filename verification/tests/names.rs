use archive_core::backup::{scan_snapshots, scan_years};
use archive_core::names::{file_stem, parse_year};
use archive_core::time::Instant;

#[test]
fn stems() {
    assert_eq!("2021_05_06 13_52_05", file_stem("2021_05_06 13_52_05.bin"));
    assert_eq!("2021", file_stem("2021"));
    assert_eq!(".lock", file_stem(".lock"));
    assert_eq!("a.b", file_stem("a.b.c"));
    assert_eq!("x", file_stem("x."));
    assert_eq!("", file_stem(""));
    assert_eq!("x.bin", file_stem("x.bin.tmp"));
}

#[test]
fn years() {
    assert_eq!(Some(2021), parse_year("2021"));
    assert_eq!(Some(202), parse_year("202"));
    assert_eq!(Some(-44), parse_year("-44"));
    assert_eq!(Some(7), parse_year("+7"));
    assert_eq!(Some(7), parse_year("0007"));
    assert_eq!(Some(i32::MAX), parse_year("2147483647"));
    assert_eq!(None, parse_year("2147483648"));
    assert_eq!(Some(i32::MIN), parse_year("-2147483648"));
    assert_eq!(None, parse_year("-2147483649"));
    assert_eq!(None, parse_year("99999999999999999999999"));
    assert_eq!(None, parse_year(""));
    assert_eq!(None, parse_year("-"));
    assert_eq!(None, parse_year("+"));
    assert_eq!(None, parse_year("20 21"));
    assert_eq!(None, parse_year("dynamic"));
    assert_eq!(None, parse_year(".lock"));
    assert_eq!(None, parse_year("٢٠٢١"));
}

#[test]
fn year_folders_come_newest_first() {
    let names: Vec<String> = [".lock", "2020", "notes.txt", "2022", "2021", "2021.old"]
        .iter()
        .map(|s| s.to_string())
        .collect();
    let found = scan_years(&names);
    let listed: Vec<(usize, i32)> = found.iter().map(|f| (f.index, f.key)).collect();
    assert_eq!(vec![(3, 2022), (4, 2021), (5, 2021), (1, 2020)], listed);
}

#[test]
fn snapshot_files_come_newest_first() {
    let names: Vec<String> = [
        "2021_05_06 13_51_05.bin",
        "2021_05_07 13h 51m 05s.bin",
        "2021_05_06 13_52_05.bin",
        "2021_05_06 13_52_05.bin.tmp",
        "2021_01_01 00_00_00",
    ]
    .iter()
    .map(|s| s.to_string())
    .collect();
    let found = scan_snapshots(&names);
    let listed: Vec<(usize, Instant)> = found.iter().map(|f| (f.index, f.key)).collect();
    assert_eq!(
        vec![
            (2, Instant::ymd_hms(2021, 5, 6, 13, 52, 5)),
            (0, Instant::ymd_hms(2021, 5, 6, 13, 51, 5)),
            (4, Instant::ymd(2021, 1, 1)),
        ],
        listed
    );
}

use panscan::classify::{Confidence, PanSignals, RejectReason};
use panscan::count::human_count;
use panscan::debug::{file_text, rejection_text};
use panscan::files::{dedup_files, FileHits};
use panscan::mask::{is_maskable, mask_pan, plain_text, show_pan};
use panscan::order::{place_of_path, sort_rows, FilePath, Place, RowKey};
use panscan::report::{
    can_be_masked, csv_header, csv_report, csv_row, scheme_text, tally, Tally,
};
use panscan::scan::{Hit, Rejection};
use panscan::scheme::Scheme;
use panscan::signals::DigitDensity;
use panscan::stamp::{default_csv_path, Moment};
use panscan::text::{append_copies, decimal, owned, pad, same_text};

fn path(text: &str) -> FilePath {
    FilePath {
        location: text.to_owned(),
        components: text.split('/').map(|part| part.as_bytes().to_vec()).collect(),
    }
}

fn hit(offset: usize, pan: &str, confidence: Confidence) -> Hit {
    Hit { offset, pan: pan.as_bytes().to_vec(), scheme: Some(Scheme::Visa), confidence }
}

fn file(location: &str, hits: Vec<Hit>) -> FileHits {
    FileHits { path: path(location), hits }
}

fn csv(files: &Vec<FileHits>, unmask: bool) -> String {
    String::from_utf8(csv_report(files, unmask).bytes).unwrap()
}

fn moment() -> Moment {
    Moment { year: 2026, month: 5, day: 11, hour: 14, minute: 30, second: 22, nanosecond: 0 }
}

fn name(m: Moment) -> Option<String> {
    default_csv_path(&m)
}

#[test]
fn masks() {
    assert_eq!(mask_pan(b"4111111111111111"), "411111******1111");
    assert_eq!(mask_pan(b"5555555555554444"), "555555******4444");
    assert_eq!(mask_pan(b"378282246310005"), "378282*****0005");
    assert_eq!(mask_pan(b"30569309025904"), "305693****5904");
    assert_eq!(mask_pan(b"1234567890"), "1234567890");
    assert_eq!(mask_pan(b"123456789"), "123456789");
    assert_eq!(mask_pan(b""), "");
    assert_eq!(mask_pan(&[0xff; 16]), "");
}

#[test]
fn what_can_be_masked() {
    assert!(is_maskable(b"4111111111111111"));
    assert!(is_maskable("ééé".as_bytes()));
    assert!(is_maskable(&[0xff; 16]));
    assert!(!is_maskable("12345é67890".as_bytes()));
    assert!(!is_maskable("1234567é890".as_bytes()));
    assert!(is_maskable("123456é7890".as_bytes()));
    assert_eq!(mask_pan("123456é7890".as_bytes()), "123456**7890");
    let good = file("/a", vec![hit(1, "4111111111111111", Confidence::High)]);
    let bad = file("/b", vec![hit(1, "12345é67890", Confidence::High)]);
    assert!(can_be_masked(&vec![good.clone()]));
    assert!(!can_be_masked(&vec![good, bad]));
}

#[test]
fn masks_tell_nothing_of_the_middle() {
    assert_eq!(mask_pan(b"4111119999991111"), mask_pan(b"4111110000001111"));
    assert_ne!(mask_pan(b"4111129999991111"), mask_pan(b"4111110000001111"));
}

#[test]
fn numbers_in_reports() {
    assert_eq!(show_pan(b"4111111111111111", true), "4111111111111111");
    assert_eq!(show_pan(b"4111111111111111", false), "411111******1111");
    assert_eq!(show_pan(&[b'4', 0xff, b'1'], true), "4\u{fffd}1");
    assert_eq!(plain_text(b"4111111111111111"), "4111111111111111");
    assert_eq!(plain_text(&[0xff]), "?");
}

#[test]
fn names_of_schemes() {
    assert_eq!(scheme_text(Some(Scheme::Amex)), "Amex");
    assert_eq!(scheme_text(None), "?");
}

#[test]
fn lines_of_a_report() {
    assert_eq!(csv_header(), b"location,offset,scheme,confidence,pan\n".to_vec());
    let one = hit(2841, "4111111111111111", Confidence::High);
    assert_eq!(
        csv_row("/data/orders.csv", &one, "411111******1111"),
        b"/data/orders.csv,2841,Visa,high,411111******1111\n".to_vec()
    );
    let unknown = Hit { scheme: None, ..one };
    assert_eq!(csv_row("", &unknown, ""), b",2841,?,high,\n".to_vec());
}

#[test]
fn quoted_fields() {
    let one = hit(0, "4111111111111111", Confidence::Low);
    let line = |location: &str| String::from_utf8(csv_row(location, &one, "x")).unwrap();
    assert_eq!(line("a,b"), "\"a,b\",0,Visa,low,x\n");
    assert_eq!(line("a\"b"), "\"a\"\"b\",0,Visa,low,x\n");
    assert_eq!(line("a\nb"), "\"a\nb\",0,Visa,low,x\n");
    assert_eq!(line("a\rb"), "\"a\rb\",0,Visa,low,x\n");
    assert_eq!(line("a b;c'd"), "a b;c'd,0,Visa,low,x\n");
    assert_eq!(line("\"\""), "\"\"\"\"\"\",0,Visa,low,x\n");
    assert_eq!(line("כרטיס"), "כרטיס,0,Visa,low,x\n");
}

#[test]
fn lines_are_read_back() {
    let locations = ["a,b", "a\"b", "a\nb", "\"", "", ",", "a\"\",\"b", "plain", "כרטיס,1"];
    let one = hit(7, "4111111111111111", Confidence::Low);
    let mut bytes = csv_header();
    for location in locations {
        bytes.extend(csv_row(location, &one, "x"));
    }
    let mut reader = csv::Reader::from_reader(bytes.as_slice());
    let read: Vec<String> =
        reader.records().map(|record| record.unwrap().get(0).unwrap().to_owned()).collect();
    assert_eq!(read, locations);
}

#[test]
fn whole_report() {
    let files = vec![
        file(
            "/b",
            vec![
                hit(5, "4111111111111111", Confidence::Medium),
                hit(9, "5555555555554444", Confidence::High),
            ],
        ),
        file("/a", vec![hit(7, "4012888888881881", Confidence::Medium)]),
        file("/a/c", vec![hit(1, "4222222222222220", Confidence::Low)]),
    ];
    let report = csv_report(&files, false);
    assert_eq!(report.files, 3);
    assert_eq!(report.rows, 4);
    assert_eq!(
        csv(&files, false),
        "location,offset,scheme,confidence,pan\n\
         /a,7,Visa,medium,401288******1881\n\
         /a/c,1,Visa,low,422222******2220\n\
         /b,5,Visa,medium,411111******1111\n\
         /b,9,Visa,high,555555******4444\n"
    );
    assert!(csv(&files, true).contains("/b,9,Visa,high,5555555555554444\n"));
}

#[test]
fn confidence_does_not_order_rows() {
    let files = vec![
        file("/z", vec![hit(1, "4111111111111111", Confidence::High)]),
        file("/a", vec![hit(2, "4012888888881881", Confidence::Low)]),
    ];
    assert_eq!(
        csv(&files, false),
        "location,offset,scheme,confidence,pan\n\
         /a,2,Visa,low,401288******1881\n\
         /z,1,Visa,high,411111******1111\n"
    );
}

#[test]
fn rows_of_one_file_by_offset() {
    let files = vec![file(
        "/x",
        vec![
            hit(30, "4111111111111111", Confidence::Low),
            hit(20, "5555555555554444", Confidence::Low),
            hit(100, "4012888888881881", Confidence::Low),
        ],
    )];
    let text = csv(&files, false);
    let offsets: Vec<&str> =
        text.lines().skip(1).map(|line| line.split(',').nth(1).unwrap()).collect();
    assert_eq!(offsets, vec!["20", "30", "100"]);
}

#[test]
fn unmasked_rows_show_all_digits() {
    let files = vec![file("/a", vec![hit(3, "4012888888881881", Confidence::High)])];
    assert!(csv(&files, true).ends_with("\n/a,3,Visa,high,4012888888881881\n"));
}

#[test]
fn empty_report() {
    assert_eq!(csv(&Vec::new(), false), "location,offset,scheme,confidence,pan\n");
    assert_eq!(csv_report(&vec![file("/a", Vec::new())], false).rows, 0);
}

#[test]
fn masked_reports_tell_nothing_of_the_middle() {
    let one = vec![file("/a", vec![hit(1, "4111110000001111", Confidence::High)])];
    let other = vec![file("/a", vec![hit(1, "4111119999991111", Confidence::High)])];
    assert_eq!(csv(&one, false), csv(&other, false));
    assert_ne!(csv(&one, true), csv(&other, true));
}

#[test]
fn counts_of_hits() {
    let files = vec![
        file("/a", vec![hit(1, "1", Confidence::High), hit(2, "2", Confidence::Low)]),
        file("/b", vec![hit(3, "3", Confidence::Low), hit(4, "4", Confidence::Medium)]),
        file("/c", Vec::new()),
    ];
    assert_eq!(tally(&files), Tally { total: 4, high: 1, medium: 1, low: 2 });
    assert_eq!(tally(&Vec::new()), Tally { total: 0, high: 0, medium: 0, low: 0 });
}

#[test]
fn places_of_paths() {
    assert_eq!(place_of_path(&path("a/b"), &path("a/b")), Place::Same);
    assert_eq!(place_of_path(&path("a"), &path("a/b")), Place::Before);
    assert_eq!(place_of_path(&path("a/b"), &path("a")), Place::After);
    assert_eq!(place_of_path(&path("a/b"), &path("a-b")), Place::Before);
    assert_eq!(place_of_path(&path("a/c"), &path("a/b/z")), Place::After);
    assert_eq!(place_of_path(&path("B"), &path("a")), Place::Before);
}

#[test]
fn paths_agree_with_the_standard_order() {
    let texts = ["a", "a/b", "a-b", "a/b/c", "b", "B/a", "aa", "a.b/c", "é/x", "ab/c d"];
    for x in texts {
        for y in texts {
            let expected = std::path::Path::new(x).cmp(std::path::Path::new(y));
            let place = place_of_path(&path(x), &path(y));
            assert_eq!(place == Place::Before, expected == std::cmp::Ordering::Less);
            assert_eq!(place == Place::Same, expected == std::cmp::Ordering::Equal);
        }
    }
}

#[test]
fn rows_in_order() {
    let (a, b) = (path("a"), path("b"));
    let paths = vec![&b, &a, &b];
    let rows = vec![
        RowKey { path: 0, offset: 5 },
        RowKey { path: 0, offset: 9 },
        RowKey { path: 1, offset: 7 },
        RowKey { path: 2, offset: 5 },
        RowKey { path: 2, offset: 4 },
    ];
    assert_eq!(sort_rows(&paths, &rows), vec![2, 4, 0, 3, 1]);
    assert_eq!(sort_rows(&Vec::new(), &Vec::new()), Vec::<usize>::new());
}

#[test]
fn first_file_of_every_path() {
    let mut files = vec![
        file("b", vec![hit(1, "1", Confidence::Low)]),
        file("a", vec![hit(2, "2", Confidence::Low)]),
        file("b", vec![hit(3, "3", Confidence::Low)]),
        file("a/z", vec![hit(4, "4", Confidence::Low)]),
        file("a", vec![hit(5, "5", Confidence::Low)]),
    ];
    dedup_files(&mut files);
    let left: Vec<(&str, usize)> =
        files.iter().map(|f| (f.path.location.as_str(), f.hits[0].offset)).collect();
    assert_eq!(left, vec![("a", 2), ("a/z", 4), ("b", 1)]);
    dedup_files(&mut files);
    assert_eq!(files.len(), 3);
    let mut none: Vec<FileHits> = Vec::new();
    dedup_files(&mut none);
    assert!(none.is_empty());
}

#[test]
fn arrival_order_does_not_matter() {
    let make = |names: &[&str]| -> Vec<FileHits> {
        names.iter().map(|n| file(n, vec![hit(n.len(), "4", Confidence::Low)])).collect()
    };
    let mut first = make(&["x/y", "a", "b/c", "a", "m"]);
    let mut second = make(&["m", "a", "b/c", "x/y", "x/y"]);
    dedup_files(&mut first);
    dedup_files(&mut second);
    assert_eq!(csv(&first, true), csv(&second, true));
}

#[test]
fn debug_text_of_a_file() {
    let hits = vec![
        hit(12, "4111111111111111", Confidence::High),
        Hit { scheme: None, ..hit(1_234_567_890_1, "5555555555554444", Confidence::Medium) },
    ];
    assert_eq!(
        file_text("/data/a", &hits),
        "[DEBUG] /data/a: 2 PAN(s)\n  \
         offset=12         scheme=Visa       conf=high   pan=4111111111111111\n  \
         offset=12345678901 scheme=?          conf=medium pan=5555555555554444\n"
    );
    let expected = format!(
        "  offset={:<10} scheme={:<10} conf={:<6} pan={}\n",
        12, "Visa", "high", "4111111111111111"
    );
    assert!(file_text("x", &hits).contains(&expected));
}

#[test]
fn debug_text_of_a_rejection() {
    let signals = PanSignals {
        scheme: None,
        digit_density: DigitDensity { digits: 1, total: 2 },
        entropy_bits: 0,
        keyword_distance: Some(7),
        grouping_card_shaped: true,
    };
    let rejection = Rejection {
        offset: 40,
        pan: b"4111111111111111".to_vec(),
        reason: RejectReason::Scheme,
        signals,
    };
    assert_eq!(
        rejection_text(&rejection, "0.50", "4.25"),
        "[DEBUG-REJECT] offset=40 pan=4111111111111111 \
         reason=BIN/length doesn't match any known scheme density=0.50 entropy=4.25 \
         kwdist=Some(7)"
    );
    let far = Rejection {
        signals: PanSignals { keyword_distance: None, ..signals },
        pan: vec![0xff],
        ..rejection
    };
    assert!(rejection_text(&far, "", "").ends_with("kwdist=None"));
    assert!(rejection_text(&far, "", "").contains(" pan=? "));
}

#[test]
fn counts_for_people() {
    assert_eq!(human_count(0), "0");
    assert_eq!(human_count(999), "999");
    assert_eq!(human_count(1_000), "1.0k");
    assert_eq!(human_count(1_250), "1.2k");
    assert_eq!(human_count(1_350), "1.4k");
    assert_eq!(human_count(9_999), "10.0k");
    assert_eq!(human_count(10_000), "10k");
    assert_eq!(human_count(999_999), "999k");
    assert_eq!(human_count(1_000_000), "1.0M");
    assert_eq!(human_count(12_345_678), "12.3M");
}

#[test]
fn counts_agree_with_double_precision() {
    let mut numbers: Vec<usize> = (1_000..10_000).collect();
    for k in 0..64 {
        let bit = 1usize << k;
        numbers.extend([bit, bit - 1, bit + 1, bit ^ 0x5555, bit.wrapping_mul(3)]);
    }
    numbers.extend([usize::MAX, usize::MAX - 1024, (1 << 53) + 1, 1_250_000, 1_350_000]);
    let mut n: usize = 88_172_645_463_325_252;
    for _ in 0..20_000 {
        n ^= n << 13;
        n ^= n >> 7;
        n ^= n << 17;
        numbers.push(n);
        numbers.push(n >> 20);
        numbers.push(n >> 40);
    }
    for n in numbers {
        let expected = if n >= 1_000_000 {
            format!("{:.1}M", n as f64 / 1_000_000.0)
        } else if n >= 10_000 {
            format!("{}k", n / 1000)
        } else if n >= 1_000 {
            format!("{:.1}k", n as f64 / 1000.0)
        } else {
            n.to_string()
        };
        assert_eq!(human_count(n), expected, "{}", n);
    }
}

#[test]
fn default_names() {
    assert_eq!(name(moment()), Some("panfind-2026-05-11-143022.csv".to_owned()));
    let early = Moment { year: 7, month: 1, day: 2, hour: 3, minute: 4, second: 5, nanosecond: 6 };
    assert_eq!(name(early), Some("panfind-0007-01-02-030405.csv".to_owned()));
    let late = Moment { year: 12026, ..moment() };
    assert_eq!(name(late), Some("panfind-+12026-05-11-143022.csv".to_owned()));
    let ancient = Moment { year: -44, ..moment() };
    assert_eq!(name(ancient), Some("panfind--0044-05-11-143022.csv".to_owned()));
    let leap = Moment { second: 59, nanosecond: 1_500_000_000, ..moment() };
    assert_eq!(name(leap), Some("panfind-2026-05-11-143060.csv".to_owned()));
}

#[test]
fn moments_that_do_not_exist() {
    assert_eq!(name(Moment { month: 0, ..moment() }), None);
    assert_eq!(name(Moment { month: 13, ..moment() }), None);
    assert_eq!(name(Moment { day: 0, ..moment() }), None);
    assert_eq!(name(Moment { month: 4, day: 31, ..moment() }), None);
    assert!(name(Moment { month: 5, day: 31, ..moment() }).is_some());
    assert_eq!(name(Moment { month: 2, day: 29, ..moment() }), None);
    assert!(name(Moment { year: 2024, month: 2, day: 29, ..moment() }).is_some());
    assert_eq!(name(Moment { year: 1900, month: 2, day: 29, ..moment() }), None);
    assert!(name(Moment { year: 2000, month: 2, day: 29, ..moment() }).is_some());
    assert_eq!(name(Moment { hour: 24, ..moment() }), None);
    assert_eq!(name(Moment { minute: 60, ..moment() }), None);
    assert_eq!(name(Moment { second: 60, ..moment() }), None);
    assert_eq!(name(Moment { nanosecond: 1_000_000_000, ..moment() }), None);
    assert_eq!(name(Moment { second: 59, nanosecond: 2_000_000_000, ..moment() }), None);
    assert!(name(Moment { year: 262_142, ..moment() }).is_some());
    assert_eq!(name(Moment { year: 262_143, ..moment() }), None);
    assert!(name(Moment { year: -262_143, ..moment() }).is_some());
    assert_eq!(name(Moment { year: -262_144, ..moment() }), None);
}

#[test]
fn months_agree_with_the_calendar() {
    for year in [1900, 1999, 2000, 2023, 2024, 2100, -4, -100, 0] {
        for month in 0..14 {
            for day in 0..33 {
                let real = chrono::NaiveDate::from_ymd_opt(year, month, day).is_some();
                let leap = year % 4 == 0 && (year % 100 != 0 || year % 400 == 0);
                let days = match month {
                    2 if leap => 29,
                    2 => 28,
                    4 | 6 | 9 | 11 => 30,
                    1..=12 => 31,
                    _ => 0,
                };
                assert_eq!(name(Moment { year, month, day, ..moment() }).is_some(), real);
                assert_eq!(real, 1 <= day && day <= days);
            }
        }
    }
}

#[test]
fn numbers_and_padding() {
    assert_eq!(decimal(0), "0");
    assert_eq!(decimal(1_234_567_890), "1234567890");
    assert_eq!(decimal(u64::MAX), u64::MAX.to_string());
    assert_eq!(pad("ab", 5), "ab   ");
    assert_eq!(pad("abcdef", 5), "abcdef");
    assert_eq!(pad("", 2), "  ");
    assert_eq!(pad("é", 3), "é  ");
    let mut text = "x".to_owned();
    append_copies(&mut text, "*", 3);
    assert_eq!(text, "x***");
}

#[test]
fn lists_and_equal_texts() {
    assert_eq!(owned(&["a", "b"]), vec!["a".to_owned(), "b".to_owned()]);
    assert!(same_text("כרטיס", "כרטיס"));
    assert!(!same_text("ab", "abc"));
    assert!(!same_text("abd", "abc"));
    assert!(same_text("", ""));
}

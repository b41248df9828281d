use nginx_logs::filter_file::{
    get_filename_possible_number, get_filenames_sorted, get_filenames_with_logs,
    get_log_filenames_sort_reverse, get_numbers_and_filenames, get_pathnames_to_analyze,
    lex_before, parse_number,
};

#[test]
fn filter_file_test_get_log_filenames_sort_reverse() {
    let filenames = vec![
        "foo.txt",
        "error.log.111",
        "access.log",
        "access.log.5.gz",
        "access.log.2",
        "access.log.10.gz",
        "access.log.1.gz",
    ];
    assert_eq!(
        vec![
            "access.log.10.gz",
            "access.log.5.gz",
            "access.log.2",
            "access.log.1.gz",
            "access.log",
        ],
        get_log_filenames_sort_reverse(&filenames)
    );
}

#[test]
fn lib_test_get_log_filenames_sort_reverse() {
    let filenames = vec![
        "foo.txt",
        "access.log",
        "access.log.5",
        "access.log.2",
        "access.log.10",
        "access.log.1",
    ];
    assert_eq!(
        vec![
            "access.log.10",
            "access.log.5",
            "access.log.2",
            "access.log.1",
            "access.log",
        ],
        get_log_filenames_sort_reverse(&filenames)
    );
}

#[test]
fn ordering_leaves_out_what_is_no_log() {
    let filenames = vec![
        "foo.txt",
        "access.log",
        "access.log.5.gz",
        "access.log.2",
        "access.log.10.gz",
        "access.log.1.gz",
    ];
    assert_eq!(
        vec!["access.log.10.gz", "access.log.5.gz", "access.log.2", "access.log.1.gz", "access.log"],
        get_log_filenames_sort_reverse(&filenames)
    );
}

#[test]
fn ordering_of_no_names_is_empty() {
    let none: Vec<&str> = vec![];
    assert_eq!(Vec::<String>::new(), get_log_filenames_sort_reverse(&none));
    assert_eq!(
        Vec::<String>::new(),
        get_log_filenames_sort_reverse(&["foo.txt", "error.log", "xaccess.log", "access.lo"])
    );
}

#[test]
fn ordering_drops_names_without_a_number() {
    assert_eq!(
        vec!["access.log.18446744073709551615", "access.log.256", "access.log.3", "access.log"],
        get_log_filenames_sort_reverse(&[
            "access.log.old",
            "access.log.gz",
            "access.logfoo",
            "access.log.",
            "access.log.3",
            "access.log.256",
            "access.log.-1",
            "access.log.1.bz2",
            "access.log",
            "access.log.1.gz.gz",
            "access.log.18446744073709551616",
            "access.log.18446744073709551615",
        ])
    );
}

#[test]
fn ordering_takes_numbers_of_any_size() {
    assert_eq!(
        vec!["access.log.300", "access.log.2"],
        get_log_filenames_sort_reverse(&["access.log.2", "access.log.300"])
    );
    assert_eq!(vec!["access.log.300"], get_log_filenames_sort_reverse(&["access.log.300"]));
    assert_eq!(
        vec!["access.log.100000.gz", "access.log.99999", "access.log.1000", "access.log.999"],
        get_log_filenames_sort_reverse(&[
            "access.log.999",
            "access.log.99999",
            "access.log.1000",
            "access.log.100000.gz",
        ])
    );
}

#[test]
fn ordering_keeps_every_name_of_a_number() {
    assert_eq!(
        vec!["access.log.2.gz", "access.log.2", "access.log"],
        get_log_filenames_sort_reverse(&["access.log.2", "access.log.2.gz", "access.log"])
    );
    assert_eq!(
        vec![
            "access.log.255",
            "access.log.7",
            "access.log.07",
            "access.log.1.gz",
            "access.log.1",
            "access.log.0",
            "access.log",
        ],
        get_log_filenames_sort_reverse(&[
            "access.log.1",
            "access.log",
            "access.log.7",
            "access.log.1.gz",
            "access.log.255",
            "access.log.0",
            "access.log.07",
        ])
    );
    assert_eq!(
        vec!["access.log.1", "access.log.+1", "access.log.0", "access.log"],
        get_log_filenames_sort_reverse(&["access.log.0", "access.log.1", "access.log", "access.log.+1"])
    );
    assert_eq!(
        vec!["access.log.1", "access.log.1", "access.log", "access.log"],
        get_log_filenames_sort_reverse(&["access.log", "access.log.1", "access.log", "access.log.1"])
    );
}

#[test]
fn ordering_does_not_depend_on_the_listing() {
    let names = ["access.log.2", "access.log", "access.log.2.gz", "access.log.10", "access.log.02"];
    let expected =
        vec!["access.log.10", "access.log.2.gz", "access.log.2", "access.log.02", "access.log"];
    let mut listed: Vec<&str> = names.to_vec();
    for turn in 0..names.len() {
        listed.rotate_left(1);
        assert_eq!(expected, get_log_filenames_sort_reverse(&listed), "turn {}", turn);
        let mut back = listed.clone();
        back.reverse();
        assert_eq!(expected, get_log_filenames_sort_reverse(&back), "turn {} back", turn);
    }
    assert_eq!(
        get_pathnames_to_analyze("logs", false, &["access.log.2", "access.log.2.gz"]),
        get_pathnames_to_analyze("logs", false, &["access.log.2.gz", "access.log.2"])
    );
}

#[test]
fn ordering_reads_the_log_in_use_last() {
    assert_eq!(vec!["access.log"], get_log_filenames_sort_reverse(&["access.log"]));
    assert_eq!(
        vec!["access.log.0", "access.log"],
        get_log_filenames_sort_reverse(&["access.log", "access.log.0"])
    );
    assert_eq!(
        vec!["access.log.0.gz", "access.log.0", "access.log"],
        get_log_filenames_sort_reverse(&["access.log.0", "access.log", "access.log.0.gz"])
    );
    assert_eq!(
        vec!["access.log.3", "access.log"],
        get_log_filenames_sort_reverse(&["access.log", "zzz", "access.log.3"])
    );
    assert_eq!(vec!["access.log.3"], get_log_filenames_sort_reverse(&["access.log.3"]));
}

#[test]
fn lex_before_goes_by_the_bytes() {
    assert!(lex_before(b"", b""));
    assert!(lex_before(b"", b"a"));
    assert!(!lex_before(b"a", b""));
    assert!(lex_before(b"a", b"a"));
    assert!(lex_before(b"a", b"ab"));
    assert!(!lex_before(b"ab", b"a"));
    assert!(lex_before(b"ab", b"b"));
    assert!(!lex_before(b"b", b"ab"));
    assert!(lex_before(b"a\x7f", b"a\x80"));
    for first in ["", "a", "ab", "b", "access.log", "access.log.1", "access.log.+1"] {
        for second in ["", "a", "ab", "b", "access.log", "access.log.1", "access.log.+1"] {
            assert_eq!(
                first.as_bytes() <= second.as_bytes(),
                lex_before(first.as_bytes(), second.as_bytes()),
                "{:?} {:?}",
                first,
                second
            );
        }
    }
}

#[test]
fn parse_number_reads_decimal_numbers() {
    assert_eq!(Some(0), parse_number("0"));
    assert_eq!(Some(5), parse_number("5"));
    assert_eq!(Some(5), parse_number("+5"));
    assert_eq!(Some(7), parse_number("007"));
    assert_eq!(Some(255), parse_number("255"));
    assert_eq!(Some(256), parse_number("256"));
    assert_eq!(Some(1000), parse_number("+0001000"));
    assert_eq!(Some(18446744073709551615), parse_number("18446744073709551615"));
    assert_eq!(Some(18446744073709551615), parse_number("00018446744073709551615"));
    assert_eq!(None, parse_number("18446744073709551616"));
    assert_eq!(None, parse_number("18446744073709551620"));
    assert_eq!(None, parse_number("99999999999999999999999999"));
    assert_eq!(None, parse_number(""));
    assert_eq!(None, parse_number("+"));
    assert_eq!(None, parse_number("-1"));
    assert_eq!(None, parse_number("++1"));
    assert_eq!(None, parse_number("1a"));
    assert_eq!(None, parse_number("a1"));
    assert_eq!(None, parse_number(" 1"));
    assert_eq!(None, parse_number("1 "));
    assert_eq!(None, parse_number("184467440737095516150a"));
    assert_eq!(None, parse_number("\u{661}"));
}

#[test]
fn parse_number_agrees_with_the_standard_library() {
    for text in [
        "0", "12", "+12", "255", "256", "", "+", "-0", "0x1", "1_0", "00", "+0", "3.5",
        "18446744073709551614", "18446744073709551615", "18446744073709551616",
        "18446744073709551625", "28446744073709551615", "184467440737095516150",
    ] {
        assert_eq!(text.parse::<u64>().ok(), parse_number(text), "{:?}", text);
    }
    for number in 0..1000u32 {
        let text = number.to_string();
        assert_eq!(text.parse::<u64>().ok(), parse_number(&text));
    }
}

#[test]
fn possible_number_is_the_segment_in_front_of_the_suffix() {
    assert_eq!("0", get_filename_possible_number("access.log"));
    assert_eq!("5", get_filename_possible_number("access.log.5.gz"));
    assert_eq!("2", get_filename_possible_number("access.log.2"));
    assert_eq!("log", get_filename_possible_number("access.log.gz"));
    assert_eq!("logfoo", get_filename_possible_number("access.logfoo"));
    assert_eq!("", get_filename_possible_number("access.log."));
    assert_eq!("", get_filename_possible_number("access.log..gz"));
    assert_eq!("nodots", get_filename_possible_number("nodots"));
    assert_eq!("", get_filename_possible_number(""));
    assert_eq!("", get_filename_possible_number(".gz"));
    assert_eq!("gz", get_filename_possible_number("a.gz.gz"));
    assert_eq!("gz", get_filename_possible_number("gz"));
    assert_eq!("\u{e9}t\u{e9}", get_filename_possible_number("access.log.\u{e9}t\u{e9}.gz"));
}

#[test]
fn possible_number_agrees_with_splitting_at_dots() {
    for name in ["access.log.5.gz", "a.b.c", "a", "a.", ".a", "..", "a.gz", "x.y.gz", ".gz", "a..gz"] {
        let back = if name.ends_with(".gz") { 1 } else { 0 };
        let expected = name.split('.').nth_back(back).unwrap();
        assert_eq!(expected, get_filename_possible_number(name), "{:?}", name);
    }
}

#[test]
fn filenames_with_logs_keeps_the_order() {
    assert_eq!(
        vec!["access.log.b", "access.log", "access.logger"],
        get_filenames_with_logs(&["b", "access.log.b", "access.lo", "access.log", "Access.log", "access.logger"])
    );
}

#[test]
fn numbers_and_filenames_keeps_every_name_with_a_number() {
    let pairs = get_numbers_and_filenames(vec![
        "access.log.2".to_string(),
        "access.log.x".to_string(),
        "access.log.2.gz".to_string(),
        "access.log".to_string(),
        "other.300".to_string(),
    ]);
    assert_eq!(
        vec![
            (2u64, "access.log.2".to_string()),
            (2u64, "access.log.2.gz".to_string()),
            (0u64, "access.log".to_string()),
            (300u64, "other.300".to_string()),
        ],
        pairs
    );
    assert_eq!(Vec::<(u64, String)>::new(), get_numbers_and_filenames(vec![]));
}

#[test]
fn filenames_sorted_goes_from_the_highest_number_down() {
    let pairs = vec![
        (0u64, "zero".to_string()),
        (u64::MAX, "top".to_string()),
        (9u64, "nine".to_string()),
        (10u64, "ten".to_string()),
        (9u64, "ninf".to_string()),
        (9u64, "nin".to_string()),
        (9u64, "nine".to_string()),
    ];
    assert_eq!(
        vec!["top", "ten", "ninf", "nine", "nine", "nin", "zero"],
        get_filenames_sorted(pairs)
    );
    assert_eq!(Vec::<String>::new(), get_filenames_sorted(vec![]));
}

#[test]
fn pathnames_of_a_file_are_the_file() {
    assert_eq!(
        vec!["logs/whatever.txt"],
        get_pathnames_to_analyze("logs/whatever.txt", true, &["access.log"])
    );
}

#[test]
fn pathnames_of_a_directory_are_its_logs_in_order() {
    let names = ["access.log", "notes.txt", "access.log.2.gz", "access.log.11"];
    assert_eq!(
        vec!["/var/log/nginx/access.log.11", "/var/log/nginx/access.log.2.gz", "/var/log/nginx/access.log"],
        get_pathnames_to_analyze("/var/log/nginx", false, &names)
    );
    assert_eq!(
        vec!["logs/access.log.11", "logs/access.log.2.gz", "logs/access.log"],
        get_pathnames_to_analyze("logs/", false, &names)
    );
    assert_eq!(
        vec!["access.log.11", "access.log.2.gz", "access.log"],
        get_pathnames_to_analyze("", false, &names)
    );
    assert_eq!(Vec::<String>::new(), get_pathnames_to_analyze("logs", false, &[]));
}

#[test]
fn pathnames_agree_with_the_standard_library() {
    let names = ["access.log", "access.log.1"];
    for directory in ["logs", "logs/", "/", "", "a/b", "./"] {
        let expected: Vec<String> = ["access.log.1", "access.log"]
            .iter()
            .map(|name| std::path::Path::new(directory).join(name).to_str().unwrap().to_string())
            .collect();
        assert_eq!(expected, get_pathnames_to_analyze(directory, false, &names), "{:?}", directory);
    }
}

use exhume::cli::parse_size;

#[test]
fn parses_bare_bytes() {
    assert_eq!(parse_size("0").unwrap(), 0);
    assert_eq!(parse_size("512").unwrap(), 512);
    assert_eq!(parse_size("1024b").unwrap(), 1024);
}

#[test]
fn parses_binary_suffixes() {
    assert_eq!(parse_size("1K").unwrap(), 1024);
    assert_eq!(parse_size("64K").unwrap(), 64 * 1024);
    assert_eq!(parse_size("1M").unwrap(), 1024 * 1024);
    assert_eq!(parse_size("1MiB").unwrap(), 1024 * 1024);
    assert_eq!(parse_size("1G").unwrap(), 1024 * 1024 * 1024);
}

#[test]
fn parses_si_suffixes_and_fractions() {
    assert_eq!(parse_size("1kb").unwrap(), 1000);
    assert_eq!(parse_size("1MB").unwrap(), 1_000_000);
    assert_eq!(parse_size("1.5M").unwrap(), 1024 * 1024 + 512 * 1024);
}

#[test]
fn rejects_garbage() {
    assert!(parse_size("").is_err());
    assert!(parse_size("abc").is_err());
    assert!(parse_size("12x").is_err());
    assert!(parse_size("-5").is_err());
}

#[test]
fn messages_name_the_problem() {
    assert_eq!(parse_size("  ").unwrap_err(), "empty size");
    assert_eq!(
        parse_size("-5").unwrap_err(),
        "invalid number in size '-5'"
    );
    assert_eq!(
        parse_size("1.2.3K").unwrap_err(),
        "invalid number in size '1.2.3K'"
    );
    assert_eq!(parse_size(".K").unwrap_err(), "invalid number in size '.K'");
    assert_eq!(
        parse_size("12 XiB").unwrap_err(),
        "unknown size unit 'xib' in '12 XiB'"
    );
}

#[test]
fn space_case_and_underscores_do_not_matter() {
    assert_eq!(parse_size(" 1_000 kB\u{2003}").unwrap(), 1_000_000);
    assert_eq!(parse_size("4kIb").unwrap(), 4096);
    assert_eq!(parse_size("2.").unwrap(), 2);
    assert_eq!(parse_size(".5K").unwrap(), 512);
    assert_eq!(parse_size("1T").unwrap(), 1 << 40);
    assert_eq!(parse_size("3tb").unwrap(), 3_000_000_000_000);
    assert_eq!(parse_size("2gb").unwrap(), 2_000_000_000);
    assert_eq!(parse_size("7tib").unwrap(), 7 << 40);
}

/// What double-precision arithmetic makes of the same input.
fn by_float(number: &str, factor: u64) -> u64 {
    let value: f64 = number.replace('_', "").parse().unwrap();
    (value * factor as f64) as u64
}

#[test]
fn sizes_come_out_as_double_precision_numbers_do() {
    let numbers = [
        "0",
        "0.0",
        "1",
        "1.001",
        "0.29",
        "4.35",
        "1.1",
        "0.1",
        "0.3",
        "2.675",
        "1.0005",
        "123456789.123456789",
        "9007199254740991",
        "9007199254740992",
        "9007199254740993",
        "9007199254740994",
        "9007199254740995",
        "18014398509481985",
        "18014398509481987",
        "18446744073709551615",
        "18446744073709551616",
        "99999999999999999999999999999999",
        "0.99999999999999999999999999",
        "0.999999999999999944488848768742172978818416595458984375",
        "1.00000000000000011102230246251565404236316680908203125",
        "1.00000000000000033306690738754696212708950042724609375",
        "0.00000000000000000000000000000000001",
    ];
    let units: [(&str, u64); 9] = [
        ("", 1),
        ("K", 1 << 10),
        ("M", 1 << 20),
        ("G", 1 << 30),
        ("T", 1 << 40),
        ("kb", 1_000),
        ("mb", 1_000_000),
        ("gb", 1_000_000_000),
        ("tb", 1_000_000_000_000),
    ];
    for number in numbers {
        for (unit, factor) in units {
            let input = format!("{number}{unit}");
            assert_eq!(
                parse_size(&input).unwrap(),
                by_float(number, factor),
                "{input}"
            );
        }
    }
}

#[test]
fn many_fractions_agree_with_double_precision() {
    let mut state: u64 = 0x9E37_79B9_7F4A_7C15;
    for _ in 0..300 {
        state = state
            .wrapping_mul(6_364_136_223_846_793_005)
            .wrapping_add(1_442_695_040_888_963_407);
        let number = format!("{}.{:06}", state >> 44, (state >> 20) % 1_000_000);
        assert_eq!(
            parse_size(&format!("{number}kb")).unwrap(),
            by_float(&number, 1_000),
            "{number}"
        );
        assert_eq!(
            parse_size(&format!("{number}tb")).unwrap(),
            by_float(&number, 1_000_000_000_000),
            "{number}"
        );
    }
}

#[test]
fn very_large_and_very_long_numbers_are_held_at_the_end() {
    let long = "9".repeat(400);
    assert_eq!(parse_size(&long).unwrap(), u64::MAX);
    assert_eq!(parse_size("16777216T").unwrap(), u64::MAX);
    let tiny = format!("0.{}1", "0".repeat(400));
    assert_eq!(parse_size(&tiny).unwrap(), 0);
}

#[test]
fn whole_sizes_are_exact_as_far_as_doubles_are() {
    let limit: u64 = 1 << 53;
    assert_eq!(parse_size(&(limit - 1).to_string()).unwrap(), limit - 1);
    assert_eq!(parse_size(&limit.to_string()).unwrap(), limit);
    assert_eq!(parse_size("8192T").unwrap(), limit);
    // The next one is a tie, and goes to the even neighbour.
    assert_eq!(parse_size(&(limit + 1).to_string()).unwrap(), limit);
    assert_eq!(parse_size(&(limit + 2).to_string()).unwrap(), limit + 2);
}

use downloader::progress::{parse_ytdlp_pct, reported_progress, truncated_number};

fn expected(text: &str) -> Option<i32> {
    text.parse::<f64>().ok().map(|number| number as i32)
}

fn check(text: &str) {
    assert_eq!(truncated_number(text), expected(text), "{text}");
}

#[test]
fn percentages_in_progress_lines() {
    assert_eq!(parse_ytdlp_pct("[download]  45.2% of 10.00MiB at 1.00MiB/s ETA 00:05"), Some(45));
    assert_eq!(parse_ytdlp_pct("[download] 100% of 10.00MiB in 00:05"), Some(100));
    assert_eq!(parse_ytdlp_pct("[download]   0.0% of ~3.50MiB"), Some(0));
    assert_eq!(parse_ytdlp_pct("99.9%"), Some(99));
    assert_eq!(parse_ytdlp_pct("12 34%"), Some(34));
    assert_eq!(parse_ytdlp_pct("7% 8%"), Some(7));
}

#[test]
fn lines_without_a_percentage() {
    assert_eq!(parse_ytdlp_pct("[download] Destination: a.mp4"), None);
    assert_eq!(parse_ytdlp_pct(""), None);
    assert_eq!(parse_ytdlp_pct("%"), None);
    assert_eq!(parse_ytdlp_pct("   % of"), None);
    assert_eq!(parse_ytdlp_pct("abc%"), None);
    assert_eq!(parse_ytdlp_pct("[download]% 5%"), None);
}

#[test]
fn progress_is_cut_to_eight_bits() {
    assert_eq!(reported_progress("50.5%"), Some(50));
    assert_eq!(reported_progress("256%"), Some(0));
    assert_eq!(reported_progress("-1%"), Some(255));
    assert_eq!(reported_progress("1e9%"), Some((1_000_000_000i32) as u8));
    assert_eq!(reported_progress("inf%"), Some(i32::MAX as u8));
    assert_eq!(reported_progress("-inf%"), Some(i32::MIN as u8));
    assert_eq!(reported_progress("nan%"), Some(0));
    assert_eq!(reported_progress("none"), None);
}

#[test]
fn notations_of_numbers() {
    for text in [
        "0", "-0", "+0", "1", "+1", "-1", "007", "5.", ".5", ".", "", "+", "-", "+-1", "1.2.3", "1 ",
        "1_000", "1e3", "1E3", "1e+3", "1e-3", "12345e-2", "1e", "1e+", "e5", ".e5", "1.e2", ".5e1",
        "1e0", "1e00000000000000000000000002", "inf", "INF", "Inf", "-inf", "+infinity", "InFiNiTy",
        "infinit", "infinityy", "nan", "NaN", "-nan", "+NAN", "nann", "0x10", "1f", "١", "1,5", "1.5.",
        "--1", "1-", "1e1e1", "1e1.5",
    ] {
        check(text);
    }
}

#[test]
fn numbers_near_an_integer_round_as_doubles_do() {
    for text in [
        "0.9999999999999999", "0.99999999999999994", "0.99999999999999995", "0.999999999999999944",
        "0.99999999999999994448884876874217298", "0.99999999999999994448884876874217297",
        "0.999999999999999944488848768742172978818416595458984375",
        "0.9999999999999999444888487687421729788184165954589843749",
        "0.9999999999999999444888487687421729788184165954589843751",
        "1.9999999999999998", "1.9999999999999999", "1.99999999999999988897769753748",
        "1.999999999999999888977697537484345957636833190917968750",
        "1.999999999999999888977697537484345957636833190917968749",
        "99.99999999999999", "99.999999999999992", "99.9999999999999928", "99.9999999999999929",
        "99.999999999999999", "44.99999999999999999999999999999999999999", "127.99999999999999",
        "127.999999999999993", "2147483646.9999997", "2147483646.9999999", "2147483647",
        "2147483647.5", "2147483647.9999999", "2147483648", "2147483648.5", "2147483649",
        "-2147483647.9999999", "-2147483648", "-2147483648.9", "-2147483649", "4294967296",
        "9007199254740993", "1e15", "1e16", "1e22", "1e23", "1e308", "1e309", "-1e400", "1e-400",
        "9e999999999999999999999999", "0e999999999999999999999999", "0.0e-999999999999999999999999",
        "1e-99999999999999999999999999", "5e-324", "2e-324", "0.000000000000000000000000000001e31",
        "100000000000000000000000000000e-28", "99999999999999999999999999999e-27",
    ] {
        check(text);
        check(&format!("-{text}"));
    }
}

#[test]
fn long_numbers_are_read_to_their_end() {
    let zeros = "0".repeat(400);
    let nines = "9".repeat(400);
    check(&format!("0.{zeros}1e401"));
    check(&format!("0.{zeros}1e400"));
    check(&format!("1{zeros}e-400"));
    check(&format!("1{zeros}e-399"));
    check(&format!("{zeros}7.5"));
    check(&format!("3.{nines}"));
    check(&format!("3.{zeros}"));
    check(&format!("{nines}"));
    check(&format!("0.{nines}"));
}

#[test]
fn many_numbers_are_cut_as_their_doubles_are() {
    let mut state: u64 = 0x2545_f491_4f6c_dd1d;
    for round in 0..60_000 {
        state ^= state << 13;
        state ^= state >> 7;
        state ^= state << 17;
        let whole = (state >> 33) % 1_000;
        let fraction = state % 1_000_000_000_000_000_000;
        let digits = 1 + (round % 18);
        let kept = &format!("{fraction:018}")[..digits];
        check(&format!("{whole}.{kept}"));
        let close = "9".repeat(10 + round % 9);
        check(&format!("{whole}.{close}{}", state % 10));
        check(&format!("{}e{}", state % 100_000, (round % 40) as i32 - 20));
    }
}

#[test]
fn short_percentages_are_cut_at_the_point() {
    for tenth in 0..=1000 {
        let text = format!("{}.{}", tenth / 10, tenth % 10);
        assert_eq!(truncated_number(&text), Some(tenth / 10));
    }
    assert_eq!(truncated_number("999.999999999999"), Some(999));
}

use downloader::numbers::{decimal, format_bitrate, format_duration, format_number};
use downloader::numbers::{parse_unsigned, signed_decimal};

fn expected(bitrate: u64) -> String {
    if bitrate == 0 {
        return "Bitrate unknown".to_string();
    }
    let mbps = bitrate as f64 / 1_000_000.0;
    if mbps >= 1.0 {
        format!("{:.2} Mbps", mbps)
    } else {
        format!("{:.0} kbps", bitrate as f64 / 1_000.0)
    }
}

#[test]
fn bitrates_below_a_megabit() {
    let mut rate: u64 = 0;
    while rate < 1_000_000 {
        assert_eq!(format_bitrate(rate), expected(rate));
        rate += 1;
    }
}

#[test]
fn bitrates_of_every_size() {
    let mut rate: u64 = 1_000_000;
    while rate < 30_000_000 {
        assert_eq!(format_bitrate(rate), expected(rate));
        rate += 125;
    }
    let mut state: u64 = 0x9e37_79b9_7f4a_7c15;
    let mut shift = 0;
    for _ in 0..400_000 {
        state ^= state << 13;
        state ^= state >> 7;
        state ^= state << 17;
        shift = (shift + 1) % 44;
        let rate = state >> shift;
        assert_eq!(format_bitrate(rate), expected(rate));
    }
    for power in 20..64 {
        let base: u64 = 1 << power;
        for offset in 0..40 {
            assert_eq!(format_bitrate(base + offset), expected(base + offset));
            assert_eq!(format_bitrate(base - offset), expected(base - offset));
        }
    }
    assert_eq!(format_bitrate(u64::MAX), expected(u64::MAX));
}

#[test]
fn durations_with_and_without_hours() {
    assert_eq!(format_duration("0"), "00:00");
    assert_eq!(format_duration("59"), "00:59");
    assert_eq!(format_duration("75"), "01:15");
    assert_eq!(format_duration("3599"), "59:59");
    assert_eq!(format_duration("3600"), "01:00:00");
    assert_eq!(format_duration("3661"), "01:01:01");
    assert_eq!(format_duration("360000"), "100:00:00");
    assert_eq!(format_duration("+61"), "01:01");
}

#[test]
fn durations_that_are_no_number_stay() {
    assert_eq!(format_duration("live"), "live");
    assert_eq!(format_duration(""), "");
    assert_eq!(format_duration("-1"), "-1");
    assert_eq!(format_duration("18446744073709551616"), "18446744073709551616");
}

#[test]
fn counts_are_grouped_by_three() {
    assert_eq!(format_number("0"), "0");
    assert_eq!(format_number("999"), "999");
    assert_eq!(format_number("1000"), "1 000");
    assert_eq!(format_number("1234567"), "1 234 567");
    assert_eq!(format_number("18446744073709551615"), "18 446 744 073 709 551 615");
    assert_eq!(format_number("0012"), "12");
    assert_eq!(format_number("many"), "many");
}

#[test]
fn bitrates_as_shown() {
    assert_eq!(format_bitrate(0), "Bitrate unknown");
    assert_eq!(format_bitrate(128_000), "128 kbps");
    assert_eq!(format_bitrate(2_500_000), "2.50 Mbps");
    assert_eq!(format_bitrate(999_999), "1000 kbps");
}

#[test]
fn decimal_text_reads_back_as_the_number() {
    for number in [0u64, 7, 10, 99, 100, 65_535, u64::MAX] {
        assert_eq!(decimal(number), number.to_string());
        assert_eq!(parse_unsigned(&decimal(number), u64::MAX), Some(number));
    }
    assert_eq!(parse_unsigned("65536", 65_535), None);
    assert_eq!(parse_unsigned("+", 65_535), None);
    assert_eq!(signed_decimal(-2_147_483_648), "-2147483648");
    assert_eq!(signed_decimal(17), "17");
}

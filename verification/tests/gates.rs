use tapevm::clock_minutes;
use tapevm::counter_verdict;
use tapevm::current_minutes;
use tapevm::parse_clock;
use tapevm::parse_number;
use tapevm::window_allows;
use tapevm::ClockSpec;

#[test]
fn number_reads_digits() {
    assert_eq!(parse_number(b"123"), Some(123));
    assert_eq!(parse_number(b"0"), Some(0));
    assert_eq!(parse_number(b"007"), Some(7));
}

#[test]
fn number_rejects_non_digits() {
    assert_eq!(parse_number(b""), None);
    assert_eq!(parse_number(b"12a"), None);
    assert_eq!(parse_number(b"-5"), None);
    assert_eq!(parse_number(b" 5"), None);
}

#[test]
fn number_stops_at_the_type_bound() {
    assert_eq!(parse_number(b"4294967295"), Some(u32::MAX));
    assert_eq!(parse_number(b"4294967296"), None);
    assert_eq!(parse_number(b"99999999999999999999"), None);
}

#[test]
fn clock_time_only() {
    assert_eq!(
        parse_clock(b"09:30"),
        Some(ClockSpec { year: 0, month: 0, day: 0, hour: 9, minute: 30 })
    );
}

#[test]
fn clock_with_date() {
    assert_eq!(
        parse_clock(b"2024-01-31 23:59"),
        Some(ClockSpec { year: 2024, month: 1, day: 31, hour: 23, minute: 59 })
    );
}

#[test]
fn clock_rejects_malformed_strings() {
    assert_eq!(parse_clock(b"0930"), None);
    assert_eq!(parse_clock(b"9:3:1"), None);
    assert_eq!(parse_clock(b"2024-01 23:59"), None);
    assert_eq!(parse_clock(b"2024-01-3123:59"), None);
    assert_eq!(parse_clock(b"a9:30"), None);
    assert_eq!(parse_clock(b":30"), None);
}

#[test]
fn window_plain_range() {
    assert!(window_allows(540, 1020, 540));
    assert!(window_allows(540, 1020, 600));
    assert!(window_allows(540, 1020, 1020));
    assert!(!window_allows(540, 1020, 539));
    assert!(!window_allows(540, 1020, 1021));
}

#[test]
fn window_overnight_range() {
    assert!(window_allows(1380, 120, 1390));
    assert!(window_allows(1380, 120, 60));
    assert!(!window_allows(1380, 120, 600));
}

#[test]
fn minutes_of_clock_and_epoch() {
    let c = ClockSpec { year: 0, month: 0, day: 0, hour: 9, minute: 30 };
    assert_eq!(clock_minutes(&c), 570);
    // Two hours, twenty-five minutes and change past some midnight.
    assert_eq!(current_minutes(2 * 3600 + 25 * 60 + 59), 145);
    assert_eq!(current_minutes(86400 + 61), 1);
}

#[test]
fn counter_counts_and_judges() {
    assert_eq!(counter_verdict(0, 3), (1, true));
    assert_eq!(counter_verdict(2, 3), (3, true));
    assert_eq!(counter_verdict(3, 3), (4, false));
}

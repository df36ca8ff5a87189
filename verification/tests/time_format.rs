use pico_th_collector::csv::{
    hour_format_to_seconds, parse_prev_time, parse_string_to_u32, seconds_format_to_hour,
    PREVIOUS_OFFSET_FAILED_MSG,
};
use pico_th_collector::text::u32_to_decimal;

#[test]
fn hour_fields_convert_to_seconds() {
    assert_eq!(hour_format_to_seconds(2, 0), 172800);
    assert_eq!(hour_format_to_seconds(3, 1), 10800);
    assert_eq!(hour_format_to_seconds(4, 2), 240);
    assert_eq!(hour_format_to_seconds(5, 3), 5);
    assert_eq!(hour_format_to_seconds(0, 0), 0);
    assert_eq!(hour_format_to_seconds(49710, 0), 4294944000);
}

#[test]
fn seconds_written_as_days_hours_minutes_seconds() {
    assert_eq!(seconds_format_to_hour(0), "00-00-00-00");
    assert_eq!(seconds_format_to_hour(59), "00-00-00-59");
    assert_eq!(seconds_format_to_hour(90061), "01-01-01-01");
    assert_eq!(seconds_format_to_hour(86399), "00-23-59-59");
    assert_eq!(seconds_format_to_hour(8640000), "100-00-00-00");
    assert_eq!(seconds_format_to_hour(u32::MAX), "49710-06-28-15");
}

#[test]
fn decimal_rendering_matches_to_string() {
    for n in [0u32, 7, 10, 99, 100, 12345, 4294967295] {
        assert_eq!(u32_to_decimal(n), n.to_string());
    }
}

#[test]
fn parse_u32_follows_str_parse() {
    let msg = "tail\n";
    for text in ["42", "+7", "0", "007", "4294967295", "", "+", "-1", "4294967296", "1 2", "x", "٣"] {
        let expected = text.parse::<u32>().ok();
        assert_eq!(parse_string_to_u32(text, msg).ok(), expected, "text {:?}", text);
    }
}

#[test]
fn parse_u32_error_names_the_text() {
    assert_eq!(
        parse_string_to_u32("abc", "tail\n"),
        Err(String::from("    failed to convert prev time \"abc\" to u32 number\ntail\n"))
    );
}

#[test]
fn previous_time_in_hour_format() {
    assert_eq!(parse_prev_time("01-02-03-04", true, "m"), Ok(93784));
    assert_eq!(parse_prev_time("00-00-01-40", true, "m"), Ok(100));
    assert_eq!(parse_prev_time("1-2-3-4-junk", true, "m"), Ok(93784));
    assert_eq!(
        parse_prev_time("1-x-3-4", true, "m"),
        Err(String::from("    failed to convert prev time \"x\" to u32 number\nm"))
    );
    assert_eq!(
        parse_prev_time("1-2", true, "m"),
        Err(String::from("    failed to convert prev time \"Missing Time Record\" to u32 number\nm"))
    );
}

#[test]
fn previous_time_in_seconds() {
    assert_eq!(parse_prev_time("93784", false, "m"), Ok(93784));
    assert_eq!(
        parse_prev_time("01-02-03-04", false, "m"),
        Err(String::from("    failed to convert prev time \"01-02-03-04\" to u32 number\nm"))
    );
}

#[test]
fn hour_format_round_trip() {
    for t in [0u32, 1, 59, 60, 3599, 3600, 86399, 86400, 93784, 8640000, 123456789, u32::MAX] {
        let text = seconds_format_to_hour(t);
        assert_eq!(parse_prev_time(&text, true, PREVIOUS_OFFSET_FAILED_MSG), Ok(t));
    }
}

#[test]
fn seconds_round_trip() {
    for t in [0u32, 1, 100, 65793, u32::MAX] {
        let text = u32_to_decimal(t);
        assert_eq!(parse_prev_time(&text, false, PREVIOUS_OFFSET_FAILED_MSG), Ok(t));
    }
}

use pico_th_collector::csv::{
    csv_for_save, previous_offset, previous_time, previous_time_step, save_options, tenths_to_text,
    to_csv_text, PreviousTime, PreviousTimeStep, PREVIOUS_OFFSET_FAILED_MSG,
    SAVE_USE_24_HOUR_FORMAT, SAVE_USE_PREVIOUS_TIME,
};
use pico_th_collector::pc_code;

#[test]
fn sensor_value_text() {
    assert_eq!(tenths_to_text(45, 3), "45.3");
    assert_eq!(tenths_to_text(22, 0), "22");
    assert_eq!(tenths_to_text(0, 0), "0");
    assert_eq!(tenths_to_text(1, 15), "2.5");
    assert_eq!(tenths_to_text(255, 255), "280.5");
}

#[test]
fn csv_with_heading_in_seconds() {
    let data = vec![45, 3, 22, 1, 100, 0, 0];
    assert_eq!(
        to_csv_text(data, true, 0, false),
        "Time,Humidity,Temperature,\n100,45.3,22.1,\n"
    );
}

#[test]
fn csv_in_hour_format_with_offset() {
    let data = vec![45, 3, 22, 1, 100, 0, 0, 50, 0, 19, 9, 1, 1, 1];
    assert_eq!(
        to_csv_text(data, false, 3600, true),
        "00-01-01-40,45.3,22.1,\n00-19-16-33,50,19.9,\n"
    );
}

#[test]
fn csv_time_is_little_endian() {
    let data = vec![0, 0, 0, 0, 1, 1, 1];
    assert_eq!(to_csv_text(data, false, 0, false), "65793,0,0,\n");
}

#[test]
fn csv_leaves_out_a_partial_reading() {
    let data = vec![10, 0, 20, 0, 5, 0, 0, 1, 2, 3];
    assert_eq!(to_csv_text(data, false, 0, false), "5,10,20,\n");
    assert_eq!(to_csv_text(vec![], true, 0, false), "Time,Humidity,Temperature,\n");
}

#[test]
fn csv_batches_join() {
    let a = vec![45, 3, 22, 1, 100, 0, 0];
    let b = vec![46, 0, 21, 9, 200, 0, 0, 47, 1, 21, 8, 44, 1, 0];
    let mut both = a.clone();
    both.extend_from_slice(&b);
    let joined = to_csv_text(a, true, 7, true) + &to_csv_text(b, false, 7, true);
    assert_eq!(to_csv_text(both, true, 7, true), joined);
}

#[test]
fn first_tool_csv() {
    let data = vec![45, 3, 22, 1, 100, 0, 0];
    assert_eq!(pc_code::to_csv_text(data.clone(), true), "Humidity,Temperature,Time,\n45.3,22.1,100,\n");
    assert_eq!(pc_code::to_csv_text(data, false), "45.3,22.1,100,\n");
}

fn tail_of(text: &str) -> Vec<u8> {
    let bytes = text.as_bytes();
    bytes[bytes.len() - 26..bytes.len() - 2].to_vec()
}

#[test]
fn csv_time_read_back_in_seconds() {
    let data = vec![45, 3, 22, 1, 100, 0, 0, 50, 0, 19, 9, 44, 1, 0];
    let text = to_csv_text(data, true, 1000, false);
    assert!(matches!(previous_time(&tail_of(&text), false), PreviousTime::Found(1300)));
}

#[test]
fn csv_time_read_back_in_hour_format() {
    let data = vec![45, 3, 22, 1, 100, 0, 0, 50, 0, 19, 9, 44, 1, 0];
    let text = to_csv_text(data, true, 86400, true);
    assert!(matches!(previous_time(&tail_of(&text), true), PreviousTime::Found(86700)));
}

#[test]
fn previous_time_in_other_format() {
    let tail = b"1,2,3,\n00-00-01-40,45.3,22.1".to_vec();
    assert!(matches!(previous_time(&tail, false), PreviousTime::OtherFormat(100)));
    let tail = b"1,2,3,\n100,45.3,22.1".to_vec();
    assert!(matches!(previous_time(&tail, true), PreviousTime::Found(_)) == false);
    assert!(matches!(previous_time(&tail, true), PreviousTime::OtherFormat(100)));
}

#[test]
fn previous_time_unparsable() {
    let tail = b"1,2,3,\nTime,Humidity,Tempera".to_vec();
    match previous_time(&tail, false) {
        PreviousTime::Unparsable(e) => assert_eq!(
            e,
            format!("    failed to convert prev time \"Time\" to u32 number\n{}", PREVIOUS_OFFSET_FAILED_MSG)
        ),
        _ => panic!("expected an unparsable record"),
    }
}

#[test]
fn previous_time_of_invalid_text() {
    let tail = vec![0xff, 0xfe, b'1', b','];
    assert!(matches!(previous_time(&tail, false), PreviousTime::InvalidText));
}

#[test]
fn previous_time_too_large() {
    let tail = b"99999-00-00-00,1,2".to_vec();
    assert!(matches!(previous_time(&tail, true), PreviousTime::TooLarge));
    assert!(matches!(previous_time(&tail, false), PreviousTime::TooLarge));
    let tail = b"49710-06-28-15,1,2".to_vec();
    assert!(matches!(previous_time(&tail, true), PreviousTime::Found(4294967295)));
}

#[test]
fn save_options_from_bits() {
    let o = save_options(SAVE_USE_PREVIOUS_TIME | SAVE_USE_24_HOUR_FORMAT);
    assert!(o.offset_with_prev_time && o.use_hour_format);
    let o = save_options(0);
    assert!(!o.offset_with_prev_time && !o.use_hour_format);
    let o = save_options(SAVE_USE_24_HOUR_FORMAT);
    assert!(!o.offset_with_prev_time && o.use_hour_format);
}

#[test]
fn csv_for_save_adds_both_offsets() {
    let data = vec![45, 3, 22, 1, 100, 0, 0];
    assert_eq!(
        csv_for_save(data.clone(), false, 1000, 20, false),
        Some(String::from("1120,45.3,22.1,\n"))
    );
    assert_eq!(csv_for_save(data.clone(), false, u32::MAX, 1, false), None);
    assert_eq!(csv_for_save(data, false, u32::MAX - 50, 0, false), None);
}

#[test]
fn where_the_previous_time_comes_from() {
    assert!(matches!(previous_time_step(false, true), PreviousTimeStep::NotAsked));
    assert!(matches!(previous_time_step(false, false), PreviousTimeStep::NotAsked));
    assert!(matches!(previous_time_step(true, false), PreviousTimeStep::NoEarlierFile));
    assert!(matches!(previous_time_step(true, true), PreviousTimeStep::ReadTail));
}

#[test]
fn previous_offsets() {
    assert_eq!(previous_offset(&PreviousTime::Found(12)), 12);
    assert_eq!(previous_offset(&PreviousTime::OtherFormat(34)), 34);
    assert_eq!(previous_offset(&PreviousTime::Unparsable(String::from("e"))), 0);
    assert_eq!(previous_offset(&PreviousTime::InvalidText), 0);
}

#[test]
fn saving_continues_from_the_last_time() {
    for hour in [false, true] {
        let first = vec![45, 3, 22, 1, 100, 0, 0, 50, 0, 19, 9, 44, 1, 0];
        let file = csv_for_save(first, true, 0, 1000, hour).unwrap();
        let last = match previous_time(&tail_of(&file), hour) {
            PreviousTime::Found(t) => t,
            _ => panic!("expected the last time"),
        };
        assert_eq!(last, 1300);
        let later = vec![40, 0, 20, 0, 10, 0, 0];
        let appended = csv_for_save(later.clone(), false, previous_offset(&PreviousTime::Found(last)), 5, hour);
        assert_eq!(appended, Some(to_csv_text(later, false, 1305, hour)));
    }
}

use pico_th_collector::pico_interface::{
    handle_reading_data_result, pad_to_readings, request_step, sync_step, Collector, ReadResult,
    RequestStep, SyncStep, MAX_SENSOR_BUFFER,
};

#[test]
fn request_answers() {
    assert!(matches!(request_step(0, 1), RequestStep::Accepted));
    assert!(matches!(request_step(1, 1), RequestStep::Accepted));
    assert!(matches!(request_step(0, 3), RequestStep::Retry));
    match request_step(1, 3) {
        RequestStep::GiveUp(e) => assert_eq!(e, "    No positive response from device"),
        _ => panic!("expected to give up"),
    }
    match request_step(0, 2) {
        RequestStep::Failed(e) => assert_eq!(e, "    Device Has nothing in buffer to send!"),
        _ => panic!("expected a failure"),
    }
    match request_step(0, b'x') {
        RequestStep::Failed(e) => assert_eq!(e, "    Unexpected response from device: x"),
        _ => panic!("expected a failure"),
    }
    match request_step(0, 0) {
        RequestStep::Failed(e) => assert_eq!(e, "    Unexpected response from device: \0"),
        _ => panic!("expected a failure"),
    }
}

#[test]
fn read_results() {
    assert_eq!(handle_reading_data_result(ReadResult::Bytes(7)), Ok(7));
    assert_eq!(handle_reading_data_result(ReadResult::TimedOut), Ok(0));
    assert_eq!(
        handle_reading_data_result(ReadResult::Failed(String::from("broken pipe"))),
        Err(String::from("broken pipe"))
    );
}

#[test]
fn sync_bytes() {
    assert!(matches!(sync_step(Ok(1), 255), SyncStep::Continue));
    assert!(matches!(sync_step(Ok(1), 254), SyncStep::End));
    assert!(matches!(sync_step(Ok(1), 17), SyncStep::Resync));
    assert!(matches!(sync_step(Ok(0), 255), SyncStep::Missing));
    match sync_step(Err(String::from("gone")), 255) {
        SyncStep::Failed(e) => assert_eq!(e, "gone"),
        _ => panic!("expected a failure"),
    }
}

#[test]
fn whole_chunks_are_kept_as_read() {
    let mut c = Collector::new();
    c.add_chunk(&[1, 2, 3, 4, 5, 6, 7]);
    c.add_chunk(&[8, 9, 10, 11, 12, 13, 14]);
    assert_eq!(c.into_readings(), vec![1, 2, 3, 4, 5, 6, 7, 8, 9, 10, 11, 12, 13, 14]);
}

#[test]
fn short_chunk_keeps_its_room() {
    let mut c = Collector::new();
    c.add_chunk(&[1, 2, 3, 4, 5, 6, 7]);
    c.add_chunk(&[8, 9, 10, 11, 12]);
    c.add_chunk(&[15, 16, 17, 18, 19, 20, 21]);
    assert_eq!(c.total_read(), 19);
    let data = c.into_readings();
    assert_eq!(data, vec![1, 2, 3, 4, 5, 6, 7, 8, 9, 10, 11, 12, 0, 0, 15, 16, 17, 18, 19]);
    assert_eq!(data.len(), 19);
    assert_eq!(
        pad_to_readings(data),
        vec![1, 2, 3, 4, 5, 6, 7, 8, 9, 10, 11, 12, 0, 0, 15, 16, 17, 18, 19, 0, 0]
    );
}

#[test]
fn empty_chunks() {
    let mut c = Collector::new();
    assert!(c.add_chunk(&[]));
    assert_eq!(c.total_read(), 0);
    assert_eq!(c.into_readings(), Vec::<u8>::new());
}

#[test]
fn progress_every_250_readings() {
    let mut c = Collector::new();
    for i in 0..250 {
        let due = c.add_chunk(&[0, 0, 0, 0, 0, 0, 0]);
        assert_eq!(due, i == 249);
    }
}

#[test]
fn room_for_the_device_buffer() {
    let mut c = Collector::new();
    let mut n = 0;
    while c.has_room() {
        c.add_chunk(&[1, 1, 1, 1, 1, 1, 1]);
        n += 1;
    }
    assert_eq!(n, MAX_SENSOR_BUFFER);
    assert_eq!(MAX_SENSOR_BUFFER, 30000);
    assert_eq!(c.into_readings().len(), MAX_SENSOR_BUFFER * 7);
}

#[test]
fn padding() {
    assert_eq!(pad_to_readings(vec![]), Vec::<u8>::new());
    assert_eq!(pad_to_readings(vec![1; 7]), vec![1; 7]);
    assert_eq!(pad_to_readings(vec![1; 8]), vec![1, 1, 1, 1, 1, 1, 1, 1, 0, 0, 0, 0, 0, 0]);
}

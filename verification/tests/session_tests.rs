use qsib_sensor::errors::ErrorQueue;
use qsib_sensor::measurement::Measurement;
use qsib_sensor::store::Store;

#[test]
fn create_measurement() {
    let _ = Measurement::new(1, 1);
}

#[test]
#[allow(overflowing_literals)]
fn add_payload_to_measurement() {
    let mut measurement = Measurement::new(1, 3);
    let raw_payload: [u8; 20] = [
        20, 0,          // num bytes as u16
        0,          // reserved
        0b00110000, // num channels as u4, num counter overflow as u4
        1, 0, 0, 0, // num notifications as u32
        // Sample 0 of Notification 1
        0x10, 0x00, // channel 0 sample value as i16
        0xff, 0xff, // channel 1 sample value as i16
        0x00, 0xff, // channel 1 sample value as i16
        // Sample 1 of Notification 1
        0x11, 0x00, // channel 0 sample value as i16
        0x0f, 0xff, // channel 1 sample value as i16
        0x00, 0x0f, // channel 1 sample value as i16
    ];

    assert_eq!(measurement.consume(&raw_payload), Ok(2));
    assert_eq!(measurement.payloads.len(), 1);
    assert_eq!(measurement.active_channels, 3);

    let payload = &measurement.payloads[0];
    assert_eq!(payload.counter, 1);
    assert_eq!(payload.active_channels, 3);
    assert_eq!(payload.channels[0][0], 0x0010 as i16);
    assert_eq!(payload.channels[1][0], 0xffff as i16);
    assert_eq!(payload.channels[2][0], 0xff00 as i16);
    assert_eq!(payload.channels[0][1], 0x0011 as i16);
    assert_eq!(payload.channels[1][1], 0xff0f as i16);
    assert_eq!(payload.channels[2][1], 0x0f00 as i16);
}

#[test]
fn create_and_drop_measurement() {
    let mut store = Store::new();

    let measurement_id = store.create_measurement(2);
    store.drop_measurement(measurement_id);
    let measurement_id = store.create_measurement(1);
    store.drop_measurement(measurement_id);
}

#[test]
#[allow(overflowing_literals)]
fn create_and_update_measurement() {
    let mut store = Store::new();
    let mut errors = ErrorQueue::new();

    // Create a measurement
    let measurement_id = store.create_measurement(3);
    assert_ne!(measurement_id, 0);

    // Add a payload tested below the foreign-call boundary
    let raw_payload: [u8; 20] = [
        20, 0,          // num bytes as u16
        0,          // reserved
        0b00110000, // num channels as u4, num counter overflow as u4
        1, 0, 0, 0, // num notifications as u32
        // Sample 0 of Notification 1
        0x10, 0x00, // channel 0 sample value as i16
        0xff, 0xff, // channel 1 sample value as i16
        0x00, 0xff, // channel 1 sample value as i16
        // Sample 1 of Notification 1
        0x11, 0x00, // channel 0 sample value as i16
        0x0f, 0xff, // channel 1 sample value as i16
        0x00, 0x0f, // channel 1 sample value as i16
    ];

    let num_samples = store.add_signals(&mut errors, measurement_id, &raw_payload);
    assert_eq!(num_samples, 2);

    // Get the timestamps: positions under a mask that includes everything,
    // scaled by the nominal sample period rate_scaler / hz = 4 / 2.
    let positions = store
        .interpret_timestamps(measurement_id, 0xDEADBEEF, 1, 1, 2)
        .unwrap();
    let time_per_sample: f64 = 4.0 / 2.0;
    let timestamps: Vec<f64> = positions.iter().map(|&p| p as f64 * time_per_sample).collect();
    assert_eq!(timestamps.len(), 2);
    assert!(timestamps[0] == 0.0);
    assert!(timestamps[1] == 2.0);

    // Get the channel data
    let (channel_data, num_samples) = store
        .copy_signals(measurement_id, 0xDEADBEEF, 1, 1, 2)
        .unwrap();
    assert_eq!(num_samples, 2);
    assert_eq!(channel_data.len(), 3);
    assert!(channel_data[0][0] as f64 == 0x0010 as i16 as f64);
    assert!(channel_data[1][0] as f64 == 0xffff as i16 as f64);
    assert!(channel_data[2][0] as f64 == 0xff00 as i16 as f64);
    assert!(channel_data[0][1] as f64 == 0x0011 as i16 as f64);
    assert!(channel_data[1][1] as f64 == 0xff0f as i16 as f64);
    assert!(channel_data[2][1] as f64 == 0x0f00 as i16 as f64);

    // Drop the measurement
    store.drop_measurement(measurement_id);
}

#[test]
fn dedup_same_frame_twice() {
    let mut measurement = Measurement::new(7, 2);
    let frame: [u8; 12] = [12, 0, 0, 0x20, 9, 0, 0, 0, 1, 0, 2, 0];
    assert_eq!(measurement.consume(&frame), Ok(1));
    assert_eq!(measurement.consume(&frame), Ok(1));
    assert_eq!(measurement.payloads.len(), 1);
    assert_eq!(measurement.payloads[0].counter, 9);
}

fn one_channel_frame(counter: u8, value: i16) -> [u8; 10] {
    let v = value as u16;
    [10, 0, 0, 0x10, counter, 0, 0, 0, (v % 256) as u8, (v / 256) as u8]
}

#[test]
fn order_invariant_ingestion() {
    let frames = [
        one_channel_frame(5, 50),
        one_channel_frame(1, 10),
        one_channel_frame(3, 30),
    ];
    let mut forward = Measurement::new(1, 1);
    for f in frames.iter() {
        assert_eq!(forward.consume(f), Ok(1));
    }
    let mut backward = Measurement::new(2, 1);
    for f in frames.iter().rev() {
        assert_eq!(backward.consume(f), Ok(1));
    }
    assert_eq!(forward.payloads.len(), 3);
    assert_eq!(backward.payloads.len(), 3);
    for i in 0..3 {
        assert_eq!(forward.payloads[i].counter, backward.payloads[i].counter);
        assert_eq!(forward.payloads[i].channels[0], backward.payloads[i].channels[0]);
    }
    assert_eq!(forward.payloads[0].counter, 1);
    assert_eq!(forward.payloads[1].counter, 3);
    assert_eq!(forward.payloads[2].counter, 5);
}

#[test]
fn counter_reconstruction_with_epoch() {
    let mut measurement = Measurement::new(3, 1);
    // Epoch 2 in the low nibble, rolling counter 7.
    let frame: [u8; 10] = [10, 0, 0, 0x12, 7, 0, 0, 0, 0, 0];
    assert_eq!(measurement.consume(&frame), Ok(1));
    assert_eq!(measurement.payloads[0].counter, 2u64 * 4294967296u64 + 7u64);
}

#[test]
fn decoder_rejections_and_error_queue() {
    let mut store = Store::new();
    let mut errors = ErrorQueue::new();
    let id = store.create_measurement(1);

    // Declared length 11 against 10 actual bytes.
    let length_mismatch: [u8; 10] = [11, 0, 0, 0x10, 0, 0, 0, 0, 0, 0];
    assert_eq!(store.add_signals(&mut errors, id, &length_mismatch), 0);
    assert_eq!(
        errors.pop().unwrap(),
        "Bytes in payload does not match specified bytes in payload"
    );

    // Channel count nibble 0.
    let zero_channels: [u8; 10] = [10, 0, 0, 0x00, 0, 0, 0, 0, 0, 0];
    assert_eq!(store.add_signals(&mut errors, id, &zero_channels), 0);
    assert_eq!(
        errors.pop().unwrap(),
        "Channel count specified in payload is out of range"
    );

    // Two channels declared, but an odd sample area.
    let incomplete: [u8; 10] = [10, 0, 0, 0x20, 0, 0, 0, 0, 1, 0];
    assert_eq!(store.add_signals(&mut errors, id, &incomplete), 0);
    assert_eq!(
        errors.pop().unwrap(),
        "Not all specified channels present in payload"
    );

    assert!(errors.pop().is_none());
    // A rejected frame mutates nothing.
    let (_, count) = store.copy_signals(id, 1, 1, 1, 16).unwrap();
    assert_eq!(count, 0);
}

#[test]
fn error_queue_is_bounded_and_lifo() {
    let mut errors = ErrorQueue::new();
    for i in 0..20u32 {
        errors.push(format!("message {}", i));
    }
    assert_eq!(errors.len(), 16);
    // Most recent retained first; arrivals 16..19 were dropped.
    for i in (0..16u32).rev() {
        assert_eq!(errors.pop().unwrap(), format!("message {}", i));
    }
    assert!(errors.pop().is_none());
}

#[test]
fn store_capacity_and_fresh_ids() {
    let mut store = Store::new();
    let mut ids = Vec::new();
    for _ in 0..32 {
        let id = store.create_measurement(2);
        assert_ne!(id, 0);
        ids.push(id);
    }
    // The store is at capacity: one more create reports the sentinel.
    assert_eq!(store.create_measurement(2), 0);
    // Dropping one session frees a slot, and the next id is brand new.
    store.drop_measurement(ids[10]);
    let fresh = store.create_measurement(2);
    assert_ne!(fresh, 0);
    assert!(ids.iter().all(|&old| fresh > old));
}

#[test]
fn unknown_id_is_rejected_and_harmless() {
    let mut store = Store::new();
    let mut errors = ErrorQueue::new();
    let id = store.create_measurement(1);
    let frame: [u8; 10] = [10, 0, 0, 0x10, 1, 0, 0, 0, 5, 0];
    assert_eq!(store.add_signals(&mut errors, id, &frame), 1);

    // A never-issued id fails every read path and ingestion.
    assert!(store.interpret_timestamps(9999, 1, 1, 1, 4).is_err());
    assert!(store.copy_signals(9999, 1, 1, 1, 4).is_err());
    assert_eq!(store.add_signals(&mut errors, 9999, &frame), 0);
    store.drop_measurement(9999);

    // The real session is untouched.
    let positions = store.interpret_timestamps(id, 1, 1, 1, 4).unwrap();
    assert_eq!(positions, vec![0]);

    // An already-dropped id behaves the same way.
    store.drop_measurement(id);
    assert!(store.interpret_timestamps(id, 1, 1, 1, 4).is_err());
}

/// Gap policy: a jump in the counter between stored frames contributes no
/// time. Positions, and so timestamps, run contiguously across skipped
/// frames; only the frames actually ingested occupy the stream.
#[test]
fn counter_gaps_add_no_time() {
    let mut measurement = Measurement::new(1, 1);
    let early: [u8; 12] = [12, 0, 0, 0x10, 1, 0, 0, 0, 1, 0, 2, 0];
    let late: [u8; 12] = [12, 0, 0, 0x10, 50, 0, 0, 0, 3, 0, 4, 0];
    assert_eq!(measurement.consume(&early), Ok(2));
    assert_eq!(measurement.consume(&late), Ok(2));
    let positions = measurement.interpret_timestamp_positions(9, 1, 1, 16);
    assert_eq!(positions, vec![0, 1, 2, 3]);
}

#[test]
fn interpret_on_empty_session() {
    let mut store = Store::new();
    let id = store.create_measurement(4);
    let positions = store.interpret_timestamps(id, 42, 1, 1, 100).unwrap();
    assert!(positions.is_empty());
    let (channels, count) = store.copy_signals(id, 42, 1, 1, 100).unwrap();
    assert_eq!(count, 0);
    assert_eq!(channels.len(), 4);
    assert!(channels.iter().all(|c| c.is_empty()));
}

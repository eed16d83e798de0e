use qsib_sensor::errors::ErrorQueue;
use qsib_sensor::sampling::compute_mask;
use qsib_sensor::store::Store;
use rand_core::{Rng, SeedableRng};
use rand_xorshift::XorShiftRng;

#[test]
fn mask_is_reproducible_and_chunkable() {
    let seed: u64 = 0xFEED_BEEF;
    let whole = compute_mask(seed, 3, 1, 0, 100);
    let again = compute_mask(seed, 3, 1, 0, 100);
    assert_eq!(whole, again);

    // A contiguous mask equals the concatenation of per-chunk masks over
    // any partition into consecutive chunks.
    let mut chunked: Vec<bool> = Vec::new();
    let mut offset = 0usize;
    for len in [13usize, 0, 27, 41, 19] {
        chunked.extend(compute_mask(seed, 3, 1, offset, len));
        offset += len;
    }
    assert_eq!(offset, 100);
    assert_eq!(whole, chunked);

    // The mask follows the seeded generator draw for draw.
    let mut rng = XorShiftRng::seed_from_u64(seed);
    let reference: Vec<bool> = (0..100).map(|_| rng.next_u32() % 3 <= 1).collect();
    assert_eq!(whole, reference);

    // The generator actually decides: a selective mask is neither full nor
    // empty.
    let selective = compute_mask(seed, 2, 0, 0, 100);
    assert!(selective.iter().any(|&b| b));
    assert!(!selective.iter().all(|&b| b));
}

#[test]
fn capacity_truncates_both_read_paths() {
    let mut store = Store::new();
    let mut errors = ErrorQueue::new();
    let id = store.create_measurement(1);
    // Two frames of four samples each: eight included positions in all
    // under an include-everything mask.
    for counter in 0..2u8 {
        let frame: [u8; 16] = [
            16, 0, 0, 0x10, counter, 0, 0, 0,
            1, 0, 2, 0, 3, 0, 4, 0,
        ];
        assert_eq!(store.add_signals(&mut errors, id, &frame), 4);
    }
    let positions = store.interpret_timestamps(id, 7, 1, 1, 5).unwrap();
    assert_eq!(positions, vec![0, 1, 2, 3, 4]);
    let (channels, count) = store.copy_signals(id, 7, 1, 1, 5).unwrap();
    assert_eq!(count, 5);
    assert_eq!(channels[0], vec![1i16, 2, 3, 4, 1]);
}

#[test]
fn two_read_paths_select_the_same_positions() {
    // Frames of different sizes, so the copier's per-payload mask chunks
    // split the stream unevenly; both paths must still pick the same
    // positions as one contiguous walk of the seeded generator.
    let mut measurement = qsib_sensor::measurement::Measurement::new(1, 1);
    for (counter, samples) in [(1u8, 3usize), (2, 5), (3, 2), (4, 7)] {
        let mut frame = vec![0u8; 8 + 2 * samples];
        frame[0] = (8 + 2 * samples) as u8;
        frame[3] = 0x10;
        frame[4] = counter;
        for b in 8..frame.len() {
            frame[b] = rand::random();
        }
        assert_eq!(measurement.consume(&frame), Ok(samples as u32));
    }
    let seed: u64 = 0xABCD_EF01;
    let contiguous = measurement.interpret_timestamp_positions(seed, 0, 3, 64);
    let chunked = measurement.copy_included_positions(seed, 0, 3, 64);
    assert_eq!(contiguous, chunked);

    let mut rng = XorShiftRng::seed_from_u64(seed);
    let reference: Vec<u64> = (0u64..17)
        .filter(|_| rng.next_u32() % 3 == 0)
        .collect();
    assert_eq!(contiguous, reference);
}

fn build_payloads() -> Vec<[u8; 248]> {
    (0..1000u32)
        .map(|i| {
            let mut raw_payload = [0u8; 248];
            raw_payload[0] = 248;
            raw_payload[1] = 0;
            raw_payload[2] = 0;
            raw_payload[3] = 0b01100000; // 6 channels, epoch 0
            raw_payload[4..8].copy_from_slice(&i.to_le_bytes());
            for b in 8..248 {
                raw_payload[b] = rand::random();
            }
            raw_payload
        })
        .collect()
}

fn match_payloads(
    store: &Store,
    measurement_id: u32,
    channels: u8,
    samples_per_payload: usize,
    payloads: &[[u8; 248]],
    downsample_seed: u64,
    downsample_threshold: u32,
    downsample_scale: u32,
) {
    let samples = samples_per_payload * payloads.len();

    // Recreate the generator the library must agree with.
    let mut rng = XorShiftRng::seed_from_u64(downsample_seed);
    let generated_mask: Vec<bool> = (0..samples)
        .map(|_| rng.next_u32() % downsample_scale <= downsample_threshold)
        .collect();
    let downsampled_samples = generated_mask.iter().filter(|v| **v).count();
    let expected_timestamps: Vec<f64> = (0..samples)
        .map(|i| i * 2)
        .zip(&generated_mask)
        .filter(|v| *v.1)
        .map(|v| v.0 as f64)
        .collect();

    // Get the timestamps
    let positions = store
        .interpret_timestamps(
            measurement_id,
            downsample_seed,
            downsample_threshold,
            downsample_scale,
            downsampled_samples as u32,
        )
        .unwrap();
    assert_eq!(positions.len(), downsampled_samples);
    let time_per_sample: f64 = 4.0 / 2.0;
    positions
        .iter()
        .map(|&p| p as f64 * time_per_sample)
        .zip(expected_timestamps)
        .for_each(|(got, want)| assert!(got == want));

    // Get the channel data
    let (channel_data, num_samples_per_channel) = store
        .copy_signals(
            measurement_id,
            downsample_seed,
            downsample_threshold,
            downsample_scale,
            downsampled_samples as u32,
        )
        .unwrap();
    assert_eq!(num_samples_per_channel as usize, downsampled_samples);
    assert_eq!(channel_data.len(), channels as usize);

    let mut assertions = 0usize;
    let mut global_sample_index = 0usize;
    let mut global_downsample_index = 0usize;
    for payload in payloads.iter() {
        let mut downsampled_index = 0usize;
        for sample_index in 0..samples_per_payload {
            if generated_mask[global_sample_index + sample_index] {
                for channel_index in 0..channels as usize {
                    let byte = 8 + sample_index * channels as usize * 2 + channel_index * 2;
                    let expected = i16::from_le_bytes([payload[byte], payload[byte + 1]]);
                    let got = channel_data[channel_index][global_downsample_index + downsampled_index];
                    assert!(got as f64 == expected as f64);
                    assertions += 1;
                }
                downsampled_index += 1;
            }
        }
        global_sample_index += samples_per_payload;
        global_downsample_index += downsampled_index;
    }
    assert_eq!(assertions, downsampled_samples * channels as usize);
}

//  Marshal and unmarshal a lot of random signals on various channels
#[test]
fn use_measurement_like_real_worl_use_case() {
    let mut store = Store::new();
    let mut errors = ErrorQueue::new();

    // Create a measurement
    let signal_channels = 6;
    let measurement_id = store.create_measurement(signal_channels);

    // Prepare a bunch of payloads
    let samples_per_payload = 20; // 2 + 1 + 1 + 4 + (6 * 2) * 20 = 248
    let payloads = build_payloads();

    // Add a bunch of payloads
    for i in 0..(payloads.len() / 2) {
        let samples = store.add_signals(&mut errors, measurement_id, &payloads[i]);
        assert_eq!(samples, 20); // this is how many are in each payload
    }

    // Observe the state of the payloads for graphing or export
    match_payloads(
        &store,
        measurement_id,
        signal_channels,
        samples_per_payload,
        &payloads[0..(payloads.len() / 2)],
        0xFEEDBEEF,
        1,
        1,
    );

    // Continue adding a bunch of payloads
    for i in (payloads.len() / 2)..payloads.len() {
        let samples = store.add_signals(&mut errors, measurement_id, &payloads[i]);
        assert_eq!(samples, 20); // this is how many are in each payload
    }

    // Observe the state of the payloads for export or correctness
    match_payloads(
        &store,
        measurement_id,
        signal_channels,
        samples_per_payload,
        &payloads[0..],
        0xFEEDBEAF,
        1,
        1,
    );

    // Drop the measurement
    store.drop_measurement(measurement_id);
}

#[test]
fn use_measurement_like_real_worl_use_case_with_downsampling() {
    let mut store = Store::new();
    let mut errors = ErrorQueue::new();

    // Create a measurement
    let signal_channels = 6;
    let measurement_id = store.create_measurement(signal_channels);

    // Prepare a bunch of payloads
    let samples_per_payload = 20;
    let payloads = build_payloads();

    // Add a bunch of payloads
    for i in 0..(payloads.len() / 2) {
        let samples = store.add_signals(&mut errors, measurement_id, &payloads[i]);
        assert_eq!(samples, 20); // this is how many are in each payload
    }

    // Observe the state of the payloads for graphing or export
    match_payloads(
        &store,
        measurement_id,
        signal_channels,
        samples_per_payload,
        &payloads[0..(payloads.len() / 2)],
        0xDEADBEEF,
        1024 * 512,
        1024 * 1024,
    );

    // Continue adding a bunch of payloads
    for i in (payloads.len() / 2)..payloads.len() {
        let samples = store.add_signals(&mut errors, measurement_id, &payloads[i]);
        assert_eq!(samples, 20); // this is how many are in each payload
    }

    // Observe the state of the payloads for export or correctness
    match_payloads(
        &store,
        measurement_id,
        signal_channels,
        samples_per_payload,
        &payloads[0..],
        0xDEADBEEF,
        1024 * 512,
        1024 * 1024,
    );

    // Drop the measurement
    store.drop_measurement(measurement_id);
}

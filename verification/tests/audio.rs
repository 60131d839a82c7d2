use meeting_recorder::audio::{
    capture, peak, Source, Todo, CHANNELS, CHUNK_BYTES, HISTORY, RATE, RAW_WINDOW_BYTES,
    SECOND_BYTES,
};

fn chunk(samples: &[i16]) -> Vec<u8> {
    samples.iter().flat_map(|sample| sample.to_le_bytes()).collect()
}

#[test]
fn a_peak_is_the_loudest_sample() {
    assert_eq!(peak(&chunk(&[3, -7, 5])), 7);
    assert_eq!(peak(&chunk(&[i16::MIN, i16::MAX])), 32768);
    assert_eq!(peak(&chunk(&[i16::MAX])), 32767);
    assert_eq!(peak(&[]), 0);
    // A byte without its other half does not count.
    assert_eq!(peak(&[1, 0, 255]), 1);
}

#[test]
fn the_sizes_go_together() {
    assert_eq!(SECOND_BYTES, u64::from(RATE * 2 * CHANNELS));
    assert_eq!(CHUNK_BYTES as u64 * 50, SECOND_BYTES);
    assert_eq!(RAW_WINDOW_BYTES as u64, 6 * SECOND_BYTES);
}

#[test]
fn the_latest_peaks_are_kept() {
    let mut source = Source::new();
    assert_eq!(source.levels(), vec![0; HISTORY]);
    for loud in [100, 900, 200] {
        source.push(&chunk(&[loud]), 1);
    }
    let levels = source.levels();
    assert_eq!(levels.len(), HISTORY);
    assert_eq!(&levels[HISTORY - 3..], [100, 900, 200]);
    assert_eq!(source.recent_peak(0), 0);
    assert_eq!(source.recent_peak(1), 200);
    assert_eq!(source.recent_peak(2), 900);
    assert_eq!(source.recent_peak(usize::MAX), 900);
}

#[test]
fn the_latest_seconds_are_kept_even_while_paused() {
    let mut source = Source::new();
    source.start_recording();
    source.set_paused(true);
    for i in 0..301u64 {
        source.push(&[(i % 251) as u8; CHUNK_BYTES], i + 1);
    }
    assert!(source.recent_raw(0).is_empty());
    let second = source.recent_raw(1);
    assert_eq!(second.len() as u64, SECOND_BYTES);
    assert_eq!((second[0], second[second.len() - 1]), (0, 49));
    let all = source.recent_raw(u32::MAX);
    assert_eq!(all.len(), RAW_WINDOW_BYTES);
    assert_eq!((all[0], all[all.len() - 1]), (1, 49));
}

#[test]
fn only_a_running_recording_is_written() {
    let none = Todo { write: false, flush: false, sync: false };
    let write = Todo { write: true, ..none };
    let mut source = Source::new();
    assert_eq!(source.push(&[], 1500), none);
    source.set_paused(true);
    source.start_recording();
    assert_eq!(source.push(&[], 1), write);
    assert_eq!(source.push(&[], 50), Todo { flush: true, ..write });
    assert_eq!(source.push(&[], 1500), Todo { flush: true, sync: true, ..write });
    source.set_paused(true);
    assert_eq!(source.push(&[], 50), none);
    source.set_paused(false);
    assert_eq!(source.push(&[], 2), write);
    assert!(source.stop_recording());
    assert!(!source.stop_recording());
    assert_eq!(source.push(&[], 50), none);
}

#[test]
fn a_device_is_captured_raw() {
    assert_eq!(
        capture("@DEFAULT_MONITOR@").join(" "),
        "--raw --format=s16le --rate=48000 --channels=2 --latency-msec=20 -d @DEFAULT_MONITOR@"
    );
}

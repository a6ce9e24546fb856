use cologna_karaoke::audio::{audio_file_candidates, chunk_ranges, middle_window, packet_slice};

#[test]
fn excerpt_is_centred_on_the_track() {
    assert_eq!(middle_window(100, 30), (35, 65));
    assert_eq!(middle_window(101, 30), (35, 65));
    assert_eq!(middle_window(100, 31), (35, 66));
    // Shorter track: all of it.
    assert_eq!(middle_window(10, 30), (0, 10));
}

#[test]
fn packet_samples_inside_the_excerpt() {
    // Frames 5..15 of two channels, excerpt 10..20: frames 10..15 kept.
    assert_eq!(packet_slice((10, 20), 5, 15, 2), Some((10, 20)));
    // Packet entirely inside.
    assert_eq!(packet_slice((0, 100), 40, 50, 1), Some((0, 10)));
    // Packets before and after the excerpt.
    assert_eq!(packet_slice((10, 20), 0, 5, 1), None);
    assert_eq!(packet_slice((10, 20), 20, 30, 2), None);
}

#[test]
fn audio_files_looked_for_in_order() {
    assert_eq!(
        audio_file_candidates(true),
        vec!["instrumental.mp3", "instrumental.wav", "original.mp3", "original.m4a", "original.wav"]
    );
    assert_eq!(audio_file_candidates(false), vec!["original.mp3", "original.m4a", "original.wav"]);
}

const SAMPLE_RATE: usize = 16_000;

/// Chunk length and hop, in samples, for 30-second chunks overlapping by 3 s.
fn chunking() -> (usize, usize) {
    (30 * SAMPLE_RATE, 27 * SAMPLE_RATE)
}

#[test]
fn chunks_no_overlap_short() {
    let (chunk, hop) = chunking();
    let chunks = chunk_ranges(SAMPLE_RATE * 10, chunk, hop); // 10 s
    assert_eq!(chunks.len(), 1);
    assert_eq!(chunks[0].0 as f64 / SAMPLE_RATE as f64, 0.0);
}

#[test]
fn chunks_multiple() {
    let (chunk, hop) = chunking();
    let chunks = chunk_ranges(SAMPLE_RATE * 90, chunk, hop); // 90 s
    assert!(chunks.len() >= 3);
    // Offsets must be strictly increasing.
    for w in chunks.windows(2) {
        assert!(w[1].0 > w[0].0);
    }
}

#[test]
fn chunks_step_by_hop_and_end_at_the_buffer_end() {
    let chunks = chunk_ranges(25, 10, 7);
    assert_eq!(chunks, vec![(0, 10), (7, 17), (14, 24), (21, 25)]);
    // A start that passes the end stops the chunking.
    assert_eq!(chunk_ranges(25, 10, 30), vec![(0, 10)]);
    assert_eq!(chunk_ranges(0, 10, 7), vec![(0, 0)]);
}

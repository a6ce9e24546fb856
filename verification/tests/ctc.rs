use cologna_karaoke::ctc::{
    aggregate_word_span, backtrack_states, extended_targets, skip_allowed, states_to_token_spans, viterbi_band, TokenSpan,
};
use cologna_karaoke::target::lyrics_to_target_ids;
use cologna_karaoke::vocab::Vocab;
use cologna_karaoke::wav2vec2::AlignError;

fn max3(a: f32, b: f32, c: f32) -> (f32, u8) {
    if a >= b && a >= c {
        (a, 0)
    } else if b >= c {
        (b, 1)
    } else {
        (c, 2)
    }
}

/// CTC Viterbi over `log_probs` rows (float scores), the path and the spans
/// read back by the library.
fn forced_align(log_probs: &[Vec<f32>], targets: &[u32], blank_id: u32) -> Result<Vec<TokenSpan>, AlignError> {
    let t = log_probs.len();
    let n = targets.len();
    if n == 0 {
        return Ok(Vec::new());
    }
    if t == 0 {
        return Err(AlignError::Ctc("zero time frames in log_probs".into()));
    }
    if n > t {
        return Err(AlignError::Ctc(format!("target sequence too long ({} tokens, {} frames)", n, t)));
    }
    let ext = extended_targets(targets, blank_id);
    let m = ext.len();
    let neg_inf = f32::NEG_INFINITY;
    let mut alpha = vec![neg_inf; t * m];
    let mut back = vec![0u8; t * m];
    alpha[0] = log_probs[0][blank_id as usize];
    alpha[1] = log_probs[0][ext[1] as usize];
    for time in 1..t {
        let (lo, hi) = viterbi_band(m, t, time);
        for s in lo..hi {
            let emit = log_probs[time][ext[s] as usize];
            let stay = alpha[(time - 1) * m + s];
            let prev = if s >= 1 { alpha[(time - 1) * m + s - 1] } else { neg_inf };
            let skip = if skip_allowed(&ext, s, blank_id) {
                alpha[(time - 1) * m + s - 2]
            } else {
                neg_inf
            };
            let (best, choice) = max3(stay, prev, skip);
            if best == neg_inf {
                continue;
            }
            alpha[time * m + s] = best + emit;
            back[time * m + s] = choice;
        }
    }
    let last = if alpha[(t - 1) * m + m - 1] >= alpha[(t - 1) * m + m - 2] { m - 1 } else { m - 2 };
    if alpha[(t - 1) * m + last] == neg_inf {
        return Err(AlignError::Ctc("forced alignment failed: no valid terminal path".into()));
    }
    let states = backtrack_states(&back, t, m, last);
    Ok(states_to_token_spans(&states, n))
}

fn log_one_hot(target: u32, vocab: usize, sharpness: f32) -> Vec<f32> {
    (0..vocab).map(|i| if i as u32 == target { 0.0 } else { -sharpness }).collect()
}

#[test]
fn aligns_three_tokens_in_five_frames() {
    // Vocab: blank=0, a=1, b=2, c=3. Targets: a b c.
    let frames: Vec<u32> = vec![1, 0, 2, 0, 3];
    let log_probs: Vec<Vec<f32>> = frames.iter().map(|&f| log_one_hot(f, 4, 5.0)).collect();
    let spans = forced_align(&log_probs, &[1, 2, 3], 0).unwrap();
    assert_eq!(spans.len(), 3);
    assert_eq!(spans[0], TokenSpan { start: 0, end: 0 });
    assert_eq!(spans[1], TokenSpan { start: 2, end: 2 });
    assert_eq!(spans[2], TokenSpan { start: 4, end: 4 });
}

#[test]
fn aligns_with_repeated_tokens() {
    // Targets: a a (needs blank between them).
    let frames: Vec<u32> = vec![1, 1, 0, 1, 1];
    let log_probs: Vec<Vec<f32>> = frames.iter().map(|&f| log_one_hot(f, 3, 5.0)).collect();
    let spans = forced_align(&log_probs, &[1, 1], 0).unwrap();
    assert_eq!(spans.len(), 2);
    assert!(spans[0].end < spans[1].start);
}

#[test]
fn rejects_target_longer_than_frames() {
    let log_probs = vec![vec![0.0f32; 3]; 2];
    let err = forced_align(&log_probs, &[1, 2, 1], 0).unwrap_err();
    match err {
        AlignError::Ctc(_) => {}
        other => panic!("expected Ctc error, got {:?}", other),
    }
}

/// Word start/end (seconds) and mean emission probability of each word of
/// `lyrics`, aligned against `log_probs` whose first frame is at `offset`.
fn align_log_probs(log_probs: &[Vec<f32>], lyrics: &str, vocab: &Vocab, offset: f64) -> Vec<(String, f64, f64, f32)> {
    let target = lyrics_to_target_ids(lyrics, vocab);
    let spans = forced_align(log_probs, &target.ids, vocab.pad_id).unwrap();
    target
        .words
        .iter()
        .map(|w| {
            let span = aggregate_word_span(&spans, &w.token_range);
            let (mut acc, mut count) = (0.0f32, 0usize);
            for k in w.token_range.clone() {
                for f in spans[k].start..=spans[k].end {
                    acc += log_probs[f][target.ids[k] as usize].exp();
                    count += 1;
                }
            }
            let conf = if count == 0 { 0.0 } else { (acc / count as f32).clamp(0.0, 1.0) };
            (
                w.word.clone(),
                offset + span.start as f64 * 0.02,
                offset + (span.end + 1) as f64 * 0.02,
                conf,
            )
        })
        .collect()
}

/// Log-probs where each frame strongly predicts one id.
fn peaked(frames: &[u32], vocab: usize) -> Vec<Vec<f32>> {
    frames.iter().map(|&f| (0..vocab).map(|i| if i as u32 == f { -0.01 } else { -8.0 }).collect()).collect()
}

#[test]
fn aligns_words_with_time_offset_and_confidence() {
    let vocab = Vocab::from_bytes(br#"{"<pad>":0,"<s>":1,"</s>":2,"<unk>":3,"|":4,"a":5,"b":6}"#).unwrap();
    // "a" at frames 1-2, delimiter at 3, "b" at frames 5-6 (blank = pad = 0)
    let lp = peaked(&[0, 5, 5, 4, 0, 6, 6, 0], 7);
    let words = align_log_probs(&lp, "a b", &vocab, 10.0);
    assert_eq!(words.len(), 2);
    assert!((words[0].1 - 10.02).abs() < 1e-9, "{}", words[0].1);
    assert!((words[1].1 - 10.10).abs() < 1e-9, "{}", words[1].1);
    assert!(words[0].3 > 0.9);
}

#[test]
fn skips_only_into_a_new_target() {
    // blank a blank a blank b blank
    let ext = extended_targets(&[5, 5, 6], 0);
    assert!(!skip_allowed(&ext, 1, 0));
    assert!(!skip_allowed(&ext, 2, 0));
    assert!(!skip_allowed(&ext, 3, 0));
    assert!(skip_allowed(&ext, 5, 0));
    assert!(!skip_allowed(&ext, 9, 0));
}

#[test]
fn band_keeps_states_that_can_reach_both_ends() {
    assert_eq!(viterbi_band(7, 5, 1), (0, 4));
    assert_eq!(viterbi_band(7, 5, 4), (5, 7));
}

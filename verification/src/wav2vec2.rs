//! Shared definitions of the wav2vec2 CTC aligner.
use vstd::prelude::*;

verus! {

/// wav2vec2 receptive field stride at 16 kHz: 320 samples = 20 ms per frame.
pub const SAMPLES_PER_FRAME: usize = 320;
pub const TARGET_SAMPLE_RATE: u32 = 16_000;

#[derive(Debug)]
pub enum AlignError {
    Config(String),
    ModelLoad(String),
    Inference(String),
    Ctc(String),
    BadSampleRate { expected: u32, got: u32 },
}

} // verus!

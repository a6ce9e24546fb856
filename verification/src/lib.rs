//! Verified core of a karaoke lyrics pipeline: lyric parsing, text
//! normalisation for forced alignment, word timing and the settings model.

pub mod settings;
pub mod text;
pub mod http;
pub mod normalize;
pub mod sort;
pub mod lrc;
pub mod word_timing;
pub mod vad;
pub mod wav2vec2;
pub mod vocab;
pub mod target;
pub mod entries;
pub mod ctc;
pub mod dtw;
pub mod downloader;
pub mod jobs;
pub mod aligner;
pub mod whisper;
pub mod cloud;
pub mod pipeline;
pub mod metadata;
pub mod recognizer;
pub mod players;
pub mod leaderboard;
pub mod model;
pub mod pitch;
pub mod asr;
pub mod lyrics;
pub mod audio;
pub mod progress;

# cologna_karaoke

Core of a desktop karaoke app (Tauri): paste a YouTube URL and the song is
downloaded, recognised, given synced lyrics and album art, split into vocals
and instrumental, aligned word by word against its lyrics, and scored live
against the singer's pitch.

The logic of that pipeline is a library verified with Verus; the desktop
shell around it is ordinary Rust.

## Layout

- `src/` — the verified library. Every function is verified; the public
  ones state their results in `requires` / `ensures` contracts over
  mathematical models (`Seq`, `int`, views):
  - lyrics: LRC parsing (`lrc`), lyric lines and words.json entries
    (`word_timing`, `entries`), lrclib lookups (`lyrics`), language
    detection and the alignment step's decisions (`aligner`);
  - alignment: text normalisation (`normalize`, `target`, `vocab`), CTC path
    and span read-back (`ctc`), DTW spans (`dtw`), Whisper token bookkeeping
    (`whisper`), Parakeet word grouping (`asr`), sample and chunk bookkeeping
    (`audio`), voice regions (`vad`, `pipeline`);
  - the app: job queue and progress throttling (`jobs`), downloads
    (`downloader`), cloud sync (`cloud`), album metadata (`metadata`), song
    recognition signatures (`recognizer`), settings, leaderboard queries,
    live pitch scoring lookups (`pitch`).
  - Laws that relate several functions are public proof functions named
    `law_*`.
- `tests/` — executable tests of the library.
- `app/` — the Tauri shell: commands, file, process and network I/O, audio
  decoding, the neural models (ONNX wav2vec2, candle Whisper) and the other
  floating-point signal processing, which hand plain values to the library.

## Checking

The library is verified by running Verus on `src/lib.rs`; the tests run with
`cargo test`.

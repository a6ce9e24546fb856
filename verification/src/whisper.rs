//! Whisper cross-attention aligner: model choice, special tokens, the
//! decoder's teacher-forced sequence and the token-to-word bookkeeping.
use vstd::prelude::*;

use vstd::string::StringExecFns;

verus! {

#[derive(Debug, Clone, Copy, PartialEq, Eq, Structural)]
pub enum WhisperModel {
    Small,
    Medium,
    LargeV3Turbo,
}

#[derive(Debug, Clone)]
pub enum AlignError {
    ModelDownload(String),
    Tokenization(String),
    Inference(String),
    Dtw(String),
    BadSampleRate(u32),
}

/// Model config read from the checkpoint's config.json.
#[derive(Debug, Clone, Copy, PartialEq, Eq, Structural)]
pub struct WhisperJsonConfig {
    pub d_model: usize,
    pub encoder_attention_heads: usize,
    pub decoder_attention_heads: usize,
    pub encoder_ffn_dim: usize,
    pub decoder_ffn_dim: usize,
    pub encoder_layers: usize,
    pub decoder_layers: usize,
    pub vocab_size: usize,
    pub num_mel_bins: usize,
    pub max_source_positions: usize,
    pub max_target_positions: usize,
}

pub open spec fn model_repo_spec(model: WhisperModel) -> Seq<char> {
    match model {
        WhisperModel::Small => "openai/whisper-small"@,
        WhisperModel::Medium => "openai/whisper-medium"@,
        WhisperModel::LargeV3Turbo => "openai/whisper-large-v3-turbo"@,
    }
}

/// HuggingFace repo id of a model.
pub fn model_repo(model: &WhisperModel) -> (r: &'static str)
    ensures
        r@ == model_repo_spec(*model),
{
    match model {
        WhisperModel::Small => "openai/whisper-small",
        WhisperModel::Medium => "openai/whisper-medium",
        WhisperModel::LargeV3Turbo => "openai/whisper-large-v3-turbo",
    }
}

/// Mel bins the model expects: 128 for large-v3-turbo, 80 otherwise.
pub fn n_mels_for(model: &WhisperModel) -> (r: usize)
    ensures
        r == (if *model == WhisperModel::LargeV3Turbo {
            128usize
        } else {
            80usize
        }),
{
    match model {
        WhisperModel::LargeV3Turbo => 128,
        _ => 80,
    }
}

// ───────────── special tokens ─────────────

#[derive(Debug, Clone, Copy, PartialEq, Eq, Structural)]
pub struct SpecialTokens {
    pub sot: u32,
    pub eot: u32,
    pub no_timestamps: u32,
    pub lang_id: u32,
    pub transcribe: u32,
}

/// `<|xx|>`: the token naming a language.
pub open spec fn language_token_spec(language: Seq<char>) -> Seq<char> {
    "<|"@ + language + "|>"@
}

pub fn language_token(language: &str) -> (r: String)
    ensures
        r@ == language_token_spec(language@),
{
    String::from_str("<|").concat(language).concat("|>")
}

/// The special tokens looked up, in lookup order: start of transcript, end
/// of text, no timestamps, the language, transcribe.
pub open spec fn special_token_names(language: Seq<char>) -> Seq<Seq<char>> {
    seq![
        "<|startoftranscript|>"@,
        "<|endoftext|>"@,
        "<|notimestamps|>"@,
        language_token_spec(language),
        "<|transcribe|>"@,
    ]
}

pub fn special_token_names_for(language: &str) -> (r: Vec<String>)
    ensures
        r@.map_values(|s: String| s@) == special_token_names(language@),
{
    let v = vec![
        String::from_str("<|startoftranscript|>"),
        String::from_str("<|endoftext|>"),
        String::from_str("<|notimestamps|>"),
        language_token(language),
        String::from_str("<|transcribe|>"),
    ];
    assert(v@.map_values(|s: String| s@) =~= special_token_names(language@));
    v
}

/// The special tokens from the ids the tokenizer gave for
/// `special_token_names`: the first name without an id is reported as
/// `token not found: <name>`.
pub fn special_tokens_from_ids(names: &Vec<String>, ids: &Vec<Option<u32>>) -> (r: Result<
    SpecialTokens,
    AlignError,
>)
    requires
        names@.len() == 5,
        ids@.len() == 5,
    ensures
        (forall|k: int| 0 <= k < 5 ==> #[trigger] ids@[k] is Some) ==> r == Ok::<
            SpecialTokens,
            AlignError,
        >(
            SpecialTokens {
                sot: ids@[0]->0,
                eot: ids@[1]->0,
                no_timestamps: ids@[2]->0,
                lang_id: ids@[3]->0,
                transcribe: ids@[4]->0,
            },
        ),
        forall|k: int|
            0 <= k < 5 && #[trigger] ids@[k] is None && (forall|j: int| 0 <= j < k ==> ids@[j] is Some)
                ==> (r matches Err(AlignError::Tokenization(m)) && m@ == "token not found: "@
                + names@[k]@),
{
    let mut found: Vec<u32> = Vec::new();
    let mut k: usize = 0;
    while k < 5
        invariant
            k <= 5,
            names@.len() == 5,
            ids@.len() == 5,
            found@.len() == k,
            forall|j: int| 0 <= j < k ==> #[trigger] ids@[j] == Some(found@[j]),
        decreases 5 - k,
    {
        match ids[k] {
            Some(id) => found.push(id),
            None => {
                let msg = String::from_str("token not found: ").concat(names[k].as_str());
                return Err(AlignError::Tokenization(msg));
            },
        }
        k += 1;
    }
    Ok(
        SpecialTokens {
            sot: found[0],
            eot: found[1],
            no_timestamps: found[2],
            lang_id: found[3],
            transcribe: found[4],
        },
    )
}

/// The teacher-forced decoder input: start of transcript, language,
/// transcribe, no timestamps, the content tokens, end of text.
pub open spec fn decoder_sequence_spec(special: SpecialTokens, content: Seq<u32>) -> Seq<u32> {
    seq![special.sot, special.lang_id, special.transcribe, special.no_timestamps] + content + seq![
        special.eot,
    ]
}

/// Tokens before the content in a decoder sequence.
pub const PREFIX_LEN: usize = 4;

pub fn decoder_sequence(special: &SpecialTokens, content: &[u32]) -> (r: Vec<u32>)
    requires
        content@.len() + 5 <= usize::MAX,
    ensures
        r@ == decoder_sequence_spec(*special, content@),
{
    let mut seq: Vec<u32> = vec![special.sot, special.lang_id, special.transcribe, special.no_timestamps];
    let mut i: usize = 0;
    while i < content.len()
        invariant
            i <= content@.len(),
            seq@ == seq![special.sot, special.lang_id, special.transcribe, special.no_timestamps]
                + content@.take(i as int),
        decreases content@.len() - i,
    {
        seq.push(content[i]);
        assert(content@.take(i + 1) =~= content@.take(i as int).push(content@[i as int]));
        i += 1;
    }
    seq.push(special.eot);
    assert(content@.take(content@.len() as int) =~= content@);
    assert(seq@ =~= decoder_sequence_spec(*special, content@));
    seq
}

// ───────────── token → word bookkeeping ─────────────

/// The original word that normalized word `ni` came from: the last of the
/// first `k` ranges that contains it (0 when none does).
pub open spec fn norm_owner(norm_map: Seq<(usize, usize)>, ni: int, k: int) -> int
    decreases k,
{
    if k <= 0 {
        0
    } else if norm_map[k - 1].0 <= ni < norm_map[k - 1].1 {
        k - 1
    } else {
        norm_owner(norm_map, ni, k - 1)
    }
}

/// One entry per token of every normalized word, in order: the original
/// word the token belongs to.
pub open spec fn token_owners(norm_map: Seq<(usize, usize)>, counts: Seq<nat>) -> Seq<int>
    decreases counts.len(),
{
    if counts.len() == 0 {
        seq![]
    } else {
        let i = counts.len() - 1;
        token_owners(norm_map, counts.drop_last()) + Seq::new(
            counts[i],
            |_j: int| norm_owner(norm_map, i, norm_map.len() as int),
        )
    }
}

pub open spec fn ranges_within(norm_map: Seq<(usize, usize)>, n: int) -> bool {
    forall|k: int| 0 <= k < norm_map.len() ==> (#[trigger] norm_map[k]).0 >= norm_map[k].1 || norm_map[k].1 <= n
}

/// For every token of the tokenized normalized words, the index of the
/// original word it belongs to (contractions expand one original word into
/// several normalized words).
pub fn token_word_indices(norm_map: &[(usize, usize)], word_token_ids: &[Vec<u32>]) -> (r: Vec<usize>)
    requires
        ranges_within(norm_map@, word_token_ids@.len() as int),
    ensures
        r@.map_values(|x: usize| x as int) == token_owners(
            norm_map@,
            word_token_ids@.map_values(|v: Vec<u32>| v@.len()),
        ),
{
    let n = word_token_ids.len();
    let mut norm_to_orig: Vec<usize> = Vec::new();
    let mut i: usize = 0;
    while i < n
        invariant
            i <= n,
            norm_to_orig@.len() == i,
            forall|j: int| 0 <= j < i ==> #[trigger] norm_to_orig@[j] == 0,
        decreases n - i,
    {
        norm_to_orig.push(0);
        i += 1;
    }
    let mut orig_idx: usize = 0;
    while orig_idx < norm_map.len()
        invariant
            orig_idx <= norm_map@.len(),
            n == word_token_ids@.len(),
            norm_to_orig@.len() == n,
            ranges_within(norm_map@, n as int),
            forall|j: int|
                0 <= j < n ==> #[trigger] norm_to_orig@[j] == norm_owner(norm_map@, j, orig_idx as int),
        decreases norm_map@.len() - orig_idx,
    {
        let (s, e) = norm_map[orig_idx];
        assert(norm_map@[orig_idx as int] == (s, e));
        let ghost before = norm_to_orig@;
        let mut ni: usize = s;
        while ni < e
            invariant
                s <= ni,
                s < e ==> ni <= e,
                s >= e ==> ni == s,
                before.len() == n,
                s < e ==> e <= n,
                norm_to_orig@.len() == n,
                forall|j: int|
                    0 <= j < n ==> #[trigger] norm_to_orig@[j] == if s <= j < ni {
                        orig_idx as int
                    } else {
                        before[j] as int
                    },
            decreases e - ni,
        {
            norm_to_orig.set(ni, orig_idx);
            ni += 1;
        }
        assert forall|j: int| 0 <= j < n implies #[trigger] norm_to_orig@[j] == norm_owner(
            norm_map@,
            j,
            orig_idx + 1,
        ) by {
            assert(before[j] == norm_owner(norm_map@, j, orig_idx as int));
        }
        orig_idx += 1;
    }
    let ghost counts = word_token_ids@.map_values(|v: Vec<u32>| v@.len());
    let mut out: Vec<usize> = Vec::new();
    let mut w: usize = 0;
    while w < n
        invariant
            w <= n == word_token_ids@.len() == norm_to_orig@.len(),
            counts == word_token_ids@.map_values(|v: Vec<u32>| v@.len()),
            forall|j: int|
                0 <= j < n ==> #[trigger] norm_to_orig@[j] == norm_owner(
                    norm_map@,
                    j,
                    norm_map@.len() as int,
                ),
            out@.map_values(|x: usize| x as int) == token_owners(norm_map@, counts.take(w as int)),
        decreases n - w,
    {
        let owner = norm_to_orig[w];
        let m = word_token_ids[w].len();
        let ghost base = out@.map_values(|x: usize| x as int);
        let mut t: usize = 0;
        while t < m
            invariant
                t <= m,
                out@.len() == base.len() + t,
                forall|i: int| 0 <= i < base.len() ==> #[trigger] out@[i] as int == base[i],
                forall|i: int| base.len() <= i < out@.len() ==> #[trigger] out@[i] == owner,
            decreases m - t,
        {
            out.push(owner);
            t += 1;
        }
        assert(out@.map_values(|x: usize| x as int) =~= base + Seq::new(m as nat, |_j: int| owner as int));
        proof {
            assert(counts.take(w + 1).drop_last() =~= counts.take(w as int));
            assert(counts.take(w + 1).last() == m);
            assert(Seq::new(m as nat, |_j: int| owner as int) =~= Seq::new(
                counts.take(w + 1)[w as int],
                |_j: int| norm_owner(norm_map@, w as int, norm_map@.len() as int),
            ));
        }
        w += 1;
    }
    assert(counts.take(n as int) =~= counts);
    out
}

// ───────────── phrase windows ─────────────

/// Quiet 100 ms windows in a row that end a vocal segment (800 ms).
pub const GAP_WINDOWS: usize = 8;

/// A gap starts at window `i`: the window before it is loud and the
/// `GAP_WINDOWS` windows from `i` on are all quiet.
pub open spec fn gap_at(quiet: Seq<bool>, i: int) -> bool {
    &&& 1 <= i
    &&& i + GAP_WINDOWS <= quiet.len()
    &&& !quiet[i - 1]
    &&& forall|j: int| i <= j < i + GAP_WINDOWS ==> #[trigger] quiet[j]
}

/// Where the first vocal segment ends: the first window that starts a run of
/// at least `GAP_WINDOWS` quiet windows after a loud one (`quiet[i]`: window
/// `i` is below the loudness threshold). `None` when the voice never pauses
/// that long, or never starts.
pub fn first_vocal_gap(quiet: &[bool]) -> (r: Option<usize>)
    ensures
        match r {
            Some(i) => gap_at(quiet@, i as int) && forall|j: int| 0 <= j < i ==> !gap_at(quiet@, j),
            None => forall|j: int| !gap_at(quiet@, j),
        },
{
    let n = quiet.len();
    if n <= GAP_WINDOWS {
        return None;
    }
    let mut i: usize = 1;
    while i <= n - GAP_WINDOWS
        invariant
            1 <= i,
            n == quiet@.len(),
            n > GAP_WINDOWS,
            i <= n,
            forall|j: int| 0 <= j < i ==> !gap_at(quiet@, j),
        decreases n - i,
    {
        if !quiet[i - 1] {
            let mut k: usize = 0;
            while k < GAP_WINDOWS && quiet[i + k]
                invariant
                    k <= GAP_WINDOWS,
                    i + GAP_WINDOWS <= n == quiet@.len(),
                    forall|j: int| i <= j < i + k ==> #[trigger] quiet@[j],
                decreases GAP_WINDOWS - k,
            {
                k += 1;
            }
            if k == GAP_WINDOWS {
                return Some(i);
            }
            assert(!quiet@[i + k]);
        }
        i += 1;
    }
    assert forall|j: int| #![trigger gap_at(quiet@, j)] !gap_at(quiet@, j) by {
        if j >= i {
            assert(j + GAP_WINDOWS > n);
        }
    }
    None
}

} // verus!

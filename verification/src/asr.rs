//! Words of a speech recognizer's token stream: standalone punctuation is
//! attached to the word before it.
use vstd::prelude::*;

use crate::text::{char_is_alphanumeric, chars_of, is_alphanumeric, string_from_chars, trim, trim_chars};
use vstd::string::StringExecFns;

verus! {

/// Whether the Parakeet model files are installed, from which of them exist:
/// the vocabulary, and the encoder and the decoder-joint model each in its
/// FP32 or INT8 export.
pub fn model_files_complete(
    vocab: bool,
    encoder: bool,
    encoder_int8: bool,
    decoder_joint: bool,
    decoder_joint_int8: bool,
) -> (r: bool)
    ensures
        r == (vocab && (encoder || encoder_int8) && (decoder_joint || decoder_joint_int8)),
{
    vocab && (encoder || encoder_int8) && (decoder_joint || decoder_joint_int8)
}

pub open spec fn has_alphanumeric(t: Seq<char>) -> bool {
    exists|i: int| 0 <= i < t.len() && is_alphanumeric(#[trigger] t[i])
}

/// Words of the first `n` tokens, each with the index of the token it starts
/// at: tokens are trimmed, empty ones skipped, and one without a letter or
/// digit is appended to the previous word (dropped when there is none).
pub open spec fn token_words(texts: Seq<Seq<char>>, n: int) -> Seq<(Seq<char>, int)>
    decreases n,
{
    if n <= 0 {
        seq![]
    } else {
        let prev = token_words(texts, n - 1);
        let t = trim(texts[n - 1]);
        if t.len() == 0 {
            prev
        } else if !has_alphanumeric(t) {
            if prev.len() > 0 {
                prev.update(prev.len() - 1, (prev.last().0 + t, prev.last().1))
            } else {
                prev
            }
        } else {
            prev.push((t, n - 1))
        }
    }
}

pub open spec fn word_views(v: Seq<(String, usize)>) -> Seq<(Seq<char>, int)> {
    v.map_values(|w: (String, usize)| (w.0@, w.1 as int))
}

fn any_alphanumeric(t: &Vec<char>) -> (r: bool)
    ensures
        r == has_alphanumeric(t@),
{
    let mut i: usize = 0;
    while i < t.len()
        invariant
            i <= t@.len(),
            forall|j: int| 0 <= j < i ==> !is_alphanumeric(#[trigger] t@[j]),
        decreases t@.len() - i,
    {
        if char_is_alphanumeric(t[i]) {
            return true;
        }
        i += 1;
    }
    false
}

/// The words of a token stream (token texts in order), each with the index
/// of its first token.
pub fn tokens_to_words(texts: &Vec<String>) -> (r: Vec<(String, usize)>)
    ensures
        word_views(r@) == token_words(texts@.map_values(|s: String| s@), texts@.len() as int),
{
    let ghost tv = texts@.map_values(|s: String| s@);
    let mut out: Vec<(String, usize)> = Vec::new();
    let mut i: usize = 0;
    while i < texts.len()
        invariant
            i <= texts@.len() == tv.len(),
            tv == texts@.map_values(|s: String| s@),
            word_views(out@) == token_words(tv, i as int),
        decreases texts@.len() - i,
    {
        let t = trim_chars(&chars_of(texts[i].as_str()));
        assert(t@ == trim(tv[i as int]));
        if t.len() == 0 {
        } else if !any_alphanumeric(&t) {
            if out.len() > 0 {
                let last = out.len() - 1;
                let ghost before = out@;
                let (w, start) = out.remove(last);
                let joined = w.concat(string_from_chars(&t).as_str());
                out.push((joined, start));
                assert(word_views(out@) =~= word_views(before).update(
                    last as int,
                    (word_views(before).last().0 + t@, word_views(before).last().1),
                ));
            }
        } else {
            let ghost before = out@;
            out.push((string_from_chars(&t), i));
            assert(word_views(out@) =~= word_views(before).push((t@, i as int)));
        }
        i += 1;
    }
    out
}

} // verus!

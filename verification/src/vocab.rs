//! Char-level vocabulary of a wav2vec2 CTC head (`vocab.json`).
use vstd::prelude::*;

use std::collections::HashMap;

use crate::text::{chars_eq, chars_of, string_from_chars};
use crate::wav2vec2::AlignError;

verus! {

broadcast use vstd::std_specs::hash::group_hash_axioms;

/// Tokens of a `vocab.json` object (token, id), as `serde_json` reads it into
/// an ordered map; `None` when the bytes are not such an object.
pub uninterp spec fn vocab_json(bytes: Seq<u8>) -> Option<Seq<(Seq<char>, u32)>>;

pub open spec fn entry_views(v: Seq<(String, u32)>) -> Seq<(Seq<char>, u32)> {
    v.map_values(|e: (String, u32)| (e.0@, e.1))
}

pub open spec fn distinct_tokens(v: Seq<(Seq<char>, u32)>) -> bool {
    forall|i: int, j: int| 0 <= i < j < v.len() ==> (#[trigger] v[i]).0 != (#[trigger] v[j]).0
}

/// `serde_json::from_slice` into a `BTreeMap<String, u32>`, entries collected
/// in key order. Keys of a map are distinct. On failure the error's message.
#[verifier::external_body]
fn parse_vocab_json(bytes: &[u8]) -> (r: Result<Vec<(String, u32)>, String>)
    ensures
        r is Ok <==> vocab_json(bytes@) is Some,
        r matches Ok(v) ==> entry_views(v@) == vocab_json(bytes@)->0,
        r matches Ok(v) ==> distinct_tokens(entry_views(v@)),
{
    serde_json::from_slice::<std::collections::BTreeMap<String, u32>>(bytes)
        .map(|m| m.into_iter().collect())
        .map_err(|e| e.to_string())
}

/// Char-level vocabulary used by wav2vec2 CTC heads.
///
/// HF convention: `<pad>` doubles as the CTC blank id. Word boundaries are
/// emitted as `|`. Unknown chars map to `<unk>`.
#[derive(Debug, Clone)]
pub struct Vocab {
    /// Every token with its id; tokens are distinct.
    pub char_to_id: Vec<(String, u32)>,
    pub id_to_char: HashMap<u32, String>,
    pub pad_id: u32,
    pub unk_id: u32,
    pub delimiter_id: u32,
    pub vocab_size: u32,
}

/// Id of `token`, if the vocabulary has it.
pub open spec fn token_id(entries: Seq<(Seq<char>, u32)>, token: Seq<char>) -> Option<u32>
    decreases entries.len(),
{
    if entries.len() == 0 {
        None
    } else if entries.last().0 == token {
        Some(entries.last().1)
    } else {
        token_id(entries.drop_last(), token)
    }
}

/// Largest id, plus one (wrapping like an unchecked `u32` addition), 0 when empty.
pub open spec fn max_id(entries: Seq<(Seq<char>, u32)>) -> u32
    decreases entries.len(),
{
    if entries.len() == 0 {
        0
    } else {
        let m = max_id(entries.drop_last());
        if entries.last().1 > m {
            entries.last().1
        } else {
            m
        }
    }
}

pub open spec fn size_from_max(entries: Seq<(Seq<char>, u32)>) -> u32 {
    if entries.len() == 0 {
        0
    } else if max_id(entries) == u32::MAX {
        0
    } else {
        (max_id(entries) + 1) as u32
    }
}

impl Vocab {
    pub open spec fn entries(&self) -> Seq<(Seq<char>, u32)> {
        entry_views(self.char_to_id@)
    }

    /// A vocabulary as built from `vocab.json`: distinct tokens, the special
    /// ids taken from `<pad>`, `<unk>` and `|`, the reverse map inverse to it.
    pub open spec fn wf(&self) -> bool {
        &&& distinct_tokens(self.entries())
        &&& token_id(self.entries(), "<pad>"@) == Some(self.pad_id)
        &&& token_id(self.entries(), "<unk>"@) == Some(self.unk_id)
        &&& token_id(self.entries(), "|"@) == Some(self.delimiter_id)
        &&& self.vocab_size == size_from_max(self.entries())
        &&& forall|id: u32| #[trigger]
            self.id_to_char@.contains_key(id) <==> exists|k: int|
                0 <= k < self.entries().len() && self.entries()[k].1 == id
        &&& forall|id: u32| #[trigger]
            self.id_to_char@.contains_key(id) ==> token_id(self.entries(), self.id_to_char@[id]@)
                == Some(id)
    }

    /// Parse `vocab.json` bytes. Errors: not a JSON object of token ids, an
    /// empty object, or one of `<pad>`, `<unk>`, `|` missing.
    pub fn from_bytes(bytes: &[u8]) -> (r: Result<Self, AlignError>)
        ensures
            r is Ok <==> (vocab_json(bytes@) matches Some(e) && e.len() > 0 && token_id(e, "<pad>"@)
                is Some && token_id(e, "<unk>"@) is Some && token_id(e, "|"@) is Some),
            r matches Ok(v) ==> v.wf() && v.entries() == vocab_json(bytes@)->0,
            r matches Err(e) ==> e is Config,
    {
        let raw = match parse_vocab_json(bytes) {
            Ok(v) => v,
            Err(msg) => {
                let mut text = chars_of("parse vocab.json: ");
                let m = chars_of(msg.as_str());
                let mut k: usize = 0;
                while k < m.len()
                    decreases m.len() - k,
                {
                    text.push(m[k]);
                    k += 1;
                }
                return Err(AlignError::Config(string_from_chars(&text)));
            },
        };
        if raw.len() == 0 {
            return Err(AlignError::Config(String::from_str("vocab.json is empty")));
        }
        let ghost e = entry_views(raw@);
        let mut id_to_char: HashMap<u32, String> = HashMap::new();
        let mut max: u32 = 0;
        let mut i: usize = 0;
        while i < raw.len()
            invariant
                i <= raw@.len(),
                e == entry_views(raw@),
                distinct_tokens(e),
                max == max_id(e.take(i as int)),
                forall|id: u32| #[trigger]
                    id_to_char@.contains_key(id) <==> exists|k: int| 0 <= k < i && e[k].1 == id,
                forall|id: u32| #[trigger]
                    id_to_char@.contains_key(id) ==> exists|k: int|
                        0 <= k < i && e[k].1 == id && e[k].0 == id_to_char@[id]@,
            decreases raw@.len() - i,
        {
            let id = raw[i].1;
            let tok = raw[i].0.clone();
            proof {
                assert(e.take(i + 1).drop_last() =~= e.take(i as int));
                assert(e[i as int] == (raw@[i as int].0@, id));
            }
            if id > max {
                max = id;
            }
            id_to_char.insert(id, tok);
            proof {
                assert forall|id2: u32| #[trigger] id_to_char@.contains_key(id2) implies exists|k: int|
                    0 <= k < i + 1 && e[k].1 == id2 && e[k].0 == id_to_char@[id2]@ by {
                    if id2 == id {
                        assert(e[i as int].1 == id2);
                    }
                }
            }
            i += 1;
        }
        proof {
            assert(e.take(e.len() as int) =~= e);
            assert forall|id: u32| #[trigger] id_to_char@.contains_key(id) implies token_id(
                e,
                id_to_char@[id]@,
            ) == Some(id) by {
                let k = choose|k: int| 0 <= k < e.len() && e[k].1 == id && e[k].0 == id_to_char@[id]@;
                lemma_token_id_at(e, k);
            }
        }
        let pad = match lookup(&raw, "<pad>") {
            Some(id) => id,
            None => return Err(AlignError::Config(String::from_str("vocab.json missing <pad>"))),
        };
        let unk = match lookup(&raw, "<unk>") {
            Some(id) => id,
            None => return Err(AlignError::Config(String::from_str("vocab.json missing <unk>"))),
        };
        let delim = match lookup(&raw, "|") {
            Some(id) => id,
            None => return Err(
                AlignError::Config(String::from_str("vocab.json missing word delimiter '|'")),
            ),
        };
        let vocab_size = if max == u32::MAX {
            0
        } else {
            max + 1
        };
        Ok(Vocab {
            char_to_id: raw,
            id_to_char,
            pad_id: pad,
            unk_id: unk,
            delimiter_id: delim,
            vocab_size,
        })
    }

    /// Map a single character to an id, falling back to `<unk>`.
    pub fn id_for_char(&self, c: char) -> (r: u32)
        ensures
            r == (match token_id(self.entries(), seq![c]) {
                Some(id) => id,
                None => self.unk_id,
            }),
    {
        let mut i: usize = self.char_to_id.len();
        proof {
            assert(self.entries().take(self.entries().len() as int) =~= self.entries());
        }
        while i > 0
            invariant
                i <= self.char_to_id@.len(),
                token_id(self.entries(), seq![c]) == token_id(self.entries().take(i as int), seq![c]),
            decreases i,
        {
            let t = chars_of(self.char_to_id[i - 1].0.as_str());
            let one = vec![c];
            proof {
                let p = self.entries().take(i as int);
                assert(p.drop_last() =~= self.entries().take(i - 1));
                assert(p.last() == (self.char_to_id@[i - 1].0@, self.char_to_id@[i - 1].1));
                assert(one@ =~= seq![c]);
            }
            if chars_eq(&t, &one) {
                return self.char_to_id[i - 1].1;
            }
            i -= 1;
        }
        proof {
            assert(self.entries().take(0).len() == 0);
        }
        self.unk_id
    }
}

proof fn lemma_token_id_at(e: Seq<(Seq<char>, u32)>, k: int)
    requires
        distinct_tokens(e),
        0 <= k < e.len(),
    ensures
        token_id(e, e[k].0) == Some(e[k].1),
    decreases e.len(),
{
    if k < e.len() - 1 {
        assert(e[e.len() - 1].0 != e[k].0);
        let d = e.drop_last();
        assert(distinct_tokens(d)) by {
            assert forall|i: int, j: int| 0 <= i < j < d.len() implies (#[trigger] d[i]).0 != (#[trigger] d[j]).0 by {
                assert(d[i] == e[i] && d[j] == e[j]);
            }
        }
        assert(d[k] == e[k]);
        lemma_token_id_at(d, k);
    }
}

fn lookup(raw: &Vec<(String, u32)>, token: &str) -> (r: Option<u32>)
    ensures
        r == token_id(entry_views(raw@), token@),
{
    let want = chars_of(token);
    let ghost e = entry_views(raw@);
    let mut i: usize = raw.len();
    proof {
        assert(e.take(e.len() as int) =~= e);
    }
    while i > 0
        invariant
            i <= raw@.len(),
            e == entry_views(raw@),
            want@ == token@,
            token_id(e, token@) == token_id(e.take(i as int), token@),
        decreases i,
    {
        let t = chars_of(raw[i - 1].0.as_str());
        proof {
            let p = e.take(i as int);
            assert(p.drop_last() =~= e.take(i - 1));
            assert(p.last() == (raw@[i - 1].0@, raw@[i - 1].1));
        }
        if chars_eq(&t, &want) {
            return Some(raw[i - 1].1);
        }
        i -= 1;
    }
    proof {
        assert(e.take(0).len() == 0);
    }
    None
}

} // verus!

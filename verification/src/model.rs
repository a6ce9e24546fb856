//! Where the wav2vec2 weights and vocabulary come from.
use vstd::prelude::*;

use std::path::PathBuf;

verus! {

#[verifier::external_type_specification]
#[verifier::external_body]
pub struct ExPathBuf(PathBuf);

/// `PathBuf::clone`: a copy of the same path.
pub assume_specification[ <PathBuf as Clone>::clone ](p: &PathBuf) -> (r: PathBuf)
    ensures
        r == *p,
;

/// Where to look for the ONNX weights and `vocab.json`.
#[derive(Debug, Clone)]
pub enum ModelSource {
    /// Pre-staged directory containing `model.onnx` and `vocab.json`.
    LocalDir(PathBuf),
    /// HuggingFace Hub repo. Files downloaded into the user's HF cache and
    /// reused on subsequent runs.
    HfHub { repo: String, revision: Option<String> },
}

/// On-disk paths of the weights and the vocabulary once resolved.
#[derive(Debug, Clone)]
pub struct ResolvedModelPaths {
    pub onnx: PathBuf,
    pub vocab: PathBuf,
}

} // verus!

//! Hashing of a batch of discovered files.
//!
//! Each file is handed over as its path together with its full byte
//! content, or `None` where reading it failed; unreadable files are
//! dropped from the result and never abort the batch.

use vstd::prelude::*;

use crate::hashing::{compute_hash, spec_digest, HashAlgorithm};

verus! {

/// A discovered file handed to the processor: its path, and its full byte
/// content or `None` where the file could not be read.
pub struct FileInput {
    pub path: String,
    pub content: Option<Vec<u8>>,
}

/// A successfully hashed file: its path and its digest string.
pub struct HashResult {
    pub path: String,
    pub digest: String,
}

/// The (path, digest) pairs of a batch of hash results.
pub open spec fn results_view(rs: Seq<HashResult>) -> Seq<(Seq<char>, Seq<char>)> {
    rs.map_values(|r: HashResult| (r.path@, r.digest@))
}

/// The pair that one input contributes: its path with the digest of its
/// content, or nothing where the content could not be read.
pub open spec fn hashed_one(f: FileInput, algo: HashAlgorithm) -> Seq<(Seq<char>, Seq<char>)> {
    match f.content {
        Some(c) => seq![(f.path@, spec_digest(algo, c@))],
        None => Seq::empty(),
    }
}

/// The (path, digest) pairs that processing a batch yields: one per
/// readable file, in input order.
pub open spec fn spec_process(inputs: Seq<FileInput>, algo: HashAlgorithm) -> Seq<
    (Seq<char>, Seq<char>),
>
    decreases inputs.len(),
{
    if inputs.len() == 0 {
        Seq::empty()
    } else {
        spec_process(inputs.drop_last(), algo) + hashed_one(inputs.last(), algo)
    }
}

/// Law: every pair that processing yields comes from an input whose
/// content could be read, keeps that input's path, and carries the digest
/// of that input's content — a file that failed to read contributes
/// nothing.
pub proof fn lemma_processed_pairs_from_inputs(inputs: Seq<FileInput>, algo: HashAlgorithm, i: int)
    requires
        0 <= i < spec_process(inputs, algo).len(),
    ensures
        exists|k: int|
            {
                &&& 0 <= k < inputs.len()
                &&& (#[trigger] inputs[k]).content matches Some(c)
                &&& spec_process(inputs, algo)[i] == (inputs[k].path@, spec_digest(algo, c@))
            },
    decreases inputs.len(),
{
    if inputs.len() > 0 {
        let pre = spec_process(inputs.drop_last(), algo);
        if i < pre.len() {
            lemma_processed_pairs_from_inputs(inputs.drop_last(), algo, i);
            let k = choose|k: int|
                {
                    &&& 0 <= k < inputs.drop_last().len()
                    &&& (#[trigger] inputs.drop_last()[k]).content matches Some(c)
                    &&& pre[i] == (inputs.drop_last()[k].path@, spec_digest(algo, c@))
                };
            assert(inputs[k] == inputs.drop_last()[k]);
        } else {
            assert(inputs[inputs.len() - 1] == inputs.last());
        }
    }
}

/// Hashes every readable file of the batch under the chosen algorithm and
/// collects the (path, digest) pairs in input order. A file whose content
/// could not be read yields no pair and never aborts the batch; an empty
/// batch yields an empty result.
pub fn process_files_parallel(files: Vec<FileInput>, algo: HashAlgorithm) -> (r: Vec<HashResult>)
    ensures
        results_view(r@) == spec_process(files@, algo),
        files@.len() == 0 ==> r@.len() == 0,
        r@.len() <= files@.len(),
{
    let mut r: Vec<HashResult> = Vec::new();
    let mut i: usize = 0;
    while i < files.len()
        invariant
            i <= files@.len(),
            r@.len() <= i,
            results_view(r@) == spec_process(files@.subrange(0, i as int), algo),
        decreases files@.len() - i,
    {
        match &files[i].content {
            Some(c) => {
                let digest = compute_hash(c.as_slice(), algo);
                let path = files[i].path.clone();
                r.push(HashResult { path, digest });
            },
            None => {},
        }
        proof {
            assert(files@.subrange(0, i as int + 1).drop_last() =~= files@.subrange(0, i as int));
            assert(files@.subrange(0, i as int + 1).last() == files@[i as int]);
            assert(results_view(r@) =~= spec_process(files@.subrange(0, i as int + 1), algo));
        }
        i = i + 1;
    }
    proof {
        assert(files@.subrange(0, files@.len() as int) =~= files@);
    }
    r
}

} // verus!

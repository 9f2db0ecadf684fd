//! A tree put to its own test: the audit path of a file is generated and
//! replayed against the root that gave it.

use crate::digest::sha256;
use crate::file_map::{content_of, has_name, FileMap};
use crate::merkle_tree::{root_of, MerkleTree};
use crate::theorems::lemma_generated_proof_is_accepted;
use crate::utils::{accepts, verify_merkle_proof};
use vstd::prelude::*;

verus! {

/// Generates the audit path of the file `file_name` of `files` in `tree` and
/// says whether it is accepted against the root of `tree` and the content of
/// the file; `None` where the tree gives no path for that name.
///
/// For the tree of `files` itself, with two files or more and no early match
/// on the way to the file, the path is accepted.
pub fn audit_file(tree: &MerkleTree, file_name: &str, files: &FileMap) -> (outcome: Option<bool>)
    ensures
        outcome is Some <==> has_name(files@, file_name@) && tree.root@.audit_path(
            sha256(content_of(files@, file_name@)),
        ).len() > 0,
        outcome matches Some(valid) ==> valid == accepts(
            tree.root@.audit_path(sha256(content_of(files@, file_name@))),
            tree.root@.hash,
            content_of(files@, file_name@),
        ),
        tree.root@ == root_of(files@) && tree.root@.consistent() && files@.len() >= 2 && has_name(
            files@,
            file_name@,
        ) && !tree.root@.matches_early(sha256(content_of(files@, file_name@))) ==> outcome == Some(
            true,
        ),
{
    let count = files.len();
    proof {
        if tree.root@ == root_of(files@) && tree.root@.consistent() && count >= 2 && has_name(
            files@,
            file_name@,
        ) && !tree.root@.matches_early(sha256(content_of(files@, file_name@))) {
            lemma_generated_proof_is_accepted(files@, file_name@);
        }
    }
    match tree.generate_merkle_proof(file_name, files) {
        Some(proof_list) => match files.get(file_name) {
            Some(content) => Some(
                verify_merkle_proof(proof_list, tree.get_root_hash(), content.clone()),
            ),
            None => None,
        },
        None => None,
    }
}

} // verus!

//! Replaying a context-action trace through the engine: one pure decision
//! step per action, so a driver only performs I/O and loops.

use vstd::prelude::*;

use crate::database::spec_apply_batch;
use crate::hash::{spec_commit_hash, spec_dir_hash, EntryHash};
use crate::merkle_storage::{
    commit_writes, spec_checkout, CheckoutOutcome, ContextKey, ContextValue, MerkleError,
    MerkleStorage,
};
use crate::tree::{path_view, spec_apply, spec_find, ChildV};

verus! {

/// One replayed context action, holding exactly what the engine
/// interprets.  Observation-only events of the trace (reads, membership
/// probes, folds, shutdowns) all replay as `Observe`.
pub enum Action {
    Put { key: ContextKey, value: ContextValue },
    Copy { from_key: ContextKey, to_key: ContextKey },
    Delete { key: ContextKey },
    RemoveRecursively { key: ContextKey },
    Checkout { context_hash: EntryHash },
    Commit { time: u64, author: String, message: String, expected: Vec<u8> },
    Observe,
}

/// Whether a block at this level ends a cycle, so that garbage collection
/// runs after it.
pub fn should_gc(block_level: u32, cycle: u32) -> (r: bool)
    requires
        cycle > 0,
    ensures
        r == (block_level != 0 && block_level % cycle == 0),
{
    block_level != 0 && block_level % cycle == 0
}

/// Replay one action.  Edits that the engine rejects (an empty key) are
/// skipped, as the replay driver skips them; a commit's hash is checked
/// against the trace's expected hash, and `Ok(false)` reports the
/// mismatch that aborts validation.
pub fn apply_action(storage: &mut MerkleStorage, a: &Action) -> (r: Result<bool, MerkleError>)
    requires
        old(storage).inv(),
    ensures
        final(storage).inv(),
        r is Ok,
        match a {
            Action::Put { key, value } => {
                &&& final(storage).store_view() == old(storage).store_view()
                &&& final(storage).last_commit_view() == old(storage).last_commit_view()
                &&& (key@.len() == 0 ==> final(storage).stage_view() == old(storage).stage_view())
                &&& (key@.len() > 0 ==> ChildV::Dir(final(storage).stage_view()) == spec_apply(
                    old(storage).stage_view(),
                    path_view(key@),
                    Some(ChildV::Blob(value@)),
                ))
                &&& r == Ok::<bool, MerkleError>(true)
            },
            Action::Copy { from_key, to_key } => {
                &&& final(storage).store_view() == old(storage).store_view()
                &&& final(storage).last_commit_view() == old(storage).last_commit_view()
                &&& ChildV::Dir(final(storage).stage_view()) == spec_apply(
                    old(storage).stage_view(),
                    path_view(to_key@),
                    Some(
                        ChildV::Dir(spec_find(old(storage).stage_view(), path_view(from_key@))),
                    ),
                )
                &&& r == Ok::<bool, MerkleError>(true)
            },
            Action::Delete { key } => {
                &&& final(storage).store_view() == old(storage).store_view()
                &&& final(storage).last_commit_view() == old(storage).last_commit_view()
                &&& (key@.len() == 0 ==> final(storage).stage_view() == old(storage).stage_view())
                &&& (key@.len() > 0 ==> ChildV::Dir(final(storage).stage_view()) == spec_apply(
                    old(storage).stage_view(),
                    path_view(key@),
                    None,
                ))
                &&& r == Ok::<bool, MerkleError>(true)
            },
            Action::RemoveRecursively { key } => {
                &&& final(storage).store_view() == old(storage).store_view()
                &&& final(storage).last_commit_view() == old(storage).last_commit_view()
                &&& (key@.len() == 0 ==> final(storage).stage_view() == old(storage).stage_view())
                &&& (key@.len() > 0 ==> ChildV::Dir(final(storage).stage_view()) == spec_apply(
                    old(storage).stage_view(),
                    path_view(key@),
                    None,
                ))
                &&& r == Ok::<bool, MerkleError>(true)
            },
            Action::Checkout { context_hash } => {
                &&& final(storage).store_view() == old(storage).store_view()
                &&& (match spec_checkout(old(storage).store_view(), context_hash@) {
                    CheckoutOutcome::Done(s) => final(storage).stage_view() == s && final(storage).last_commit_view() == Some(context_hash@),
                    _ => final(storage).stage_view() == old(storage).stage_view() && final(storage).last_commit_view() == old(storage).last_commit_view(),
                })
                &&& r == Ok::<bool, MerkleError>(true)
            },
            Action::Commit { time, author, message, expected } => {
                let ch = spec_commit_hash(
                    spec_dir_hash(old(storage).stage_view()),
                    old(storage).last_commit_view(),
                    *time,
                    author@,
                    message@,
                );
                &&& final(storage).stage_view() == old(storage).stage_view()
                &&& final(storage).last_commit_view() == Some(ch)
                &&& final(storage).store_view() == spec_apply_batch(
                    old(storage).store_view(),
                    commit_writes(
                        old(storage).stage_view(),
                        ch,
                        crate::entry::CommitV {
                            parent: old(storage).last_commit_view(),
                            root: spec_dir_hash(old(storage).stage_view()),
                            time: *time,
                            author: author@,
                            message: message@,
                        },
                    ),
                )
                &&& r == Ok::<bool, MerkleError>(expected@ == ch)
            },
            Action::Observe => {
                &&& *final(storage) == *old(storage)
                &&& r == Ok::<bool, MerkleError>(true)
            },
        },
{
    match a {
        Action::Put { key, value } => {
            let _skipped = storage.set(key, value);
            Ok(true)
        },
        Action::Copy { from_key, to_key } => {
            let _skipped = storage.copy(from_key, to_key);
            Ok(true)
        },
        Action::Delete { key } => {
            let _skipped = storage.delete(key);
            Ok(true)
        },
        Action::RemoveRecursively { key } => {
            let _skipped = storage.delete(key);
            Ok(true)
        },
        Action::Checkout { context_hash } => {
            let _skipped = storage.checkout(context_hash);
            Ok(true)
        },
        Action::Commit { time, author, message, expected } => {
            let h = match storage.commit(*time, author.clone(), message.clone()) {
                Ok(h) => h,
                Err(e) => {
                    return Err(e);
                },
            };
            let matches_expected = expected.len() == 32 && crate::order::bytes_cmp(
                expected.as_slice(),
                h.as_slice(),
            ) == 0;
            proof {
                if expected@ == h@ {
                    assert(expected@.len() == 32);
                }
            }
            Ok(matches_expected)
        },
        Action::Observe => Ok(true),
    }
}

} // verus!

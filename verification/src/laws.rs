//! Laws of the engine, stated and proved over the specifications that the
//! public operations' contracts use.

use vstd::prelude::*;
use crate::Rustcask;
use crate::datafile::files_view;
use crate::keydir::{entry_valid, live_map, lookup, replay_files, lemma_replay_files_valid};

verus! {

/// Every keydir entry of a consistent store points at its own live record:
/// seeking the data file of the entry's generation to the entry's offset
/// and decoding yields a record whose key equals the map key and whose
/// value is present.
pub proof fn lemma_keydir_entries_decode(s: Rustcask)
    requires
        s.inv(),
    ensures
        forall|k: Seq<u8>| #[trigger] s.writer.keydir@.contains_key(k) ==> entry_valid(
            s.writer.files_v(),
            k,
            s.writer.keydir@[k],
        ),
{
    lemma_replay_files_valid(s.writer.files_v());
}

/// Closing a consistent store and re-opening on its data files rebuilds the
/// same state: replaying the data files — which is what `open` does — yields
/// exactly the in-memory keydir, and with it the same observable key-value
/// mapping.
pub proof fn lemma_reopen_rebuilds_state(s: Rustcask)
    requires
        s.inv(),
    ensures
        replay_files(files_view(s.writer.data_files@)) == s.writer.keydir@,
        live_map(
            files_view(s.writer.data_files@),
            replay_files(files_view(s.writer.data_files@)),
        ) == s.model(),
{
}

/// Rotation preserves all live values: starting a fresh, empty data file
/// of an unused generation changes neither the keydir that replaying the
/// files produces nor the value any keydir entry points at, so every
/// lookup observes the same value before and after.
pub proof fn lemma_rotation_preserves_state(
    files: Seq<crate::datafile::FileV>,
    kd: Map<Seq<u8>, crate::keydir::KeyDirEntry>,
    generation: u64,
)
    requires
        crate::keydir::distinct_gens(files),
        forall|i: int| 0 <= i < files.len() ==> (#[trigger] files[i]).generation != generation,
        crate::keydir::all_entries_valid(files, kd),
    ensures
        ({
            let rotated = files.push(
                crate::datafile::FileV { generation, bytes: Seq::<u8>::empty() },
            );
            &&& replay_files(rotated) == replay_files(files)
            &&& live_map(rotated, kd) == live_map(files, kd)
        }),
{
    let f = crate::datafile::FileV { generation, bytes: Seq::<u8>::empty() };
    crate::keydir::lemma_replay_files_from_push(Map::empty(), files, f, 0);
    crate::keydir::lemma_valid_entries_push(files, f, kd);
    assert(live_map(files.push(f), kd) =~= live_map(files, kd));
}

/// Merge is idempotent over the observable state: each call of `merge`
/// leaves the key-value mapping unchanged (its contract), so two calls in a
/// row leave it equal to the original.
pub proof fn lemma_merge_idempotent(
    m0: Map<Seq<u8>, Seq<u8>>,
    m1: Map<Seq<u8>, Seq<u8>>,
    m2: Map<Seq<u8>, Seq<u8>>,
)
    requires
        m1 == m0,
        m2 == m1,
    ensures
        m2 == m0,
{
}

/// After `set(k, v)` a lookup of `k` observes `v`, and after a following
/// `remove(k)` a lookup of `k` observes nothing — over the mapping updates
/// that the contracts of `set`, `get` and `remove` state.
pub proof fn lemma_set_get_remove(m: Map<Seq<u8>, Seq<u8>>, k: Seq<u8>, v: Seq<u8>)
    ensures
        lookup(m.insert(k, v), k) == Some(v),
        lookup(m.insert(k, v).remove(k), k) == Option::<Seq<u8>>::None,
{
}

/// `remove` returns the value that the immediately preceding `get` would
/// have returned: the contracts of both give `lookup` of the same state at
/// the same key.
pub proof fn lemma_remove_returns_preceding_get(
    m: Map<Seq<u8>, Seq<u8>>,
    k: Seq<u8>,
    got: Option<Seq<u8>>,
    removed: Option<Seq<u8>>,
)
    requires
        got == lookup(m, k),
        removed == lookup(m, k),
    ensures
        got == removed,
{
}

} // verus!

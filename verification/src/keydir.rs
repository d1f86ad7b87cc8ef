//! The keydir: the in-memory index from each live key to the extent of
//! its most recent record, and the replay semantics that rebuild it from
//! the data files.

use vstd::prelude::*;
use crate::logfile::{spec_decode, spec_encode, rec_of, SpecParse, SpecRecord, DecodeResult,
    decode_record, lemma_decode_bounds, lemma_decode_encode, lemma_decode_prefix, LogIndex};
use crate::datafile::{DataFile, FileV, files_view, parses_from, validate_data_file};
use crate::error::{OpenError, OpenErrorKind};

verus! {

/// Where the live record of a key lies: the generation of the data file that
/// holds it and the byte extent of the record within that file.
#[derive(Clone, Copy, Debug, PartialEq, Eq, Structural)]
pub struct KeyDirEntry {
    pub data_file_gen: u64,
    pub index: LogIndex,
}

// ---------------------------------------------------------------------------
// Replaying the log: the keydir that scanning the data files produces.
// ---------------------------------------------------------------------------

/// Apply one record decoded at byte `pos` of the file of generation `gen`:
/// a record with a value points the key at the record, a tombstone removes
/// the key.
pub open spec fn apply_record(
    m: Map<Seq<u8>, KeyDirEntry>,
    gen: u64,
    pos: int,
    r: SpecRecord,
) -> Map<Seq<u8>, KeyDirEntry> {
    match r.value {
        Some(_) => m.insert(
            r.key,
            KeyDirEntry {
                data_file_gen: gen,
                index: LogIndex { offset: pos as u64, len: r.len as u64 },
            },
        ),
        None => m.remove(r.key),
    }
}

/// Apply, in order, every record of the file bytes `s` from position `pos`
/// on, starting from the keydir `m`.
pub open spec fn replay_bytes(
    m: Map<Seq<u8>, KeyDirEntry>,
    gen: u64,
    s: Seq<u8>,
    pos: int,
) -> Map<Seq<u8>, KeyDirEntry>
    decreases s.len() - pos,
    when 0 <= pos
{
    if pos >= s.len() {
        m
    } else {
        match spec_decode(s, pos) {
            SpecParse::Rec(r) => {
                if 9 <= r.len && pos + r.len <= s.len() {
                    replay_bytes(apply_record(m, gen, pos, r), gen, s, pos + r.len)
                } else {
                    m
                }
            },
            _ => m,
        }
    }
}

/// Replay the files with index `i` and beyond, in order, starting from `m`.
pub open spec fn replay_files_from(
    m: Map<Seq<u8>, KeyDirEntry>,
    files: Seq<FileV>,
    i: int,
) -> Map<Seq<u8>, KeyDirEntry>
    decreases files.len() - i,
    when 0 <= i
{
    if i >= files.len() {
        m
    } else {
        replay_files_from(replay_bytes(m, files[i].generation, files[i].bytes, 0), files, i + 1)
    }
}

/// The keydir that replaying all data files, in generation order, produces.
pub open spec fn replay_files(files: Seq<FileV>) -> Map<Seq<u8>, KeyDirEntry> {
    replay_files_from(Map::empty(), files, 0)
}

// ---------------------------------------------------------------------------
// Validity of keydir entries against the data files, and the live values.
// ---------------------------------------------------------------------------

/// The extent of `e` lies within `bytes` and decodes to a record whose key is
/// `k` and whose value is present.
pub open spec fn valid_in_file(bytes: Seq<u8>, k: Seq<u8>, e: KeyDirEntry) -> bool {
    &&& e.index.offset + e.index.len <= bytes.len()
    &&& spec_decode(bytes, e.index.offset as int) is Rec
    &&& rec_of(spec_decode(bytes, e.index.offset as int)).key == k
    &&& rec_of(spec_decode(bytes, e.index.offset as int)).value is Some
    &&& rec_of(spec_decode(bytes, e.index.offset as int)).len == e.index.len as int
}

/// Some data file has the generation that `e` names, and the extent of `e`
/// within it decodes to a present record for `k`.
pub open spec fn entry_valid(files: Seq<FileV>, k: Seq<u8>, e: KeyDirEntry) -> bool {
    exists|i: int|
        #![trigger files[i]]
        0 <= i < files.len() && files[i].generation == e.data_file_gen && valid_in_file(
            files[i].bytes,
            k,
            e,
        )
}

/// Every entry of the keydir `m` is valid against the data files.
pub open spec fn all_entries_valid(files: Seq<FileV>, m: Map<Seq<u8>, KeyDirEntry>) -> bool {
    forall|k: Seq<u8>| #[trigger] m.contains_key(k) ==> entry_valid(files, k, m[k])
}

/// The value of the record that `e` points at.
pub open spec fn entry_value(files: Seq<FileV>, k: Seq<u8>, e: KeyDirEntry) -> Seq<u8> {
    let i = choose|i: int|
        #![trigger files[i]]
        0 <= i < files.len() && files[i].generation == e.data_file_gen && valid_in_file(
            files[i].bytes,
            k,
            e,
        );
    match rec_of(spec_decode(files[i].bytes, e.index.offset as int)).value {
        Some(v) => v,
        None => Seq::empty(),
    }
}

/// The observable key-value state: each key of the keydir mapped to the value
/// of the record its entry points at.
pub open spec fn live_map(
    files: Seq<FileV>,
    m: Map<Seq<u8>, KeyDirEntry>,
) -> Map<Seq<u8>, Seq<u8>> {
    Map::new(|k: Seq<u8>| m.contains_key(k), |k: Seq<u8>| entry_value(files, k, m[k]))
}

/// What a lookup of `k` observes in the key-value state `m`.
pub open spec fn lookup(m: Map<Seq<u8>, Seq<u8>>, k: Seq<u8>) -> Option<Seq<u8>> {
    if m.contains_key(k) {
        Some(m[k])
    } else {
        None
    }
}

/// The generations of the data files are pairwise distinct.
pub open spec fn distinct_gens(files: Seq<FileV>) -> bool {
    forall|i: int, j: int|
        0 <= i < j < files.len() ==> #[trigger] files[i].generation != #[trigger] files[j].generation
}

/// Every file is short enough for byte offsets into it to fit in 64 bits.
pub open spec fn files_fit(files: Seq<FileV>) -> bool {
    forall|i: int| 0 <= i < files.len() ==> #[trigger] files[i].bytes.len()
        < 0x1_0000_0000_0000_0000
}

/// Replaying a file keeps every keydir entry valid.
pub proof fn lemma_replay_bytes_valid(
    m: Map<Seq<u8>, KeyDirEntry>,
    files: Seq<FileV>,
    fi: int,
    pos: int,
)
    requires
        0 <= fi < files.len(),
        0 <= pos <= files[fi].bytes.len(),
        files[fi].bytes.len() < 0x1_0000_0000_0000_0000,
        all_entries_valid(files, m),
    ensures
        all_entries_valid(files, replay_bytes(m, files[fi].generation, files[fi].bytes, pos)),
    decreases files[fi].bytes.len() - pos,
{
    let s = files[fi].bytes;
    let gen = files[fi].generation;
    if pos >= s.len() {
    } else {
        match spec_decode(s, pos) {
            SpecParse::Rec(r) => {
                lemma_decode_bounds(s, pos);
                if 9 <= r.len && pos + r.len <= s.len() {
                    let m2 = apply_record(m, gen, pos, r);
                    assert(all_entries_valid(files, m2)) by {
                        match r.value {
                            Some(_) => {
                                let e = KeyDirEntry {
                                    data_file_gen: gen,
                                    index: LogIndex { offset: pos as u64, len: r.len as u64 },
                                };
                                assert(valid_in_file(s, r.key, e));
                                assert(entry_valid(files, r.key, e));
                                assert forall|k: Seq<u8>| #[trigger] m2.contains_key(k) implies
                                    entry_valid(files, k, m2[k]) by {
                                    if k != r.key {
                                        assert(m.contains_key(k));
                                    }
                                }
                            },
                            None => {
                                assert forall|k: Seq<u8>| #[trigger] m2.contains_key(k) implies
                                    entry_valid(files, k, m2[k]) by {
                                    assert(m.contains_key(k));
                                }
                            },
                        }
                    }
                    lemma_replay_bytes_valid(m2, files, fi, pos + r.len);
                }
            },
            _ => {},
        }
    }
}

/// Replaying the files from index `i` on keeps every keydir entry valid.
pub proof fn lemma_replay_files_from_valid(
    m: Map<Seq<u8>, KeyDirEntry>,
    files: Seq<FileV>,
    i: int,
)
    requires
        0 <= i,
        files_fit(files),
        all_entries_valid(files, m),
    ensures
        all_entries_valid(files, replay_files_from(m, files, i)),
    decreases files.len() - i,
{
    if i >= files.len() {
    } else {
        lemma_replay_bytes_valid(m, files, i, 0);
        lemma_replay_files_from_valid(
            replay_bytes(m, files[i].generation, files[i].bytes, 0),
            files,
            i + 1,
        );
    }
}

/// Every entry of the keydir that replaying the data files produces is valid:
/// its extent decodes to a present record for its key.
pub proof fn lemma_replay_files_valid(files: Seq<FileV>)
    requires
        files_fit(files),
    ensures
        all_entries_valid(files, replay_files(files)),
{
    lemma_replay_files_from_valid(Map::empty(), files, 0);
}

// ---------------------------------------------------------------------------
// The keydir as an association list with pairwise distinct keys.
// ---------------------------------------------------------------------------

/// The map that an association list denotes; later pairs win.
pub open spec fn kd_map_of(s: Seq<(Vec<u8>, KeyDirEntry)>) -> Map<Seq<u8>, KeyDirEntry>
    decreases s.len(),
{
    if s.len() == 0 {
        Map::empty()
    } else {
        kd_map_of(s.drop_last()).insert(s.last().0@, s.last().1)
    }
}

/// The keys of the pairs are pairwise distinct.
pub open spec fn distinct_keys(s: Seq<(Vec<u8>, KeyDirEntry)>) -> bool {
    forall|i: int, j: int| 0 <= i < j < s.len() ==> (#[trigger] s[i]).0@ != (#[trigger] s[j]).0@
}

/// A key is in the map exactly when some pair carries it.
pub proof fn lemma_kd_map_contains(s: Seq<(Vec<u8>, KeyDirEntry)>, k: Seq<u8>)
    ensures
        kd_map_of(s).contains_key(k) <==> exists|i: int| 0 <= i < s.len() && (#[trigger] s[i]).0@
            == k,
    decreases s.len(),
{
    if s.len() == 0 {
    } else {
        lemma_kd_map_contains(s.drop_last(), k);
        if s.last().0@ == k {
            assert((s[s.len() - 1]).0@ == k);
        } else {
            if kd_map_of(s).contains_key(k) {
                let i = choose|i: int| 0 <= i < s.drop_last().len() && (#[trigger] s.drop_last()[i]).0@ == k;
                assert((s[i]).0@ == k);
            }
            if exists|i: int| 0 <= i < s.len() && (#[trigger] s[i]).0@ == k {
                let i = choose|i: int| 0 <= i < s.len() && (#[trigger] s[i]).0@ == k;
                assert(i < s.len() - 1);
                assert((s.drop_last()[i]).0@ == k);
            }
        }
    }
}

/// With distinct keys, the map sends the key of each pair to its entry.
pub proof fn lemma_kd_map_index(s: Seq<(Vec<u8>, KeyDirEntry)>, i: int)
    requires
        distinct_keys(s),
        0 <= i < s.len(),
    ensures
        kd_map_of(s).contains_key(s[i].0@),
        kd_map_of(s)[s[i].0@] == s[i].1,
    decreases s.len(),
{
    if i == s.len() - 1 {
    } else {
        assert(distinct_keys(s.drop_last())) by {
            assert forall|p: int, q: int| 0 <= p < q < s.drop_last().len() implies
                (#[trigger] s.drop_last()[p]).0@ != (#[trigger] s.drop_last()[q]).0@ by {
                assert(s[p] == s.drop_last()[p]);
                assert(s[q] == s.drop_last()[q]);
            }
        }
        lemma_kd_map_index(s.drop_last(), i);
        assert(s[i].0@ != s.last().0@);
    }
}

/// Replacing the pair at `i` by one with an equal key updates the map at
/// that key.
pub proof fn lemma_kd_map_update(s: Seq<(Vec<u8>, KeyDirEntry)>, i: int, p: (Vec<u8>, KeyDirEntry))
    requires
        distinct_keys(s),
        0 <= i < s.len(),
        p.0@ == s[i].0@,
    ensures
        kd_map_of(s.update(i, p)) == kd_map_of(s).insert(s[i].0@, p.1),
    decreases s.len(),
{
    let s2 = s.update(i, p);
    if i == s.len() - 1 {
        assert(s2.drop_last() =~= s.drop_last());
        assert(s2.last() == p);
        assert(kd_map_of(s2) =~= kd_map_of(s).insert(s[i].0@, p.1));
    } else {
        assert(distinct_keys(s.drop_last())) by {
            assert forall|a: int, b: int| 0 <= a < b < s.drop_last().len() implies
                (#[trigger] s.drop_last()[a]).0@ != (#[trigger] s.drop_last()[b]).0@ by {
                assert(s[a] == s.drop_last()[a]);
                assert(s[b] == s.drop_last()[b]);
            }
        }
        lemma_kd_map_update(s.drop_last(), i, p);
        assert(s2.drop_last() =~= s.drop_last().update(i, p));
        assert(s2.last() == s.last());
        assert(s[i].0@ != s.last().0@);
        assert(kd_map_of(s2) =~= kd_map_of(s).insert(s[i].0@, p.1));
    }
}

/// Appending a pair inserts its key into the map.
pub proof fn lemma_kd_map_push(s: Seq<(Vec<u8>, KeyDirEntry)>, p: (Vec<u8>, KeyDirEntry))
    ensures
        kd_map_of(s.push(p)) == kd_map_of(s).insert(p.0@, p.1),
{
    assert(s.push(p).drop_last() =~= s);
    assert(s.push(p).last() == p);
}

/// Removing the pair at `i` removes its key from the map.
pub proof fn lemma_kd_map_remove(s: Seq<(Vec<u8>, KeyDirEntry)>, i: int)
    requires
        distinct_keys(s),
        0 <= i < s.len(),
    ensures
        kd_map_of(s.remove(i)) == kd_map_of(s).remove(s[i].0@),
    decreases s.len(),
{
    if i == s.len() - 1 {
        assert(s.remove(i) =~= s.drop_last());
        lemma_kd_map_contains(s.drop_last(), s[i].0@);
        assert forall|j: int| 0 <= j < s.drop_last().len() implies (#[trigger] s.drop_last()[j]).0@
            != s[i].0@ by {
            assert(s[j] == s.drop_last()[j]);
        }
        assert(!kd_map_of(s.drop_last()).contains_key(s[i].0@));
        assert(kd_map_of(s.remove(i)) =~= kd_map_of(s).remove(s[i].0@));
    } else {
        assert(distinct_keys(s.drop_last())) by {
            assert forall|a: int, b: int| 0 <= a < b < s.drop_last().len() implies
                (#[trigger] s.drop_last()[a]).0@ != (#[trigger] s.drop_last()[b]).0@ by {
                assert(s[a] == s.drop_last()[a]);
                assert(s[b] == s.drop_last()[b]);
            }
        }
        lemma_kd_map_remove(s.drop_last(), i);
        assert(s.remove(i).drop_last() =~= s.drop_last().remove(i));
        assert(s.remove(i).last() == s.last());
        assert(s[i].0@ != s.last().0@);
        assert(kd_map_of(s.remove(i)) =~= kd_map_of(s).remove(s[i].0@));
    }
}

/// With distinct keys, the number of pairs is the number of keys of the
/// map.
pub proof fn lemma_kd_map_dom_len(s: Seq<(Vec<u8>, KeyDirEntry)>)
    requires
        distinct_keys(s),
    ensures
        kd_map_of(s).dom().finite(),
        kd_map_of(s).dom().len() == s.len(),
    decreases s.len(),
{
    if s.len() == 0 {
        assert(kd_map_of(s).dom() =~= Set::<Seq<u8>>::empty());
    } else {
        assert(distinct_keys(s.drop_last())) by {
            assert forall|a: int, b: int| 0 <= a < b < s.drop_last().len() implies
                (#[trigger] s.drop_last()[a]).0@ != (#[trigger] s.drop_last()[b]).0@ by {
                assert(s[a] == s.drop_last()[a]);
                assert(s[b] == s.drop_last()[b]);
            }
        }
        lemma_kd_map_dom_len(s.drop_last());
        lemma_kd_map_contains(s.drop_last(), s.last().0@);
        assert forall|j: int| 0 <= j < s.drop_last().len() implies (#[trigger] s.drop_last()[j]).0@
            != s.last().0@ by {
            assert(s[j] == s.drop_last()[j]);
        }
        assert(!kd_map_of(s.drop_last()).contains_key(s.last().0@));
        assert(kd_map_of(s).dom() =~= kd_map_of(s.drop_last()).dom().insert(s.last().0@));
    }
}

/// The in-memory index from each live key to the extent of its most recent
/// record on disk.
///
/// The representation is a list of pairs with pairwise distinct keys; the
/// contracts speak of the map it denotes, `self@`.
#[derive(Debug)]
pub struct KeyDir {
    pub entries: Vec<(Vec<u8>, KeyDirEntry)>,
}

impl View for KeyDir {
    type V = Map<Seq<u8>, KeyDirEntry>;

    open spec fn view(&self) -> Map<Seq<u8>, KeyDirEntry> {
        kd_map_of(self.entries@)
    }
}

impl KeyDir {
    /// The representation invariant: no key occurs twice.
    pub open spec fn wf(&self) -> bool {
        distinct_keys(self.entries@)
    }

    /// An empty keydir.
    pub fn new_empty() -> (r: Self)
        ensures
            r.wf(),
            r@ == Map::<Seq<u8>, KeyDirEntry>::empty(),
    {
        KeyDir { entries: Vec::new() }
    }

    /// Look up the pair whose key equals `key`, if any.
    fn find(&self, key: &Vec<u8>) -> (r: Option<usize>)
        ensures
            match r {
                Some(i) => i < self.entries@.len() && self.entries@[i as int].0@ == key@,
                None => forall|i: int| 0 <= i < self.entries@.len() ==> (#[trigger] self.entries@[i]).0@ != key@,
            },
    {
        let n = self.entries.len();
        let mut i: usize = 0;
        loop
            invariant
                i <= n,
                n == self.entries@.len(),
                forall|j: int| 0 <= j < i ==> (#[trigger] self.entries@[j]).0@ != key@,
            decreases n - i,
        {
            if i == n {
                return None;
            }
            if &self.entries[i].0 == key {
                proof {
                    assert(self.entries@[i as int].0@ =~= key@);
                }
                return Some(i);
            }
            proof {
                assert(!(self.entries@[i as int].0@ =~= key@));
            }
            i = i + 1;
        }
    }

    /// Insert or replace the entry at `key`. A present key keeps its
    /// position in the pair list; a fresh key is appended.
    pub fn set(&mut self, key: Vec<u8>, data_file: u64, log_index: LogIndex)
        requires
            old(self).wf(),
        ensures
            final(self).wf(),
            final(self)@ == old(self)@.insert(
                key@,
                KeyDirEntry { data_file_gen: data_file, index: log_index },
            ),
            (old(self)@.contains_key(key@) ==> exists|i: int|
                0 <= i < old(self).entries@.len() && (#[trigger] old(self).entries@[i]).0@ == key@
                    && final(self).entries@ == old(self).entries@.update(
                    i,
                    (key, KeyDirEntry { data_file_gen: data_file, index: log_index }),
                )),
            (!old(self)@.contains_key(key@) ==> final(self).entries@ == old(self).entries@.push(
                (key, KeyDirEntry { data_file_gen: data_file, index: log_index }),
            )),
    {
        proof {
            lemma_kd_map_contains(self.entries@, key@);
        }
        let keydir_entry = KeyDirEntry { data_file_gen: data_file, index: log_index };
        match self.find(&key) {
            Some(i) => {
                proof {
                    lemma_kd_map_update(self.entries@, i as int, (key, keydir_entry));
                }
                let ghost s = self.entries@;
                self.entries[i] = (key, keydir_entry);
                proof {
                    assert forall|a: int, b: int| 0 <= a < b < self.entries@.len() implies
                        (#[trigger] self.entries@[a]).0@ != (#[trigger] self.entries@[b]).0@ by {
                        assert(s[a].0@ == self.entries@[a].0@);
                        assert(s[b].0@ == self.entries@[b].0@);
                    }
                }
            },
            None => {
                proof {
                    lemma_kd_map_push(self.entries@, (key, keydir_entry));
                }
                let ghost s = self.entries@;
                self.entries.push((key, keydir_entry));
                proof {
                    assert forall|a: int, b: int| 0 <= a < b < self.entries@.len() implies
                        (#[trigger] self.entries@[a]).0@ != (#[trigger] self.entries@[b]).0@ by {
                        if b < s.len() {
                            assert(s[a] == self.entries@[a]);
                            assert(s[b] == self.entries@[b]);
                        } else {
                            assert(s[a] == self.entries@[a]);
                        }
                    }
                }
            },
        }
    }

    /// Look up the entry at `key`.
    pub fn get(&self, key: &Vec<u8>) -> (r: Option<&KeyDirEntry>)
        requires
            self.wf(),
        ensures
            match r {
                Some(e) => self@.contains_key(key@) && *e == self@[key@],
                None => !self@.contains_key(key@),
            },
    {
        proof {
            lemma_kd_map_contains(self.entries@, key@);
        }
        match self.find(key) {
            Some(i) => {
                proof {
                    lemma_kd_map_index(self.entries@, i as int);
                }
                Some(&self.entries[i].1)
            },
            None => None,
        }
    }

    /// Remove the entry at `key`, returning it if the key was present. The
    /// other pairs keep their order.
    pub fn remove(&mut self, key: &Vec<u8>) -> (r: Option<KeyDirEntry>)
        requires
            old(self).wf(),
        ensures
            final(self).wf(),
            final(self)@ == old(self)@.remove(key@),
            match r {
                Some(e) => old(self)@.contains_key(key@) && e == old(self)@[key@],
                None => !old(self)@.contains_key(key@),
            },
            (old(self)@.contains_key(key@) ==> exists|i: int|
                0 <= i < old(self).entries@.len() && (#[trigger] old(self).entries@[i]).0@ == key@
                    && final(self).entries@ == old(self).entries@.remove(i)),
            (!old(self)@.contains_key(key@) ==> final(self).entries@ == old(self).entries@),
    {
        proof {
            lemma_kd_map_contains(self.entries@, key@);
        }
        match self.find(key) {
            Some(i) => {
                proof {
                    lemma_kd_map_index(self.entries@, i as int);
                    lemma_kd_map_remove(self.entries@, i as int);
                }
                let ghost s = self.entries@;
                let pair = self.entries.remove(i);
                proof {
                    assert forall|a: int, b: int| 0 <= a < b < self.entries@.len() implies
                        (#[trigger] self.entries@[a]).0@ != (#[trigger] self.entries@[b]).0@ by {
                        let a0: int = if a < i { a } else { a + 1 };
                        let b0: int = if b < i { b } else { b + 1 };
                        assert(self.entries@[a] == s[a0]);
                        assert(self.entries@[b] == s[b0]);
                    }
                }
                Some(pair.1)
            },
            None => {
                proof {
                    assert(final(self)@ =~= old(self)@.remove(key@));
                }
                None
            },
        }
    }

    /// The number of live keys.
    pub fn len(&self) -> (r: usize)
        ensures
            r == self.entries@.len(),
            self.wf() ==> r == self@.dom().len(),
    {
        proof {
            if self.wf() {
                lemma_kd_map_dom_len(self.entries@);
            }
        }
        self.entries.len()
    }
}

/// Replay one data file into the keydir: records with a value point their key
/// at the record, tombstones remove their key.
pub fn populate_keydir_with_data_file(data_file: &Vec<u8>, keydir: &mut KeyDir, data_file_gen: u64)
    requires
        parses_from(data_file@, 0),
        old(keydir).wf(),
    ensures
        final(keydir).wf(),
        final(keydir)@ == replay_bytes(old(keydir)@, data_file_gen, data_file@, 0),
{
    let n = data_file.len();
    let mut pos: usize = 0;
    loop
        invariant
            pos <= n,
            n == data_file@.len(),
            keydir.wf(),
            parses_from(data_file@, pos as int),
            replay_bytes(old(keydir)@, data_file_gen, data_file@, 0) == replay_bytes(
                keydir@,
                data_file_gen,
                data_file@,
                pos as int,
            ),
        decreases n - pos,
    {
        if pos == n {
            return ;
        }
        match decode_record(data_file, pos) {
            DecodeResult::Record(entry, l) => {
                proof {
                    lemma_decode_bounds(data_file@, pos as int);
                }
                match entry.value {
                    Some(_) => {
                        keydir.set(
                            entry.key,
                            data_file_gen,
                            LogIndex { offset: pos as u64, len: l },
                        );
                    },
                    None => {
                        keydir.remove(&entry.key);
                    },
                }
                pos = pos + (l as usize);
            },
            DecodeResult::Incomplete => {
                proof {
                    assert(false);
                }
            },
            DecodeResult::Malformed => {
                proof {
                    assert(false);
                }
            },
        }
    }
}

impl KeyDir {
    /// Build the keydir by replaying every data file in the order given,
    /// which must be ascending generation order. Fails if some file is not a
    /// clean sequence of complete records.
    pub fn new(data_files: &Vec<DataFile>) -> (r: Result<Self, OpenError>)
        ensures
            match r {
                Ok(kd) => {
                    &&& kd.wf()
                    &&& kd@ == replay_files(files_view(data_files@))
                    &&& (forall|i: int| 0 <= i < data_files@.len() ==> parses_from(
                        (#[trigger] data_files@[i])@.bytes,
                        0,
                    ))
                    &&& files_fit(files_view(data_files@))
                },
                Err(e) => {
                    &&& e.kind == OpenErrorKind::Corrupt
                    &&& exists|i: int| 0 <= i < data_files@.len() && !parses_from(
                        (#[trigger] data_files@[i])@.bytes,
                        0,
                    )
                },
            },
    {
        let mut keydir = KeyDir::new_empty();
        let n = data_files.len();
        let ghost fv = files_view(data_files@);
        proof {
            assert(fv.take(0) =~= Seq::<FileV>::empty());
        }
        let mut i: usize = 0;
        while i < n
            invariant
                i <= n,
                n == data_files@.len(),
                fv == files_view(data_files@),
                fv.len() == n,
                keydir.wf(),
                keydir@ == replay_files(fv.take(i as int)),
                forall|j: int| 0 <= j < i ==> parses_from((#[trigger] data_files@[j])@.bytes, 0)
                    && (#[trigger] data_files@[j])@.bytes.len() < 0x1_0000_0000_0000_0000,
            decreases n - i,
        {
            let file = &data_files[i];
            if !validate_data_file(&file.bytes) {
                return Err(
                    OpenError { kind: OpenErrorKind::Corrupt, rustcask_dir: String::new() },
                );
            }
            proof {
                lemma_replay_files_from_push(Map::empty(), fv.take(i as int), fv[i as int], 0);
                assert(fv.take(i + 1) =~= fv.take(i as int).push(fv[i as int]));
            }
            populate_keydir_with_data_file(&file.bytes, &mut keydir, file.generation);
            i = i + 1;
        }
        proof {
            assert(fv.take(n as int) =~= fv);
        }
        Ok(keydir)
    }
}

/// Replaying `files.push(f)` from `i` equals replaying `files` from `i` and
/// then replaying `f`.
pub proof fn lemma_replay_files_from_push(
    m: Map<Seq<u8>, KeyDirEntry>,
    files: Seq<FileV>,
    f: FileV,
    i: int,
)
    requires
        0 <= i <= files.len(),
    ensures
        replay_files_from(m, files.push(f), i) == replay_bytes(
            replay_files_from(m, files, i),
            f.generation,
            f.bytes,
            0,
        ),
    decreases files.len() - i,
{
    let fp = files.push(f);
    if i == files.len() {
        assert(fp[i] == f);
        assert(fp.len() == files.len() + 1);
        assert(replay_files_from(m, files, i) == m);
        let m2 = replay_bytes(m, f.generation, f.bytes, 0);
        assert(replay_files_from(m, fp, i) == replay_files_from(m2, fp, i + 1));
        assert(replay_files_from(m2, fp, i + 1) == m2);
    } else {
        assert(fp[i] == files[i]);
        let m2 = replay_bytes(m, files[i].generation, files[i].bytes, 0);
        assert(replay_files_from(m, fp, i) == replay_files_from(m2, fp, i + 1));
        assert(replay_files_from(m, files, i) == replay_files_from(m2, files, i + 1));
        lemma_replay_files_from_push(m2, files, f, i + 1);
    }
}

/// `files2` is `files` with `ext` appended to the bytes of its last file.
pub open spec fn extended_last(files: Seq<FileV>, files2: Seq<FileV>, ext: Seq<u8>) -> bool {
    &&& files.len() >= 1
    &&& files2.len() == files.len()
    &&& (forall|i: int| 0 <= i < files.len() - 1 ==> files2[i] == files[i])
    &&& files2.last().generation == files.last().generation
    &&& files2.last().bytes == files.last().bytes + ext
}

/// Appending the encoding of one record to a file that parses cleanly
/// replays to the old keydir with that one record applied at the old end of
/// the file.
pub proof fn lemma_replay_bytes_snoc(
    m: Map<Seq<u8>, KeyDirEntry>,
    gen: u64,
    s: Seq<u8>,
    pos: int,
    key: Seq<u8>,
    value: Option<Seq<u8>>,
)
    requires
        0 <= pos <= s.len(),
        s.len() < 0x1_0000_0000_0000_0000,
        parses_from(s, pos),
        key.len() < 0x1_0000_0000_0000_0000,
        (value matches Some(v) ==> v.len() < 0x1_0000_0000_0000_0000),
    ensures
        replay_bytes(m, gen, s + spec_encode(key, value), pos) == apply_record(
            replay_bytes(m, gen, s, pos),
            gen,
            s.len() as int,
            SpecRecord { key, value, len: spec_encode(key, value).len() as int },
        ),
    decreases s.len() - pos,
{
    let e = spec_encode(key, value);
    let el = e.len() as int;
    let u = s + e;
    if pos == s.len() {
        assert(u.subrange(pos, pos + el) =~= e);
        lemma_decode_encode(u, pos, key, value);
        let r = SpecRecord { key, value, len: el };
        assert(9 <= el);
        assert(replay_bytes(m, gen, u, pos) == replay_bytes(
            apply_record(m, gen, pos, r),
            gen,
            u,
            pos + el,
        ));
        assert(replay_bytes(m, gen, s, pos) == m);
    } else {
        let r = rec_of(spec_decode(s, pos));
        lemma_decode_bounds(s, pos);
        lemma_decode_prefix(s, e, pos);
        let m2 = apply_record(m, gen, pos, r);
        assert(replay_bytes(m, gen, u, pos) == replay_bytes(m2, gen, u, pos + r.len));
        assert(replay_bytes(m, gen, s, pos) == replay_bytes(m2, gen, s, pos + r.len));
        lemma_replay_bytes_snoc(m2, gen, s, pos + r.len, key, value);
    }
}

/// Replaying the files from `i` on, after the last file was extended by one
/// encoded record, equals the old replay with that record applied.
proof fn lemma_replay_files_from_snoc(
    m: Map<Seq<u8>, KeyDirEntry>,
    files: Seq<FileV>,
    files2: Seq<FileV>,
    i: int,
    key: Seq<u8>,
    value: Option<Seq<u8>>,
)
    requires
        0 <= i < files.len(),
        extended_last(files, files2, spec_encode(key, value)),
        parses_from(files.last().bytes, 0),
        files.last().bytes.len() < 0x1_0000_0000_0000_0000,
        key.len() < 0x1_0000_0000_0000_0000,
        (value matches Some(v) ==> v.len() < 0x1_0000_0000_0000_0000),
    ensures
        replay_files_from(m, files2, i) == apply_record(
            replay_files_from(m, files, i),
            files.last().generation,
            files.last().bytes.len() as int,
            SpecRecord { key, value, len: spec_encode(key, value).len() as int },
        ),
    decreases files.len() - i,
{
    if i == files.len() - 1 {
        assert(files2[i] == files2.last());
        assert(files[i] == files.last());
        let gen = files.last().generation;
        let s = files.last().bytes;
        lemma_replay_bytes_snoc(m, gen, s, 0, key, value);
        let m2 = replay_bytes(m, files2[i].generation, files2[i].bytes, 0);
        assert(replay_files_from(m, files2, i) == replay_files_from(m2, files2, i + 1));
        assert(replay_files_from(m2, files2, i + 1) == m2);
        let m3 = replay_bytes(m, files[i].generation, files[i].bytes, 0);
        assert(replay_files_from(m, files, i) == replay_files_from(m3, files, i + 1));
        assert(replay_files_from(m3, files, i + 1) == m3);
    } else {
        assert(files2[i] == files[i]);
        let m2 = replay_bytes(m, files[i].generation, files[i].bytes, 0);
        assert(replay_files_from(m, files2, i) == replay_files_from(m2, files2, i + 1));
        assert(replay_files_from(m, files, i) == replay_files_from(m2, files, i + 1));
        lemma_replay_files_from_snoc(m2, files, files2, i + 1, key, value);
    }
}

/// Appending one encoded record to the last data file replays to the old
/// keydir with that one record applied at the old end of the file.
pub proof fn lemma_replay_files_snoc(
    files: Seq<FileV>,
    files2: Seq<FileV>,
    key: Seq<u8>,
    value: Option<Seq<u8>>,
)
    requires
        extended_last(files, files2, spec_encode(key, value)),
        parses_from(files.last().bytes, 0),
        files.last().bytes.len() < 0x1_0000_0000_0000_0000,
        key.len() < 0x1_0000_0000_0000_0000,
        (value matches Some(v) ==> v.len() < 0x1_0000_0000_0000_0000),
    ensures
        replay_files(files2) == apply_record(
            replay_files(files),
            files.last().generation,
            files.last().bytes.len() as int,
            SpecRecord { key, value, len: spec_encode(key, value).len() as int },
        ),
{
    lemma_replay_files_from_snoc(Map::empty(), files, files2, 0, key, value);
}

/// The unique index of the file with a given generation.
pub proof fn lemma_gen_index_unique(files: Seq<FileV>, i: int, j: int)
    requires
        distinct_gens(files),
        0 <= i < files.len(),
        0 <= j < files.len(),
        files[i].generation == files[j].generation,
    ensures
        i == j,
{
}

/// At an index whose file carries the generation of a valid entry, the value
/// of the entry is the value decoded there.
pub proof fn lemma_entry_value_at(files: Seq<FileV>, k: Seq<u8>, e: KeyDirEntry, i: int)
    requires
        distinct_gens(files),
        0 <= i < files.len(),
        files[i].generation == e.data_file_gen,
        valid_in_file(files[i].bytes, k, e),
    ensures
        entry_valid(files, k, e),
        (rec_of(spec_decode(files[i].bytes, e.index.offset as int)).value matches Some(v)
            ==> entry_value(files, k, e) == v),
{
    assert(entry_valid(files, k, e));
    let j = choose|j: int|
        #![trigger files[j]]
        0 <= j < files.len() && files[j].generation == e.data_file_gen && valid_in_file(
            files[j].bytes,
            k,
            e,
        );
    lemma_gen_index_unique(files, i, j);
}

/// Extending the last file keeps every valid keydir entry valid and keeps
/// the value each entry points at.
pub proof fn lemma_valid_entries_extend(
    files: Seq<FileV>,
    files2: Seq<FileV>,
    ext: Seq<u8>,
    m: Map<Seq<u8>, KeyDirEntry>,
)
    requires
        extended_last(files, files2, ext),
        distinct_gens(files),
        all_entries_valid(files, m),
    ensures
        distinct_gens(files2),
        all_entries_valid(files2, m),
        forall|k: Seq<u8>| #[trigger] m.contains_key(k) ==> entry_value(files2, k, m[k])
            == entry_value(files, k, m[k]),
{
    let last = files.len() - 1;
    assert(forall|i: int| 0 <= i < files.len() ==> (#[trigger] files2[i]).generation == files[
        i
    ].generation);
    assert forall|k: Seq<u8>| #[trigger] m.contains_key(k) implies entry_valid(files2, k, m[k])
        && entry_value(files2, k, m[k]) == entry_value(files, k, m[k]) by {
        let e = m[k];
        let i = choose|i: int|
            #![trigger files[i]]
            0 <= i < files.len() && files[i].generation == e.data_file_gen && valid_in_file(
                files[i].bytes,
                k,
                e,
            );
        if i == last {
            lemma_decode_prefix(files[i].bytes, ext, e.index.offset as int);
        }
        assert(valid_in_file(files2[i].bytes, k, e));
        lemma_entry_value_at(files, k, e, i);
        lemma_entry_value_at(files2, k, e, i);
        if i == last {
            assert(spec_decode(files2[i].bytes, e.index.offset as int) == spec_decode(
                files[i].bytes,
                e.index.offset as int,
            ));
        }
    }
}

/// Appending a data file of a fresh generation keeps every valid keydir
/// entry valid and keeps the value each entry points at.
pub proof fn lemma_valid_entries_push(
    files: Seq<FileV>,
    f: FileV,
    m: Map<Seq<u8>, KeyDirEntry>,
)
    requires
        distinct_gens(files),
        forall|i: int| 0 <= i < files.len() ==> (#[trigger] files[i]).generation != f.generation,
        all_entries_valid(files, m),
    ensures
        distinct_gens(files.push(f)),
        all_entries_valid(files.push(f), m),
        forall|k: Seq<u8>| #[trigger] m.contains_key(k) ==> entry_value(files.push(f), k, m[k])
            == entry_value(files, k, m[k]),
{
    let files2 = files.push(f);
    assert(forall|i: int| 0 <= i < files.len() ==> files2[i] == (#[trigger] files[i]));
    assert forall|k: Seq<u8>| #[trigger] m.contains_key(k) implies entry_valid(files2, k, m[k])
        && entry_value(files2, k, m[k]) == entry_value(files, k, m[k]) by {
        let e = m[k];
        let i = choose|i: int|
            #![trigger files[i]]
            0 <= i < files.len() && files[i].generation == e.data_file_gen && valid_in_file(
                files[i].bytes,
                k,
                e,
            );
        assert(valid_in_file(files2[i].bytes, k, e));
        lemma_entry_value_at(files, k, e, i);
        lemma_entry_value_at(files2, k, e, i);
    }
}

} // verus!

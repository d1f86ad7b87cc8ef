//! The writer: owner of the data files, which serialises all mutations and
//! performs rotation and merge.

use vstd::prelude::*;
use vstd::slice::{slice_subrange, slice_to_vec};
use crate::logfile::{LogFileEntry, LogIndex, opt_bytes_view, spec_encode, spec_decode, rec_of,
    SpecRecord, DecodeResult, decode_record, encode_entry, lemma_decode_encode,
    lemma_encode_decode};
use crate::datafile::{DataFile, FileV, files_view, parses_from, lemma_parses_from_append};
use crate::keydir::{KeyDir, KeyDirEntry, replay_files, live_map, lookup, apply_record,
    all_entries_valid, entry_valid, entry_value, valid_in_file, distinct_gens, files_fit,
    kd_map_of, lemma_kd_map_contains, lemma_kd_map_index, lemma_replay_files_valid,
    lemma_replay_files_snoc, lemma_replay_files_from_push, lemma_valid_entries_extend,
    lemma_valid_entries_push, lemma_entry_value_at, lemma_gen_index_unique, extended_last};
use crate::error::{MergeError, OpenError, RemoveError, SetError};

verus! {

/// The data files after one encoded record was appended to the last one:
/// all other files are untouched.
pub open spec fn appended_files(files: Seq<FileV>, enc: Seq<u8>) -> Seq<FileV> {
    files.update(
        files.len() - 1,
        FileV { generation: files.last().generation, bytes: files.last().bytes + enc },
    )
}

/// One merge copy step: the encoding of a live record is appended to the
/// last merge file, and a fresh, empty file of the next generation is
/// started if the file has exceeded the size threshold.
pub open spec fn merge_step(
    files: Seq<FileV>,
    key: Seq<u8>,
    value: Seq<u8>,
    max: u64,
) -> Seq<FileV> {
    let appended = appended_files(files, spec_encode(key, Some(value)));
    if appended.last().bytes.len() > max {
        appended.push(
            FileV { generation: (files.last().generation + 1) as u64, bytes: Seq::<u8>::empty() },
        )
    } else {
        appended
    }
}

/// The merge files after copying the records from index `i` on.
pub open spec fn merged_files_from(
    files: Seq<FileV>,
    recs: Seq<(Seq<u8>, Seq<u8>)>,
    max: u64,
    i: int,
) -> Seq<FileV>
    decreases recs.len() - i,
    when 0 <= i
{
    if i >= recs.len() {
        files
    } else {
        merged_files_from(merge_step(files, recs[i].0, recs[i].1, max), recs, max, i + 1)
    }
}

/// The data files a merge writes: starting from one empty file of
/// generation `start_gen`, the encodings of the given records are appended
/// in order, rotating to the next generation whenever a file exceeds the
/// size threshold.
pub open spec fn merged_files(recs: Seq<(Seq<u8>, Seq<u8>)>, start_gen: u64, max: u64) -> Seq<
    FileV,
> {
    merged_files_from(
        seq![FileV { generation: start_gen, bytes: Seq::<u8>::empty() }],
        recs,
        max,
        0,
    )
}

/// The live records of a keydir, in keydir order: each key with the value
/// its entry points at.
pub open spec fn live_records(
    entries: Seq<(Vec<u8>, KeyDirEntry)>,
    files: Seq<FileV>,
) -> Seq<(Seq<u8>, Seq<u8>)> {
    Seq::new(
        entries.len(),
        |i: int| (entries[i].0@, entry_value(files, entries[i].0@, entries[i].1)),
    )
}

/// The writer owns the data files, serialises all mutations, and performs
/// rotation and merge.
///
/// The last data file is the active one; only it is appended to.
#[derive(Debug)]
pub struct Writer {
    pub active_generation: u64,
    pub data_files: Vec<DataFile>,
    pub active_data_file_size: u64,
    pub sync_mode: bool,
    pub max_data_file_size: u64,
    pub keydir: KeyDir,
}

impl Writer {
    /// The mathematical values of the data files.
    pub open spec fn files_v(self) -> Seq<FileV> {
        files_view(self.data_files@)
    }

    /// Structural invariant: at least one data file, generations strictly
    /// ascending, the last file is the active one, and the size counter
    /// equals the length of the active file.
    pub open spec fn inv(self) -> bool {
        &&& self.data_files@.len() >= 1
        &&& (forall|i: int, j: int|
            0 <= i < j < self.files_v().len() ==> #[trigger] self.files_v()[i].generation
                < #[trigger] self.files_v()[j].generation)
        &&& self.files_v().last().generation == self.active_generation
        &&& self.active_data_file_size == self.files_v().last().bytes.len()
        &&& files_fit(self.files_v())
        &&& self.keydir.wf()
    }

    /// Log invariant: every data file is a clean sequence of records, and
    /// the keydir is exactly what replaying the data files produces.
    pub open spec fn log_inv(self) -> bool {
        &&& (forall|i: int| 0 <= i < self.files_v().len() ==> parses_from(
            (#[trigger] self.files_v()[i]).bytes,
            0,
        ))
        &&& self.keydir@ == replay_files(self.files_v())
    }

    /// The observable key-value state.
    pub open spec fn model(self) -> Map<Seq<u8>, Seq<u8>> {
        live_map(self.files_v(), self.keydir@)
    }

    /// The generations are pairwise distinct because they ascend.
    pub proof fn lemma_inv_distinct_gens(self)
        requires
            self.inv(),
        ensures
            distinct_gens(self.files_v()),
    {
    }

    /// Create a writer over the given data files, which must be listed in
    /// ascending generation order with the keydir already rebuilt from them.
    /// An empty directory gets a fresh, empty generation-0 file.
    pub fn new(
        sync_mode: bool,
        max_data_file_size: u64,
        data_files: Vec<DataFile>,
        keydir: KeyDir,
    ) -> (r: Result<Writer, OpenError>)
        requires
            forall|i: int, j: int|
                0 <= i < j < data_files@.len() ==> (#[trigger] data_files@[i]).generation
                    < (#[trigger] data_files@[j]).generation,
            forall|i: int| 0 <= i < data_files@.len() ==> parses_from(
                (#[trigger] data_files@[i])@.bytes,
                0,
            ),
            files_fit(files_view(data_files@)),
            keydir.wf(),
            keydir@ == replay_files(files_view(data_files@)),
        ensures
            match r {
                Ok(w) => {
                    &&& w.inv()
                    &&& w.log_inv()
                    &&& w.sync_mode == sync_mode
                    &&& w.max_data_file_size == max_data_file_size
                    &&& w.keydir@ == keydir@
                    &&& (data_files@.len() > 0 ==> {
                        &&& w.files_v() == files_view(data_files@)
                        &&& w.active_generation == data_files@.last().generation
                        &&& w.active_data_file_size == data_files@.last().bytes@.len()
                    })
                    &&& (data_files@.len() == 0 ==> {
                        &&& w.files_v() == seq![FileV { generation: 0u64, bytes: Seq::<u8>::empty() }]
                        &&& w.active_generation == 0
                        &&& w.active_data_file_size == 0
                    })
                },
                Err(_) => false,
            },
    {
        let mut data_files = data_files;
        if data_files.is_empty() {
            data_files.push(DataFile { generation: 0, bytes: Vec::new() });
            proof {
                assert(files_view(data_files@) =~= seq![
                    FileV { generation: 0u64, bytes: Seq::<u8>::empty() },
                ]);
                lemma_replay_files_from_push(
                    Map::empty(),
                    Seq::<FileV>::empty(),
                    FileV { generation: 0u64, bytes: Seq::<u8>::empty() },
                    0,
                );
                assert(Seq::<FileV>::empty().push(
                    FileV { generation: 0u64, bytes: Seq::<u8>::empty() },
                ) =~= files_view(data_files@));
                assert(keydir@ == replay_files(files_view(data_files@)));
            }
        }
        let n = data_files.len();
        let active_generation = data_files[n - 1].generation;
        let active_data_file_size = data_files[n - 1].bytes.len() as u64;
        Ok(
            Writer {
                active_generation,
                data_files,
                active_data_file_size,
                sync_mode,
                max_data_file_size,
                keydir,
            },
        )
    }

    pub fn get_active_generation(&self) -> (r: u64)
        ensures
            r == self.active_generation,
    {
        self.active_generation
    }

    pub fn get_active_data_file_size(&self) -> (r: u64)
        ensures
            r == self.active_data_file_size,
    {
        self.active_data_file_size
    }

    /// The merge window is not yet restricted: merging is always allowed.
    pub fn can_merge(&self) -> (r: bool)
        ensures
            r == true,
    {
        true
    }

    /// Close the active file to appends and start a fresh, empty file with
    /// the next generation number.
    pub fn rotate_active_data_file(&mut self)
        requires
            old(self).inv(),
            old(self).active_generation < u64::MAX,
        ensures
            final(self).inv(),
            final(self).active_generation == old(self).active_generation + 1,
            final(self).active_data_file_size == 0,
            final(self).files_v() == old(self).files_v().push(
                FileV {
                    generation: (old(self).active_generation + 1) as u64,
                    bytes: Seq::<u8>::empty(),
                },
            ),
            final(self).keydir == old(self).keydir,
            final(self).sync_mode == old(self).sync_mode,
            final(self).max_data_file_size == old(self).max_data_file_size,
            old(self).log_inv() ==> final(self).log_inv() && final(self).model() == old(
                self,
            ).model(),
    {
        proof {
            self.lemma_inv_distinct_gens();
        }
        let ghost oldw = *self;
        self.active_generation = self.active_generation + 1;
        self.data_files.push(DataFile { generation: self.active_generation, bytes: Vec::new() });
        self.active_data_file_size = 0;
        proof {
            let f = FileV {
                generation: (oldw.active_generation + 1) as u64,
                bytes: Seq::<u8>::empty(),
            };
            assert(self.files_v() =~= oldw.files_v().push(f));
            if oldw.log_inv() {
                lemma_replay_files_from_push(Map::empty(), oldw.files_v(), f, 0);
                assert(self.keydir@ == replay_files(self.files_v()));
                lemma_replay_files_valid(oldw.files_v());
                lemma_valid_entries_push(oldw.files_v(), f, oldw.keydir@);
                assert(self.model() =~= oldw.model());
            }
        }
    }

    /// Append pre-encoded record bytes to the active data file, rotating it
    /// afterwards if it has reached the size threshold. Returns the extent
    /// the bytes were written at and the generation they were written to.
    ///
    /// This function does not touch the keydir; that is up to the caller.
    pub fn write_to_active_data_file(&mut self, encoded_log_file_entry: Vec<u8>) -> (r: (
        LogIndex,
        u64,
    ))
        requires
            old(self).inv(),
            old(self).active_generation < u64::MAX,
        ensures
            final(self).inv(),
            r.0.offset == old(self).files_v().last().bytes.len(),
            r.0.len == encoded_log_file_entry@.len(),
            r.1 == old(self).active_generation,
            final(self).keydir == old(self).keydir,
            final(self).sync_mode == old(self).sync_mode,
            final(self).max_data_file_size == old(self).max_data_file_size,
            extended_last(
                old(self).files_v(),
                final(self).files_v().take(old(self).files_v().len() as int),
                encoded_log_file_entry@,
            ),
            (old(self).active_data_file_size + encoded_log_file_entry@.len()
                >= old(self).max_data_file_size) ==> {
                &&& final(self).files_v() == old(self).files_v().update(
                    old(self).files_v().len() - 1,
                    FileV {
                        generation: old(self).active_generation,
                        bytes: old(self).files_v().last().bytes + encoded_log_file_entry@,
                    },
                ).push(
                    FileV {
                        generation: (old(self).active_generation + 1) as u64,
                        bytes: Seq::<u8>::empty(),
                    },
                )
                &&& final(self).active_generation == old(self).active_generation + 1
                &&& final(self).active_data_file_size == 0
            },
            (old(self).active_data_file_size + encoded_log_file_entry@.len() < old(
                self,
            ).max_data_file_size) ==> {
                &&& final(self).files_v() == old(self).files_v().update(
                    old(self).files_v().len() - 1,
                    FileV {
                        generation: old(self).active_generation,
                        bytes: old(self).files_v().last().bytes + encoded_log_file_entry@,
                    },
                )
                &&& final(self).active_generation == old(self).active_generation
                &&& final(self).active_data_file_size == old(self).active_data_file_size
                    + encoded_log_file_entry@.len()
            },
    {
        let ghost oldw = *self;
        let last = self.data_files.len() - 1;
        let file_offset = self.data_files[last].bytes.len() as u64;
        let len_encoded_data = encoded_log_file_entry.len();
        self.data_files[last].bytes.extend_from_slice(encoded_log_file_entry.as_slice());
        let new_len = self.data_files[last].bytes.len();
        proof {
            assert(self.data_files@[last as int].bytes@ =~= oldw.files_v().last().bytes
                + encoded_log_file_entry@);
            assert(self.files_v() =~= oldw.files_v().update(
                oldw.files_v().len() - 1,
                FileV {
                    generation: oldw.active_generation,
                    bytes: oldw.files_v().last().bytes + encoded_log_file_entry@,
                },
            ));
        }
        self.active_data_file_size = new_len as u64;
        let written_generation = self.active_generation;
        proof {
            assert(extended_last(oldw.files_v(), self.files_v(), encoded_log_file_entry@));
            assert(self.files_v().take(oldw.files_v().len() as int) =~= self.files_v());
        }
        if self.active_data_file_size >= self.max_data_file_size {
            let ghost mid = *self;
            self.rotate_active_data_file();
            proof {
                assert(self.files_v().take(oldw.files_v().len() as int) =~= mid.files_v());
            }
        }
        (LogIndex { offset: file_offset, len: len_encoded_data as u64 }, written_generation)
    }

    /// Insert a key-value pair: append the encoded record to the active data
    /// file, then point the keydir at it.
    pub fn set(&mut self, key: Vec<u8>, value: Vec<u8>) -> (r: Result<(), SetError>)
        requires
            old(self).inv(),
            old(self).log_inv(),
            old(self).active_generation < u64::MAX,
        ensures
            r is Ok,
            final(self).inv(),
            final(self).log_inv(),
            final(self).sync_mode == old(self).sync_mode,
            final(self).max_data_file_size == old(self).max_data_file_size,
            final(self).keydir@ == old(self).keydir@.insert(
                key@,
                KeyDirEntry {
                    data_file_gen: old(self).active_generation,
                    index: LogIndex {
                        offset: old(self).active_data_file_size,
                        len: spec_encode(key@, Some(value@)).len() as u64,
                    },
                },
            ),
            (old(self).keydir@.contains_key(key@) ==> exists|i: int|
                0 <= i < old(self).keydir.entries@.len() && (#[trigger] old(
                    self,
                ).keydir.entries@[i]).0@ == key@ && final(self).keydir.entries@ == old(
                    self,
                ).keydir.entries@.update(
                    i,
                    (
                        key,
                        KeyDirEntry {
                            data_file_gen: old(self).active_generation,
                            index: LogIndex {
                                offset: old(self).active_data_file_size,
                                len: spec_encode(key@, Some(value@)).len() as u64,
                            },
                        },
                    ),
                )),
            (!old(self).keydir@.contains_key(key@) ==> final(self).keydir.entries@ == old(
                self,
            ).keydir.entries@.push(
                (
                    key,
                    KeyDirEntry {
                        data_file_gen: old(self).active_generation,
                        index: LogIndex {
                            offset: old(self).active_data_file_size,
                            len: spec_encode(key@, Some(value@)).len() as u64,
                        },
                    },
                ),
            )),
            final(self).model() == old(self).model().insert(key@, value@),
            (old(self).active_data_file_size + spec_encode(key@, Some(value@)).len() >= old(
                self,
            ).max_data_file_size) ==> {
                &&& final(self).active_generation == old(self).active_generation + 1
                &&& final(self).active_data_file_size == 0
                &&& final(self).files_v() == appended_files(
                    old(self).files_v(),
                    spec_encode(key@, Some(value@)),
                ).push(
                    FileV {
                        generation: (old(self).active_generation + 1) as u64,
                        bytes: Seq::<u8>::empty(),
                    },
                )
            },
            (old(self).active_data_file_size + spec_encode(key@, Some(value@)).len() < old(
                self,
            ).max_data_file_size) ==> {
                &&& final(self).active_generation == old(self).active_generation
                &&& final(self).active_data_file_size == old(self).active_data_file_size
                    + spec_encode(key@, Some(value@)).len()
                &&& final(self).files_v() == appended_files(
                    old(self).files_v(),
                    spec_encode(key@, Some(value@)),
                )
            },
    {
        let data_file_entry = LogFileEntry { key, value: Some(value) };
        let encoded = encode_entry(&data_file_entry);
        let ghost oldw = *old(self);
        let ghost enc = spec_encode(key@, Some(value@));
        let ghost oldlen = oldw.files_v().last().bytes.len() as int;
        let ghost ext = oldw.files_v().update(
            oldw.files_v().len() - 1,
            FileV {
                generation: oldw.active_generation,
                bytes: oldw.files_v().last().bytes + enc,
            },
        );
        let (log_index, gen) = self.write_to_active_data_file(encoded);
        let ghost e_new = KeyDirEntry {
            data_file_gen: oldw.active_generation,
            index: LogIndex { offset: oldw.active_data_file_size, len: enc.len() as u64 },
        };
        proof {
            self.lemma_set_remove_common(oldw, ext, key@, Some(value@), e_new);
        }
        self.keydir.set(data_file_entry.key, gen, log_index);
        proof {
            assert(self.keydir@ == replay_files(self.files_v()));
            assert(self.model() =~= oldw.model().insert(key@, value@)) by {
                let lastx = ext.len() - 1;
                assert(ext[lastx].bytes.subrange(
                    oldlen,
                    oldlen + spec_encode(key@, Some(value@)).len() as int,
                ) =~= enc);
                lemma_decode_encode(ext[lastx].bytes, oldlen, key@, Some(value@));
                assert(valid_in_file(ext[lastx].bytes, key@, e_new));
                assert(self.files_v()[lastx] == ext[lastx]);
                lemma_entry_value_at(self.files_v(), key@, e_new, lastx);
                assert(entry_value(self.files_v(), key@, e_new) == value@);
                assert forall|k: Seq<u8>| #[trigger] oldw.keydir@.contains_key(k) && k != key@
                    implies entry_value(self.files_v(), k, oldw.keydir@[k]) == entry_value(
                    oldw.files_v(),
                    k,
                    oldw.keydir@[k],
                ) by {}
            }
        }
        Ok(())
    }

    /// The common ghost bookkeeping after a record for `k` with optional
    /// value `v` was appended by `write_to_active_data_file`: the new files
    /// parse cleanly, their replay is the old replay with the record
    /// applied, and the old entries keep their values.
    proof fn lemma_set_remove_common(
        self,
        oldw: Writer,
        ext: Seq<FileV>,
        k: Seq<u8>,
        v: Option<Seq<u8>>,
        e_new: KeyDirEntry,
    )
        requires
            oldw.inv(),
            oldw.log_inv(),
            oldw.active_generation < u64::MAX,
            k.len() < 0x1_0000_0000_0000_0000,
            (v matches Some(vv) ==> vv.len() < 0x1_0000_0000_0000_0000),
            ext == (oldw.files_v().update(
                oldw.files_v().len() - 1,
                FileV {
                    generation: oldw.active_generation,
                    bytes: oldw.files_v().last().bytes + spec_encode(k, v),
                },
            )),
            (self.files_v() == ext || self.files_v() == ext.push(
                FileV {
                    generation: (oldw.active_generation + 1) as u64,
                    bytes: Seq::<u8>::empty(),
                },
            )),
            self.inv(),
            self.keydir == oldw.keydir,
            e_new == (KeyDirEntry {
                data_file_gen: oldw.active_generation,
                index: LogIndex {
                    offset: oldw.active_data_file_size,
                    len: spec_encode(k, v).len() as u64,
                },
            }),
        ensures
            forall|i: int| 0 <= i < self.files_v().len() ==> parses_from(
                (#[trigger] self.files_v()[i]).bytes,
                0,
            ),
            (replay_files(self.files_v()) == apply_record(
                oldw.keydir@,
                oldw.active_generation,
                oldw.files_v().last().bytes.len() as int,
                SpecRecord { key: k, value: v, len: spec_encode(k, v).len() as int },
            )),
            all_entries_valid(self.files_v(), oldw.keydir@),
            (forall|q: Seq<u8>| #[trigger] oldw.keydir@.contains_key(q) ==> entry_value(
                self.files_v(),
                q,
                oldw.keydir@[q],
            ) == entry_value(oldw.files_v(), q, oldw.keydir@[q])),
    {
        let enc = spec_encode(k, v);
        let lastx = oldw.files_v().len() - 1;
        assert(extended_last(oldw.files_v(), ext, enc));
        lemma_replay_files_snoc(oldw.files_v(), ext, k, v);
        oldw.lemma_inv_distinct_gens();
        lemma_replay_files_valid(oldw.files_v());
        lemma_valid_entries_extend(oldw.files_v(), ext, enc, oldw.keydir@);
        lemma_parses_from_append(oldw.files_v()[lastx].bytes, 0, k, v);
        assert(forall|i: int| 0 <= i < ext.len() ==> parses_from((#[trigger] ext[i]).bytes, 0));
        if self.files_v() != ext {
            let f = FileV {
                generation: (oldw.active_generation + 1) as u64,
                bytes: Seq::<u8>::empty(),
            };
            lemma_replay_files_from_push(Map::empty(), ext, f, 0);
            lemma_valid_entries_push(ext, f, oldw.keydir@);
            assert(forall|i: int| 0 <= i < self.files_v().len() ==> parses_from(
                (#[trigger] self.files_v()[i]).bytes,
                0,
            ));
        }
    }

    /// Remove a key: append a tombstone record to the active data file, drop
    /// the key from the keydir, and return the value the key held, if any.
    #[verifier::rlimit(60)]
    pub fn remove(&mut self, key: Vec<u8>) -> (r: Result<Option<Vec<u8>>, RemoveError>)
        requires
            old(self).inv(),
            old(self).log_inv(),
            old(self).active_generation < u64::MAX,
        ensures
            final(self).inv(),
            final(self).log_inv(),
            final(self).sync_mode == old(self).sync_mode,
            final(self).max_data_file_size == old(self).max_data_file_size,
            final(self).keydir@ == old(self).keydir@.remove(key@),
            (old(self).keydir@.contains_key(key@) ==> exists|i: int|
                0 <= i < old(self).keydir.entries@.len() && (#[trigger] old(
                    self,
                ).keydir.entries@[i]).0@ == key@ && final(self).keydir.entries@ == old(
                    self,
                ).keydir.entries@.remove(i)),
            (!old(self).keydir@.contains_key(key@) ==> final(self).keydir.entries@ == old(
                self,
            ).keydir.entries@),
            final(self).model() == old(self).model().remove(key@),
            match r {
                Ok(prior) => opt_bytes_view(prior) == lookup(old(self).model(), key@),
                Err(_) => false,
            },
            (old(self).active_data_file_size + spec_encode(key@, None).len() >= old(
                self,
            ).max_data_file_size) ==> {
                &&& final(self).active_generation == old(self).active_generation + 1
                &&& final(self).active_data_file_size == 0
                &&& final(self).files_v() == appended_files(
                    old(self).files_v(),
                    spec_encode(key@, None),
                ).push(
                    FileV {
                        generation: (old(self).active_generation + 1) as u64,
                        bytes: Seq::<u8>::empty(),
                    },
                )
            },
            (old(self).active_data_file_size + spec_encode(key@, None).len() < old(
                self,
            ).max_data_file_size) ==> {
                &&& final(self).active_generation == old(self).active_generation
                &&& final(self).active_data_file_size == old(self).active_data_file_size
                    + spec_encode(key@, None).len()
                &&& final(self).files_v() == appended_files(
                    old(self).files_v(),
                    spec_encode(key@, None),
                )
            },
    {
        let tombstone = LogFileEntry::create_tombstone_entry(key);
        let encoded_tombstone = encode_entry(&tombstone);
        let ghost oldw = *old(self);
        let ghost enc = spec_encode(key@, None);
        let ghost ext = oldw.files_v().update(
            oldw.files_v().len() - 1,
            FileV {
                generation: oldw.active_generation,
                bytes: oldw.files_v().last().bytes + enc,
            },
        );
        let ghost e_new = KeyDirEntry {
            data_file_gen: oldw.active_generation,
            index: LogIndex { offset: oldw.active_data_file_size, len: enc.len() as u64 },
        };
        self.write_to_active_data_file(encoded_tombstone);
        proof {
            self.lemma_set_remove_common(oldw, ext, key@, None, e_new);
        }
        let prior = self.keydir.remove(&tombstone.key);
        proof {
            assert(self.keydir@ == replay_files(self.files_v()));
            assert forall|q: Seq<u8>| #[trigger] self.keydir@.contains_key(q) implies
                oldw.keydir@.contains_key(q) && self.keydir@[q] == oldw.keydir@[q]
                && entry_value(self.files_v(), q, self.keydir@[q]) == entry_value(
                oldw.files_v(),
                q,
                oldw.keydir@[q],
            ) by {
                assert(oldw.keydir@.contains_key(q));
            }
            assert(self.model() =~= oldw.model().remove(key@));
        }
        match prior {
            // The key was not previously in the map
            None => Ok(None),
            // The key was previously in the map, so we retrieve the
            // overwritten value and return it.
            Some(keydir_entry) => {
                proof {
                    self.lemma_inv_distinct_gens();
                    assert(oldw.keydir@.contains_key(key@));
                    assert(entry_valid(self.files_v(), key@, keydir_entry));
                }
                let v = read_value(&self.data_files, &tombstone.key, &keydir_entry);
                proof {
                    assert(v@ == entry_value(oldw.files_v(), key@, keydir_entry));
                    assert(v@ == oldw.model()[key@]);
                }
                Ok(Some(v))
            },
        }
    }
}

/// Read the live value that a valid keydir entry points at: seek the data
/// file of the entry's generation to the entry's offset and decode one
/// record there.
pub fn read_value(data_files: &Vec<DataFile>, key: &Vec<u8>, entry: &KeyDirEntry) -> (r: Vec<u8>)
    requires
        distinct_gens(files_view(data_files@)),
        entry_valid(files_view(data_files@), key@, *entry),
    ensures
        r@ == entry_value(files_view(data_files@), key@, *entry),
{
    let ghost fv = files_view(data_files@);
    proof {
        let j = choose|j: int|
            #![trigger fv[j]]
            0 <= j < fv.len() && fv[j].generation == entry.data_file_gen && valid_in_file(
                fv[j].bytes,
                key@,
                *entry,
            );
        assert(data_files@[j].generation == entry.data_file_gen);
    }
    let fi = find_data_file_index(data_files, entry.data_file_gen);
    proof {
        let j = choose|j: int|
            #![trigger fv[j]]
            0 <= j < fv.len() && fv[j].generation == entry.data_file_gen && valid_in_file(
                fv[j].bytes,
                key@,
                *entry,
            );
        lemma_gen_index_unique(fv, j, fi as int);
        lemma_entry_value_at(fv, key@, *entry, fi as int);
        assert(valid_in_file(fv[fi as int].bytes, key@, *entry));
    }
    let file = &data_files[fi];
    let blen = file.bytes.len();
    proof {
        assert(entry.index.offset as int + entry.index.len as int <= blen as int);
    }
    let offset = entry.index.offset as usize;
    proof {
        assert(offset as int == entry.index.offset as int);
    }
    match decode_record(&file.bytes, offset) {
        DecodeResult::Record(data_file_entry, _l) => {
            match data_file_entry.value {
                Some(v) => {
                    proof {
                        assert(v@ == entry_value(fv, key@, *entry));
                    }
                    v
                },
                None => {
                    proof {
                        assert(false);
                    }
                    Vec::new()
                },
            }
        },
        DecodeResult::Incomplete => {
            proof {
                assert(false);
            }
            Vec::new()
        },
        DecodeResult::Malformed => {
            proof {
                assert(false);
            }
            Vec::new()
        },
    }
}

impl Writer {
    /// Close the current merge file and start a fresh, empty one with the
    /// next generation number.
    fn rotate_merge_data_file(
        &self,
        active_merge_gen: &mut u64,
        merge_files: &mut Vec<DataFile>,
        file_size: &mut u64,
        active_merge_offset: &mut u64,
    )
        requires
            *old(active_merge_gen) < u64::MAX,
        ensures
            *final(active_merge_gen) == *old(active_merge_gen) + 1,
            *final(file_size) == 0,
            *final(active_merge_offset) == 0,
            (files_view(final(merge_files)@) == files_view(old(merge_files)@).push(
                FileV {
                    generation: (*old(active_merge_gen) + 1) as u64,
                    bytes: Seq::<u8>::empty(),
                },
            )),
    {
        *active_merge_gen = *active_merge_gen + 1;
        merge_files.push(DataFile { generation: *active_merge_gen, bytes: Vec::new() });
        *file_size = 0;
        *active_merge_offset = 0;
        proof {
            assert(files_view(merge_files@) =~= files_view(old(merge_files)@).push(
                FileV {
                    generation: (*old(active_merge_gen) + 1) as u64,
                    bytes: Seq::<u8>::empty(),
                },
            ));
        }
    }

    /// Compact the store: rewrite the live record of every key, in keydir
    /// order, into a fresh run of generations, point a fresh keydir at the
    /// copies, and discard every previous data file.
    ///
    /// The observable key-value state is unchanged.
    #[verifier::rlimit(100)]
    pub fn merge(&mut self) -> (r: Result<(), MergeError>)
        requires
            old(self).inv(),
            old(self).log_inv(),
            old(self).active_generation + old(self).keydir.entries@.len() + 1 <= u64::MAX,
        ensures
            r is Ok,
            final(self).inv(),
            final(self).log_inv(),
            final(self).sync_mode == old(self).sync_mode,
            final(self).max_data_file_size == old(self).max_data_file_size,
            final(self).model() == old(self).model(),
            final(self).active_generation > old(self).active_generation,
            (forall|i: int| 0 <= i < final(self).files_v().len()
                ==> (#[trigger] final(self).files_v()[i]).generation > old(
                self,
            ).active_generation),
            (final(self).files_v() == merged_files(
                live_records(old(self).keydir.entries@, old(self).files_v()),
                (old(self).active_generation + 1) as u64,
                old(self).max_data_file_size,
            )),
            final(self).active_generation == final(self).files_v().last().generation,
    {
        let ghost old_files = old(self).files_v();
        let ghost old_kd = old(self).keydir@;
        let ghost old_entries = old(self).keydir.entries@;
        let ghost recs = live_records(old_entries, old_files);
        proof {
            old(self).lemma_inv_distinct_gens();
            lemma_replay_files_valid(old_files);
        }
        let mut active_merge_gen: u64 = self.get_active_generation() + 1;
        let mut new_keydir = KeyDir::new_empty();
        let mut merge_offset: u64 = 0;
        let mut file_size: u64 = 0;
        let mut merge_files: Vec<DataFile> = Vec::new();
        merge_files.push(DataFile { generation: active_merge_gen, bytes: Vec::new() });
        proof {
            lemma_replay_files_from_push(
                Map::empty(),
                Seq::<FileV>::empty(),
                FileV { generation: active_merge_gen, bytes: Seq::<u8>::empty() },
                0,
            );
            assert(files_view(merge_files@) =~= Seq::<FileV>::empty().push(
                FileV { generation: active_merge_gen, bytes: Seq::<u8>::empty() },
            ));
            assert(files_view(merge_files@) =~= seq![
                FileV { generation: active_merge_gen, bytes: Seq::<u8>::empty() },
            ]);
        }
        let n = self.keydir.len();
        let mut i: usize = 0;
        while i < n
            invariant
                *self == *old(self),
                self.inv(),
                self.log_inv(),
                old(self).active_generation + old(self).keydir.entries@.len() + 1 <= u64::MAX,
                old_files == old(self).files_v(),
                old_kd == old(self).keydir@,
                old_entries == old(self).keydir.entries@,
                distinct_gens(old_files),
                all_entries_valid(old_files, old_kd),
                i <= n,
                n == old_entries.len(),
                merge_files@.len() >= 1,
                (forall|p: int, q: int|
                    0 <= p < q < files_view(merge_files@).len() ==> #[trigger] files_view(
                        merge_files@,
                    )[p].generation < #[trigger] files_view(merge_files@)[q].generation),
                (forall|p: int| 0 <= p < files_view(merge_files@).len() ==> (#[trigger] files_view(
                    merge_files@,
                )[p]).generation > old(self).active_generation),
                files_view(merge_files@).last().generation == active_merge_gen,
                active_merge_gen >= old(self).active_generation + 1,
                active_merge_gen <= old(self).active_generation + 1 + i,
                files_fit(files_view(merge_files@)),
                (forall|p: int| 0 <= p < files_view(merge_files@).len() ==> parses_from(
                    (#[trigger] files_view(merge_files@)[p]).bytes,
                    0,
                )),
                merge_offset == files_view(merge_files@).last().bytes.len(),
                file_size == merge_offset,
                new_keydir.wf(),
                new_keydir@ == replay_files(files_view(merge_files@)),
                (forall|k: Seq<u8>| #[trigger] new_keydir@.contains_key(k) ==> exists|j: int|
                    0 <= j < i && (#[trigger] old_entries[j]).0@ == k),
                (forall|j: int| 0 <= j < i ==> new_keydir@.contains_key(
                    (#[trigger] old_entries[j]).0@,
                )),
                (forall|k: Seq<u8>| #[trigger] new_keydir@.contains_key(k)
                    ==> old_kd.contains_key(k) && entry_value(
                    files_view(merge_files@),
                    k,
                    new_keydir@[k],
                ) == entry_value(old_files, k, old_kd[k])),
                recs == live_records(old_entries, old_files),
                recs.len() == n,
                (merged_files(
                    recs,
                    (old(self).active_generation + 1) as u64,
                    old(self).max_data_file_size,
                ) == merged_files_from(
                    files_view(merge_files@),
                    recs,
                    old(self).max_data_file_size,
                    i as int,
                )),
            decreases n - i,
        {
            let ghost active_merge_gen_before = active_merge_gen;
            let pair_key = self.keydir.entries[i].0.clone();
            let val = self.keydir.entries[i].1;
            proof {
                assert(pair_key@ =~= old_entries[i as int].0@);
                lemma_kd_map_index(old_entries, i as int);
                assert(old_kd.contains_key(pair_key@));
                assert(old_kd[pair_key@] == val);
                assert(entry_valid(old_files, pair_key@, val));
                let j = choose|j: int|
                    #![trigger old_files[j]]
                    0 <= j < old_files.len() && old_files[j].generation == val.data_file_gen
                        && valid_in_file(old_files[j].bytes, pair_key@, val);
                assert(self.data_files@[j].generation == val.data_file_gen);
            }
            let fi = find_data_file_index(&self.data_files, val.data_file_gen);
            let ghost vv = entry_value(old_files, pair_key@, val);
            proof {
                let j = choose|j: int|
                    #![trigger old_files[j]]
                    0 <= j < old_files.len() && old_files[j].generation == val.data_file_gen
                        && valid_in_file(old_files[j].bytes, pair_key@, val);
                lemma_gen_index_unique(old_files, j, fi as int);
                lemma_entry_value_at(old_files, pair_key@, val, fi as int);
                assert(valid_in_file(old_files[fi as int].bytes, pair_key@, val));
                lemma_encode_decode(old_files[fi as int].bytes, val.index.offset as int);
                assert(rec_of(
                    spec_decode(old_files[fi as int].bytes, val.index.offset as int),
                ).value == Some(vv));
            }
            let file = &self.data_files[fi];
            let blen = file.bytes.len();
            proof {
                assert(val.index.offset as int + val.index.len as int <= blen as int);
            }
            let off = val.index.offset as usize;
            let l = val.index.len as usize;
            let buffer: Vec<u8> = slice_to_vec(slice_subrange(file.bytes.as_slice(), off, off + l));
            let bytes_read = buffer.len();
            proof {
                assert(buffer@ =~= old_files[fi as int].bytes.subrange(
                    val.index.offset as int,
                    val.index.offset as int + val.index.len as int,
                ));
                assert(buffer@ == spec_encode(pair_key@, Some(vv)));
            }
            let ghost mf_old = files_view(merge_files@);
            let ghost enc = spec_encode(pair_key@, Some(vv));
            let ghost e_m = KeyDirEntry {
                data_file_gen: active_merge_gen,
                index: LogIndex { offset: merge_offset, len: val.index.len },
            };
            let ml = merge_files.len() - 1;
            merge_files[ml].bytes.extend_from_slice(buffer.as_slice());
            let new_mlen = merge_files[ml].bytes.len();
            proof {
                let ext = mf_old.update(
                    mf_old.len() - 1,
                    FileV {
                        generation: active_merge_gen,
                        bytes: mf_old.last().bytes + enc,
                    },
                );
                assert(merge_files@[ml as int].bytes@ =~= mf_old.last().bytes + enc);
                assert(files_view(merge_files@) =~= ext);
                assert(extended_last(mf_old, ext, enc));
                lemma_replay_files_snoc(mf_old, ext, pair_key@, Some(vv));
                lemma_parses_from_append(mf_old.last().bytes, 0, pair_key@, Some(vv));
                lemma_replay_files_valid(mf_old);
                lemma_valid_entries_extend(mf_old, ext, enc, new_keydir@);
                assert(ext.last().bytes.subrange(
                    merge_offset as int,
                    merge_offset as int + enc.len() as int,
                ) =~= enc);
                lemma_decode_encode(ext.last().bytes, merge_offset as int, pair_key@, Some(vv));
                assert(valid_in_file(ext.last().bytes, pair_key@, e_m));
                lemma_entry_value_at(ext, pair_key@, e_m, ext.len() - 1);
                assert(entry_value(ext, pair_key@, e_m) == vv);
            }
            new_keydir.set(pair_key, active_merge_gen, LogIndex { offset: merge_offset, len: val.index.len });
            proof {
                assert(new_keydir@ == replay_files(files_view(merge_files@)));
                assert(merge_offset + bytes_read as u64 == new_mlen as u64);
            }
            merge_offset = merge_offset + bytes_read as u64;
            file_size = file_size + bytes_read as u64;
            let ghost kd_mid = new_keydir@;
            let ghost mf_mid = files_view(merge_files@);
            // Rotate the merge file if it exceeded the size threshold
            if file_size > self.max_data_file_size {
                self.rotate_merge_data_file(
                    &mut active_merge_gen,
                    &mut merge_files,
                    &mut file_size,
                    &mut merge_offset,
                );
                proof {
                    let f = FileV { generation: active_merge_gen, bytes: Seq::<u8>::empty() };
                    lemma_replay_files_from_push(Map::empty(), mf_mid, f, 0);
                    lemma_replay_files_valid(mf_mid);
                    lemma_valid_entries_push(mf_mid, f, kd_mid);
                }
            }
            proof {
                let fstep = merge_step(
                    mf_old,
                    recs[i as int].0,
                    recs[i as int].1,
                    self.max_data_file_size,
                );
                assert(recs[i as int].0 == pair_key@);
                assert(recs[i as int].1 == vv);
                assert(mf_old.last().generation == active_merge_gen_before);
                assert(appended_files(mf_old, enc) =~= mf_old.update(
                    mf_old.len() - 1,
                    FileV {
                        generation: active_merge_gen_before,
                        bytes: mf_old.last().bytes + enc,
                    },
                ));
                assert(files_view(merge_files@) =~= fstep);
                assert(merged_files_from(
                    mf_old,
                    recs,
                    self.max_data_file_size,
                    i as int,
                ) == merged_files_from(fstep, recs, self.max_data_file_size, i + 1));
            }
            i = i + 1;
            proof {
                assert forall|k: Seq<u8>| #[trigger] new_keydir@.contains_key(k) implies exists|
                    j: int,
                | 0 <= j < i && (#[trigger] old_entries[j]).0@ == k by {
                    if k == old_entries[i - 1].0@ {
                        assert(0 <= i - 1 < i && old_entries[i - 1].0@ == k);
                    } else {
                        assert(kd_mid.remove(old_entries[i - 1].0@).contains_key(k)
                            || new_keydir@.contains_key(k));
                    }
                }
            }
        }
        proof {
            assert forall|k: Seq<u8>| old_kd.contains_key(k) implies new_keydir@.contains_key(
                k,
            ) by {
                lemma_kd_map_contains(old_entries, k);
            }
            assert(merged_files_from(
                files_view(merge_files@),
                recs,
                self.max_data_file_size,
                n as int,
            ) == files_view(merge_files@));
        }
        self.active_generation = active_merge_gen;
        self.data_files = merge_files;
        self.active_data_file_size = file_size;
        self.keydir = new_keydir;
        proof {
            assert(self.model() =~= old(self).model());
        }
        Ok(())
    }
}

/// The index of the data file with the given generation, which must be
/// present.
pub fn find_data_file_index(data_files: &Vec<DataFile>, gen: u64) -> (r: usize)
    requires
        exists|i: int| 0 <= i < data_files@.len() && (#[trigger] data_files@[i]).generation == gen,
    ensures
        r < data_files@.len(),
        data_files@[r as int].generation == gen,
{
    let n = data_files.len();
    let mut i: usize = 0;
    loop
        invariant
            i <= n,
            n == data_files@.len(),
            exists|j: int| 0 <= j < data_files@.len() && (#[trigger] data_files@[j]).generation
                == gen,
            forall|j: int| 0 <= j < i ==> (#[trigger] data_files@[j]).generation != gen,
        decreases n - i,
    {
        if i == n {
            proof {
                let j = choose|j: int|
                    0 <= j < data_files@.len() && (#[trigger] data_files@[j]).generation == gen;
                assert(false);
            }
        }
        if data_files[i].generation == gen {
            return i;
        }
        i = i + 1;
    }
}

} // verus!

//! An embedded key-value storage engine in the Bitcask style: every
//! mutation is appended as a record to the active data file, and an
//! in-memory keydir maps each live key to the byte extent of its most
//! recent record.
//!
//! The engine works over an explicit list of data files ([`DataFile`]);
//! reading a directory from disk and writing files back is the caller's
//! concern.

use vstd::prelude::*;

pub mod bufio;
pub mod datafile;
pub mod error;
pub mod keydir;
pub mod laws;
pub mod logfile;
pub mod utils;
pub mod writer;

use crate::datafile::{DataFile, FileV, files_view, parses_from};
use crate::error::{GetError, MergeError, OpenError, RemoveError, SetError};
use crate::keydir::{KeyDir, KeyDirEntry, entry_valid, live_map, lookup, replay_files,
    lemma_kd_map_dom_len, lemma_replay_files_valid};
use crate::logfile::{opt_bytes_view, spec_encode};
use crate::writer::{Writer, appended_files, live_records, merged_files, read_value};

verus! {

/// The default size, in bytes, at which the active data file is rotated.
pub const MAX_DATA_FILE_SIZE: u64 = 2 * 1024 * 1024 * 1024;  // 2 GiB

/// A handle to interact with a Rustcask storage engine.
#[derive(Debug)]
pub struct Rustcask {
    // Writes to the active data file; performs data file rotation as needed.
    pub writer: Writer,
    pub sync_mode: bool,
}

impl Rustcask {
    /// The engine is in a consistent state: the writer's structural and log
    /// invariants hold.
    pub open spec fn inv(self) -> bool {
        &&& self.writer.inv()
        &&& self.writer.log_inv()
        &&& self.sync_mode == self.writer.sync_mode
    }

    /// The observable key-value state.
    pub open spec fn model(self) -> Map<Seq<u8>, Seq<u8>> {
        self.writer.model()
    }

    /// Returns a Rustcask builder with default configuration values.
    pub fn builder() -> (r: RustcaskBuilder)
        ensures
            r.max_data_file_size == MAX_DATA_FILE_SIZE,
            r.sync_mode == false,
    {
        RustcaskBuilder::default()
    }

    /// Inserts a key-value pair into Rustcask.
    ///
    /// The encoded record is appended to the active data file before the
    /// keydir is updated, and the keydir then points at it.
    pub fn set(&mut self, key: Vec<u8>, value: Vec<u8>) -> (r: Result<(), SetError>)
        requires
            old(self).inv(),
            old(self).writer.active_generation < u64::MAX,
        ensures
            r is Ok,
            final(self).inv(),
            final(self).model() == old(self).model().insert(key@, value@),
            final(self).writer.keydir@ == old(self).writer.keydir@.insert(
                key@,
                KeyDirEntry {
                    data_file_gen: old(self).writer.active_generation,
                    index: crate::logfile::LogIndex {
                        offset: old(self).writer.active_data_file_size,
                        len: spec_encode(key@, Some(value@)).len() as u64,
                    },
                },
            ),
            (old(self).writer.keydir@.contains_key(key@) ==> exists|i: int|
                0 <= i < old(self).writer.keydir.entries@.len() && (#[trigger] old(
                    self,
                ).writer.keydir.entries@[i]).0@ == key@ && final(self).writer.keydir.entries@
                    == old(self).writer.keydir.entries@.update(
                    i,
                    (
                        key,
                        KeyDirEntry {
                            data_file_gen: old(self).writer.active_generation,
                            index: crate::logfile::LogIndex {
                                offset: old(self).writer.active_data_file_size,
                                len: spec_encode(key@, Some(value@)).len() as u64,
                            },
                        },
                    ),
                )),
            (!old(self).writer.keydir@.contains_key(key@) ==> final(self).writer.keydir.entries@
                == old(self).writer.keydir.entries@.push(
                (
                    key,
                    KeyDirEntry {
                        data_file_gen: old(self).writer.active_generation,
                        index: crate::logfile::LogIndex {
                            offset: old(self).writer.active_data_file_size,
                            len: spec_encode(key@, Some(value@)).len() as u64,
                        },
                    },
                ),
            )),
            final(self).sync_mode == old(self).sync_mode,
            final(self).writer.max_data_file_size == old(self).writer.max_data_file_size,
            (old(self).writer.active_data_file_size + spec_encode(key@, Some(value@)).len()
                >= old(self).writer.max_data_file_size) ==> {
                &&& final(self).writer.active_generation == old(self).writer.active_generation
                    + 1
                &&& final(self).writer.active_data_file_size == 0
                &&& final(self).writer.files_v() == appended_files(
                    old(self).writer.files_v(),
                    spec_encode(key@, Some(value@)),
                ).push(
                    FileV {
                        generation: (old(self).writer.active_generation + 1) as u64,
                        bytes: Seq::<u8>::empty(),
                    },
                )
            },
            (old(self).writer.active_data_file_size + spec_encode(key@, Some(value@)).len() < old(
                self,
            ).writer.max_data_file_size) ==> {
                &&& final(self).writer.active_generation == old(self).writer.active_generation
                &&& final(self).writer.active_data_file_size == old(
                    self,
                ).writer.active_data_file_size + spec_encode(key@, Some(value@)).len()
                &&& final(self).writer.files_v() == appended_files(
                    old(self).writer.files_v(),
                    spec_encode(key@, Some(value@)),
                )
            },
    {
        self.writer.set(key, value)
    }

    /// Returns the value corresponding to the key, or `None` if the key is
    /// absent.
    pub fn get(&mut self, key: &Vec<u8>) -> (r: Result<Option<Vec<u8>>, GetError>)
        requires
            old(self).inv(),
        ensures
            *final(self) == *old(self),
            match r {
                Ok(v) => opt_bytes_view(v) == lookup(old(self).model(), key@),
                Err(_) => false,
            },
    {
        let keydir_entry = match self.writer.keydir.get(key) {
            None => {
                return Ok(None);
            },
            Some(entry) => *entry,
        };
        proof {
            self.writer.lemma_inv_distinct_gens();
            lemma_replay_files_valid(self.writer.files_v());
            assert(entry_valid(self.writer.files_v(), key@, keydir_entry));
        }
        let value = read_value(&self.writer.data_files, key, &keydir_entry);
        proof {
            assert(value@ == old(self).model()[key@]);
        }
        Ok(Some(value))
    }

    /// Removes a key-value pair from the store.
    ///
    /// A tombstone record is appended to the active data file, the key is
    /// dropped from the keydir, and the previously associated value, if
    /// any, is returned.
    pub fn remove(&mut self, key: Vec<u8>) -> (r: Result<Option<Vec<u8>>, RemoveError>)
        requires
            old(self).inv(),
            old(self).writer.active_generation < u64::MAX,
        ensures
            final(self).inv(),
            final(self).model() == old(self).model().remove(key@),
            final(self).writer.keydir@ == old(self).writer.keydir@.remove(key@),
            (old(self).writer.keydir@.contains_key(key@) ==> exists|i: int|
                0 <= i < old(self).writer.keydir.entries@.len() && (#[trigger] old(
                    self,
                ).writer.keydir.entries@[i]).0@ == key@ && final(self).writer.keydir.entries@
                    == old(self).writer.keydir.entries@.remove(i)),
            (!old(self).writer.keydir@.contains_key(key@) ==> final(self).writer.keydir.entries@
                == old(self).writer.keydir.entries@),
            final(self).sync_mode == old(self).sync_mode,
            final(self).writer.max_data_file_size == old(self).writer.max_data_file_size,
            match r {
                Ok(prior) => opt_bytes_view(prior) == lookup(old(self).model(), key@),
                Err(_) => false,
            },
            (old(self).writer.active_data_file_size + spec_encode(key@, None).len() >= old(
                self,
            ).writer.max_data_file_size) ==> {
                &&& final(self).writer.active_generation == old(self).writer.active_generation
                    + 1
                &&& final(self).writer.active_data_file_size == 0
                &&& final(self).writer.files_v() == appended_files(
                    old(self).writer.files_v(),
                    spec_encode(key@, None),
                ).push(
                    FileV {
                        generation: (old(self).writer.active_generation + 1) as u64,
                        bytes: Seq::<u8>::empty(),
                    },
                )
            },
            (old(self).writer.active_data_file_size + spec_encode(key@, None).len() < old(
                self,
            ).writer.max_data_file_size) ==> {
                &&& final(self).writer.active_generation == old(self).writer.active_generation
                &&& final(self).writer.active_data_file_size == old(
                    self,
                ).writer.active_data_file_size + spec_encode(key@, None).len()
                &&& final(self).writer.files_v() == appended_files(
                    old(self).writer.files_v(),
                    spec_encode(key@, None),
                )
            },
    {
        self.writer.remove(key)
    }

    /// Compacts the store by rewriting the live record of every key into a
    /// fresh run of generations and discarding all prior data files.
    ///
    /// The observable key-value state is unchanged.
    pub fn merge(&mut self) -> (r: Result<(), MergeError>)
        requires
            old(self).inv(),
            old(self).writer.active_generation + old(self).writer.keydir.entries@.len() + 1
                <= u64::MAX,
        ensures
            r is Ok,
            final(self).inv(),
            final(self).model() == old(self).model(),
            final(self).sync_mode == old(self).sync_mode,
            final(self).writer.max_data_file_size == old(self).writer.max_data_file_size,
            final(self).writer.active_generation > old(self).writer.active_generation,
            (forall|i: int| 0 <= i < final(self).writer.files_v().len()
                ==> (#[trigger] final(self).writer.files_v()[i]).generation > old(
                self,
            ).writer.active_generation),
            (final(self).writer.files_v() == merged_files(
                live_records(old(self).writer.keydir.entries@, old(self).writer.files_v()),
                (old(self).writer.active_generation + 1) as u64,
                old(self).writer.max_data_file_size,
            )),
            final(self).writer.active_generation == final(self).writer.files_v().last().generation,
    {
        if !self.writer.can_merge() {
            let next_generation = self.writer.get_active_generation() + 1;
            return Err(
                MergeError {
                    kind: crate::error::MergeErrorKind::OutsideMergeWindow,
                    merge_generation: next_generation,
                },
            );
        }
        self.writer.merge()
    }

    /// The generation of the active data file.
    pub fn get_active_generation(&self) -> (r: u64)
        ensures
            r == self.writer.active_generation,
    {
        self.writer.get_active_generation()
    }

    /// The number of bytes in the active data file.
    pub fn get_active_data_file_size(&self) -> (r: u64)
        ensures
            r == self.writer.active_data_file_size,
    {
        self.writer.get_active_data_file_size()
    }

    /// The data files of the store, in ascending generation order.
    pub fn data_files(&self) -> (r: &Vec<DataFile>)
        ensures
            r@ == self.writer.data_files@,
    {
        &self.writer.data_files
    }
}

/// Simplifies configuration and creation of Rustcask instances.
#[derive(Debug)]
pub struct RustcaskBuilder {
    pub max_data_file_size: u64,
    /// When sync mode is true, every write is followed by a durable-write
    /// barrier before returning to the caller.
    pub sync_mode: bool,
}

impl Default for RustcaskBuilder {
    fn default() -> (r: Self)
        ensures
            r.max_data_file_size == MAX_DATA_FILE_SIZE,
            r.sync_mode == false,
    {
        Self { max_data_file_size: MAX_DATA_FILE_SIZE, sync_mode: false }
    }
}

impl RustcaskBuilder {
    /// Sets the maximum data file size. When the active data file reaches
    /// this size, it is rotated: marked read-only and replaced by a new
    /// active data file.
    pub fn set_max_data_file_size(self, max_size: u64) -> (r: Self)
        ensures
            r.max_data_file_size == max_size,
            r.sync_mode == self.sync_mode,
    {
        Self { max_data_file_size: max_size, sync_mode: self.sync_mode }
    }

    /// When sync mode is set to true, writes are made durable before
    /// returning to the caller, at the expense of reduced performance.
    pub fn set_sync_mode(self, sync_mode: bool) -> (r: Self)
        ensures
            r.max_data_file_size == self.max_data_file_size,
            r.sync_mode == sync_mode,
    {
        Self { max_data_file_size: self.max_data_file_size, sync_mode }
    }

    /// Generates a Rustcask instance over the given data files, which must
    /// be listed in ascending generation order.
    ///
    /// The keydir is rebuilt by replaying every data file. An empty
    /// directory gets a fresh, empty generation-0 file. Fails if some data
    /// file is not a clean sequence of complete records.
    pub fn open(self, data_files: Vec<DataFile>) -> (r: Result<Rustcask, OpenError>)
        requires
            forall|i: int, j: int|
                0 <= i < j < data_files@.len() ==> (#[trigger] data_files@[i]).generation
                    < (#[trigger] data_files@[j]).generation,
        ensures
            match r {
                Ok(s) => {
                    &&& s.inv()
                    &&& (forall|i: int| 0 <= i < data_files@.len() ==> parses_from(
                        (#[trigger] data_files@[i])@.bytes,
                        0,
                    ))
                    &&& s.writer.keydir@ == replay_files(files_view(data_files@))
                    &&& s.model() == live_map(
                        files_view(data_files@),
                        replay_files(files_view(data_files@)),
                    )
                    &&& s.sync_mode == self.sync_mode
                    &&& s.writer.max_data_file_size == self.max_data_file_size
                    &&& (data_files@.len() > 0 ==> {
                        &&& s.writer.files_v() == files_view(data_files@)
                        &&& s.writer.active_generation == data_files@.last().generation
                        &&& s.writer.active_data_file_size == data_files@.last().bytes@.len()
                    })
                    &&& (data_files@.len() == 0 ==> {
                        &&& s.writer.active_generation == 0
                        &&& s.writer.active_data_file_size == 0
                        &&& s.writer.files_v() == seq![
                            FileV { generation: 0u64, bytes: Seq::<u8>::empty() },
                        ]
                        &&& s.writer.keydir.entries@ == Seq::<(Vec<u8>, KeyDirEntry)>::empty()
                        &&& s.model() == Map::<Seq<u8>, Seq<u8>>::empty()
                    })
                },
                Err(e) => {
                    &&& e.kind == crate::error::OpenErrorKind::Corrupt
                    &&& exists|i: int| 0 <= i < data_files@.len() && !parses_from(
                        (#[trigger] data_files@[i])@.bytes,
                        0,
                    )
                },
            },
    {
        let keydir = match KeyDir::new(&data_files) {
            Ok(kd) => kd,
            Err(e) => {
                return Err(e);
            },
        };
        let ghost fv = files_view(data_files@);
        let writer = match Writer::new(self.sync_mode, self.max_data_file_size, data_files, keydir)
            {
            Ok(w) => w,
            Err(e) => {
                return Err(e);
            },
        };
        proof {
            if data_files@.len() == 0 {
                assert(replay_files(fv) =~= Map::<Seq<u8>, KeyDirEntry>::empty());
                assert(writer.model() =~= Map::<Seq<u8>, Seq<u8>>::empty());
                assert(live_map(fv, replay_files(fv)) =~= Map::<Seq<u8>, Seq<u8>>::empty());
                lemma_kd_map_dom_len(writer.keydir.entries@);
                assert(writer.keydir@.dom() =~= Set::<Seq<u8>>::empty());
                assert(writer.keydir.entries@ =~= Seq::<(Vec<u8>, KeyDirEntry)>::empty());
            }
        }
        Ok(Rustcask { writer, sync_mode: self.sync_mode })
    }
}

} // verus!

//! Data files: the on-disk unit of storage, and what it means for one to
//! be well formed.

use vstd::prelude::*;
use crate::logfile::{spec_decode, spec_encode, rec_of, SpecParse, SpecRecord, DecodeResult,
    decode_record, lemma_decode_bounds, lemma_decode_prefix, lemma_decode_encode};

verus! {

/// One data file of the engine directory: its generation number and its
/// bytes, a sequence of encoded records.
#[derive(Clone, Debug)]
pub struct DataFile {
    pub generation: u64,
    pub bytes: Vec<u8>,
}

/// The mathematical value of a data file.
pub ghost struct FileV {
    pub generation: u64,
    pub bytes: Seq<u8>,
}

impl View for DataFile {
    type V = FileV;

    open spec fn view(&self) -> FileV {
        FileV { generation: self.generation, bytes: self.bytes@ }
    }
}

impl DeepView for DataFile {
    type V = FileV;

    open spec fn deep_view(&self) -> FileV {
        self.view()
    }
}

/// The mathematical values of a list of data files.
pub open spec fn files_view(files: Seq<DataFile>) -> Seq<FileV> {
    Seq::new(files.len(), |i: int| files[i]@)
}

/// The bytes of a file from position `pos` on are a sequence of complete
/// records ending exactly at the end of the file.
pub open spec fn parses_from(s: Seq<u8>, pos: int) -> bool
    decreases s.len() - pos,
    when 0 <= pos <= s.len()
{
    if pos == s.len() {
        true
    } else {
        match spec_decode(s, pos) {
            SpecParse::Rec(r) => {
                if 9 <= r.len && pos + r.len <= s.len() {
                    parses_from(s, pos + r.len)
                } else {
                    false
                }
            },
            _ => false,
        }
    }
}

/// Appending an encoded record to a file that parses cleanly yields a file
/// that parses cleanly.
pub proof fn lemma_parses_from_append(s: Seq<u8>, pos: int, key: Seq<u8>, value: Option<Seq<u8>>)
    requires
        0 <= pos <= s.len(),
        parses_from(s, pos),
        key.len() < 0x1_0000_0000_0000_0000,
        (value matches Some(v) ==> v.len() < 0x1_0000_0000_0000_0000),
    ensures
        parses_from(s + spec_encode(key, value), pos),
    decreases s.len() - pos,
{
    let e = spec_encode(key, value);
    let el = e.len() as int;
    let u = s + e;
    if pos == s.len() {
        assert(u.subrange(pos, pos + el) =~= e);
        lemma_decode_encode(u, pos, key, value);
        assert(9 <= el);
        assert(parses_from(u, pos + el));
    } else {
        let r = rec_of(spec_decode(s, pos));
        lemma_decode_prefix(s, e, pos);
        lemma_parses_from_append(s, pos + r.len, key, value);
    }
}

/// Check that a data file is a clean sequence of complete records.
pub fn validate_data_file(bytes: &Vec<u8>) -> (ok: bool)
    ensures
        ok == parses_from(bytes@, 0),
        bytes@.len() < 0x1_0000_0000_0000_0000,
{
    let n = bytes.len();
    let mut pos: usize = 0;
    loop
        invariant
            pos <= n,
            n == bytes@.len(),
            parses_from(bytes@, 0) == parses_from(bytes@, pos as int),
        decreases n - pos,
    {
        if pos == n {
            return true;
        }
        match decode_record(bytes, pos) {
            DecodeResult::Record(entry, l) => {
                proof {
                    lemma_decode_bounds(bytes@, pos as int);
                }
                pos = pos + (l as usize);
            },
            DecodeResult::Incomplete => {
                return false;
            },
            DecodeResult::Malformed => {
                return false;
            },
        }
    }
}

} // verus!

//! The record codec: the self-delimiting binary encoding of a key and an
//! optional value, and an iterator over the records of a data file.

use vstd::prelude::*;
use vstd::bytes::{spec_u64_from_le_bytes, spec_u64_to_le_bytes, lemma_auto_spec_u64_to_from_le_bytes, u64_from_le_bytes, u64_to_le_bytes};
use vstd::slice::{slice_subrange, slice_to_vec};

verus! {

/// One record of a data file: a key and an optional value.
///
/// A record whose value is absent is a tombstone marking the key as deleted.
#[derive(Clone, Debug, PartialEq)]
pub struct LogFileEntry {
    pub key: Vec<u8>,
    // None is used as a tombstone marker
    pub value: Option<Vec<u8>>,
}

impl LogFileEntry {
    pub fn create_tombstone_entry(key: Vec<u8>) -> (r: Self)
        ensures
            r.key@ == key@,
            r.value is None,
    {
        Self { key, value: None }
    }
}

/// Byte extent of one record within a data file.
#[derive(Clone, Copy, Debug, PartialEq, Eq, Structural)]
pub struct LogIndex {
    // Offset of the record in bytes
    pub offset: u64,
    // Length of the record in bytes
    pub len: u64,
}

/// The mathematical value of an optional byte string.
pub open spec fn opt_bytes_view(v: Option<Vec<u8>>) -> Option<Seq<u8>> {
    match v {
        Some(b) => Some(b@),
        None => None,
    }
}

/// The on-disk encoding of a record: the key length as eight little-endian
/// bytes, the key bytes, a one-byte tag (0 for a tombstone, 1 for a present
/// value), and, for a present value, its length as eight little-endian bytes
/// followed by the value bytes.
pub open spec fn spec_encode(key: Seq<u8>, value: Option<Seq<u8>>) -> Seq<u8> {
    spec_u64_to_le_bytes(key.len() as u64) + key + match value {
        None => seq![0u8],
        Some(v) => seq![1u8] + spec_u64_to_le_bytes(v.len() as u64) + v,
    }
}

/// A decoded record together with the number of bytes it occupies.
pub ghost struct SpecRecord {
    pub key: Seq<u8>,
    pub value: Option<Seq<u8>>,
    pub len: int,
}

/// The outcome of decoding one record at a position of a byte string:
/// a complete record, too few bytes to finish a record, or a malformed
/// value tag.
pub ghost enum SpecParse {
    Rec(SpecRecord),
    Incomplete,
    Malformed,
}

/// Decode one record of `s` starting at byte `pos`.
pub open spec fn spec_decode(s: Seq<u8>, pos: int) -> SpecParse {
    let n = s.len() as int;
    if pos + 8 > n {
        SpecParse::Incomplete
    } else {
        let klen = spec_u64_from_le_bytes(s.subrange(pos, pos + 8)) as int;
        if pos + 8 + klen + 1 > n {
            SpecParse::Incomplete
        } else {
            let key = s.subrange(pos + 8, pos + 8 + klen);
            let tag = s[pos + 8 + klen];
            if tag == 0u8 {
                SpecParse::Rec(SpecRecord { key, value: None, len: 9 + klen })
            } else if tag == 1u8 {
                let q = pos + 9 + klen;
                if q + 8 > n {
                    SpecParse::Incomplete
                } else {
                    let vlen = spec_u64_from_le_bytes(s.subrange(q, q + 8)) as int;
                    if q + 8 + vlen > n {
                        SpecParse::Incomplete
                    } else {
                        SpecParse::Rec(SpecRecord {
                            key,
                            value: Some(s.subrange(q + 8, q + 8 + vlen)),
                            len: 17 + klen + vlen,
                        })
                    }
                }
            } else {
                SpecParse::Malformed
            }
        }
    }
}

/// The record decoded at a position, meaningful only when decoding succeeds.
pub open spec fn rec_of(p: SpecParse) -> SpecRecord {
    match p {
        SpecParse::Rec(r) => r,
        _ => SpecRecord { key: Seq::empty(), value: None, len: 0 },
    }
}

/// A complete record occupies at least nine bytes and lies within the string.
pub proof fn lemma_decode_bounds(s: Seq<u8>, pos: int)
    requires
        0 <= pos,
        spec_decode(s, pos) is Rec,
    ensures
        9 <= rec_of(spec_decode(s, pos)).len,
        pos + rec_of(spec_decode(s, pos)).len <= s.len(),
        rec_of(spec_decode(s, pos)).key.len() < 0x1_0000_0000_0000_0000,
        (rec_of(spec_decode(s, pos)).value matches Some(v) ==> v.len()
            < 0x1_0000_0000_0000_0000),
{
    lemma_auto_spec_u64_to_from_le_bytes();
}

/// Appending bytes to a string does not change a record already decoded
/// within it.
pub proof fn lemma_decode_prefix(s: Seq<u8>, t: Seq<u8>, pos: int)
    requires
        0 <= pos,
        spec_decode(s, pos) is Rec,
    ensures
        spec_decode(s + t, pos) == spec_decode(s, pos),
{
    let n = s.len() as int;
    let u = s + t;
    assert(u.subrange(pos, pos + 8) =~= s.subrange(pos, pos + 8));
    let klen = spec_u64_from_le_bytes(s.subrange(pos, pos + 8)) as int;
    assert(pos + 8 + klen + 1 <= n);
    assert(u.subrange(pos + 8, pos + 8 + klen) =~= s.subrange(pos + 8, pos + 8 + klen));
    assert(u[pos + 8 + klen] == s[pos + 8 + klen]);
    let tag = s[pos + 8 + klen];
    if tag == 1u8 {
        let q = pos + 9 + klen;
        assert(q + 8 <= n);
        assert(u.subrange(q, q + 8) =~= s.subrange(q, q + 8));
        let vlen = spec_u64_from_le_bytes(s.subrange(q, q + 8)) as int;
        assert(q + 8 + vlen <= n);
        assert(u.subrange(q + 8, q + 8 + vlen) =~= s.subrange(q + 8, q + 8 + vlen));
    }
}

/// Round trip: wherever a string carries the encoding of a record, decoding
/// at that position yields exactly that record.
pub proof fn lemma_decode_encode(s: Seq<u8>, pos: int, key: Seq<u8>, value: Option<Seq<u8>>)
    requires
        0 <= pos,
        key.len() < 0x1_0000_0000_0000_0000,
        (value matches Some(v) ==> v.len() < 0x1_0000_0000_0000_0000),
        pos + spec_encode(key, value).len() <= s.len(),
        s.subrange(pos, pos + spec_encode(key, value).len() as int) == spec_encode(key, value),
    ensures
        spec_decode(s, pos) == SpecParse::Rec(SpecRecord {
            key,
            value,
            len: spec_encode(key, value).len() as int,
        }),
{
    lemma_auto_spec_u64_to_from_le_bytes();
    let e = spec_encode(key, value);
    let el = e.len() as int;
    let klen = key.len() as int;
    assert(spec_u64_to_le_bytes(key.len() as u64).len() == 8);
    assert(s.subrange(pos, pos + 8) =~= e.subrange(0, 8));
    assert(e.subrange(0, 8) =~= spec_u64_to_le_bytes(key.len() as u64));
    assert(spec_u64_from_le_bytes(s.subrange(pos, pos + 8)) == key.len() as u64);
    assert(s.subrange(pos + 8, pos + 8 + klen) =~= e.subrange(8, 8 + klen));
    assert(e.subrange(8, 8 + klen) =~= key);
    match value {
        None => {
            assert(el == 9 + klen);
            assert(s[pos + 8 + klen] == e[8 + klen]);
            assert(e[8 + klen] == 0u8);
        },
        Some(v) => {
            let vlen = v.len() as int;
            assert(el == 17 + klen + vlen);
            assert(s[pos + 8 + klen] == e[8 + klen]);
            assert(e[8 + klen] == 1u8);
            let q = pos + 9 + klen;
            assert(s.subrange(q, q + 8) =~= e.subrange(9 + klen, 17 + klen));
            assert(e.subrange(9 + klen, 17 + klen) =~= spec_u64_to_le_bytes(v.len() as u64));
            assert(spec_u64_from_le_bytes(s.subrange(q, q + 8)) == v.len() as u64);
            assert(s.subrange(q + 8, q + 8 + vlen) =~= e.subrange(17 + klen, 17 + klen + vlen));
            assert(e.subrange(17 + klen, 17 + klen + vlen) =~= v);
        },
    }
}

/// Canonicity: the bytes a record was decoded from are exactly the encoding
/// of that record.
pub proof fn lemma_encode_decode(s: Seq<u8>, pos: int)
    requires
        0 <= pos,
        spec_decode(s, pos) is Rec,
    ensures
        ({
            let r = rec_of(spec_decode(s, pos));
            &&& r.len == spec_encode(r.key, r.value).len()
            &&& s.subrange(pos, pos + r.len) == spec_encode(r.key, r.value)
        }),
{
    lemma_auto_spec_u64_to_from_le_bytes();
    let r = rec_of(spec_decode(s, pos));
    let klen = spec_u64_from_le_bytes(s.subrange(pos, pos + 8)) as int;
    assert(r.key.len() == klen);
    assert(r.key.len() as u64 == spec_u64_from_le_bytes(s.subrange(pos, pos + 8)));
    assert(spec_u64_to_le_bytes(r.key.len() as u64) == s.subrange(pos, pos + 8));
    let e = spec_encode(r.key, r.value);
    match r.value {
        None => {
            assert(s[pos + 8 + klen] == 0u8);
            assert(e =~= s.subrange(pos, pos + 8) + s.subrange(pos + 8, pos + 8 + klen)
                + seq![0u8]);
            assert(s.subrange(pos, pos + r.len) =~= e);
        },
        Some(v) => {
            let q = pos + 9 + klen;
            let vlen = spec_u64_from_le_bytes(s.subrange(q, q + 8)) as int;
            assert(v.len() == vlen);
            assert(v.len() as u64 == spec_u64_from_le_bytes(s.subrange(q, q + 8)));
            assert(spec_u64_to_le_bytes(v.len() as u64) == s.subrange(q, q + 8));
            assert(s[pos + 8 + klen] == 1u8);
            assert(e =~= s.subrange(pos, pos + 8) + s.subrange(pos + 8, pos + 8 + klen)
                + seq![1u8] + s.subrange(q, q + 8) + s.subrange(q + 8, q + 8 + vlen));
            assert(s.subrange(pos, pos + r.len) =~= e);
        },
    }
}

/// Encode a record into the byte form that `spec_encode` describes.
pub fn encode_entry(entry: &LogFileEntry) -> (r: Vec<u8>)
    ensures
        r@ == spec_encode(entry.key@, opt_bytes_view(entry.value)),
        9 <= r@.len(),
{
    let mut out: Vec<u8> = u64_to_le_bytes(entry.key.len() as u64);
    out.extend_from_slice(entry.key.as_slice());
    match &entry.value {
        None => {
            out.push(0u8);
            proof {
                assert(out@ =~= spec_encode(entry.key@, opt_bytes_view(entry.value)));
            }
        },
        Some(v) => {
            out.push(1u8);
            let mut vlen_bytes = u64_to_le_bytes(v.len() as u64);
            out.append(&mut vlen_bytes);
            out.extend_from_slice(v.as_slice());
            proof {
                assert(out@ =~= spec_encode(entry.key@, opt_bytes_view(entry.value)));
            }
        },
    }
    out
}

/// The outcome of decoding one record from a byte vector.
pub enum DecodeResult {
    /// A complete record and the number of bytes it occupies.
    Record(LogFileEntry, u64),
    /// Too few bytes remain to finish a record.
    Incomplete,
    /// The value tag is neither 0 nor 1.
    Malformed,
}

/// Decode one record of `bytes` starting at byte `pos`.
pub fn decode_record(bytes: &Vec<u8>, pos: usize) -> (r: DecodeResult)
    requires
        pos <= bytes@.len(),
    ensures
        match r {
            DecodeResult::Record(e, l) => spec_decode(bytes@, pos as int) == SpecParse::Rec(
                SpecRecord { key: e.key@, value: opt_bytes_view(e.value), len: l as int },
            ),
            DecodeResult::Incomplete => spec_decode(bytes@, pos as int) is Incomplete,
            DecodeResult::Malformed => spec_decode(bytes@, pos as int) is Malformed,
        },
{
    let n = bytes.len();
    if n - pos < 8 {
        return DecodeResult::Incomplete;
    }
    let klen_u64 = u64_from_le_bytes(slice_subrange(bytes.as_slice(), pos, pos + 8));
    let remaining: usize = n - pos - 8;
    if klen_u64 >= remaining as u64 {
        // The key and its tag byte do not fit in what is left.
        return DecodeResult::Incomplete;
    }
    let klen = klen_u64 as usize;
    let key: Vec<u8> = slice_to_vec(slice_subrange(bytes.as_slice(), pos + 8, pos + 8 + klen));
    let tag = bytes[pos + 8 + klen];
    if tag == 0u8 {
        let entry = LogFileEntry { key, value: None };
        return DecodeResult::Record(entry, (9 + klen) as u64);
    }
    if tag != 1u8 {
        return DecodeResult::Malformed;
    }
    let q = pos + 9 + klen;
    if n - q < 8 {
        return DecodeResult::Incomplete;
    }
    let vlen_u64 = u64_from_le_bytes(slice_subrange(bytes.as_slice(), q, q + 8));
    let vremaining: usize = n - q - 8;
    if vlen_u64 > vremaining as u64 {
        return DecodeResult::Incomplete;
    }
    let vlen = vlen_u64 as usize;
    let value: Vec<u8> = slice_to_vec(slice_subrange(bytes.as_slice(), q + 8, q + 8 + vlen));
    let entry = LogFileEntry { key, value: Some(value) };
    DecodeResult::Record(entry, (17 + klen + vlen) as u64)
}

/// A lazy, single-pass iterator over the records of a data file, yielding
/// each record together with its byte extent.
pub struct LogFileIterator {
    reader: crate::bufio::BufReaderWithPos,
}

impl LogFileIterator {
    /// The bytes being iterated.
    pub closed spec fn data(self) -> Seq<u8> {
        self.reader@.data
    }

    /// The position of the next record.
    pub closed spec fn pos(self) -> int {
        self.reader@.pos
    }

    /// The remainder of the file is a clean sequence of complete records.
    pub closed spec fn wf(self) -> bool {
        &&& 0 <= self.pos() <= self.data().len()
        &&& crate::datafile::parses_from(self.data(), self.pos())
    }

    /// Iterate the records of `data`, which must be a clean sequence of
    /// complete records, from offset 0.
    pub fn new(data: Vec<u8>) -> (r: Self)
        requires
            crate::datafile::parses_from(data@, 0),
        ensures
            r.wf(),
            r.data() == data@,
            r.pos() == 0,
    {
        LogFileIterator { reader: crate::bufio::BufReaderWithPos::new(data) }
    }

    /// Decode the record at the current position and step past it; `None`
    /// at clean end of file.
    pub fn next(&mut self) -> (r: Option<(LogFileEntry, LogIndex)>)
        requires
            old(self).wf(),
        ensures
            final(self).wf(),
            final(self).data() == old(self).data(),
            match r {
                Some(pair) => {
                    &&& spec_decode(old(self).data(), old(self).pos()) == SpecParse::Rec(
                        SpecRecord {
                            key: pair.0.key@,
                            value: opt_bytes_view(pair.0.value),
                            len: pair.1.len as int,
                        },
                    )
                    &&& pair.1.offset == old(self).pos()
                    &&& final(self).pos() == old(self).pos() + pair.1.len
                },
                None => old(self).pos() == old(self).data().len() && final(self).pos() == old(
                    self,
                ).pos(),
            },
    {
        let offset = self.reader.pos();
        let data_len = self.reader.get_ref().len();
        if offset == data_len as u64 {
            return None;
        }
        match decode_record(self.reader.get_ref(), offset as usize) {
            DecodeResult::Record(entry, len) => {
                proof {
                    lemma_decode_bounds(self.data(), self.pos());
                }
                self.reader.seek(offset + len);
                Some((entry, LogIndex { offset, len }))
            },
            DecodeResult::Incomplete => {
                proof {
                    assert(false);
                }
                None
            },
            DecodeResult::Malformed => {
                proof {
                    assert(false);
                }
                None
            },
        }
    }
}

} // verus!

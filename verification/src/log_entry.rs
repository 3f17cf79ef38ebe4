//! The record codec: the durable unit of the log and its byte framing.
//!
//! A record is framed as
//! `key_length (u64, little endian) | key bytes | value_length (u64, little
//! endian) | value bytes`, so a record occupies `16 + key_length +
//! value_length` bytes and every offset is computable without decoding the
//! payloads.  A record whose value is empty is a tombstone: it marks the
//! deletion of its key.

use vstd::prelude::*;

verus! {

use vstd::bytes::lemma_auto_spec_u64_to_from_le_bytes;
use vstd::bytes::spec_u64_from_le_bytes;
use vstd::bytes::spec_u64_to_le_bytes;
use vstd::bytes::u64_from_le_bytes;
use vstd::bytes::u64_to_le_bytes;
use vstd::slice::slice_subrange;
use vstd::slice::slice_to_vec;

use crate::error::DataFileError;

/// The basic unit of the log: one key paired with one value.
///
/// A `LogEntry` whose value is empty is a tombstone.
#[derive(Debug, Clone)]
pub struct LogEntry {
    pub key: Vec<u8>,
    pub value: Vec<u8>,
}

/// The framed byte image of a record with the given key and value.
pub open spec fn spec_encode(key: Seq<u8>, value: Seq<u8>) -> Seq<u8> {
    spec_u64_to_le_bytes(key.len() as u64) + key + spec_u64_to_le_bytes(value.len() as u64)
        + value
}

/// The key length declared by the record framing at `off` in `data`.
pub open spec fn spec_key_size_at(data: Seq<u8>, off: int) -> int {
    spec_u64_from_le_bytes(data.subrange(off, off + 8)) as int
}

/// The value length declared by the record framing at `off` in `data`.
pub open spec fn spec_value_size_at(data: Seq<u8>, off: int) -> int {
    let ksz = spec_key_size_at(data, off);
    spec_u64_from_le_bytes(data.subrange(off + 8 + ksz, off + 16 + ksz)) as int
}

/// Whether a whole record can be decoded from `data` starting at `off`:
/// sixteen header bytes must be available and the declared key and value
/// lengths must not reach past the end of `data`.
pub open spec fn can_decode_at(data: Seq<u8>, off: int) -> bool {
    &&& 0 <= off
    &&& off + 16 <= data.len()
    &&& off + 16 + spec_key_size_at(data, off) <= data.len()
    &&& off + 16 + spec_key_size_at(data, off) + spec_value_size_at(data, off) <= data.len()
}

/// The key bytes of the record at `off` in `data`.
pub open spec fn spec_key_at(data: Seq<u8>, off: int) -> Seq<u8> {
    let ksz = spec_key_size_at(data, off);
    data.subrange(off + 8, off + 8 + ksz)
}

/// The value bytes of the record at `off` in `data`.
pub open spec fn spec_value_at(data: Seq<u8>, off: int) -> Seq<u8> {
    let ksz = spec_key_size_at(data, off);
    let vsz = spec_value_size_at(data, off);
    data.subrange(off + 16 + ksz, off + 16 + ksz + vsz)
}

/// The total on-disk size of the record at `off` in `data`.
pub open spec fn spec_record_size_at(data: Seq<u8>, off: int) -> int {
    16 + spec_key_size_at(data, off) + spec_value_size_at(data, off)
}

impl LogEntry {
    /// The total on-disk size of this record's encoding.
    pub fn size(&self) -> (res: u64)
        requires
            16 + self.key@.len() + self.value@.len() <= u64::MAX,
        ensures
            res == 16 + self.key@.len() + self.value@.len(),
    {
        16 + self.key_size() + self.value_size()
    }

    /// The length of the key in bytes.
    pub fn key_size(&self) -> (res: u64)
        ensures
            res == self.key@.len(),
    {
        self.key.len() as u64
    }

    /// The length of the value in bytes.
    pub fn value_size(&self) -> (res: u64)
        ensures
            res == self.value@.len(),
    {
        self.value.len() as u64
    }

    /// Encodes this record into its framed byte image.
    pub fn encode(&self) -> (res: Vec<u8>)
        ensures
            res@ == spec_encode(self.key@, self.value@),
            res@.len() == 16 + self.key@.len() + self.value@.len(),
    {
        let mut out = u64_to_le_bytes(self.key.len() as u64);
        push_bytes(&mut out, self.key.as_slice());
        let mut vlen = u64_to_le_bytes(self.value.len() as u64);
        out.append(&mut vlen);
        push_bytes(&mut out, self.value.as_slice());
        proof {
            assert(out@ =~= spec_encode(self.key@, self.value@));
        }
        out
    }

    /// Decodes the record framed at `offset` in `data`.
    ///
    /// Fails with `ErrMalformedRecord` exactly when fewer than sixteen
    /// header bytes remain or the declared key or value length reaches past
    /// the end of `data`.
    pub fn decode(data: &Vec<u8>, offset: usize) -> (res: Result<LogEntry, DataFileError>)
        ensures
            match res {
                Ok(entry) => {
                    &&& can_decode_at(data@, offset as int)
                    &&& entry.key@ == spec_key_at(data@, offset as int)
                    &&& entry.value@ == spec_value_at(data@, offset as int)
                },
                Err(e) => {
                    &&& !can_decode_at(data@, offset as int)
                    &&& e == DataFileError::ErrMalformedRecord
                },
            },
    {
        let n = data.len();
        if offset > n || n - offset < 16 {
            return Err(DataFileError::ErrMalformedRecord);
        }
        let rem = n - offset;
        let ksz64 = u64_from_le_bytes(slice_subrange(data.as_slice(), offset, offset + 8));
        if ksz64 > (rem - 16) as u64 {
            return Err(DataFileError::ErrMalformedRecord);
        }
        let ksz = ksz64 as usize;
        let key = slice_to_vec(slice_subrange(data.as_slice(), offset + 8, offset + 8 + ksz));
        let vsz64 = u64_from_le_bytes(
            slice_subrange(data.as_slice(), offset + 8 + ksz, offset + 16 + ksz),
        );
        if vsz64 > (rem - 16 - ksz) as u64 {
            return Err(DataFileError::ErrMalformedRecord);
        }
        let vsz = vsz64 as usize;
        let value = slice_to_vec(
            slice_subrange(data.as_slice(), offset + 16 + ksz, offset + 16 + ksz + vsz),
        );
        Ok(LogEntry { key, value })
    }
}

/// Appends every byte of `src` to `dst`, in order.
pub fn push_bytes(dst: &mut Vec<u8>, src: &[u8])
    ensures
        final(dst)@ == old(dst)@ + src@,
{
    let mut i: usize = 0;
    while i < src.len()
        invariant
            i <= src@.len(),
            dst@ == old(dst)@ + src@.subrange(0, i as int),
        decreases src@.len() - i,
    {
        dst.push(*vstd::slice::slice_index_get(src, i));
        proof {
            assert(dst@ =~= old(dst)@ + src@.subrange(0, i + 1));
        }
        i = i + 1;
    }
    proof {
        assert(src@.subrange(0, src@.len() as int) =~= src@);
    }
}

/// Whether two byte slices hold the same bytes.
pub fn bytes_eq(a: &[u8], b: &[u8]) -> (res: bool)
    ensures
        res == (a@ == b@),
{
    if a.len() != b.len() {
        return false;
    }
    let mut i: usize = 0;
    while i < a.len()
        invariant
            a@.len() == b@.len(),
            i <= a@.len(),
            forall|j: int| 0 <= j < i ==> a@[j] == b@[j],
        decreases a@.len() - i,
    {
        if *vstd::slice::slice_index_get(a, i) != *vstd::slice::slice_index_get(b, i) {
            return false;
        }
        i = i + 1;
    }
    proof {
        assert(a@ =~= b@);
    }
    true
}

/// A fresh vector holding the same bytes as `src`.
pub fn copy_bytes(src: &Vec<u8>) -> (res: Vec<u8>)
    ensures
        res@ == src@,
{
    let mut out: Vec<u8> = Vec::new();
    push_bytes(&mut out, src.as_slice());
    out
}

/// Round-trip of the codec: a record encoded at the tail of any byte
/// sequence decodes back to exactly the key and value it was built from.
pub proof fn lemma_encode_decodes(data: Seq<u8>, off: int, key: Seq<u8>, value: Seq<u8>)
    requires
        0 <= off,
        key.len() <= u64::MAX,
        value.len() <= u64::MAX,
        off + 16 + key.len() + value.len() <= data.len(),
        data.subrange(off, off + 16 + key.len() + value.len()) == spec_encode(key, value),
    ensures
        can_decode_at(data, off),
        spec_key_size_at(data, off) == key.len(),
        spec_value_size_at(data, off) == value.len(),
        spec_key_at(data, off) == key,
        spec_value_at(data, off) == value,
        spec_record_size_at(data, off) == 16 + key.len() + value.len(),
{
    lemma_auto_spec_u64_to_from_le_bytes();
    let enc = spec_encode(key, value);
    let k = key.len() as int;
    let v = value.len() as int;
    assert(spec_u64_to_le_bytes(key.len() as u64).len() == 8);
    assert(spec_u64_to_le_bytes(value.len() as u64).len() == 8);
    assert(enc.len() == 16 + k + v);
    let ka = spec_u64_to_le_bytes(key.len() as u64);
    let va = spec_u64_to_le_bytes(value.len() as u64);
    assert forall|i: int| 0 <= i < 16 + k + v implies data[off + i] == enc[i] by {
        assert(data.subrange(off, off + 16 + k + v)[i] == data[off + i]);
    }
    assert forall|i: int| 0 <= i < 16 + k + v implies enc[i] == (if i < 8 {
        ka[i]
    } else if i < 8 + k {
        key[i - 8]
    } else if i < 16 + k {
        va[i - 8 - k]
    } else {
        value[i - 16 - k]
    }) by {
        assert(enc[i] == (ka + key + va + value)[i]);
    }
    assert(data.subrange(off, off + 8) =~= ka);
    assert(spec_key_size_at(data, off) == k);
    assert forall|i: int| 0 <= i < 8 implies data.subrange(off + 8 + k, off + 16 + k)[i]
        == va[i] by {
        let j = 8 + k + i;
        assert(data[off + j] == enc[j]);
        assert(data.subrange(off + 8 + k, off + 16 + k)[i] == data[off + 8 + k + i]);
        assert(off + 8 + k + i == off + j);
    }
    assert(data.subrange(off + 8 + k, off + 16 + k) =~= va);
    assert(spec_value_size_at(data, off) == v);
    assert forall|i: int| 0 <= i < k implies data.subrange(off + 8, off + 8 + k)[i] == key[i] by {
        let j = 8 + i;
        assert(data[off + j] == enc[j]);
        assert(data.subrange(off + 8, off + 8 + k)[i] == data[off + 8 + i]);
        assert(off + 8 + i == off + j);
    }
    assert(spec_key_at(data, off) =~= key);
    assert forall|i: int| 0 <= i < v implies data.subrange(off + 16 + k, off + 16 + k + v)[i]
        == value[i] by {
        let j = 16 + k + i;
        assert(data[off + j] == enc[j]);
        assert(data.subrange(off + 16 + k, off + 16 + k + v)[i] == data[off + 16 + k + i]);
        assert(off + 16 + k + i == off + j);
    }
    assert(spec_value_at(data, off) =~= value);
}

} // verus!

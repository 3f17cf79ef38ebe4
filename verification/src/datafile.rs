//! The log file: an append-only sequence of framed records.
//!
//! The file's content is modelled as the byte sequence it holds.  A replay
//! scans the bytes from the start, decoding one record after another, and
//! stops at the first framing failure, which is taken as the end of the
//! valid log content.  Folding the replayed records, last writer wins and a
//! tombstone deletes its key, yields the live map of the log; compaction
//! rewrites the file so that exactly the live map remains, one record per
//! surviving key and no tombstones.

use vstd::prelude::*;

verus! {

use crate::error::DataFileError;
use crate::log_entry::LogEntry;
use crate::log_entry::can_decode_at;
use crate::log_entry::copy_bytes;
use crate::log_entry::push_bytes;
use crate::log_entry::spec_encode;
use crate::log_entry::spec_key_at;
use crate::log_entry::spec_key_size_at;
use crate::log_entry::spec_record_size_at;
use crate::log_entry::spec_value_at;
use crate::log_entry::spec_value_size_at;
use crate::log_entry::lemma_encode_decodes;

/// The mathematical image of one replayed record: its key and value bytes
/// and the offsets at which its key and value payloads start.
pub struct RecordView {
    pub key: Seq<u8>,
    pub value: Seq<u8>,
    pub key_offset: int,
    pub value_offset: int,
}

/// The records decodable from `data` starting at `off`, in log order.
/// The scan stops at the first offset where no whole record can be decoded.
pub open spec fn spec_records(data: Seq<u8>, off: int) -> Seq<RecordView>
    decreases data.len() - off,
{
    if !can_decode_at(data, off) {
        Seq::empty()
    } else {
        seq![
            RecordView {
                key: spec_key_at(data, off),
                value: spec_value_at(data, off),
                key_offset: off + 8,
                value_offset: off + 16 + spec_key_size_at(data, off),
            },
        ] + spec_records(data, off + spec_record_size_at(data, off))
    }
}

/// The offset at which the scan starting at `off` stops.
pub open spec fn spec_log_end(data: Seq<u8>, off: int) -> int
    decreases data.len() - off,
{
    if !can_decode_at(data, off) {
        off
    } else {
        spec_log_end(data, off + spec_record_size_at(data, off))
    }
}

/// Folds a record sequence into the latest live record per key: a later
/// record for a key supersedes an earlier one, and a tombstone (empty
/// value) deletes the key.
pub open spec fn spec_live_recs(recs: Seq<RecordView>) -> Map<Seq<u8>, RecordView>
    decreases recs.len(),
{
    if recs.len() == 0 {
        Map::empty()
    } else {
        let m = spec_live_recs(recs.drop_last());
        let r = recs.last();
        if r.value.len() == 0 {
            m.remove(r.key)
        } else {
            m.insert(r.key, r)
        }
    }
}

/// The live map of a log: each live key mapped to its latest value bytes.
pub open spec fn spec_live_bytes(data: Seq<u8>) -> Map<Seq<u8>, Seq<u8>> {
    spec_live_recs(spec_records(data, 0)).map_values(|r: RecordView| r.value)
}

/// Decoding reads only the record's own bytes: two sequences that agree on
/// the record's range decode to the same record.
pub proof fn lemma_decode_frame(d1: Seq<u8>, d2: Seq<u8>, off: int)
    requires
        can_decode_at(d1, off),
        off + spec_record_size_at(d1, off) <= d2.len(),
        d2.subrange(off, off + spec_record_size_at(d1, off)) == d1.subrange(
            off,
            off + spec_record_size_at(d1, off),
        ),
    ensures
        can_decode_at(d2, off),
        spec_key_size_at(d2, off) == spec_key_size_at(d1, off),
        spec_value_size_at(d2, off) == spec_value_size_at(d1, off),
        spec_key_at(d2, off) == spec_key_at(d1, off),
        spec_value_at(d2, off) == spec_value_at(d1, off),
        spec_record_size_at(d2, off) == spec_record_size_at(d1, off),
{
    let k = spec_key_size_at(d1, off);
    let v = spec_value_size_at(d1, off);
    let size = 16 + k + v;
    assert forall|i: int| off <= i < off + size implies #[trigger] d2[i] == d1[i] by {
        assert(d2.subrange(off, off + size)[i - off] == d2[i]);
        assert(d1.subrange(off, off + size)[i - off] == d1[i]);
    }
    assert forall|i: int| 0 <= i < 8 implies #[trigger] d2.subrange(off, off + 8)[i]
        == d1.subrange(off, off + 8)[i] by {
        assert(d2[off + i] == d1[off + i]);
    }
    assert(d2.subrange(off, off + 8) =~= d1.subrange(off, off + 8));
    assert(spec_key_size_at(d2, off) == k);
    assert forall|i: int| 0 <= i < 8 implies #[trigger] d2.subrange(off + 8 + k, off + 16 + k)[i]
        == d1.subrange(off + 8 + k, off + 16 + k)[i] by {
        let j = 8 + k + i;
        assert(d2[off + j] == d1[off + j]);
        assert(d2.subrange(off + 8 + k, off + 16 + k)[i] == d2[off + 8 + k + i]);
        assert(d1.subrange(off + 8 + k, off + 16 + k)[i] == d1[off + 8 + k + i]);
        assert(off + 8 + k + i == off + j);
    }
    assert(d2.subrange(off + 8 + k, off + 16 + k) =~= d1.subrange(off + 8 + k, off + 16 + k));
    assert(spec_value_size_at(d2, off) == v);
    assert forall|i: int| 0 <= i < k implies #[trigger] d2.subrange(off + 8, off + 8 + k)[i]
        == d1.subrange(off + 8, off + 8 + k)[i] by {
        let j = 8 + i;
        assert(d2[off + j] == d1[off + j]);
        assert(d2.subrange(off + 8, off + 8 + k)[i] == d2[off + 8 + i]);
        assert(d1.subrange(off + 8, off + 8 + k)[i] == d1[off + 8 + i]);
        assert(off + 8 + i == off + j);
    }
    assert(spec_key_at(d2, off) =~= spec_key_at(d1, off));
    assert forall|i: int| 0 <= i < v implies #[trigger] d2.subrange(off + 16 + k, off + 16 + k + v)[i]
        == d1.subrange(off + 16 + k, off + 16 + k + v)[i] by {
        let j = 16 + k + i;
        assert(d2[off + j] == d1[off + j]);
        assert(d2.subrange(off + 16 + k, off + 16 + k + v)[i] == d2[off + 16 + k + i]);
        assert(d1.subrange(off + 16 + k, off + 16 + k + v)[i] == d1[off + 16 + k + i]);
        assert(off + 16 + k + i == off + j);
    }
    assert(spec_value_at(d2, off) =~= spec_value_at(d1, off));
}

/// The scan never moves backwards nor past the end of the data.
pub proof fn lemma_log_end_bounds(data: Seq<u8>, off: int)
    requires
        0 <= off <= data.len(),
    ensures
        off <= spec_log_end(data, off) <= data.len(),
    decreases data.len() - off,
{
    if can_decode_at(data, off) {
        lemma_log_end_bounds(data, off + spec_record_size_at(data, off));
    }
}

/// Appending one encoded record to a fully consumed log extends its replay
/// by exactly that record, and the extended log is fully consumed again.
pub proof fn lemma_records_append(data: Seq<u8>, off: int, key: Seq<u8>, value: Seq<u8>)
    requires
        0 <= off <= data.len(),
        spec_log_end(data, off) == data.len(),
        key.len() <= u64::MAX,
        value.len() <= u64::MAX,
    ensures
        spec_records(data + spec_encode(key, value), off) == spec_records(data, off).push(
            RecordView {
                key: key,
                value: value,
                key_offset: data.len() as int + 8,
                value_offset: data.len() + 16 + key.len() as int,
            },
        ),
        spec_log_end(data + spec_encode(key, value), off) == data.len() + 16 + key.len()
            + value.len(),
    decreases data.len() - off,
{
    let data2 = data + spec_encode(key, value);
    let newrec = RecordView {
        key: key,
        value: value,
        key_offset: data.len() as int + 8,
        value_offset: data.len() + 16 + key.len() as int,
    };
    if can_decode_at(data, off) {
        let size = spec_record_size_at(data, off);
        assert(data2.subrange(off, off + size) =~= data.subrange(off, off + size));
        lemma_decode_frame(data, data2, off);
        lemma_log_end_bounds(data, off + size);
        lemma_records_append(data, off + size, key, value);
        assert(spec_records(data2, off) == seq![
            RecordView {
                key: spec_key_at(data2, off),
                value: spec_value_at(data2, off),
                key_offset: off + 8,
                value_offset: off + 16 + spec_key_size_at(data2, off),
            },
        ] + spec_records(data2, off + size));
        assert(spec_records(data2, off) =~= spec_records(data, off).push(newrec));
    } else {
        assert(spec_log_end(data, off) == off);
        assert(off == data.len());
        let enc = spec_encode(key, value);
        vstd::bytes::lemma_auto_spec_u64_to_from_le_bytes();
        assert(enc.len() == 16 + key.len() + value.len());
        assert(data2.subrange(off, off + 16 + key.len() + value.len()) =~= enc);
        lemma_encode_decodes(data2, off, key, value);
        let next = off + 16 + key.len() + value.len();
        assert(next == data2.len());
        assert(!can_decode_at(data2, next));
        assert(spec_records(data2, next) == Seq::<RecordView>::empty());
        assert(spec_log_end(data2, next) == next);
        assert(spec_record_size_at(data2, off) == 16 + key.len() + value.len());
        assert(spec_log_end(data2, off) == spec_log_end(data2, next));
        assert(spec_records(data2, off) =~= spec_records(data, off).push(newrec));
        assert(spec_log_end(data2, off) == data2.len());
    }
}

/// Every replayed record's payloads sit inside the data at the record's
/// recorded offsets.
pub proof fn lemma_records_valid(data: Seq<u8>, off: int)
    ensures
        forall|i: int|
            0 <= i < spec_records(data, off).len() ==> {
                let r = #[trigger] spec_records(data, off)[i];
                &&& 0 <= r.key_offset
                &&& r.key_offset + r.key.len() + 8 <= r.value_offset
                &&& r.value_offset + r.value.len() <= data.len()
                &&& r.key == data.subrange(r.key_offset, r.key_offset + r.key.len())
                &&& r.value == data.subrange(r.value_offset, r.value_offset + r.value.len())
            },
    decreases data.len() - off,
{
    if can_decode_at(data, off) {
        lemma_records_valid(data, off + spec_record_size_at(data, off));
        let recs = spec_records(data, off);
        let rest = spec_records(data, off + spec_record_size_at(data, off));
        assert forall|i: int| 0 <= i < recs.len() implies {
            let r = #[trigger] recs[i];
            &&& 0 <= r.key_offset
            &&& r.key_offset + r.key.len() + 8 <= r.value_offset
            &&& r.value_offset + r.value.len() <= data.len()
            &&& r.key == data.subrange(r.key_offset, r.key_offset + r.key.len())
            &&& r.value == data.subrange(r.value_offset, r.value_offset + r.value.len())
        } by {
            if i > 0 {
                assert(recs[i] == rest[i - 1]);
            }
        }
    }
}

/// Every live record is one of the replayed records, keyed by its own key,
/// and is not a tombstone.
pub proof fn lemma_live_recs_valid(recs: Seq<RecordView>)
    ensures
        forall|bk: Seq<u8>|
            #[trigger] spec_live_recs(recs).contains_key(bk) ==> {
                let r = spec_live_recs(recs)[bk];
                &&& r.key == bk
                &&& r.value.len() > 0
                &&& recs.contains(r)
            },
    decreases recs.len(),
{
    if recs.len() > 0 {
        lemma_live_recs_valid(recs.drop_last());
        let m = spec_live_recs(recs.drop_last());
        assert forall|bk: Seq<u8>| #[trigger] spec_live_recs(recs).contains_key(bk) implies {
            let r = spec_live_recs(recs)[bk];
            &&& r.key == bk
            &&& r.value.len() > 0
            &&& recs.contains(r)
        } by {
            let last = recs.last();
            if last.value.len() > 0 && bk == last.key {
                assert(spec_live_recs(recs)[bk] == last);
                assert(recs[recs.len() - 1] == last);
            } else {
                assert(m.contains_key(bk));
                let r = m[bk];
                let i = choose|i: int| 0 <= i < recs.drop_last().len() && recs.drop_last()[i] == r;
                assert(recs[i] == r);
            }
        }
    }
}

/// Truncating a log at the offset where its scan stops changes neither the
/// replayed records nor the scan's end.
pub proof fn lemma_records_prefix(data: Seq<u8>, off: int)
    requires
        0 <= off <= data.len(),
        spec_log_end(data, 0) == spec_log_end(data, off),
    ensures
        spec_records(data.subrange(0, spec_log_end(data, 0)), off) == spec_records(data, off),
        spec_log_end(data.subrange(0, spec_log_end(data, 0)), off) == spec_log_end(data, off),
    decreases data.len() - off,
{
    let end = spec_log_end(data, 0);
    let p = data.subrange(0, end);
    lemma_log_end_bounds(data, off);
    if can_decode_at(data, off) {
        let size = spec_record_size_at(data, off);
        lemma_log_end_bounds(data, off + size);
        assert(spec_log_end(data, off) == spec_log_end(data, off + size));
        assert(off + size <= end);
        assert(p.subrange(off, off + size) =~= data.subrange(off, off + size));
        lemma_decode_frame(data, p, off);
        lemma_records_prefix(data, off + size);
        assert(spec_records(p, off) =~= spec_records(data, off));
    } else {
        assert(spec_log_end(data, off) == off);
        assert(end == off);
        assert(p.len() == off);
        assert(!can_decode_at(p, off));
    }
}

/// One replayed record together with the offsets of its key and value.
#[derive(Debug)]
pub struct LogReadResult {
    pub key: Vec<u8>,
    pub value: Vec<u8>,
    pub key_offset: u64,
    pub value_offset: u64,
}

impl View for LogReadResult {
    type V = RecordView;

    open spec fn view(&self) -> RecordView {
        RecordView {
            key: self.key@,
            value: self.value@,
            key_offset: self.key_offset as int,
            value_offset: self.value_offset as int,
        }
    }
}

impl LogReadResult {
    /// Forgets the offsets, keeping the record itself.
    pub fn into_entry(self) -> (res: LogEntry)
        ensures
            res.key@ == self.key@,
            res.value@ == self.value@,
    {
        LogEntry { key: self.key, value: self.value }
    }
}

/// The byte offset at which the record written at `offset` keeps its key.
pub fn calculate_key_offset(offset: u64, _le: &LogEntry) -> (res: u64)
    requires
        offset + 8 <= u64::MAX,
    ensures
        res == offset + 8,
{
    offset + 8
}

/// The byte offset at which the record written at `offset` keeps its value.
pub fn calculate_value_offset(offset: u64, le: &LogEntry) -> (res: u64)
    requires
        offset + 16 + le.key@.len() <= u64::MAX,
    ensures
        res == offset + 16 + le.key@.len(),
{
    offset + 16 + le.key_size()
}

/// One active log segment, held as the byte sequence of its content.
///
/// The segment's view is that byte sequence; `wf()` says that a replay
/// consumes it completely, which `open` establishes by discarding any
/// undecodable tail and every append preserves.
#[derive(Debug)]
pub struct DataFile {
    /// The logical name of the segment.
    pub id: String,
    pub(crate) data: Vec<u8>,
}

impl View for DataFile {
    type V = Seq<u8>;

    closed spec fn view(&self) -> Seq<u8> {
        self.data@
    }
}

impl DataFile {
    /// The segment's logical name, as a sequence of characters.
    pub closed spec fn spec_id(self) -> Seq<char> {
        self.id@
    }

    /// The name the spec speaks of is the `id` field's characters.
    pub(crate) proof fn lemma_spec_id(&self)
        ensures
            self.spec_id() == self.id@,
    {
    }

    /// A replay of the whole segment consumes every byte.
    pub open spec fn wf(self) -> bool {
        spec_log_end(self@, 0) == self@.len()
    }

    /// Opens the segment over the durable bytes read from storage.
    ///
    /// The scan's undecodable tail, at most one partially written record,
    /// is discarded, so the write cursor stands at the end of the valid
    /// log content and later appends are always visible to a replay.
    pub fn open(contents: Vec<u8>) -> (res: DataFile)
        ensures
            res@ == contents@.subrange(0, spec_log_end(contents@, 0)),
            res.wf(),
            res.spec_id() == "main.dat"@,
    {
        let ghost orig = contents@;
        let end = scan_end(&contents);
        let mut data = contents;
        proof {
            lemma_log_end_bounds(orig, 0);
        }
        data.truncate(end);
        proof {
            lemma_records_prefix(orig, 0);
            assert(data@ == orig.subrange(0, spec_log_end(orig, 0)));
        }
        DataFile { id: "main.dat".to_owned(), data }
    }

    /// The number of bytes the segment holds.
    pub fn size(&self) -> (res: u64)
        ensures
            res == self@.len(),
    {
        self.data.len() as u64
    }

    /// The segment's bytes, for the caller that flushes them to storage.
    pub fn bytes(&self) -> (res: &Vec<u8>)
        ensures
            res@ == self@,
    {
        &self.data
    }

    /// Appends one record and returns the offset of its value payload.
    ///
    /// The in-memory segment never transfers fewer bytes than the record's
    /// encoding, so the result is always `Ok`.
    pub fn write(&mut self, key: Vec<u8>, value: Vec<u8>) -> (res: Result<u64, DataFileError>)
        requires
            old(self).wf(),
        ensures
            final(self).wf(),
            final(self)@ == old(self)@ + spec_encode(key@, value@),
            final(self).spec_id() == old(self).spec_id(),
            match res {
                Ok(off) => off == old(self)@.len() + 16 + key@.len(),
                Err(_) => false,
            },
    {
        let entry = LogEntry { key, value };
        let bin = entry.encode();
        let old_len = self.data.len();
        push_bytes(&mut self.data, bin.as_slice());
        proof {
            assert(entry.key.len() == entry.key@.len());
            assert(entry.value.len() == entry.value@.len());
            lemma_records_append(old(self)@, 0, entry.key@, entry.value@);
            assert(self.data.len() == self.data@.len());
        }
        let value_offset = calculate_value_offset(old_len as u64, &entry);
        Ok(value_offset)
    }

    /// Reads `value_size` bytes starting at `value_offset`, independently
    /// of the write cursor.
    ///
    /// Fails with `ErrIncompleteRead` exactly when the requested range
    /// reaches past the end of the segment.
    pub fn read(&self, value_offset: u64, value_size: u64) -> (res: Result<Vec<u8>, DataFileError>)
        ensures
            match res {
                Ok(bytes) => {
                    &&& value_offset + value_size <= self@.len()
                    &&& bytes@ == self@.subrange(
                        value_offset as int,
                        value_offset + value_size,
                    )
                },
                Err(e) => {
                    &&& e == DataFileError::ErrIncompleteRead
                    &&& value_offset + value_size > self@.len()
                },
            },
    {
        let n = self.data.len();
        if value_size > n as u64 || value_offset > n as u64 - value_size {
            return Err(DataFileError::ErrIncompleteRead);
        }
        let off = value_offset as usize;
        let sz = value_size as usize;
        Ok(vstd::slice::slice_to_vec(vstd::slice::slice_subrange(
            self.data.as_slice(),
            off,
            off + sz,
        )))
    }

    /// Replays the whole segment: every decodable record from byte zero,
    /// in log order, each with the offsets of its key and value.
    pub fn read_all(&self) -> (res: Vec<LogEntry>)
        ensures
            res@.len() == spec_records(self@, 0).len(),
            forall|i: int|
                0 <= i < res@.len() ==> #[trigger] res@[i].key@ == spec_records(self@, 0)[i].key
                    && res@[i].value@ == spec_records(self@, 0)[i].value,
    {
        let entries = self.replay();
        let mut out: Vec<LogEntry> = Vec::new();
        let mut i: usize = 0;
        while i < entries.len()
            invariant
                i <= entries@.len(),
                entries@.map_values(|r: LogReadResult| r@) == spec_records(self@, 0),
                out@.len() == i,
                forall|j: int|
                    0 <= j < i ==> #[trigger] out@[j].key@ == spec_records(self@, 0)[j].key
                        && out@[j].value@ == spec_records(self@, 0)[j].value,
            decreases entries@.len() - i,
        {
            let e = LogEntry {
                key: copy_bytes(&entries[i].key),
                value: copy_bytes(&entries[i].value),
            };
            proof {
                assert(entries@.map_values(|r: LogReadResult| r@)[i as int] == entries@[i as int]@);
            }
            out.push(e);
            i = i + 1;
        }
        out
    }

    /// Replays the whole segment, yielding each record with its offsets.
    pub fn replay(&self) -> (res: Vec<LogReadResult>)
        ensures
            res@.map_values(|r: LogReadResult| r@) == spec_records(self@, 0),
    {
        let mut out: Vec<LogReadResult> = Vec::new();
        let mut cur: usize = 0;
        loop
            invariant_except_break
                cur <= self@.len(),
                spec_records(self@, 0) == out@.map_values(|r: LogReadResult| r@) + spec_records(
                    self@,
                    cur as int,
                ),
            ensures
                out@.map_values(|r: LogReadResult| r@) == spec_records(self@, 0),
            decreases self@.len() - cur,
        {
            match LogEntry::decode(&self.data, cur) {
                Ok(entry) => {
                    let ks = entry.key.len();
                    let vs = entry.value.len();
                    proof {
                        assert(spec_key_size_at(self@, cur as int) == ks as int);
                        assert(spec_value_size_at(self@, cur as int) == vs as int);
                        assert(self.data.len() == self@.len());
                    }
                    let key_offset = calculate_key_offset(cur as u64, &entry);
                    let value_offset = calculate_value_offset(cur as u64, &entry);
                    let ghost prev_out = out@;
                    out.push(LogReadResult {
                        key: entry.key,
                        value: entry.value,
                        key_offset,
                        value_offset,
                    });
                    proof {
                        let f = |r: LogReadResult| r@;
                        assert(out@.map_values(f) =~= prev_out.map_values(f).push(out@.last()@));
                        assert(spec_records(self@, cur as int) == seq![out@.last()@]
                            + spec_records(self@, cur + 16 + ks + vs));
                        assert(prev_out.map_values(f).push(out@.last()@) + spec_records(
                            self@,
                            cur + 16 + ks + vs,
                        ) =~= prev_out.map_values(f) + spec_records(self@, cur as int));
                    }
                    cur = cur + 16 + ks + vs;
                },
                Err(_) => {
                    proof {
                        assert(spec_records(self@, cur as int) == Seq::<RecordView>::empty());
                        assert(out@.map_values(|r: LogReadResult| r@) + Seq::<
                            RecordView,
                        >::empty() =~= out@.map_values(|r: LogReadResult| r@));
                    }
                    break ;
                },
            }
        }
        out
    }
}

/// The offset at which the scan of `data` from byte zero stops.
fn scan_end(data: &Vec<u8>) -> (res: usize)
    ensures
        res as int == spec_log_end(data@, 0),
{
    let mut cur: usize = 0;
    loop
        invariant_except_break
            cur <= data@.len(),
            spec_log_end(data@, 0) == spec_log_end(data@, cur as int),
        ensures
            cur as int == spec_log_end(data@, 0),
        decreases data@.len() - cur,
    {
        match LogEntry::decode(data, cur) {
            Ok(entry) => {
                let ks = entry.key.len();
                let vs = entry.value.len();
                proof {
                    assert(spec_key_size_at(data@, cur as int) == ks as int);
                    assert(spec_value_size_at(data@, cur as int) == vs as int);
                    assert(data.len() == data@.len());
                }
                cur = cur + 16 + ks + vs;
            },
            Err(_) => {
                break ;
            },
        }
    }
    cur
}

/// The live map of a record sequence: each live key mapped to the value
/// bytes of its latest live record.
pub open spec fn spec_live_map_of(recs: Seq<RecordView>) -> Map<Seq<u8>, Seq<u8>> {
    spec_live_recs(recs).map_values(|r: RecordView| r.value)
}

/// Folds an entry sequence into a map, later entries superseding earlier
/// ones with the same key.
pub open spec fn spec_entries_map(s: Seq<LogEntry>) -> Map<Seq<u8>, Seq<u8>>
    decreases s.len(),
{
    if s.len() == 0 {
        Map::empty()
    } else {
        spec_entries_map(s.drop_last()).insert(s.last().key@, s.last().value@)
    }
}

/// No two entries of `s` share a key.
pub open spec fn spec_entries_unique(s: Seq<LogEntry>) -> bool {
    forall|i: int, j: int|
        0 <= i < j < s.len() ==> (#[trigger] s[i]).key@ != (#[trigger] s[j]).key@
}

/// The total encoded size of a sequence of entries.
pub open spec fn spec_entries_size(s: Seq<LogEntry>) -> int
    decreases s.len(),
{
    if s.len() == 0 {
        0
    } else {
        spec_entries_size(s.drop_last()) + 16 + s.last().key@.len() + s.last().value@.len()
    }
}

/// The total encoded size of a sequence of records.
pub open spec fn spec_records_size(recs: Seq<RecordView>) -> int
    decreases recs.len(),
{
    if recs.len() == 0 {
        0
    } else {
        spec_records_size(recs.drop_last()) + 16 + recs.last().key.len() + recs.last().value.len()
    }
}

proof fn lemma_records_size_prepend(r: RecordView, rest: Seq<RecordView>)
    ensures
        spec_records_size(seq![r] + rest) == 16 + r.key.len() + r.value.len()
            + spec_records_size(rest),
    decreases rest.len(),
{
    if rest.len() == 0 {
        assert(seq![r] + rest =~= seq![r]);
        assert((seq![r]).drop_last() =~= Seq::<RecordView>::empty());
        assert((seq![r]).last() == r);
        assert(spec_records_size(Seq::<RecordView>::empty()) == 0);
        assert(spec_records_size(rest) == 0);
        assert(spec_records_size(seq![r] + rest) == spec_records_size(seq![r]));
    } else {
        assert((seq![r] + rest).drop_last() =~= seq![r] + rest.drop_last());
        assert((seq![r] + rest).last() == rest.last());
        lemma_records_size_prepend(r, rest.drop_last());
    }
}

/// The scan stops exactly where the replayed records' sizes add up to.
pub proof fn lemma_log_end_size(data: Seq<u8>, off: int)
    requires
        0 <= off,
    ensures
        spec_log_end(data, off) == off + spec_records_size(spec_records(data, off)),
    decreases data.len() - off,
{
    if can_decode_at(data, off) {
        let size = spec_record_size_at(data, off);
        lemma_log_end_size(data, off + size);
        let r = spec_records(data, off)[0];
        lemma_records_size_prepend(r, spec_records(data, off + size));
        assert(spec_records(data, off) == seq![r] + spec_records(data, off + size));
    }
}

proof fn lemma_entries_map_props(s: Seq<LogEntry>)
    requires
        spec_entries_unique(s),
    ensures
        forall|i: int|
            0 <= i < s.len() ==> #[trigger] spec_entries_map(s).contains_key(s[i].key@)
                && spec_entries_map(s)[s[i].key@] == s[i].value@,
        forall|bk: Seq<u8>|
            #[trigger] spec_entries_map(s).contains_key(bk) ==> exists|i: int|
                0 <= i < s.len() && (#[trigger] s[i]).key@ == bk,
    decreases s.len(),
{
    if s.len() > 0 {
        assert(spec_entries_unique(s.drop_last()));
        lemma_entries_map_props(s.drop_last());
        assert forall|i: int| 0 <= i < s.len() implies #[trigger] spec_entries_map(
            s,
        ).contains_key(s[i].key@) && spec_entries_map(s)[s[i].key@] == s[i].value@ by {
            if i < s.len() - 1 {
                assert(s.drop_last()[i] == s[i]);
                assert(spec_entries_map(s.drop_last()).contains_key(s.drop_last()[i].key@));
                assert(spec_entries_map(s.drop_last())[s.drop_last()[i].key@]
                    == s.drop_last()[i].value@);
                assert(s[i].key@ != s.last().key@);
            }
        }
        assert forall|bk: Seq<u8>| #[trigger] spec_entries_map(s).contains_key(bk) implies exists|
            i: int,
        | 0 <= i < s.len() && (#[trigger] s[i]).key@ == bk by {
            if bk == s.last().key@ {
                assert(s[s.len() - 1].key@ == bk);
            } else {
                assert(spec_entries_map(s.drop_last()).contains_key(bk));
                let i = choose|i: int|
                    0 <= i < s.drop_last().len() && (#[trigger] s.drop_last()[i]).key@ == bk;
                assert(s.drop_last()[i] == s[i]);
                assert(s[i].key@ == bk);
            }
        }
    }
}

proof fn lemma_entries_map_remove(s: Seq<LogEntry>, j: int)
    requires
        spec_entries_unique(s),
        0 <= j < s.len(),
    ensures
        spec_entries_unique(s.remove(j)),
        forall|t: int| 0 <= t < s.remove(j).len() ==> (#[trigger] s.remove(j)[t]).key@ != s[j].key@,
        spec_entries_map(s.remove(j)) == spec_entries_map(s).remove(s[j].key@),
        spec_entries_size(s.remove(j)) == spec_entries_size(s) - 16 - s[j].key@.len()
            - s[j].value@.len(),
    decreases s.len(),
{
    lemma_entries_map_props(s);
    if j == s.len() - 1 {
        assert(s.remove(j) =~= s.drop_last());
        lemma_entries_map_props(s.drop_last());
        assert forall|bk: Seq<u8>| true implies spec_entries_map(s.drop_last()).contains_key(bk)
            == spec_entries_map(s).remove(s[j].key@).contains_key(bk) by {
            if bk == s[j].key@ {
                if spec_entries_map(s.drop_last()).contains_key(bk) {
                    let i = choose|i: int|
                        0 <= i < s.drop_last().len() && (#[trigger] s.drop_last()[i]).key@ == bk;
                    assert(s[i].key@ == s[j].key@);
                    assert(false);
                }
            }
        }
        assert(spec_entries_map(s.remove(j)) =~= spec_entries_map(s).remove(s[j].key@));
    } else {
        assert(s.remove(j).drop_last() =~= s.drop_last().remove(j));
        assert(s.remove(j).last() == s.last());
        assert(spec_entries_unique(s.drop_last()));
        lemma_entries_map_remove(s.drop_last(), j);
        assert(s.drop_last()[j] == s[j]);
        assert(s.last().key@ != s[j].key@);
        assert(spec_entries_map(s.remove(j)) == spec_entries_map(
            s.drop_last().remove(j),
        ).insert(s.last().key@, s.last().value@));
        assert(spec_entries_map(s.remove(j)) =~= spec_entries_map(s).remove(s[j].key@));
        assert forall|t: int| 0 <= t < s.remove(j).len() implies (#[trigger] s.remove(
            j,
        )[t]).key@ != s[j].key@ by {
            if t < j {
                assert(s.remove(j)[t] == s[t]);
            } else {
                assert(s.remove(j)[t] == s[t + 1]);
            }
        }
        assert forall|i: int, t: int| 0 <= i < t < s.remove(j).len() implies (#[trigger] s.remove(
            j,
        )[i]).key@ != (#[trigger] s.remove(j)[t]).key@ by {
            if i < j {
                assert(s.remove(j)[i] == s[i]);
            } else {
                assert(s.remove(j)[i] == s[i + 1]);
            }
            if t < j {
                assert(s.remove(j)[t] == s[t]);
            } else {
                assert(s.remove(j)[t] == s[t + 1]);
            }
        }
    }
}

proof fn lemma_live_of_mirror(recs: Seq<RecordView>, es: Seq<LogEntry>)
    requires
        recs.len() == es.len(),
        forall|i: int|
            0 <= i < recs.len() ==> (#[trigger] recs[i]).key == es[i].key@ && recs[i].value
                == es[i].value@ && es[i].value@.len() > 0,
    ensures
        spec_live_map_of(recs) == spec_entries_map(es),
    decreases recs.len(),
{
    if recs.len() == 0 {
        assert(spec_live_map_of(recs) =~= spec_entries_map(es));
    } else {
        assert forall|i: int| 0 <= i < recs.drop_last().len() implies (#[trigger] recs.drop_last()[
            i
        ]).key == es.drop_last()[i].key@ && recs.drop_last()[i].value == es.drop_last()[i].value@
            && es.drop_last()[i].value@.len() > 0 by {
            assert(recs.drop_last()[i] == recs[i]);
            assert(es.drop_last()[i] == es[i]);
        }
        lemma_live_of_mirror(recs.drop_last(), es.drop_last());
        let r = recs.last();
        assert(r == recs[recs.len() - 1]);
        assert(r.value.len() > 0);
        assert(spec_live_recs(recs) == spec_live_recs(recs.drop_last()).insert(r.key, r));
        assert(spec_live_map_of(recs) =~= spec_entries_map(es));
    }
}

/// The index of the entry holding `key`, if one does.
fn find_entry(kept: &Vec<LogEntry>, key: &Vec<u8>) -> (res: Option<usize>)
    ensures
        match res {
            Some(j) => j < kept@.len() && kept@[j as int].key@ == key@,
            None => forall|i: int| 0 <= i < kept@.len() ==> (#[trigger] kept@[i]).key@ != key@,
        },
{
    let mut i: usize = 0;
    while i < kept.len()
        invariant
            i <= kept@.len(),
            forall|j: int| 0 <= j < i ==> (#[trigger] kept@[j]).key@ != key@,
        decreases kept@.len() - i,
    {
        if crate::log_entry::bytes_eq(kept[i].key.as_slice(), key.as_slice()) {
            return Some(i);
        }
        i = i + 1;
    }
    None
}

/// Reading at the value offset an append returns yields exactly the value
/// that was appended.
pub proof fn lemma_offset_correctness(data: Seq<u8>, key: Seq<u8>, value: Seq<u8>)
    ensures
        (data + spec_encode(key, value)).subrange(
            data.len() + 16 + key.len() as int,
            data.len() + 16 + key.len() + value.len() as int,
        ) == value,
{
    vstd::bytes::lemma_auto_spec_u64_to_from_le_bytes();
    let data2 = data + spec_encode(key, value);
    let start: int = data.len() + 16 + key.len() as int;
    assert forall|i: int| 0 <= i < value.len() implies data2.subrange(
        start,
        start + value.len() as int,
    )[i] == value[i] by {
        assert(data2[start + i] == spec_encode(key, value)[16 + key.len() + i]);
    }
    assert(data2.subrange(start, start + value.len() as int) =~= value);
}

impl DataFile {
    /// Rewrites the segment keeping only the latest live value per key.
    ///
    /// The rewritten segment holds exactly one record per surviving key and
    /// no tombstones, its live map is unchanged, and it is never longer
    /// than the segment it replaces.  The in-memory rewrite cannot fail, so
    /// the result is always `Ok`.
    pub fn compact(&mut self) -> (res: Result<(), DataFileError>)
        ensures
            res is Ok,
            final(self).wf(),
            final(self).spec_id() == old(self).spec_id(),
            spec_live_bytes(final(self)@) == spec_live_bytes(old(self)@),
            final(self)@.len() <= old(self)@.len(),
            forall|i: int|
                0 <= i < spec_records(final(self)@, 0).len() ==> {
                    let r = #[trigger] spec_records(final(self)@, 0)[i];
                    &&& r.value.len() > 0
                    &&& spec_live_bytes(old(self)@).contains_key(r.key)
                    &&& spec_live_bytes(old(self)@)[r.key] == r.value
                },
            forall|i: int, j: int|
                #![trigger spec_records(final(self)@, 0)[i], spec_records(final(self)@, 0)[j]]
                0 <= i < j < spec_records(final(self)@, 0).len() ==> spec_records(
                    final(self)@,
                    0,
                )[i].key != spec_records(final(self)@, 0)[j].key,
    {
        let entries = self.replay();
        let ghost rv = entries@.map_values(|r: LogReadResult| r@);
        let mut kept: Vec<LogEntry> = Vec::new();
        let mut i: usize = 0;
        proof {
            assert(rv.take(0) =~= Seq::<RecordView>::empty());
            assert(spec_entries_map(kept@) =~= spec_live_map_of(rv.take(0)));
        }
        while i < entries.len()
            invariant
                i <= entries@.len(),
                rv == entries@.map_values(|r: LogReadResult| r@),
                spec_entries_unique(kept@),
                forall|t: int| 0 <= t < kept@.len() ==> (#[trigger] kept@[t]).value@.len() > 0,
                spec_entries_map(kept@) == spec_live_map_of(rv.take(i as int)),
                spec_entries_size(kept@) <= spec_records_size(rv.take(i as int)),
            decreases entries@.len() - i,
        {
            let ghost prev = kept@;
            let ghost tk = rv.take(i as int);
            let ghost r = rv[i as int];
            proof {
                assert(r == entries@[i as int]@);
                assert(rv.take(i + 1) =~= tk.push(r));
                assert((tk.push(r)).drop_last() =~= tk);
                assert((tk.push(r)).last() == r);
                assert(spec_records_size(rv.take(i + 1)) == spec_records_size(tk) + 16
                    + r.key.len() + r.value.len());
            }
            if entries[i].value.len() > 0 {
                let new_entry = LogEntry {
                    key: copy_bytes(&entries[i].key),
                    value: copy_bytes(&entries[i].value),
                };
                proof {
                    assert(spec_live_recs(rv.take(i + 1)) == spec_live_recs(tk).insert(r.key, r));
                    assert(spec_live_map_of(rv.take(i + 1)) =~= spec_live_map_of(tk).insert(
                        r.key,
                        r.value,
                    ));
                }
                match find_entry(&kept, &entries[i].key) {
                    Some(j) => {
                        proof {
                            lemma_entries_map_remove(prev, j as int);
                        }
                        let _removed = kept.remove(j);
                        kept.push(new_entry);
                        proof {
                            let rem = prev.remove(j as int);
                            assert(kept@ == rem.push(new_entry));
                            assert((rem.push(new_entry)).drop_last() =~= rem);
                            assert((rem.push(new_entry)).last() == new_entry);
                            assert(new_entry.key@ == r.key);
                            assert(new_entry.value@ == r.value);
                            assert forall|a: int, b: int| 0 <= a < b < kept@.len() implies (
                            #[trigger] kept@[a]).key@ != (#[trigger] kept@[b]).key@ by {
                                if b == kept@.len() - 1 {
                                    assert(kept@[a] == rem[a]);
                                    assert(rem[a].key@ != prev[j as int].key@);
                                } else {
                                    assert(kept@[a] == rem[a]);
                                    assert(kept@[b] == rem[b]);
                                }
                            }
                            assert(spec_entries_map(kept@) == spec_entries_map(rem).insert(
                                new_entry.key@,
                                new_entry.value@,
                            ));
                            assert(spec_entries_map(kept@) =~= spec_entries_map(prev).insert(
                                r.key,
                                r.value,
                            ));
                            assert(spec_entries_size(kept@) == spec_entries_size(prev) - 16
                                - prev[j as int].key@.len() - prev[j as int].value@.len() + 16
                                + r.key.len() + r.value.len());
                        }
                    },
                    None => {
                        kept.push(new_entry);
                        proof {
                            assert(kept@ == prev.push(new_entry));
                            assert((prev.push(new_entry)).drop_last() =~= prev);
                            assert((prev.push(new_entry)).last() == new_entry);
                            assert(new_entry.key@ == r.key);
                            assert(new_entry.value@ == r.value);
                            assert forall|a: int, b: int| 0 <= a < b < kept@.len() implies (
                            #[trigger] kept@[a]).key@ != (#[trigger] kept@[b]).key@ by {
                                if b == kept@.len() - 1 {
                                    assert(kept@[a] == prev[a]);
                                } else {
                                    assert(kept@[a] == prev[a]);
                                    assert(kept@[b] == prev[b]);
                                }
                            }
                            assert(spec_entries_map(kept@) =~= spec_entries_map(prev).insert(
                                r.key,
                                r.value,
                            ));
                        }
                    },
                }
            } else {
                proof {
                    assert(r.value.len() == 0);
                    assert(spec_live_recs(rv.take(i + 1)) == spec_live_recs(tk).remove(r.key));
                    assert(spec_live_map_of(rv.take(i + 1)) =~= spec_live_map_of(tk).remove(
                        r.key,
                    ));
                }
                match find_entry(&kept, &entries[i].key) {
                    Some(j) => {
                        proof {
                            lemma_entries_map_remove(prev, j as int);
                        }
                        let _removed = kept.remove(j);
                        proof {
                            assert(kept@ == prev.remove(j as int));
                            assert(prev[j as int].key@ == r.key);
                            assert(spec_entries_map(kept@) == spec_entries_map(prev).remove(
                                r.key,
                            ));
                        }
                    },
                    None => {
                        proof {
                            lemma_entries_map_props(prev);
                            if spec_entries_map(prev).contains_key(r.key) {
                                let t = choose|t: int|
                                    0 <= t < prev.len() && (#[trigger] prev[t]).key@ == r.key;
                                assert(false);
                            }
                            assert(spec_entries_map(kept@) =~= spec_entries_map(prev).remove(
                                r.key,
                            ));
                        }
                    },
                }
            }
            i = i + 1;
        }
        proof {
            assert(rv.take(entries@.len() as int) =~= rv);
            lemma_log_end_size(old(self)@, 0);
            lemma_log_end_bounds(old(self)@, 0);
            assert(spec_entries_size(kept@) <= old(self)@.len());
            assert(spec_entries_map(kept@) == spec_live_bytes(old(self)@));
        }
        let mut newdata: Vec<u8> = Vec::new();
        let mut j: usize = 0;
        proof {
            assert(kept@.take(0) =~= Seq::<LogEntry>::empty());
            assert(spec_entries_size(kept@.take(0)) == 0);
            assert(!can_decode_at(newdata@, 0));
            assert(spec_records(newdata@, 0) =~= Seq::<RecordView>::empty());
            assert(spec_log_end(newdata@, 0) == 0);
        }
        while j < kept.len()
            invariant
                j <= kept@.len(),
                spec_entries_unique(kept@),
                forall|t: int| 0 <= t < kept@.len() ==> (#[trigger] kept@[t]).value@.len() > 0,
                spec_entries_map(kept@) == spec_live_bytes(old(self)@),
                spec_entries_size(kept@) <= old(self)@.len(),
                spec_log_end(newdata@, 0) == newdata@.len(),
                newdata@.len() == spec_entries_size(kept@.take(j as int)),
                spec_records(newdata@, 0).len() == j,
                forall|t: int|
                    0 <= t < j ==> (#[trigger] spec_records(newdata@, 0)[t]).key == kept@[t].key@
                        && spec_records(newdata@, 0)[t].value == kept@[t].value@,
            decreases kept@.len() - j,
        {
            let bin = kept[j].encode();
            let ghost prevdata = newdata@;
            let ghost prevrecs = spec_records(newdata@, 0);
            push_bytes(&mut newdata, bin.as_slice());
            proof {
                assert(bin.len() == bin@.len());
                lemma_records_append(prevdata, 0, kept@[j as int].key@, kept@[j as int].value@);
                assert(kept@.take(j + 1) =~= kept@.take(j as int).push(kept@[j as int]));
                assert((kept@.take(j as int).push(kept@[j as int])).drop_last() =~= kept@.take(
                    j as int,
                ));
                assert(spec_entries_size(kept@.take(j + 1)) == spec_entries_size(kept@.take(
                    j as int,
                )) + 16 + kept@[j as int].key@.len() + kept@[j as int].value@.len());
                assert forall|t: int| 0 <= t < j + 1 implies (#[trigger] spec_records(
                    newdata@,
                    0,
                )[t]).key == kept@[t].key@ && spec_records(newdata@, 0)[t].value
                    == kept@[t].value@ by {
                    if t < j {
                        assert(spec_records(newdata@, 0)[t] == prevrecs[t]);
                    } else {
                        assert(spec_records(newdata@, 0)[t] == spec_records(newdata@, 0).last());
                    }
                }
                assert(spec_entries_size(kept@.take(j + 1)) <= spec_entries_size(kept@)) by {
                    lemma_entries_size_take(kept@, j + 1);
                }
            }
            j = j + 1;
        }
        proof {
            assert(kept@.take(kept@.len() as int) =~= kept@);
            lemma_live_of_mirror(spec_records(newdata@, 0), kept@);
            lemma_entries_map_props(kept@);
        }
        self.data = newdata;
        Ok(())
    }
}

/// A prefix of an entry sequence never outweighs the whole.
proof fn lemma_entries_size_take(s: Seq<LogEntry>, n: int)
    requires
        0 <= n <= s.len(),
    ensures
        spec_entries_size(s.take(n)) <= spec_entries_size(s),
    decreases s.len() - n,
{
    if n < s.len() {
        lemma_entries_size_take(s, n + 1);
        assert(s.take(n + 1).drop_last() =~= s.take(n));
        assert(s.take(n + 1).last() == s[n]);
        assert(spec_entries_size(s.take(n + 1)) == spec_entries_size(s.take(n)) + 16
            + s[n].key@.len() + s[n].value@.len());
    } else {
        assert(s.take(n) =~= s);
    }
}

/// A cursor over the records of a segment, in log order.
pub struct DataFileIterator {
    entries: Vec<LogReadResult>,
    pos: usize,
}

impl View for DataFileIterator {
    type V = Seq<RecordView>;

    closed spec fn view(&self) -> Seq<RecordView> {
        let s = self.entries@.map_values(|r: LogReadResult| r@);
        if self.pos <= s.len() {
            s.skip(self.pos as int)
        } else {
            Seq::empty()
        }
    }
}

impl DataFileIterator {
    /// Starts a scan over every record of the segment.
    pub fn new(datafile: &DataFile) -> (res: DataFileIterator)
        ensures
            res@ == spec_records(datafile@, 0),
    {
        let entries = datafile.replay();
        let res = DataFileIterator { entries, pos: 0 };
        proof {
            let s = res.entries@.map_values(|r: LogReadResult| r@);
            assert(s.skip(0) =~= s);
        }
        res
    }

    /// The next record of the scan, or `None` once it is done.
    pub fn next(&mut self) -> (res: Option<LogReadResult>)
        ensures
            old(self)@.len() == 0 ==> res is None && final(self)@ == old(self)@,
            old(self)@.len() > 0 ==> match res {
                Some(r) => r@ == old(self)@[0] && final(self)@ == old(self)@.skip(1),
                None => false,
            },
    {
        if self.pos < self.entries.len() {
            let r = LogReadResult {
                key: copy_bytes(&self.entries[self.pos].key),
                value: copy_bytes(&self.entries[self.pos].value),
                key_offset: self.entries[self.pos].key_offset,
                value_offset: self.entries[self.pos].value_offset,
            };
            let ghost p = self.pos as int;
            self.pos = self.pos + 1;
            proof {
                let s = self.entries@.map_values(|rr: LogReadResult| rr@);
                assert(s[p] == self.entries@[p]@);
                assert(s.skip(p + 1) =~= s.skip(p).skip(1));
                assert(r@ == s.skip(p)[0]);
            }
            Some(r)
        } else {
            None
        }
    }
}

} // verus!

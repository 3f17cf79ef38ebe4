//! The store: one active log segment and the key index derived from it.
//!
//! The store's view is the map it serves: each live key (a character
//! sequence) mapped to the bytes of its latest value.  The well-formedness
//! invariant ties the index to the log, so the view is a function of the
//! log bytes alone; closing a store and replaying its bytes therefore
//! rebuilds exactly the same view.

use vstd::prelude::*;

verus! {

use vstd::string::StrSliceExecFns;
use vstd::string::StringSliceAdditionalSpecFns;
use vstd::utf8::char_is_scalar;
use vstd::utf8::decode_utf8;
use vstd::utf8::decode_utf8_encode_utf8;
use vstd::utf8::encode_scalar;
use vstd::utf8::encode_utf8;
use vstd::utf8::encode_utf8_decode_utf8;
use vstd::utf8::encode_utf8_valid_utf8;
use vstd::utf8::valid_utf8;

use crate::datafile::DataFile;
use crate::datafile::RecordView;
use crate::datafile::lemma_live_recs_valid;
use crate::datafile::lemma_records_append;
use crate::datafile::lemma_records_valid;
use crate::datafile::spec_live_bytes;
use crate::datafile::spec_live_recs;
use crate::datafile::spec_log_end;
use crate::datafile::spec_records;
use crate::error::DataFileError;
use crate::error::KvError;
use crate::key_dir::EntryV;
use crate::key_dir::KeyDir;
use crate::log_entry::spec_encode;

/// The log size above which a `set` compacts the segment first.
pub const COMPACTION_THRESHOLD: u64 = 10 * 1024;

/// The map a log's bytes serve through the string API: each key whose
/// UTF-8 encoding is a live key of the log, mapped to the live value bytes.
pub open spec fn spec_view_of_log(data: Seq<u8>) -> Map<Seq<char>, Seq<u8>> {
    Map::new(
        |k: Seq<char>| spec_live_bytes(data).contains_key(encode_utf8(k)),
        |k: Seq<char>| spec_live_bytes(data)[encode_utf8(k)],
    )
}

/// The index `kd` mirrors the live record map `m`: every indexed key's
/// encoding is live with exactly the indexed offsets, under segment `id`,
/// and every live key that is valid text is indexed.
pub open spec fn spec_index_matches_recs(
    kd: Map<Seq<char>, EntryV>,
    m: Map<Seq<u8>, RecordView>,
    id: Seq<char>,
) -> bool {
    &&& forall|k: Seq<char>|
        #[trigger] kd.contains_key(k) ==> {
            &&& m.contains_key(encode_utf8(k))
            &&& kd[k].value_offset as int == m[encode_utf8(k)].value_offset
            &&& kd[k].value_sz as int == m[encode_utf8(k)].value.len()
            &&& kd[k].file_id == id
        }
    &&& forall|bk: Seq<u8>|
        #[trigger] m.contains_key(bk) && valid_utf8(bk) ==> kd.contains_key(decode_utf8(bk))
}

/// The index `kd` mirrors the live map of the log bytes `data`.
pub open spec fn spec_index_matches(kd: Map<Seq<char>, EntryV>, data: Seq<u8>, id: Seq<char>) -> bool {
    spec_index_matches_recs(kd, spec_live_recs(spec_records(data, 0)), id)
}

/// Key-value store implementation.
pub struct KvStore {
    active_datafile: DataFile,
    key_dir: KeyDir,
}

impl View for KvStore {
    type V = Map<Seq<char>, Seq<u8>>;

    closed spec fn view(&self) -> Map<Seq<char>, Seq<u8>> {
        Map::new(
            |k: Seq<char>| self.key_dir@.contains_key(k),
            |k: Seq<char>| spec_live_bytes(self.active_datafile@)[encode_utf8(k)],
        )
    }
}

impl KvStore {
    /// The bytes of the active log segment.
    pub closed spec fn log(self) -> Seq<u8> {
        self.active_datafile@
    }

    /// The store's internal consistency: the segment replays completely,
    /// the index holds each key once, and the index mirrors the log.
    pub closed spec fn wf(self) -> bool {
        &&& self.active_datafile.wf()
        &&& self.key_dir.wf()
        &&& spec_index_matches(
            self.key_dir@,
            self.active_datafile@,
            self.active_datafile.spec_id(),
        )
    }
}

/// A character sequence encodes to no bytes exactly when it is empty.
pub proof fn lemma_encode_utf8_empty(s: Seq<char>)
    ensures
        (encode_utf8(s).len() == 0) <==> (s.len() == 0),
{
    if s.len() > 0 {
        char_is_scalar(s[0]);
        assert(encode_scalar(s[0] as u32).len() >= 1);
        assert(encode_utf8(s) == encode_scalar(s[0] as u32) + encode_utf8(s.drop_first()));
    }
}

/// A well-formed store's visible map is a function of its log bytes alone.
pub proof fn lemma_view_from_log(st: KvStore)
    requires
        st.wf(),
    ensures
        st@ == spec_view_of_log(st.log()),
{
    broadcast use encode_utf8_valid_utf8, encode_utf8_decode_utf8, decode_utf8_encode_utf8;

    let m = spec_live_recs(spec_records(st.log(), 0));
    assert forall|k: Seq<char>| #[trigger] st@.contains_key(k) implies spec_view_of_log(
        st.log(),
    ).contains_key(k) by {
        assert(m.contains_key(encode_utf8(k)));
    }
    assert forall|k: Seq<char>| #[trigger] spec_view_of_log(st.log()).contains_key(k) implies st@
        .contains_key(k) by {
        assert(m.contains_key(encode_utf8(k)));
        assert(valid_utf8(encode_utf8(k)));
        assert(decode_utf8(encode_utf8(k)) == k);
    }
    assert(st@ =~= spec_view_of_log(st.log()));
}

/// Replay equivalence: two well-formed stores over the same log bytes
/// serve exactly the same map.
pub proof fn lemma_replay_equivalence(a: KvStore, b: KvStore)
    requires
        a.wf(),
        b.wf(),
        a.log() == b.log(),
    ensures
        a@ == b@,
{
    lemma_view_from_log(a);
    lemma_view_from_log(b);
}

/// Compaction preserves latest-value-wins: logs with equal live maps serve
/// equal visible maps.
pub proof fn lemma_compaction_preserves_view(pre: Seq<u8>, post: Seq<u8>)
    requires
        spec_live_bytes(post) == spec_live_bytes(pre),
    ensures
        spec_view_of_log(post) == spec_view_of_log(pre),
{
    assert(spec_view_of_log(post) =~= spec_view_of_log(pre));
}

proof fn lemma_index_step_put(
    kd: Map<Seq<char>, EntryV>,
    m: Map<Seq<u8>, RecordView>,
    id: Seq<char>,
    r: RecordView,
    k: Seq<char>,
    e: EntryV,
)
    requires
        spec_index_matches_recs(kd, m, id),
        encode_utf8(k) == r.key,
        e.value_offset as int == r.value_offset,
        e.value_sz as int == r.value.len(),
        e.file_id == id,
    ensures
        spec_index_matches_recs(kd.insert(k, e), m.insert(r.key, r), id),
{
    broadcast use encode_utf8_valid_utf8, encode_utf8_decode_utf8, decode_utf8_encode_utf8;

    assert forall|k2: Seq<char>| #[trigger] kd.insert(k, e).contains_key(k2) implies {
        &&& m.insert(r.key, r).contains_key(encode_utf8(k2))
        &&& kd.insert(k, e)[k2].value_offset as int == m.insert(r.key, r)[encode_utf8(
            k2,
        )].value_offset
        &&& kd.insert(k, e)[k2].value_sz as int == m.insert(r.key, r)[encode_utf8(k2)].value.len()
        &&& kd.insert(k, e)[k2].file_id == id
    } by {
        if k2 != k {
            assert(decode_utf8(encode_utf8(k2)) == k2);
            assert(decode_utf8(encode_utf8(k)) == k);
            assert(encode_utf8(k2) != r.key);
        }
    }
    assert forall|bk: Seq<u8>| #[trigger] m.insert(r.key, r).contains_key(bk) && valid_utf8(
        bk,
    ) implies kd.insert(k, e).contains_key(decode_utf8(bk)) by {
        if bk == r.key {
            assert(decode_utf8(bk) == k);
        } else {
            assert(kd.contains_key(decode_utf8(bk)));
            assert(encode_utf8(decode_utf8(bk)) == bk);
            assert(decode_utf8(bk) != k);
        }
    }
}

proof fn lemma_index_step_remove(
    kd: Map<Seq<char>, EntryV>,
    m: Map<Seq<u8>, RecordView>,
    id: Seq<char>,
    rkey: Seq<u8>,
    k: Seq<char>,
)
    requires
        spec_index_matches_recs(kd, m, id),
        encode_utf8(k) == rkey,
    ensures
        spec_index_matches_recs(kd.remove(k), m.remove(rkey), id),
{
    broadcast use encode_utf8_valid_utf8, encode_utf8_decode_utf8, decode_utf8_encode_utf8;

    assert forall|k2: Seq<char>| #[trigger] kd.remove(k).contains_key(k2) implies {
        &&& m.remove(rkey).contains_key(encode_utf8(k2))
        &&& kd.remove(k)[k2].value_offset as int == m.remove(rkey)[encode_utf8(k2)].value_offset
        &&& kd.remove(k)[k2].value_sz as int == m.remove(rkey)[encode_utf8(k2)].value.len()
        &&& kd.remove(k)[k2].file_id == id
    } by {
        assert(kd.contains_key(k2));
        assert(decode_utf8(encode_utf8(k2)) == k2);
        assert(decode_utf8(encode_utf8(k)) == k);
        assert(encode_utf8(k2) != rkey);
    }
    assert forall|bk: Seq<u8>| #[trigger] m.remove(rkey).contains_key(bk) && valid_utf8(
        bk,
    ) implies kd.remove(k).contains_key(decode_utf8(bk)) by {
        assert(m.contains_key(bk));
        assert(kd.contains_key(decode_utf8(bk)));
        assert(encode_utf8(decode_utf8(bk)) == bk);
        assert(decode_utf8(bk) != k);
    }
}

proof fn lemma_index_step_skip(
    kd: Map<Seq<char>, EntryV>,
    m: Map<Seq<u8>, RecordView>,
    id: Seq<char>,
    r: RecordView,
)
    requires
        spec_index_matches_recs(kd, m, id),
        !valid_utf8(r.key),
    ensures
        spec_index_matches_recs(kd, m.insert(r.key, r), id),
        spec_index_matches_recs(kd, m.remove(r.key), id),
{
    broadcast use encode_utf8_valid_utf8, encode_utf8_decode_utf8, decode_utf8_encode_utf8;

    assert forall|k2: Seq<char>| #[trigger] kd.contains_key(k2) implies encode_utf8(k2)
        != r.key by {
        assert(valid_utf8(encode_utf8(k2)));
    }
    assert forall|bk: Seq<u8>| #[trigger] m.insert(r.key, r).contains_key(bk) && valid_utf8(
        bk,
    ) implies kd.contains_key(decode_utf8(bk)) by {
        assert(bk != r.key);
        assert(m.contains_key(bk));
    }
}

/// Relies on std's `String::from_utf8`: it succeeds exactly when the bytes
/// are valid UTF-8, and the string it returns is the one those bytes
/// encode.
#[verifier::external_body]
fn bytes_to_string(bytes: &Vec<u8>) -> (res: Option<String>)
    ensures
        res is Some <==> valid_utf8(bytes@),
        res matches Some(s) ==> encode_utf8(s@) == bytes@,
{
    match String::from_utf8(bytes.clone()) {
        Ok(s) => Some(s),
        Err(_) => None,
    }
}

impl KvStore {
    /// Opens a store over the durable log bytes read from storage: replays
    /// them fully and rebuilds the index from what they hold.
    pub fn open(contents: Vec<u8>) -> (res: KvStore)
        ensures
            res.wf(),
            res.log() == contents@.subrange(0, spec_log_end(contents@, 0)),
            res@ == spec_view_of_log(res.log()),
    {
        let df = DataFile::open(contents);
        let mut kd = KeyDir::new();
        Self::init_index(&df, &mut kd);
        let st = KvStore { active_datafile: df, key_dir: kd };
        proof {
            lemma_view_from_log(st);
        }
        st
    }

    /// The bytes of the active segment, for the caller that flushes them
    /// to durable storage.
    pub fn log_bytes(&self) -> (res: &Vec<u8>)
        ensures
            res@ == self.log(),
    {
        self.active_datafile.bytes()
    }

    /// Sets a key-value pair in the store.
    ///
    /// Fails with `EmptyValue` exactly when the value is empty, which is
    /// reserved for tombstones; nothing is written then.  Before a write
    /// that finds the log over the compaction threshold, the segment is
    /// compacted, which changes nothing visible.
    pub fn set(&mut self, key: String, value: String) -> (res: Result<(), KvError>)
        requires
            old(self).wf(),
        ensures
            final(self).wf(),
            match res {
                Ok(()) => value@.len() > 0 && final(self)@ == old(self)@.insert(
                    key@,
                    encode_utf8(value@),
                ),
                Err(e) => {
                    &&& e == KvError::EmptyValue
                    &&& value@.len() == 0
                    &&& final(self)@ == old(self)@
                    &&& final(self).log() == old(self).log()
                },
            },
    {
        if value.as_str().is_empty() {
            return Err(KvError::EmptyValue);
        }
        if self.active_datafile.size() > COMPACTION_THRESHOLD {
            let compacted = self.active_datafile.compact();
            if compacted.is_ok() {
                self.key_dir = KeyDir::new();
                Self::init_index(&self.active_datafile, &mut self.key_dir);
            }
            proof {
                lemma_view_from_log(*old(self));
                lemma_view_from_log(*self);
                lemma_compaction_preserves_view(old(self).log(), self.log());
            }
        }
        self._key(key, value)
    }

    /// Retrieves the value associated with the given key from the store.
    ///
    /// `Ok(None)` exactly when the key has no live value; `Ok(Some(v))`
    /// when it has one and its bytes are valid text; `ErrMalformedRecord`
    /// when the live bytes cannot be decoded as text.
    pub fn get(&self, key: String) -> (res: Result<Option<String>, DataFileError>)
        requires
            self.wf(),
        ensures
            match res {
                Ok(Some(v)) => self@.contains_key(key@) && valid_utf8(self@[key@])
                    && encode_utf8(v@) == self@[key@],
                Ok(None) => !self@.contains_key(key@),
                Err(e) => {
                    &&& e == DataFileError::ErrMalformedRecord
                    &&& self@.contains_key(key@)
                    &&& !valid_utf8(self@[key@])
                },
            },
    {
        match self.key_dir.get(key.as_str()) {
            None => Ok(None),
            Some(e) => {
                proof {
                    lemma_live_recs_valid(spec_records(self.log(), 0));
                    lemma_records_valid(self.log(), 0);
                    let bk = encode_utf8(key@);
                    let m = spec_live_recs(spec_records(self.log(), 0));
                    let r = m[bk];
                    let recs = spec_records(self.log(), 0);
                    assert(recs.contains(r));
                    let i = choose|i: int| 0 <= i < recs.len() && recs[i] == r;
                    assert(recs[i] == r);
                    assert(r.value == self.log().subrange(
                        r.value_offset,
                        r.value_offset + r.value.len(),
                    ));
                }
                let read_res = self.active_datafile.read(e.value_offset, e.value_sz);
                match read_res {
                    Ok(bytes) => {
                        match bytes_to_string(&bytes) {
                            Some(s) => Ok(Some(s)),
                            None => Err(DataFileError::ErrMalformedRecord),
                        }
                    },
                    Err(err) => {
                        proof {
                            assert(false);
                        }
                        Err(err)
                    },
                }
            },
        }
    }

    /// Removes the key-value pair associated with the given key.
    ///
    /// Fails with `KeyNotFound` exactly when the key has no live value.
    /// Otherwise a tombstone is appended to the log first, and only then
    /// the index entry is deleted, so that a replay of the appended log
    /// reaches the same state.
    pub fn remove(&mut self, key: String) -> (res: Result<(), KvError>)
        requires
            old(self).wf(),
        ensures
            final(self).wf(),
            match res {
                Ok(()) => {
                    &&& old(self)@.contains_key(key@)
                    &&& final(self)@ == old(self)@.remove(key@)
                    &&& final(self).log() == old(self).log() + spec_encode(
                        encode_utf8(key@),
                        Seq::<u8>::empty(),
                    )
                    &&& !spec_live_bytes(final(self).log()).contains_key(encode_utf8(key@))
                },
                Err(e) => {
                    &&& e == KvError::KeyNotFound
                    &&& !old(self)@.contains_key(key@)
                    &&& final(self)@ == old(self)@
                    &&& final(self).log() == old(self).log()
                },
            },
    {
        if !self.key_dir.contains_key(key.as_str()) {
            return Err(KvError::KeyNotFound);
        }
        let tombstone = String::new();
        proof {
            lemma_encode_utf8_empty(tombstone@);
            assert(encode_utf8(tombstone@) =~= Seq::<u8>::empty());
        }
        let res = self._key(key, tombstone);
        match res {
            Ok(()) => Ok(()),
            Err(e) => {
                proof {
                    assert(false);
                }
                Err(e)
            },
        }
    }

    /// Appends one record for the pair and brings the index in line: a
    /// live value is indexed at the offset the append returned, a
    /// tombstone deletes the index entry.
    fn _key(&mut self, key: String, value: String) -> (res: Result<(), KvError>)
        requires
            old(self).wf(),
        ensures
            final(self).wf(),
            res is Ok,
            final(self).log() == old(self).log() + spec_encode(
                encode_utf8(key@),
                encode_utf8(value@),
            ),
            value@.len() > 0 ==> final(self)@ == old(self)@.insert(key@, encode_utf8(value@)),
            value@.len() == 0 ==> final(self)@ == old(self)@.remove(key@),
            value@.len() == 0 ==> !spec_live_bytes(final(self).log()).contains_key(
                encode_utf8(key@),
            ),
    {
        let ghost keyv = key@;
        let key_bytes = key.as_str().as_bytes_vec();
        let value_bytes = value.as_str().as_bytes_vec();
        let ghost kbv = key_bytes@;
        let ghost vbv = value_bytes@;
        let value_sz = value_bytes.len() as u64;
        proof {
            assert(key_bytes.len() == kbv.len());
            assert(value_bytes.len() == vbv.len());
            lemma_encode_utf8_empty(value@);
        }
        let write_res = self.active_datafile.write(key_bytes, value_bytes);
        let ghost newrec = RecordView {
            key: kbv,
            value: vbv,
            key_offset: old(self).log().len() as int + 8,
            value_offset: old(self).log().len() + 16 + kbv.len() as int,
        };
        proof {
            lemma_records_append(old(self).log(), 0, kbv, vbv);
            assert(spec_records(self.log(), 0) == spec_records(old(self).log(), 0).push(newrec));
            assert((spec_records(old(self).log(), 0).push(newrec)).drop_last() =~= spec_records(
                old(self).log(),
                0,
            ));
        }
        let ghost old_m = spec_live_recs(spec_records(old(self).log(), 0));
        match write_res {
            Ok(value_offset) => {
                if value_sz > 0 {
                    let file_id = self.active_datafile.id.clone();
                    self.key_dir.put(file_id, key, value_offset, value_sz);
                    proof {
                        self.active_datafile.lemma_spec_id();
                        assert(spec_live_recs(spec_records(self.log(), 0)) == old_m.insert(
                            newrec.key,
                            newrec,
                        ));
                        lemma_index_step_put(
                            old(self).key_dir@,
                            old_m,
                            old(self).active_datafile.spec_id(),
                            newrec,
                            keyv,
                            (EntryV {
                                file_id: old(self).active_datafile.spec_id(),
                                value_offset: value_offset,
                                value_sz: value_sz,
                            }),
                        );
                        broadcast use encode_utf8_valid_utf8, encode_utf8_decode_utf8, decode_utf8_encode_utf8;

                        assert forall|k2: Seq<char>| k2 != keyv implies encode_utf8(k2)
                            != newrec.key by {
                            assert(decode_utf8(encode_utf8(k2)) == k2);
                            assert(decode_utf8(encode_utf8(keyv)) == keyv);
                        }
                        assert(self@ =~= old(self)@.insert(keyv, encode_utf8(value@)));
                    }
                    Ok(())
                } else {
                    self.key_dir.remove_key(key.as_str());
                    proof {
                        self.active_datafile.lemma_spec_id();
                        assert(vbv.len() == 0);
                        assert(spec_live_recs(spec_records(self.log(), 0)) == old_m.remove(
                            newrec.key,
                        ));
                        lemma_index_step_remove(
                            old(self).key_dir@,
                            old_m,
                            old(self).active_datafile.spec_id(),
                            newrec.key,
                            keyv,
                        );
                        broadcast use encode_utf8_valid_utf8, encode_utf8_decode_utf8, decode_utf8_encode_utf8;

                        assert forall|k2: Seq<char>| k2 != keyv implies encode_utf8(k2)
                            != newrec.key by {
                            assert(decode_utf8(encode_utf8(k2)) == k2);
                            assert(decode_utf8(encode_utf8(keyv)) == keyv);
                        }
                        assert(self@ =~= old(self)@.remove(keyv));
                    }
                    Ok(())
                }
            },
            Err(e) => {
                proof {
                    assert(false);
                }
                Err(KvError::EmptyValue)
            },
        }
    }

    /// Rebuilds the index by replaying the whole segment: a live record
    /// indexes its key at its value's offset, a tombstone deletes the
    /// key's entry, and a key that is not valid text is skipped, since the
    /// string API can never address it.
    fn init_index(datafile: &DataFile, key_dir: &mut KeyDir)
        requires
            old(key_dir).wf(),
            old(key_dir)@ == Map::<Seq<char>, EntryV>::empty(),
        ensures
            final(key_dir).wf(),
            spec_index_matches(final(key_dir)@, datafile@, datafile.spec_id()),
    {
        let entries = datafile.replay();
        let ghost rv = entries@.map_values(|r: crate::datafile::LogReadResult| r@);
        let mut i: usize = 0;
        proof {
            assert(rv.take(0) =~= Seq::<RecordView>::empty());
            assert(spec_live_recs(rv.take(0)) =~= Map::<Seq<u8>, RecordView>::empty());
        }
        while i < entries.len()
            invariant
                i <= entries@.len(),
                rv == entries@.map_values(|r: crate::datafile::LogReadResult| r@),
                key_dir.wf(),
                spec_index_matches_recs(key_dir@, spec_live_recs(rv.take(i as int)), datafile.spec_id()),
            decreases entries@.len() - i,
        {
            let ghost tk = rv.take(i as int);
            let ghost r = rv[i as int];
            proof {
                assert(r == entries@[i as int]@);
                assert(rv.take(i + 1) =~= tk.push(r));
                assert((tk.push(r)).drop_last() =~= tk);
            }
            let ghost kd0 = key_dir@;
            let vs = entries[i].value.len();
            match bytes_to_string(&entries[i].key) {
                Some(key_str) => {
                    let ghost ksv = key_str@;
                    if vs > 0 {
                        let file_id = datafile.id.clone();
                        let value_offset = entries[i].value_offset;
                        key_dir.put(file_id, key_str, value_offset, vs as u64);
                        proof {
                            datafile.lemma_spec_id();
                            assert(spec_live_recs(rv.take(i + 1)) == spec_live_recs(tk).insert(
                                r.key,
                                r,
                            ));
                            lemma_index_step_put(
                                kd0,
                                spec_live_recs(tk),
                                datafile.spec_id(),
                                r,
                                ksv,
                                (EntryV {
                                    file_id: datafile.spec_id(),
                                    value_offset: value_offset,
                                    value_sz: vs as u64,
                                }),
                            );
                        }
                    } else {
                        key_dir.remove_key(key_str.as_str());
                        proof {
                            assert(spec_live_recs(rv.take(i + 1)) == spec_live_recs(tk).remove(
                                r.key,
                            ));
                            lemma_index_step_remove(
                                kd0,
                                spec_live_recs(tk),
                                datafile.spec_id(),
                                r.key,
                                ksv,
                            );
                        }
                    }
                },
                None => {
                    proof {
                        if r.value.len() == 0 {
                            assert(spec_live_recs(rv.take(i + 1)) == spec_live_recs(tk).remove(
                                r.key,
                            ));
                        } else {
                            assert(spec_live_recs(rv.take(i + 1)) == spec_live_recs(tk).insert(
                                r.key,
                                r,
                            ));
                        }
                        lemma_index_step_skip(key_dir@, spec_live_recs(tk), datafile.spec_id(), r);
                    }
                },
            }
            i = i + 1;
        }
        proof {
            assert(rv.take(entries@.len() as int) =~= rv);
        }
    }
}

} // verus!


//! The in-memory key index: a pure map from each live key to the location
//! of its value inside the active segment.
//!
//! The index is derived state: it carries nothing that a replay of the log
//! cannot rebuild.  Its view is the mathematical map it represents; every
//! operation says exactly how it changes that map.

use vstd::prelude::*;

verus! {

use vstd::string::StringSliceAdditionalSpecFns;
use vstd::utf8::encode_utf8_decode_utf8;

use crate::log_entry::bytes_eq;

/// The location of one live key's value: the segment holding it, and the
/// offset and length of the value's bytes inside that segment.
#[derive(Debug, Clone)]
pub struct Entry {
    pub file_id: String,
    pub value_offset: u64,
    pub value_sz: u64,
}

/// The mathematical image of an index entry.
pub struct EntryV {
    pub file_id: Seq<char>,
    pub value_offset: u64,
    pub value_sz: u64,
}

impl View for Entry {
    type V = EntryV;

    open spec fn view(&self) -> EntryV {
        EntryV {
            file_id: self.file_id@,
            value_offset: self.value_offset,
            value_sz: self.value_sz,
        }
    }
}

/// The in-memory map from keys to value locations.  Pure data structure;
/// no I/O.
#[derive(Debug)]
pub struct KeyDir {
    inner: Vec<(String, Entry)>,
}

spec fn spec_pairs_map(s: Seq<(String, Entry)>) -> Map<Seq<char>, EntryV>
    decreases s.len(),
{
    if s.len() == 0 {
        Map::empty()
    } else {
        spec_pairs_map(s.drop_last()).insert(s.last().0@, s.last().1@)
    }
}

spec fn spec_pairs_unique(s: Seq<(String, Entry)>) -> bool {
    forall|i: int, j: int| 0 <= i < j < s.len() ==> (#[trigger] s[i]).0@ != (#[trigger] s[j]).0@
}

proof fn lemma_pairs_map_props(s: Seq<(String, Entry)>)
    requires
        spec_pairs_unique(s),
    ensures
        forall|i: int|
            0 <= i < s.len() ==> #[trigger] spec_pairs_map(s).contains_key(s[i].0@)
                && spec_pairs_map(s)[s[i].0@] == s[i].1@,
        forall|k: Seq<char>|
            #[trigger] spec_pairs_map(s).contains_key(k) ==> exists|i: int|
                0 <= i < s.len() && (#[trigger] s[i]).0@ == k,
    decreases s.len(),
{
    if s.len() > 0 {
        assert(spec_pairs_unique(s.drop_last()));
        lemma_pairs_map_props(s.drop_last());
        assert forall|i: int| 0 <= i < s.len() implies #[trigger] spec_pairs_map(s).contains_key(
            s[i].0@,
        ) && spec_pairs_map(s)[s[i].0@] == s[i].1@ by {
            if i < s.len() - 1 {
                assert(s.drop_last()[i] == s[i]);
                assert(spec_pairs_map(s.drop_last()).contains_key(s.drop_last()[i].0@));
                assert(spec_pairs_map(s.drop_last())[s.drop_last()[i].0@] == s.drop_last()[i].1@);
                assert(s[i].0@ != s.last().0@);
            }
        }
        assert forall|k: Seq<char>| #[trigger] spec_pairs_map(s).contains_key(k) implies exists|
            i: int,
        | 0 <= i < s.len() && (#[trigger] s[i]).0@ == k by {
            if k == s.last().0@ {
                assert(s[s.len() - 1].0@ == k);
            } else {
                assert(spec_pairs_map(s.drop_last()).contains_key(k));
                let i = choose|i: int|
                    0 <= i < s.drop_last().len() && (#[trigger] s.drop_last()[i]).0@ == k;
                assert(s.drop_last()[i] == s[i]);
                assert(s[i].0@ == k);
            }
        }
    }
}

proof fn lemma_pairs_map_remove(s: Seq<(String, Entry)>, j: int)
    requires
        spec_pairs_unique(s),
        0 <= j < s.len(),
    ensures
        spec_pairs_unique(s.remove(j)),
        forall|t: int| 0 <= t < s.remove(j).len() ==> (#[trigger] s.remove(j)[t]).0@ != s[j].0@,
        spec_pairs_map(s.remove(j)) == spec_pairs_map(s).remove(s[j].0@),
    decreases s.len(),
{
    lemma_pairs_map_props(s);
    if j == s.len() - 1 {
        assert(s.remove(j) =~= s.drop_last());
        lemma_pairs_map_props(s.drop_last());
        assert forall|k: Seq<char>| true implies spec_pairs_map(s.drop_last()).contains_key(k)
            == spec_pairs_map(s).remove(s[j].0@).contains_key(k) by {
            if k == s[j].0@ {
                if spec_pairs_map(s.drop_last()).contains_key(k) {
                    let i = choose|i: int|
                        0 <= i < s.drop_last().len() && (#[trigger] s.drop_last()[i]).0@ == k;
                    assert(s[i].0@ == s[j].0@);
                    assert(false);
                }
            }
        }
        assert(spec_pairs_map(s.remove(j)) =~= spec_pairs_map(s).remove(s[j].0@));
    } else {
        assert(s.remove(j).drop_last() =~= s.drop_last().remove(j));
        assert(s.remove(j).last() == s.last());
        assert(spec_pairs_unique(s.drop_last()));
        lemma_pairs_map_remove(s.drop_last(), j);
        assert(s.drop_last()[j] == s[j]);
        assert(s.last().0@ != s[j].0@);
        assert(spec_pairs_map(s.remove(j)) == spec_pairs_map(s.drop_last().remove(j)).insert(
            s.last().0@,
            s.last().1@,
        ));
        assert(spec_pairs_map(s.remove(j)) =~= spec_pairs_map(s).remove(s[j].0@));
        assert forall|t: int| 0 <= t < s.remove(j).len() implies (#[trigger] s.remove(j)[t]).0@
            != s[j].0@ by {
            if t < j {
                assert(s.remove(j)[t] == s[t]);
            } else {
                assert(s.remove(j)[t] == s[t + 1]);
            }
        }
        assert forall|i: int, t: int| 0 <= i < t < s.remove(j).len() implies (#[trigger] s.remove(
            j,
        )[i]).0@ != (#[trigger] s.remove(j)[t]).0@ by {
            if i < j {
                assert(s.remove(j)[i] == s[i]);
            } else {
                assert(s.remove(j)[i] == s[i + 1]);
            }
            if t < j {
                assert(s.remove(j)[t] == s[t]);
            } else {
                assert(s.remove(j)[t] == s[t + 1]);
            }
        }
    }
}

/// Whether two string slices hold the same characters.
fn str_eq(a: &str, b: &str) -> (res: bool)
    ensures
        res == (a@ == b@),
{
    let r = bytes_eq(a.as_bytes(), b.as_bytes());
    proof {
        broadcast use encode_utf8_decode_utf8;

        if a.spec_bytes() == b.spec_bytes() {
            assert(vstd::utf8::decode_utf8(vstd::utf8::encode_utf8(a@)) == a@);
            assert(vstd::utf8::decode_utf8(vstd::utf8::encode_utf8(b@)) == b@);
        }
    }
    r
}

impl View for KeyDir {
    type V = Map<Seq<char>, EntryV>;

    closed spec fn view(&self) -> Map<Seq<char>, EntryV> {
        spec_pairs_map(self.inner@)
    }
}

impl KeyDir {
    /// Each key is held at most once.
    pub closed spec fn wf(self) -> bool {
        spec_pairs_unique(self.inner@)
    }

    /// An empty index.
    pub fn new() -> (res: Self)
        ensures
            res@ == Map::<Seq<char>, EntryV>::empty(),
            res.wf(),
    {
        let res = KeyDir { inner: Vec::new() };
        proof {
            assert(res@ =~= Map::<Seq<char>, EntryV>::empty());
        }
        res
    }

    /// The index of the pair holding `key`, if one does.
    fn find(&self, key: &str) -> (res: Option<usize>)
        requires
            self.wf(),
        ensures
            match res {
                Some(j) => {
                    &&& j < self.inner@.len()
                    &&& self.inner@[j as int].0@ == key@
                    &&& self@.contains_key(key@)
                    &&& self@[key@] == self.inner@[j as int].1@
                },
                None => !self@.contains_key(key@),
            },
    {
        let mut i: usize = 0;
        while i < self.inner.len()
            invariant
                self.wf(),
                i <= self.inner@.len(),
                forall|j: int| 0 <= j < i ==> (#[trigger] self.inner@[j]).0@ != key@,
            decreases self.inner@.len() - i,
        {
            if str_eq(self.inner[i].0.as_str(), key) {
                proof {
                    lemma_pairs_map_props(self.inner@);
                    assert(spec_pairs_map(self.inner@).contains_key(self.inner@[i as int].0@));
                    assert(spec_pairs_map(self.inner@)[self.inner@[i as int].0@]
                        == self.inner@[i as int].1@);
                }
                return Some(i);
            }
            i = i + 1;
        }
        proof {
            lemma_pairs_map_props(self.inner@);
            if self@.contains_key(key@) {
                let t = choose|t: int|
                    0 <= t < self.inner@.len() && (#[trigger] self.inner@[t]).0@ == key@;
                assert(false);
            }
        }
        None
    }

    /// Unconditional upsert: after the call the key maps to the given
    /// location, whatever it mapped to before.
    pub fn put(&mut self, file_id: String, key: String, value_offset: u64, value_sz: u64)
        requires
            old(self).wf(),
        ensures
            final(self).wf(),
            final(self)@ == old(self)@.insert(
                key@,
                (EntryV { file_id: file_id@, value_offset: value_offset, value_sz: value_sz }),
            ),
    {
        let e = Entry { file_id, value_offset, value_sz };
        let ghost prev = self.inner@;
        let ghost ev = e@;
        match self.find(key.as_str()) {
            Some(j) => {
                proof {
                    lemma_pairs_map_remove(prev, j as int);
                }
                let _removed = self.inner.remove(j);
                self.inner.push((key, e));
                proof {
                    let rem = prev.remove(j as int);
                    let pair = self.inner@.last();
                    assert(self.inner@ == rem.push(pair));
                    assert((rem.push(pair)).drop_last() =~= rem);
                    assert(pair.0@ == prev[j as int].0@);
                    assert(pair.1@ == ev);
                    assert forall|a: int, b: int| 0 <= a < b < self.inner@.len() implies (
                    #[trigger] self.inner@[a]).0@ != (#[trigger] self.inner@[b]).0@ by {
                        if b == self.inner@.len() - 1 {
                            assert(self.inner@[a] == rem[a]);
                            assert(rem[a].0@ != prev[j as int].0@);
                        } else {
                            assert(self.inner@[a] == rem[a]);
                            assert(self.inner@[b] == rem[b]);
                        }
                    }
                    assert(spec_pairs_map(self.inner@) == spec_pairs_map(rem).insert(
                        pair.0@,
                        ev,
                    ));
                    assert(self@ =~= old(self)@.insert(pair.0@, ev));
                }
            },
            None => {
                self.inner.push((key, e));
                proof {
                    lemma_pairs_map_props(prev);
                    let pair = self.inner@.last();
                    assert(self.inner@ == prev.push(pair));
                    assert((prev.push(pair)).drop_last() =~= prev);
                    assert forall|a: int| 0 <= a < prev.len() implies (#[trigger] prev[a]).0@
                        != pair.0@ by {
                        assert(spec_pairs_map(prev).contains_key(prev[a].0@));
                    }
                    assert forall|a: int, b: int| 0 <= a < b < self.inner@.len() implies (
                    #[trigger] self.inner@[a]).0@ != (#[trigger] self.inner@[b]).0@ by {
                        if b == self.inner@.len() - 1 {
                            assert(self.inner@[a] == prev[a]);
                        } else {
                            assert(self.inner@[a] == prev[a]);
                            assert(self.inner@[b] == prev[b]);
                        }
                    }
                    assert(self@ =~= old(self)@.insert(pair.0@, ev));
                }
            },
        }
    }

    /// The location of `key`'s live value, or `None` if the key has none.
    pub fn get(&self, key: &str) -> (res: Option<Entry>)
        requires
            self.wf(),
        ensures
            match res {
                Some(e) => self@.contains_key(key@) && e@ == self@[key@],
                None => !self@.contains_key(key@),
            },
    {
        match self.find(key) {
            Some(j) => {
                let e = &self.inner[j].1;
                Some(
                    Entry {
                        file_id: e.file_id.clone(),
                        value_offset: e.value_offset,
                        value_sz: e.value_sz,
                    },
                )
            },
            None => None,
        }
    }

    /// Whether `key` currently has a live value.
    pub fn contains_key(&self, key: &str) -> (res: bool)
        requires
            self.wf(),
        ensures
            res == self@.contains_key(key@),
    {
        match self.find(key) {
            Some(_) => true,
            None => false,
        }
    }

    /// Deletes `key`'s entry and returns the prior location, if any.
    pub fn remove_key(&mut self, key: &str) -> (res: Option<Entry>)
        requires
            old(self).wf(),
        ensures
            final(self).wf(),
            final(self)@ == old(self)@.remove(key@),
            match res {
                Some(e) => old(self)@.contains_key(key@) && e@ == old(self)@[key@],
                None => !old(self)@.contains_key(key@),
            },
    {
        let ghost prev = self.inner@;
        match self.find(key) {
            Some(j) => {
                proof {
                    lemma_pairs_map_remove(prev, j as int);
                }
                let pair = self.inner.remove(j);
                Some(pair.1)
            },
            None => {
                proof {
                    assert(self@ =~= old(self)@.remove(key@));
                }
                None
            },
        }
    }
}

} // verus!

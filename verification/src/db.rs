//! The key-value store: a mapping from key bytes to stored entries with
//! optional expiry, held as an association list with unique keys and
//! viewed as a `Map`.  Expiry is evaluated lazily when a key is read; an
//! expired entry is removed at that moment.

use crate::bytes::bytes_eq;
use crate::config::Config;
use crate::resp::{seq_model, Value, ValueModel};
use vstd::prelude::*;
use vstd::slice::slice_to_vec;

verus! {

/// One stored entry: the value and, when set, the absolute point in time
/// (milliseconds since the epoch) at which it expires.
pub struct StoredValue {
    pub value: Value,
    pub expiry: Option<u64>,
}

/// The model of a stored entry.
pub struct EntryModel {
    pub value: ValueModel,
    pub expiry: Option<u64>,
}

impl View for StoredValue {
    type V = EntryModel;

    open spec fn view(&self) -> EntryModel {
        EntryModel { value: self.value@, expiry: self.expiry }
    }
}

/// Whether an entry is past its expiry at `now_ms`: an entry expires the
/// moment the clock reaches its expiry time; an entry without one never
/// expires.
pub open spec fn entry_expired(e: EntryModel, now_ms: u64) -> bool {
    match e.expiry {
        Some(t) => t <= now_ms,
        None => false,
    }
}

/// The map denoted by an association list; a later entry for a key would
/// shadow an earlier one, though the store keeps keys unique.
pub open spec fn entries_map(s: Seq<(Vec<u8>, StoredValue)>) -> Map<Seq<u8>, EntryModel>
    decreases s.len(),
{
    if s.len() == 0 {
        Map::empty()
    } else {
        entries_map(s.subrange(0, s.len() - 1)).insert(
            s[s.len() - 1].0@,
            s[s.len() - 1].1@,
        )
    }
}

/// Whether the keys of an association list are pairwise distinct.
pub open spec fn keys_unique(s: Seq<(Vec<u8>, StoredValue)>) -> bool {
    forall|p: int, q: int|
        0 <= p < q < s.len() ==> (#[trigger] s[p].0@) != (#[trigger] s[q].0@)
}

/// With unique keys, the map holds exactly the listed entries.
proof fn lemma_entries_map_props(s: Seq<(Vec<u8>, StoredValue)>)
    requires
        keys_unique(s),
    ensures
        forall|k: Seq<u8>|
            #[trigger] entries_map(s).contains_key(k) <==> (exists|i: int|
                0 <= i < s.len() && (#[trigger] s[i].0@) == k),
        forall|i: int|
            0 <= i < s.len() ==> entries_map(s).contains_key(#[trigger] s[i].0@)
                && entries_map(s)[s[i].0@] == s[i].1@,
    decreases s.len(),
{
    if s.len() > 0 {
        let s0 = s.subrange(0, s.len() - 1);
        let last = s[s.len() - 1];
        assert(forall|i: int| 0 <= i < s0.len() ==> s0[i] == s[i]);
        lemma_entries_map_props(s0);
        assert forall|k: Seq<u8>| #[trigger] entries_map(s).contains_key(k) implies (
        exists|i: int| 0 <= i < s.len() && (#[trigger] s[i].0@) == k) by {
            if k == last.0@ {
                assert(s[s.len() - 1].0@ == k);
            } else {
                assert(entries_map(s0).contains_key(k));
                let i0 = choose|i: int| 0 <= i < s0.len() && (#[trigger] s0[i].0@) == k;
                assert(s0[i0] == s[i0]);
                assert(s[i0].0@ == k);
            }
        }
        assert forall|i: int| 0 <= i < s.len() implies entries_map(s).contains_key(
            #[trigger] s[i].0@,
        ) && entries_map(s)[s[i].0@] == s[i].1@ by {
            if i < s.len() - 1 {
                assert(s0[i].0@ == s[i].0@ && s0[i].1@ == s[i].1@);
                assert(s[i].0@ != last.0@);
            }
        }
    }
}

/// Removing the one entry that holds a key removes that key from the map.
proof fn lemma_entries_map_remove(s: Seq<(Vec<u8>, StoredValue)>, i: int)
    requires
        keys_unique(s),
        0 <= i < s.len(),
    ensures
        entries_map(s.remove(i)) == entries_map(s).remove(s[i].0@),
        keys_unique(s.remove(i)),
        forall|j: int| 0 <= j < s.len() - 1 ==> (#[trigger] s.remove(i)[j].0@) != s[i].0@,
    decreases s.len(),
{
    let k = s[i].0@;
    let s0 = s.subrange(0, s.len() - 1);
    let last = s[s.len() - 1];
    assert(forall|j: int| 0 <= j < s0.len() ==> s0[j] == s[j]);
    assert(forall|j: int|
        0 <= j < s.len() - 1 ==> s.remove(i)[j] == (if j < i {
            s[j]
        } else {
            s[j + 1]
        }));
    if i == s.len() - 1 {
        assert(s.remove(i) =~= s0);
        lemma_entries_map_props(s0);
        assert(!entries_map(s0).contains_key(k));
        assert(entries_map(s).remove(k) =~= entries_map(s0));
    } else {
        assert(s.remove(i).subrange(0, s.len() - 2) =~= s0.remove(i));
        assert(s.remove(i)[s.len() - 2] == last);
        lemma_entries_map_remove(s0, i);
        assert(entries_map(s.remove(i)) == entries_map(s0).remove(k).insert(
            last.0@,
            last.1@,
        ));
        assert(k != last.0@);
        assert(entries_map(s0).remove(k).insert(last.0@, last.1@) =~= entries_map(
            s0,
        ).insert(last.0@, last.1@).remove(k));
    }
}

/// The key-value store together with the startup configuration.  One such
/// value is shared by every connection, guarded by one lock for the full
/// duration of each command.
pub struct DB {
    pub config: Config,
    pub entries: Vec<(Vec<u8>, StoredValue)>,
}

impl View for DB {
    type V = Map<Seq<u8>, EntryModel>;

    open spec fn view(&self) -> Map<Seq<u8>, EntryModel> {
        entries_map(self.entries@)
    }
}

impl DB {
    /// The store's invariant: every key is held at most once.
    pub open spec fn wf(self) -> bool {
        keys_unique(self.entries@)
    }

    /// The stored keys, in storage order.
    pub open spec fn key_seq(self) -> Seq<Seq<u8>> {
        Seq::new(self.entries@.len(), |i: int| self.entries@[i].0@)
    }

    /// An empty store configured from the argument list.
    pub fn new(args: Vec<String>) -> (db: DB)
        ensures
            db@ == Map::<Seq<u8>, EntryModel>::empty(),
            db.wf(),
            db.config.dir@ == crate::config::spec_flag_value(
                args.deep_view(),
                "--dir"@,
                "/tmp/redis-data"@,
            ),
            db.config.dbfilename@ == crate::config::spec_flag_value(
                args.deep_view(),
                "--dbfilename"@,
                "rdbfile.rdb"@,
            ),
    {
        DB { config: Config::new(args), entries: Vec::new() }
    }

    /// The index of the entry holding `key`, if one does.
    fn find_entry(&self, key: &[u8]) -> (r: Option<usize>)
        ensures
            match r {
                Some(i) => i < self.entries@.len() && self.entries@[i as int].0@ == key@,
                None => forall|i: int|
                    0 <= i < self.entries@.len() ==> (#[trigger] self.entries@[i].0@) != key@,
            },
    {
        let mut i: usize = 0;
        while i < self.entries.len()
            invariant
                i <= self.entries@.len(),
                forall|j: int| 0 <= j < i ==> (#[trigger] self.entries@[j].0@) != key@,
            decreases self.entries@.len() - i,
        {
            if bytes_eq(self.entries[i].0.as_slice(), key) {
                return Some(i);
            }
            i = i + 1;
        }
        None
    }

    /// Reads `key` at time `now_ms`: nothing when the key is absent or its
    /// entry has expired — an expired entry is removed at this moment —
    /// otherwise a copy of the stored value, leaving the store unchanged.
    pub fn get(&mut self, key: &[u8], now_ms: u64) -> (r: Option<Value>)
        requires
            old(self).wf(),
        ensures
            final(self).wf(),
            final(self).config == old(self).config,
            ({
                let m = old(self)@;
                let k = key@;
                if m.contains_key(k) && !entry_expired(m[k], now_ms) {
                    &&& r matches Some(v) && v@ == m[k].value
                    &&& final(self)@ == m
                } else if m.contains_key(k) && entry_expired(m[k], now_ms) {
                    &&& r is None
                    &&& final(self)@ == m.remove(k)
                } else {
                    &&& r is None
                    &&& final(self)@ == m
                }
            }),
    {
        proof {
            lemma_entries_map_props(self.entries@);
        }
        match self.find_entry(key) {
            Some(i) => {
                let expired = match self.entries[i].1.expiry {
                    Some(t) => t <= now_ms,
                    None => false,
                };
                if expired {
                    proof {
                        lemma_entries_map_remove(self.entries@, i as int);
                    }
                    let _ = self.entries.remove(i);
                    None
                } else {
                    Some(self.entries[i].1.value.clone())
                }
            },
            None => None,
        }
    }

    /// Inserts or wholesale-replaces the entry for `key`.
    pub fn set(&mut self, key: Vec<u8>, value: Value, expiry: Option<u64>)
        requires
            old(self).wf(),
        ensures
            final(self).wf(),
            final(self).config == old(self).config,
            final(self)@ == old(self)@.insert(key@, EntryModel { value: value@, expiry }),
    {
        proof {
            lemma_entries_map_props(self.entries@);
        }
        let entry = StoredValue { value, expiry };
        match self.find_entry(key.as_slice()) {
            Some(i) => {
                proof {
                    lemma_entries_map_remove(self.entries@, i as int);
                }
                let ghost removed = self.entries@.remove(i as int);
                let _ = self.entries.remove(i);
                self.entries.push((key, entry));
                proof {
                    assert(self.entries@.subrange(0, removed.len() as int) =~= removed);
                    assert(final(self)@ =~= old(self)@.insert(
                        key@,
                        EntryModel { value: entry.value@, expiry },
                    ));
                }
            },
            None => {
                let ghost before = self.entries@;
                self.entries.push((key, entry));
                proof {
                    assert(self.entries@.subrange(0, before.len() as int) =~= before);
                }
            },
        }
    }

    /// A copy of every stored key, in storage order, expired or not.
    pub fn keys(&self) -> (r: Vec<Vec<u8>>)
        ensures
            r@.len() == self.key_seq().len(),
            forall|i: int| 0 <= i < r@.len() ==> (#[trigger] r@[i]@) == self.key_seq()[i],
    {
        let mut out: Vec<Vec<u8>> = Vec::new();
        let mut i: usize = 0;
        while i < self.entries.len()
            invariant
                i <= self.entries@.len(),
                out@.len() == i as int,
                forall|j: int| 0 <= j < i ==> (#[trigger] out@[j]@) == self.entries@[j].0@,
            decreases self.entries@.len() - i,
        {
            out.push(self.entries[i].0.clone());
            i = i + 1;
        }
        out
    }

    /// Appends `values`, in order, to the sequence stored at `key`,
    /// creating an empty sequence first when the key is absent, and
    /// returns the new length; fails, changing nothing, when the key
    /// holds anything but a sequence.
    pub fn append_to_list(&mut self, key: &[u8], values: &[Value]) -> (r: Result<usize, ()>)
        requires
            old(self).wf(),
        ensures
            final(self).wf(),
            final(self).config == old(self).config,
            ({
                let m = old(self)@;
                let k = key@;
                let appended = seq_model(values@);
                if !m.contains_key(k) {
                    &&& r matches Ok(n) && n as int == values@.len()
                    &&& final(self)@ == m.insert(
                        k,
                        EntryModel { value: ValueModel::Array(appended), expiry: None },
                    )
                } else if m[k].value is Array {
                    &&& r matches Ok(n) && n as int == m[k].value->Array_0.len()
                        + values@.len()
                    &&& final(self)@ == m.insert(
                        k,
                        EntryModel {
                            value: ValueModel::Array(m[k].value->Array_0 + appended),
                            expiry: m[k].expiry,
                        },
                    )
                } else {
                    &&& r is Err
                    &&& final(self)@ == m
                }
            }),
    {
        proof {
            lemma_entries_map_props(self.entries@);
        }
        match self.find_entry(key) {
            Some(i) => {
                let is_list = match &self.entries[i].1.value {
                    Value::Array(_) => true,
                    _ => false,
                };
                if !is_list {
                    return Err(());
                }
                proof {
                    lemma_entries_map_remove(self.entries@, i as int);
                }
                let ghost removed_seq = self.entries@.remove(i as int);
                let (stored_key, stored) = self.entries.remove(i);
                let expiry = stored.expiry;
                match stored.value {
                    Value::Array(mut elems) => {
                        let ghost old_elems = elems@;
                        let mut j: usize = 0;
                        while j < values.len()
                            invariant
                                j <= values@.len(),
                                elems@.len() == old_elems.len() + j as int,
                                elems@.subrange(0, old_elems.len() as int) == old_elems,
                                forall|p: int|
                                    0 <= p < j ==> (#[trigger] elems@[old_elems.len() + p])@
                                        == values@[p]@,
                            decreases values@.len() - j,
                        {
                            let ghost before = elems@;
                            elems.push(values[j].clone());
                            proof {
                                assert(elems@.subrange(0, old_elems.len() as int)
                                    =~= before.subrange(0, old_elems.len() as int));
                            }
                            j = j + 1;
                        }
                        let new_len = elems.len();
                        proof {
                            crate::resp::lemma_seq_model_index(elems@);
                            crate::resp::lemma_seq_model_index(old_elems);
                            crate::resp::lemma_seq_model_index(values@);
                            assert(forall|i: int|
                                0 <= i < old_elems.len() ==> (#[trigger] elems@[i])
                                    == old_elems[i]) by {
                                assert(forall|i: int|
                                    0 <= i < old_elems.len() ==> (#[trigger] elems@.subrange(
                                        0,
                                        old_elems.len() as int,
                                    )[i]) == elems@[i]);
                            }
                            let combined = seq_model(old_elems) + seq_model(values@);
                            assert forall|i: int| 0 <= i < elems@.len() implies (
                            #[trigger] seq_model(elems@)[i]) == combined[i] by {
                                if i < old_elems.len() {
                                    assert(elems@[i] == old_elems[i]);
                                } else {
                                    let pp = i - old_elems.len();
                                    assert(elems@[old_elems.len() + pp]@ == values@[pp]@);
                                }
                            }
                            assert(seq_model(elems@) =~= combined);
                        }
                        let entry = StoredValue { value: Value::Array(elems), expiry };
                        self.entries.push((stored_key, entry));
                        proof {
                            assert(self.entries@.subrange(0, removed_seq.len() as int)
                                =~= removed_seq);
                            assert(final(self)@ =~= old(self)@.insert(
                                key@,
                                EntryModel {
                                    value: ValueModel::Array(
                                        seq_model(old_elems) + seq_model(values@),
                                    ),
                                    expiry,
                                },
                            ));
                        }
                        Ok(new_len)
                    },
                    _ => {
                        proof {
                            assert(false);
                        }
                        Err(())
                    },
                }
            },
            None => {
                let mut elems: Vec<Value> = Vec::new();
                let mut j: usize = 0;
                while j < values.len()
                    invariant
                        j <= values@.len(),
                        elems@.len() == j as int,
                        forall|p: int| 0 <= p < j ==> (#[trigger] elems@[p])@ == values@[p]@,
                    decreases values@.len() - j,
                {
                    elems.push(values[j].clone());
                    j = j + 1;
                }
                let new_len = elems.len();
                proof {
                    crate::resp::lemma_seq_model_index(elems@);
                    crate::resp::lemma_seq_model_index(values@);
                    assert(seq_model(elems@) =~= seq_model(values@));
                }
                let ghost before = self.entries@;
                self.entries.push(
                    (
                        slice_to_vec(key),
                        StoredValue { value: Value::Array(elems), expiry: None },
                    ),
                );
                proof {
                    assert(self.entries@.subrange(0, before.len() as int) =~= before);
                }
                Ok(new_len)
            },
        }
    }
}


/// Setting then reading: after an entry without expiry is inserted for a
/// key, a read of that key at any time finds it live and holding exactly
/// the value set; after a second insert for the same key, the read finds
/// the second value, and never the first when the two differ.  Together
/// with `get`'s contract this pins what `get(k)` returns after `set(k, v,
/// None)` and after a later `set(k, v2, None)`.
pub proof fn lemma_set_then_get(
    m: Map<Seq<u8>, EntryModel>,
    k: Seq<u8>,
    v1: ValueModel,
    v2: ValueModel,
    now_ms: u64,
)
    ensures
        ({
            let m1 = m.insert(k, EntryModel { value: v1, expiry: None });
            &&& m1.contains_key(k)
            &&& !entry_expired(m1[k], now_ms)
            &&& m1[k].value == v1
        }),
        ({
            let m2 = m.insert(k, EntryModel { value: v1, expiry: None }).insert(
                k,
                EntryModel { value: v2, expiry: None },
            );
            &&& m2.contains_key(k)
            &&& !entry_expired(m2[k], now_ms)
            &&& m2[k].value == v2
            &&& v1 != v2 ==> m2[k].value != v1
        }),
{
}

/// The expiry boundary: an entry inserted with an absolute expiry `t` is
/// live at every earlier time and expired from `t` on.  Together with
/// `get`'s contract this pins that `get(k)` returns the value before `t`
/// and nothing (removing the entry) once `t` has passed.
pub proof fn lemma_expiry_boundary(
    m: Map<Seq<u8>, EntryModel>,
    k: Seq<u8>,
    v: ValueModel,
    t: u64,
    before_ms: u64,
    after_ms: u64,
)
    requires
        before_ms < t,
        t <= after_ms,
    ensures
        ({
            let m1 = m.insert(k, EntryModel { value: v, expiry: Some(t) });
            &&& m1.contains_key(k)
            &&& !entry_expired(m1[k], before_ms)
            &&& entry_expired(m1[k], after_ms)
            &&& m1[k].value == v
        }),
{
}

} // verus!

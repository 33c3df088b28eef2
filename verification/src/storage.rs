//! The reference in-memory backend: a vector of key/value entries with
//! unique keys, satisfying the full [`MemcachedHandler`] contract.

use vstd::prelude::*;
use vstd::string::StringExecFns;
use crate::handler::EntryV;
use crate::handler::MemcachedHandler;
use crate::handler::WriteOptions;
use crate::numbers::i64_to_string;
use crate::numbers::parse_i64_token;
use crate::response::MemcachedError;
use crate::response::MemcachedResponse;
use crate::response::MemcachedResult;

verus! {

/// One stored record: the value text and the options it was written with.
pub struct McdValue {
    pub value: String,
    pub flags: u32,
    pub expire: u64,
}

impl View for McdValue {
    type V = EntryV;

    open spec fn view(&self) -> EntryV {
        EntryV { value: self.value@, flags: self.flags, expire: self.expire }
    }
}

impl McdValue {
    /// Packs a value with the options of the write that carries it.
    pub fn new(value: String, options: WriteOptions) -> (r: Self)
        ensures
            r@ == (EntryV { value: value@, flags: options.flags, expire: options.expire }),
    {
        McdValue { value, flags: options.flags, expire: options.expire }
    }

    /// The options this record was stored with.
    pub fn to_options(&self) -> (r: WriteOptions)
        ensures
            r == (WriteOptions { flags: self.flags, expire: self.expire }),
    {
        WriteOptions { flags: self.flags, expire: self.expire }
    }
}

struct Slot {
    key: String,
    val: McdValue,
}

/// No two slots carry the same key.
spec fn slots_unique(s: Seq<Slot>) -> bool {
    forall|i: int, j: int| 0 <= i < j < s.len() ==> s[i].key@ != s[j].key@
}

/// The mapping a slot sequence represents.
spec fn slots_map(s: Seq<Slot>) -> Map<Seq<char>, EntryV>
    decreases s.len(),
{
    if s.len() == 0 {
        Map::empty()
    } else {
        slots_map(s.drop_last()).insert(s.last().key@, s.last().val@)
    }
}

/// A key carried by some slot is in the mapping, with that slot's record
/// when keys are unique.
proof fn lemma_slots_map_get(s: Seq<Slot>, i: int)
    requires
        slots_unique(s),
        0 <= i < s.len(),
    ensures
        slots_map(s).contains_key(s[i].key@),
        slots_map(s)[s[i].key@] == s[i].val@,
    decreases s.len(),
{
    if i < s.len() - 1 {
        assert(forall|j: int| 0 <= j < s.len() - 1 ==> s.drop_last()[j] == s[j]);
        lemma_slots_map_get(s.drop_last(), i);
    }
}

/// A key carried by no slot is not in the mapping.
proof fn lemma_slots_map_absent(s: Seq<Slot>, k: Seq<char>)
    requires
        forall|i: int| 0 <= i < s.len() ==> s[i].key@ != k,
    ensures
        !slots_map(s).contains_key(k),
    decreases s.len(),
{
    if s.len() > 0 {
        assert(forall|j: int| 0 <= j < s.len() - 1 ==> s.drop_last()[j] == s[j]);
        lemma_slots_map_absent(s.drop_last(), k);
    }
}

/// Appending a slot inserts its pair.
proof fn lemma_slots_map_push(s: Seq<Slot>, x: Slot)
    ensures
        slots_map(s.push(x)) == slots_map(s).insert(x.key@, x.val@),
{
    assert(s.push(x).drop_last() =~= s);
}

/// Removing the slot at `i` removes its key from the mapping.
proof fn lemma_slots_map_remove(s: Seq<Slot>, i: int)
    requires
        slots_unique(s),
        0 <= i < s.len(),
    ensures
        slots_map(s.remove(i)) == slots_map(s).remove(s[i].key@),
    decreases s.len(),
{
    let k = s[i].key@;
    assert(forall|j: int| 0 <= j < s.len() - 1 ==> s.drop_last()[j] == s[j]);
    if i == s.len() - 1 {
        assert(s.remove(i) =~= s.drop_last());
        lemma_slots_map_absent(s.drop_last(), k);
        assert(slots_map(s.drop_last()) =~= slots_map(s).remove(k));
    } else {
        lemma_slots_map_remove(s.drop_last(), i);
        assert(s.remove(i).drop_last() =~= s.drop_last().remove(i));
        assert(s.remove(i).last() == s.last());
        assert(s.last().key@ != k);
        assert(slots_map(s.drop_last()).remove(k).insert(s.last().key@, s.last().val@)
            =~= slots_map(s.drop_last()).insert(s.last().key@, s.last().val@).remove(k));
    }
}

/// The reference backend: a growable list of entries guarded by the
/// unique-keys invariant.
pub struct HashMapStorage {
    entries: Vec<Slot>,
}

impl HashMapStorage {
    /// The index of the slot carrying `key`, if any.
    fn find(&self, key: &String) -> (r: Option<usize>)
        ensures
            match r {
                Some(i) => i < self.entries@.len() && self.entries@[i as int].key@ == key@,
                None => forall|i: int|
                    0 <= i < self.entries@.len() ==> self.entries@[i].key@ != key@,
            },
    {
        let n: usize = self.entries.len();
        let mut k: usize = 0;
        while k < n
            invariant
                k <= n == self.entries@.len(),
                forall|j: int| 0 <= j < k ==> self.entries@[j].key@ != key@,
            decreases n - k,
        {
            if self.entries[k].key == *key {
                return Some(k);
            }
            k += 1;
        }
        None
    }

    /// Installs `slot`, dropping the entry at `at` first when given: the
    /// mapping gains exactly the new pair.
    fn install(&mut self, at: Option<usize>, slot: Slot) -> (unit: ())
        requires
            slots_unique(old(self).entries@),
            match at {
                Some(i) => i < old(self).entries@.len() && old(self).entries@[i as int].key@
                    == slot.key@,
                None => forall|i: int|
                    0 <= i < old(self).entries@.len() ==> old(self).entries@[i].key@ != slot.key@,
            },
        ensures
            slots_unique(final(self).entries@),
            slots_map(final(self).entries@) == slots_map(old(self).entries@).insert(
                slot.key@,
                slot.val@,
            ),
    {
        let ghost s0 = self.entries@;
        let ghost k = slot.key@;
        if let Some(i) = at {
            self.entries.remove(i);
            proof {
                lemma_slots_map_remove(s0, i as int);
                assert(forall|j: int|
                    0 <= j < s0.len() - 1 ==> s0.remove(i as int)[j] == (if j < i {
                        s0[j]
                    } else {
                        s0[j + 1]
                    }));
                assert(slots_unique(self.entries@));
                assert(forall|j: int| 0 <= j < self.entries@.len() ==> self.entries@[j].key@ != k);
            }
        }
        let ghost s1 = self.entries@;
        proof {
            lemma_slots_map_push(s1, slot);
            lemma_slots_map_absent(s1, k);
        }
        self.entries.push(slot);
        proof {
            assert(forall|j: int| 0 <= j < s1.len() ==> self.entries@[j] == s1[j]);
            assert(slots_unique(self.entries@));
            assert(slots_map(self.entries@) =~= slots_map(s0).insert(k, slot.val@));
        }
    }
}

impl Default for HashMapStorage {
    /// An empty backend.
    fn default() -> (s: Self)
        ensures
            s.inv(),
            s.storage_view() == Map::<Seq<char>, EntryV>::empty(),
    {
        HashMapStorage { entries: Vec::new() }
    }
}

impl MemcachedHandler for HashMapStorage {
    closed spec fn inv(&self) -> bool {
        slots_unique(self.entries@)
    }

    closed spec fn storage_view(&self) -> Map<Seq<char>, EntryV> {
        slots_map(self.entries@)
    }

    fn set(&mut self, key: String, value: String, options: WriteOptions) -> (r: MemcachedResult) {
        let at = self.find(&key);
        self.install(at, Slot { key, val: McdValue::new(value, options) });
        Ok(MemcachedResponse::Stored)
    }

    fn add(&mut self, key: String, value: String, options: WriteOptions) -> (r: MemcachedResult) {
        match self.find(&key) {
            Some(i) => {
                proof {
                    lemma_slots_map_get(self.entries@, i as int);
                }
                Err(MemcachedError::AlreadyExists)
            },
            None => {
                proof {
                    lemma_slots_map_absent(self.entries@, key@);
                }
                self.install(None, Slot { key, val: McdValue::new(value, options) });
                Ok(MemcachedResponse::Stored)
            },
        }
    }

    fn replace(&mut self, key: String, value: String, options: WriteOptions) -> (r:
        MemcachedResult) {
        match self.find(&key) {
            Some(i) => {
                proof {
                    lemma_slots_map_get(self.entries@, i as int);
                }
                self.install(Some(i), Slot { key, val: McdValue::new(value, options) });
                Ok(MemcachedResponse::Stored)
            },
            None => {
                proof {
                    lemma_slots_map_absent(self.entries@, key@);
                }
                Err(MemcachedError::NotFound)
            },
        }
    }

    fn append(&mut self, key: String, value: String, options: WriteOptions) -> (r:
        MemcachedResult) {
        match self.find(&key) {
            Some(i) => {
                proof {
                    lemma_slots_map_get(self.entries@, i as int);
                }
                let joined = self.entries[i].val.value.clone().concat(value.as_str());
                self.install(Some(i), Slot { key, val: McdValue::new(joined, options) });
                Ok(MemcachedResponse::Stored)
            },
            None => {
                proof {
                    lemma_slots_map_absent(self.entries@, key@);
                }
                Err(MemcachedError::NotFound)
            },
        }
    }

    fn prepend(&mut self, key: String, value: String, options: WriteOptions) -> (r:
        MemcachedResult) {
        match self.find(&key) {
            Some(i) => {
                proof {
                    lemma_slots_map_get(self.entries@, i as int);
                }
                let joined = value.clone().concat(self.entries[i].val.value.as_str());
                self.install(Some(i), Slot { key, val: McdValue::new(joined, options) });
                Ok(MemcachedResponse::Stored)
            },
            None => {
                proof {
                    lemma_slots_map_absent(self.entries@, key@);
                }
                Err(MemcachedError::NotFound)
            },
        }
    }

    fn get(&self, key: String) -> (r: MemcachedResult) {
        match self.find(&key) {
            Some(i) => {
                proof {
                    lemma_slots_map_get(self.entries@, i as int);
                }
                let e = &self.entries[i];
                Ok(
                    MemcachedResponse::Value {
                        key,
                        flags: e.val.flags,
                        expire: e.val.expire,
                        value: e.val.value.clone(),
                    },
                )
            },
            None => {
                proof {
                    lemma_slots_map_absent(self.entries@, key@);
                }
                Err(MemcachedError::NotFound)
            },
        }
    }

    fn delete(&mut self, key: String) -> (r: MemcachedResult) {
        let ghost s0 = self.entries@;
        match self.find(&key) {
            Some(i) => {
                proof {
                    lemma_slots_map_get(s0, i as int);
                    lemma_slots_map_remove(s0, i as int);
                }
                self.entries.remove(i);
                proof {
                    assert(forall|j: int|
                        0 <= j < s0.len() - 1 ==> s0.remove(i as int)[j] == (if j < i {
                            s0[j]
                        } else {
                            s0[j + 1]
                        }));
                    assert(slots_unique(self.entries@));
                }
                Ok(MemcachedResponse::Deleted)
            },
            None => {
                proof {
                    lemma_slots_map_absent(self.entries@, key@);
                }
                Err(MemcachedError::NotFound)
            },
        }
    }

    fn increment(&mut self, key: String, diff: i64) -> (r: MemcachedResult) {
        match self.find(&key) {
            Some(i) => {
                proof {
                    lemma_slots_map_get(self.entries@, i as int);
                }
                let e = &self.entries[i];
                let options = e.val.to_options();
                proof {
                    crate::numbers::lemma_parse_i64_bounds(
                        vstd::utf8::encode_utf8(e.val.value@),
                    );
                }
                match parse_i64_token(e.val.value.as_str()) {
                    Ok(Some(cur)) => {
                        let nv: i64 = cur.wrapping_add(diff);
                        proof {
                            assert(nv as int == crate::handler::wrap_i64(cur as int + diff as int));
                        }
                        self.install(
                            Some(i),
                            Slot { key, val: McdValue::new(i64_to_string(nv), options) },
                        );
                        Ok(MemcachedResponse::Stored)
                    },
                    Ok(None) => Err(MemcachedError::FailedToParseInteger),
                    Err(_) => Err(MemcachedError::FailedToParseInteger),
                }
            },
            None => {
                proof {
                    lemma_slots_map_absent(self.entries@, key@);
                }
                Err(MemcachedError::NotFound)
            },
        }
    }

    fn decrement(&mut self, key: String, diff: i64) -> (r: MemcachedResult) {
        match self.find(&key) {
            Some(i) => {
                proof {
                    lemma_slots_map_get(self.entries@, i as int);
                }
                let e = &self.entries[i];
                let options = e.val.to_options();
                proof {
                    crate::numbers::lemma_parse_i64_bounds(
                        vstd::utf8::encode_utf8(e.val.value@),
                    );
                }
                match parse_i64_token(e.val.value.as_str()) {
                    Ok(Some(cur)) => {
                        let nv: i64 = cur.wrapping_sub(diff);
                        proof {
                            assert(nv as int == crate::handler::wrap_i64(cur as int - diff as int));
                        }
                        self.install(
                            Some(i),
                            Slot { key, val: McdValue::new(i64_to_string(nv), options) },
                        );
                        Ok(MemcachedResponse::Stored)
                    },
                    Ok(None) => Err(MemcachedError::FailedToParseInteger),
                    Err(_) => Err(MemcachedError::FailedToParseInteger),
                }
            },
            None => {
                proof {
                    lemma_slots_map_absent(self.entries@, key@);
                }
                Err(MemcachedError::NotFound)
            },
        }
    }

    fn statistics(&self) -> (r: MemcachedResult) {
        Ok(MemcachedResponse::Statistics(Vec::new()))
    }
}

} // verus!

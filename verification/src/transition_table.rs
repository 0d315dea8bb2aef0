//! A direct-mapped memo of bounded scores: one entry per slot, the slot of a
//! key is the key modulo the capacity, and a write takes the slot whatever
//! was in it.

use vstd::prelude::*;

verus! {

/// One slot of the table: a key with its value, or nothing.
#[derive(Clone, Copy, Debug)]
pub struct Entry {
    pub key: u64,
    pub val: i8,
    /// Whether the slot holds a key at all.
    pub used: bool,
}

impl Entry {
    /// The slot that holds nothing.
    pub fn new() -> (entry: Self)
        ensures
            entry == (Entry { key: 0, val: 0, used: false }),
    {
        Entry { key: 0, val: 0, used: false }
    }
}

/// The number of slots: a large prime, to spread the keys.
pub const TABLE_MAX_SIZE: usize = 10411033;

/// The slot that `key` is kept in.
pub open spec fn slot_of(key: u64) -> int {
    key as int % TABLE_MAX_SIZE as int
}

pub struct TransitionTable {
    table: Vec<Entry>,
}

impl View for TransitionTable {
    type V = Map<u64, i8>;

    /// The keys that the table holds, each with its value.
    closed spec fn view(&self) -> Map<u64, i8> {
        Map::new(
            |key: u64| self.table@[slot_of(key)].used && self.table@[slot_of(key)].key == key,
            |key: u64| self.table@[slot_of(key)].val,
        )
    }
}

impl TransitionTable {
    /// The table has its full number of slots.
    pub closed spec fn wf(self) -> bool {
        self.table@.len() == TABLE_MAX_SIZE
    }

    /// What a table holds after `key` was written with `val` to a table that
    /// held `before`: the new pair, and every old pair of another slot.
    pub open spec fn written(before: Map<u64, i8>, key: u64, val: i8) -> Map<u64, i8> {
        Map::new(
            |k: u64| k == key || (before.contains_key(k) && slot_of(k) != slot_of(key)),
            |k: u64|
                if k == key {
                    val
                } else {
                    before[k]
                },
        )
    }

    /// An empty table.
    pub fn new() -> (table: Self)
        ensures
            table.wf(),
            table@ == Map::<u64, i8>::empty(),
    {
        let table = TransitionTable { table: vec![Entry::new(); TABLE_MAX_SIZE] };
        assert(table@ =~= Map::<u64, i8>::empty());
        table
    }

    /// Forgets every key.
    pub fn reset(&mut self)
        requires
            old(self).wf(),
        ensures
            final(self).wf(),
            final(self)@ == Map::<u64, i8>::empty(),
    {
        let n = self.table.len();
        for i in 0..n
            invariant
                n == TABLE_MAX_SIZE,
                self.table@.len() == n,
                forall|j: int| 0 <= j < i ==> !(#[trigger] self.table@[j]).used,
        {
            self.table[i] = Entry::new();
        }
        assert(self@ =~= Map::<u64, i8>::empty());
    }

    fn index(&self, key: u64) -> (i: usize)
        requires
            self.wf(),
        ensures
            i == slot_of(key),
    {
        (key % (self.table.len() as u64)) as usize
    }

    /// The value kept for `key`, if the slot of `key` holds `key`.
    pub fn get(&self, key: u64) -> (val: Option<i8>)
        requires
            self.wf(),
        ensures
            val == (if self@.contains_key(key) {
                Some(self@[key])
            } else {
                None
            }),
    {
        let i = self.index(key);
        if self.table[i].used && self.table[i].key == key {
            Some(self.table[i].val)
        } else {
            None
        }
    }

    /// Keeps `val` for `key`, in place of whatever the slot of `key` held.
    pub fn set(&mut self, key: u64, val: i8)
        requires
            old(self).wf(),
        ensures
            final(self).wf(),
            final(self)@ == Self::written(old(self)@, key, val),
    {
        let i = self.index(key);
        self.table[i] = Entry { key, val, used: true };
        assert(self@ =~= Self::written(old(self)@, key, val));
    }

    /// A key that was written is found with its value, until its slot is
    /// written again.
    pub proof fn lemma_get_after_set(before: Map<u64, i8>, key: u64, val: i8)
        ensures
            Self::written(before, key, val).contains_key(key),
            Self::written(before, key, val)[key] == val,
    {
    }

    /// No slot holds two keys.
    pub proof fn lemma_one_key_per_slot(self, key1: u64, key2: u64)
        requires
            self@.contains_key(key1),
            self@.contains_key(key2),
            slot_of(key1) == slot_of(key2),
        ensures
            key1 == key2,
    {
    }
}

} // verus!

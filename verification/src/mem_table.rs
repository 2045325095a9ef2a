//! A sorted in-memory table of the latest written records, the write buffer
//! of a log-structured store. Entries are kept in a vector sorted by key, so
//! lookups can binary-search and range scans walk the vector in order; a
//! deleted record stays as a tombstone entry rather than being removed.

use vstd::prelude::*;

use crate::node::{key_equal, key_less, key_lt, keys_sorted};

verus! {

/// One modified record: its key, the value (absent for a tombstone), the
/// write's timestamp in microseconds, and whether it is a tombstone.
pub struct MemTableEntry {
    pub key: Vec<u8>,
    pub value: Option<Vec<u8>>,
    pub timestamp: u128,
    pub deleted: bool,
}

/// The table of the latest written records, sorted by key.
pub struct MemTable {
    entries: Vec<MemTableEntry>,
    size: usize,
}

impl MemTable {
    /// The keys held, in storage order.
    pub closed spec fn keys(self) -> Seq<Seq<u8>> {
        self.entries@.map_values(|e: MemTableEntry| e.key@)
    }

    /// The table's invariant: keys strictly ascending, so each key occurs
    /// once and binary search is sound.
    pub open spec fn wf(self) -> bool {
        keys_sorted(self.keys())
    }

    /// Where `key` is, or where it would be inserted: `Ok(i)` when
    /// `entries[i]` holds exactly `key`, else `Err(i)` with `i` the first
    /// position whose key is not below `key`.
    pub fn get_index(&self, key: &[u8]) -> (r: Result<usize, usize>)
        requires
            self.wf(),
        ensures
            match r {
                Ok(i) => i < self.keys().len() && self.keys()[i as int] == key@,
                Err(i) => {
                    &&& i <= self.keys().len()
                    &&& forall|m: int|
                        0 <= m < i ==> key_lt(#[trigger] self.keys()[m], key@) && self.keys()[m]
                            != key@
                    &&& (i < self.keys().len() ==> key_lt(key@, self.keys()[i as int]))
                    &&& forall|m: int| 0 <= m < self.keys().len() ==> self.keys()[m] != key@
                },
            },
    {
        let keyv = slice_to_vec(key);
        let ghost ks = self.keys();
        let mut i: usize = 0;
        while i < self.entries.len()
            invariant
                self.wf(),
                ks == self.keys(),
                keyv@ == key@,
                i <= self.entries@.len(),
                forall|m: int| 0 <= m < i ==> key_lt(#[trigger] ks[m], key@) && ks[m] != key@,
            decreases self.entries@.len() - i,
        {
            if key_equal(&self.entries[i].key, &keyv) {
                return Ok(i);
            }
            if key_less(&keyv, &self.entries[i].key) {
                proof {
                    lemma_all_differ(ks, key@, i as int);
                }
                return Err(i);
            }
            proof {
                crate::node::lemma_key_lt_total(ks[i as int], key@);
            }
            i = i + 1;
        }
        proof {
            lemma_all_differ(ks, key@, i as int);
        }
        Err(i)
    }
}

proof fn lemma_all_differ(ks: Seq<Seq<u8>>, key: Seq<u8>, i: int)
    requires
        keys_sorted(ks),
        0 <= i <= ks.len(),
        forall|m: int| 0 <= m < i ==> key_lt(#[trigger] ks[m], key) && ks[m] != key,
        i < ks.len() ==> key_lt(key, ks[i]),
    ensures
        forall|m: int| 0 <= m < ks.len() ==> ks[m] != key,
{
    assert forall|m: int| 0 <= m < ks.len() implies ks[m] != key by {
        if m >= i && ks[m] == key {
            if m > i {
                assert(key_lt(ks[i], ks[m]));
                crate::node::lemma_key_lt_trans(key, ks[i], ks[m]);
            }
            crate::node::lemma_key_lt_irrefl(key);
        }
    }
}

/// Copies a byte slice into a vector.
fn slice_to_vec(s: &[u8]) -> (r: Vec<u8>)
    ensures
        r@ == s@,
{
    let mut out: Vec<u8> = Vec::new();
    let mut i: usize = 0;
    while i < s.len()
        invariant
            i <= s@.len(),
            out@ == s@.subrange(0, i as int),
        decreases s@.len() - i,
    {
        out.push(*vstd::slice::slice_index_get(s, i));
        proof {
            assert(out@ =~= s@.subrange(0, i + 1));
        }
        i = i + 1;
    }
    proof {
        assert(out@ =~= s@);
    }
    out
}

/// A new, empty table.
pub fn new() -> (m: MemTable)
    ensures
        m.wf(),
        m.keys().len() == 0,
{
    MemTable { entries: Vec::new(), size: 0 }
}

} // verus!

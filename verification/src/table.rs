//! The in-memory multimap: an ordered table of entries, each a 32-bit key
//! with a non-empty, append-only list of string values. Keys are unique
//! within a table; colliding labels simply share one entry. Entries keep
//! insertion order.

use vstd::prelude::*;

verus! {

/// The mathematical model of a table: entries in order, each a key and its
/// values as sequences of code points.
pub type Table = Seq<(u32, Seq<Seq<char>>)>;

/// Well-formedness of a table: every key appears in at most one entry, and
/// no entry's value list is empty.
pub open spec fn wf(t: Table) -> bool {
    &&& forall|i: int, j: int|
        0 <= i < t.len() && 0 <= j < t.len() && i != j ==> t[i].0 != t[j].0
    &&& forall|i: int| 0 <= i < t.len() ==> t[i].1.len() > 0
}

/// Whether some entry of `t` carries the key `k`.
pub open spec fn has_key(t: Table, k: u32) -> bool {
    exists|i: int| 0 <= i < t.len() && t[i].0 == k
}

/// The position of the entry carrying `k`; meaningful only when `has_key`
/// holds, and unique under `wf`.
pub open spec fn key_index(t: Table, k: u32) -> int {
    choose|i: int| 0 <= i < t.len() && t[i].0 == k
}

/// The values stored under `k`, in insertion order; empty when `k` is absent.
pub open spec fn lookup_spec(t: Table, k: u32) -> Seq<Seq<char>> {
    if has_key(t, k) {
        t[key_index(t, k)].1
    } else {
        Seq::empty()
    }
}

/// The table after inserting `v` under `k`: append `v` to the existing
/// entry's values, or append a fresh entry at the end of the table.
pub open spec fn insert_spec(t: Table, k: u32, v: Seq<char>) -> Table {
    if has_key(t, k) {
        t.update(key_index(t, k), (k, t[key_index(t, k)].1.push(v)))
    } else {
        t.push((k, seq![v]))
    }
}

/// The table after deleting `k`: the whole entry is removed; deleting an
/// absent key changes nothing.
pub open spec fn remove_spec(t: Table, k: u32) -> Table {
    if has_key(t, k) {
        t.remove(key_index(t, k))
    } else {
        t
    }
}

/// The in-memory multimap, a flat table scanned linearly by key.
#[derive(Debug)]
pub struct HashyMap {
    pub table: Vec<(u32, Vec<String>)>,
}

impl View for HashyMap {
    type V = Table;

    open spec fn view(&self) -> Table {
        self.table.deep_view()
    }
}

impl HashyMap {
    /// An empty table.
    pub fn new() -> (r: HashyMap)
        ensures
            r@ == Seq::<(u32, Seq<Seq<char>>)>::empty(),
            wf(r@),
    {
        let r = HashyMap { table: Vec::new() };
        proof {
            assert(r@ =~= Seq::<(u32, Seq<Seq<char>>)>::empty());
        }
        r
    }

    /// Every entry in table order, keys with their value lists, for full
    /// listings. Read-only.
    pub fn iterate(&self) -> (r: &Vec<(u32, Vec<String>)>)
        ensures
            r.deep_view() == self@,
    {
        &self.table
    }

    /// Runtime check of the table invariant, for a caller that assembled a
    /// table by hand rather than through this library's own operations.
    pub fn is_well_formed(&self) -> (r: bool)
        ensures
            r == wf(self@),
    {
        let n = self.table.len();
        let mut i: usize = 0;
        while i < n
            invariant
                n == self.table@.len(),
                i <= n,
                forall|a: int, b: int| 0 <= a < b < i ==> self@[a].0 != self@[b].0,
                forall|a: int| 0 <= a < i ==> self@[a].1.len() > 0,
            decreases n - i,
        {
            if self.table[i].1.len() == 0 {
                proof {
                    assert(self@[i as int].1.len() == 0);
                    assert(!wf(self@));
                }
                return false;
            }
            let mut j: usize = 0;
            while j < i
                invariant
                    n == self.table@.len(),
                    i < n,
                    j <= i,
                    forall|a: int| 0 <= a < j ==> self@[a].0 != self@[i as int].0,
                decreases i - j,
            {
                if self.table[j].0 == self.table[i].0 {
                    proof {
                        assert(self@[j as int].0 == self@[i as int].0);
                        assert(!wf(self@));
                    }
                    return false;
                }
                j = j + 1;
            }
            i = i + 1;
        }
        proof {
            assert forall|a: int, b: int|
                0 <= a < n && 0 <= b < n && a != b implies self@[a].0 != self@[b].0 by {
                if a < b {
                } else {
                }
            }
        }
        true
    }

    /// Linear scan for the entry carrying `k`: the first matching position,
    /// or `None` when the key is absent.
    fn find_index(&self, k: u32) -> (r: Option<usize>)
        ensures
            match r {
                Some(i) => {
                    &&& i < self@.len()
                    &&& self@[i as int].0 == k
                    &&& forall|j: int| 0 <= j < i ==> self@[j].0 != k
                },
                None => !has_key(self@, k),
            },
    {
        let n = self.table.len();
        let mut i: usize = 0;
        while i < n
            invariant
                n == self.table@.len(),
                i <= n,
                forall|j: int| 0 <= j < i ==> self@[j].0 != k,
            decreases n - i,
        {
            if self.table[i].0 == k {
                return Some(i);
            }
            i = i + 1;
        }
        None
    }

    /// Insert `v` under `k`: append to the entry holding `k`, or create a new
    /// entry at the end of the table. Always succeeds; duplicates are kept.
    pub fn add_value(&mut self, k: u32, v: String)
        requires
            wf(old(self)@),
        ensures
            final(self)@ == insert_spec(old(self)@, k, v@),
            wf(final(self)@),
    {
        let ghost t0: Table = self@;
        let ghost vv: Seq<char> = v@;
        match self.find_index(k) {
            Some(i) => {
                proof {
                    assert(has_key(t0, k));
                    let ki = key_index(t0, k);
                    assert(0 <= ki < t0.len() && t0[ki].0 == k);
                    assert(ki == i as int);
                }
                self.table[i].1.push(v);
                proof {
                    assert(self.table@[i as int].1.deep_view() =~= t0[i as int].1.push(vv));
                    assert(self@ =~= t0.update(i as int, (k, t0[i as int].1.push(vv))));
                }
            },
            None => {
                let mut values: Vec<String> = Vec::new();
                values.push(v);
                self.table.push((k, values));
                proof {
                    assert(values.deep_view() =~= seq![vv]);
                    assert(self@ =~= t0.push((k, seq![vv])));
                }
            },
        }
    }

    /// Delete the entry carrying `k`, all of its values at once; a no-op when
    /// the key is absent.
    pub fn remove_value(&mut self, k: u32)
        requires
            wf(old(self)@),
        ensures
            final(self)@ == remove_spec(old(self)@, k),
            wf(final(self)@),
    {
        let ghost t0: Table = self@;
        match self.find_index(k) {
            Some(i) => {
                proof {
                    assert(has_key(t0, k));
                    let ki = key_index(t0, k);
                    assert(0 <= ki < t0.len() && t0[ki].0 == k);
                    assert(ki == i as int);
                }
                self.table.remove(i);
                proof {
                    assert(self@ =~= t0.remove(i as int));
                }
            },
            None => {},
        }
    }

    /// The values stored under `k`, in insertion order; an empty vector when
    /// the key is absent. Read-only.
    pub fn find_values(&self, k: u32) -> (r: Vec<String>)
        requires
            wf(self@),
        ensures
            r.deep_view() == lookup_spec(self@, k),
    {
        match self.find_index(k) {
            Some(i) => {
                proof {
                    assert(has_key(self@, k));
                    let ki = key_index(self@, k);
                    assert(0 <= ki < self@.len() && self@[ki].0 == k);
                    assert(ki == i as int);
                }
                let r = self.table[i].1.clone();
                proof {
                    assert(r.deep_view() =~= self@[i as int].1);
                }
                r
            },
            None => {
                let r: Vec<String> = Vec::new();
                proof {
                    assert(r.deep_view() =~= Seq::<Seq<char>>::empty());
                }
                r
            },
        }
    }
}

/// After inserting `v` under `k`, looking `k` up yields exactly the values
/// that were there before followed by `v`: `v` is the last element, and every
/// earlier value for `k` is kept in its original order.
pub proof fn lemma_insert_lookup(t: Table, k: u32, v: Seq<char>)
    requires
        wf(t),
    ensures
        lookup_spec(insert_spec(t, k, v), k) == lookup_spec(t, k).push(v),
{
    let t1 = insert_spec(t, k, v);
    if has_key(t, k) {
        let ki = key_index(t, k);
        assert(0 <= ki < t.len() && t[ki].0 == k);
        assert(t1[ki].0 == k);
        assert(has_key(t1, k));
        let ki1 = key_index(t1, k);
        assert(0 <= ki1 < t1.len() && t1[ki1].0 == k);
        if ki1 != ki {
            assert(t1[ki1] == t[ki1]);
            assert(t[ki1].0 == k);
            assert(false);
        }
    } else {
        let n = t.len() as int;
        assert(t1[n].0 == k);
        assert(has_key(t1, k));
        let ki1 = key_index(t1, k);
        assert(0 <= ki1 < t1.len() && t1[ki1].0 == k);
        if ki1 != n {
            assert(t[ki1].0 == k);
            assert(has_key(t, k));
            assert(false);
        }
        assert(lookup_spec(t1, k) == seq![v]);
        assert(lookup_spec(t, k).push(v) =~= seq![v]);
    }
}

/// After deleting `k`, looking `k` up yields nothing, whether or not `k` was
/// present before.
pub proof fn lemma_delete_lookup(t: Table, k: u32)
    requires
        wf(t),
    ensures
        lookup_spec(remove_spec(t, k), k) == Seq::<Seq<char>>::empty(),
{
    let t1 = remove_spec(t, k);
    if has_key(t, k) {
        let ki = key_index(t, k);
        assert(0 <= ki < t.len() && t[ki].0 == k);
        if has_key(t1, k) {
            let j = key_index(t1, k);
            assert(0 <= j < t1.len() && t1[j].0 == k);
            if j < ki {
                assert(t1[j] == t[j]);
            } else {
                assert(t1[j] == t[j + 1]);
            }
            assert(false);
        }
    } else {
        assert(!has_key(t1, k));
    }
}

/// Deleting an absent key is a no-op: the table, and hence anything computed
/// from it (its encoded form included), is unchanged.
pub proof fn lemma_delete_absent_noop(t: Table, k: u32)
    requires
        !has_key(t, k),
    ensures
        remove_spec(t, k) == t,
{
}

/// Insertion preserves well-formedness.
pub proof fn lemma_insert_wf(t: Table, k: u32, v: Seq<char>)
    requires
        wf(t),
    ensures
        wf(insert_spec(t, k, v)),
{
}

/// Deletion preserves well-formedness.
pub proof fn lemma_remove_wf(t: Table, k: u32)
    requires
        wf(t),
    ensures
        wf(remove_spec(t, k)),
{
}

} // verus!

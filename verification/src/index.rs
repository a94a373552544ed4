//! A sorted map from a field value to the ids of the rows that hold it.
//!
//! Keys are kept in a sorted vector and found by binary search, so a lookup
//! takes time logarithmic in the number of distinct keys, whatever the
//! number of rows.

use crate::encoding::radix_pow;
use crate::row::{FieldType, Row, RID};
use vstd::prelude::*;

verus! {

/// The number that the bytes `s` spell, most significant byte first.
pub open spec fn be_value(s: Seq<u8>) -> nat
    decreases s.len(),
{
    if s.len() == 0 {
        0
    } else {
        be_value(s.drop_last()) * 256 + s.last() as nat
    }
}

/// The place of a key in the order of keys: names come before epochs, names
/// are ordered byte by byte, epochs by their number.
pub open spec fn key_rank(key: FieldType) -> nat {
    match key {
        FieldType::Name(a) => be_value(a@),
        FieldType::Epoch(e) => radix_pow(64) + e as nat,
    }
}

/// The ids listed under `key`; none where the key is unknown.
pub open spec fn ids_for(m: Map<FieldType, Seq<RID>>, key: FieldType) -> Seq<RID> {
    if m.contains_key(key) {
        m[key]
    } else {
        Seq::empty()
    }
}

/// The map after `id` was appended to the ids of `key`.
pub open spec fn appended(m: Map<FieldType, Seq<RID>>, key: FieldType, id: RID) -> Map<
    FieldType,
    Seq<RID>,
> {
    m.insert(key, ids_for(m, key).push(id))
}

/// The map that results from appending `entries` in order, starting empty.
pub open spec fn built(entries: Seq<(FieldType, RID)>) -> Map<FieldType, Seq<RID>>
    decreases entries.len(),
{
    if entries.len() == 0 {
        Map::empty()
    } else {
        appended(built(entries.drop_last()), entries.last().0, entries.last().1)
    }
}

/// The ids of the entries with key `key`, in the order of the entries.
pub open spec fn ids_of(entries: Seq<(FieldType, RID)>, key: FieldType) -> Seq<RID>
    decreases entries.len(),
{
    if entries.len() == 0 {
        Seq::empty()
    } else if entries.last().0 == key {
        ids_of(entries.drop_last(), key).push(entries.last().1)
    } else {
        ids_of(entries.drop_last(), key)
    }
}

/// How many of the entries have the key `key`.
pub open spec fn occurrences(entries: Seq<(FieldType, RID)>, key: FieldType) -> nat
    decreases entries.len(),
{
    if entries.len() == 0 {
        0
    } else if entries.last().0 == key {
        occurrences(entries.drop_last(), key) + 1
    } else {
        occurrences(entries.drop_last(), key)
    }
}

/// Whether the ids grow strictly from each to the next.
pub open spec fn ascending(ids: Seq<RID>) -> bool {
    forall|i: int, j: int| 0 <= i < j < ids.len() ==> ids[i] < ids[j]
}

/// Whether the ids of the entries grow strictly from each entry to the
/// next.
pub open spec fn entries_ascending(entries: Seq<(FieldType, RID)>) -> bool {
    forall|i: int, j: int| 0 <= i < j < entries.len() ==> entries[i].1 < entries[j].1
}

proof fn lemma_be_value_bound(s: Seq<u8>)
    ensures
        be_value(s) < radix_pow(s.len()),
    decreases s.len(),
{
    if s.len() > 0 {
        lemma_be_value_bound(s.drop_last());
        assert(radix_pow(s.len()) == 256 * radix_pow((s.len() - 1) as nat));
    }
}

/// Of two byte strings of one length, the one with the smaller byte at the
/// first place where they differ spells the smaller number.
proof fn lemma_be_order(x: Seq<u8>, y: Seq<u8>, i: int)
    requires
        x.len() == y.len(),
        0 <= i < x.len(),
        forall|j: int| 0 <= j < i ==> x[j] == y[j],
        x[i] < y[i],
    ensures
        be_value(x) < be_value(y),
    decreases x.len(),
{
    let n = x.len() as int;
    if i == n - 1 {
        assert(x.drop_last() =~= y.drop_last());
    } else {
        lemma_be_order(x.drop_last(), y.drop_last(), i);
    }
}

/// Where one key stands with respect to another.
#[derive(Clone, Copy, Debug, PartialEq, Eq, Structural)]
pub enum Place {
    Before,
    Same,
    After,
}

/// Where `a` stands with respect to `b` in the order of keys.
pub fn place_of(a: &FieldType, b: &FieldType) -> (place: Place)
    ensures
        place == Place::Before <==> key_rank(*a) < key_rank(*b),
        place == Place::Same <==> *a == *b,
        place == Place::After <==> key_rank(*a) > key_rank(*b),
{
    match (a, b) {
        (FieldType::Name(x), FieldType::Name(y)) => {
            let mut i: usize = 0;
            while i < 64
                invariant
                    i <= 64,
                    *a == FieldType::Name(*x),
                    *b == FieldType::Name(*y),
                    forall|j: int| 0 <= j < i ==> x[j] == y[j],
                decreases 64 - i,
            {
                if x[i] < y[i] {
                    proof {
                        lemma_be_order(x@, y@, i as int);
                    }
                    return Place::Before;
                }
                if x[i] > y[i] {
                    proof {
                        lemma_be_order(y@, x@, i as int);
                    }
                    return Place::After;
                }
                i += 1;
            }
            proof {
                assert(*x =~= *y);
            }
            Place::Same
        },
        (FieldType::Name(x), FieldType::Epoch(_)) => {
            proof {
                lemma_be_value_bound(x@);
            }
            Place::Before
        },
        (FieldType::Epoch(_), FieldType::Name(y)) => {
            proof {
                lemma_be_value_bound(y@);
            }
            Place::After
        },
        (FieldType::Epoch(x), FieldType::Epoch(y)) => {
            if *x < *y {
                Place::Before
            } else if *x > *y {
                Place::After
            } else {
                Place::Same
            }
        },
    }
}

/// The Index structure
///
/// Use this to create an index on any column of a Row to achieve O(log n)
/// lookup for any key.
#[derive(Debug)]
pub struct Index {
    keys: Vec<FieldType>,
    ids: Vec<Vec<RID>>,
}

impl View for Index {
    type V = Map<FieldType, Seq<RID>>;

    /// The ids listed under each key, in the order in which they came.
    closed spec fn view(&self) -> Map<FieldType, Seq<RID>> {
        Map::new(
            |key: FieldType| self.keys@.contains(key),
            |key: FieldType| self.ids@[self.keys@.index_of(key)]@,
        )
    }
}

impl Index {
    /// The index's invariant: the keys are sorted and distinct, and every
    /// key has at least one id.
    pub closed spec fn wf(&self) -> bool {
        &&& self.keys@.len() == self.ids@.len()
        &&& forall|i: int, j: int|
            0 <= i < j < self.keys@.len() ==> key_rank(self.keys@[i]) < key_rank(self.keys@[j])
        &&& forall|i: int| 0 <= i < self.ids@.len() ==> (#[trigger] self.ids@[i])@.len() > 0
    }

    /// The ids of the key that stands at `i`.
    proof fn lemma_at(&self, i: int)
        requires
            self.wf(),
            0 <= i < self.keys@.len(),
        ensures
            self@.contains_key(self.keys@[i]),
            self@[self.keys@[i]] == self.ids@[i]@,
    {
        let key = self.keys@[i];
        assert(self.keys@.contains(key));
        let j = self.keys@.index_of(key);
        assert(self.keys@[j] == key);
        if j < i {
            assert(key_rank(self.keys@[j]) < key_rank(self.keys@[i]));
        }
        if i < j {
            assert(key_rank(self.keys@[i]) < key_rank(self.keys@[j]));
        }
    }

    /// An empty index.
    pub fn new() -> (index: Index)
        ensures
            index.wf(),
            index@ == Map::<FieldType, Seq<RID>>::empty(),
    {
        let index = Index { keys: Vec::new(), ids: Vec::new() };
        assert(index@ =~= Map::<FieldType, Seq<RID>>::empty());
        index
    }

    /// Where `key` stands among the keys: its position if it is there,
    /// else the position at which it would have to be put.
    fn search(&self, key: &FieldType) -> (res: (bool, usize))
        requires
            self.wf(),
        ensures
            res.1 <= self.keys@.len(),
            res.0 ==> res.1 < self.keys@.len() && self.keys@[res.1 as int] == *key,
            !res.0 ==> !self.keys@.contains(*key),
            !res.0 ==> forall|i: int| 0 <= i < res.1 ==> key_rank(self.keys@[i]) < key_rank(*key),
            !res.0 ==> forall|i: int|
                res.1 <= i < self.keys@.len() ==> key_rank(*key) < key_rank(self.keys@[i]),
    {
        let mut low: usize = 0;
        let mut high: usize = self.keys.len();
        while low < high
            invariant
                self.wf(),
                low <= high <= self.keys@.len(),
                forall|i: int| 0 <= i < low ==> key_rank(self.keys@[i]) < key_rank(*key),
                forall|i: int|
                    high <= i < self.keys@.len() ==> key_rank(*key) < key_rank(self.keys@[i]),
            decreases high - low,
        {
            let mid = low + (high - low) / 2;
            match place_of(&self.keys[mid], key) {
                Place::Same => {
                    return (true, mid);
                },
                Place::Before => {
                    proof {
                        assert forall|i: int| 0 <= i < mid + 1 implies key_rank(self.keys@[i])
                            < key_rank(*key) by {
                            if i < mid {
                                assert(key_rank(self.keys@[i]) < key_rank(self.keys@[mid as int]));
                            }
                        }
                    }
                    low = mid + 1;
                },
                Place::After => {
                    proof {
                        assert forall|i: int| mid <= i < self.keys@.len() implies key_rank(*key)
                            < key_rank(self.keys@[i]) by {
                            if mid < i {
                                assert(key_rank(self.keys@[mid as int]) < key_rank(self.keys@[i]));
                            }
                        }
                    }
                    high = mid;
                },
            }
        }
        proof {
            if self.keys@.contains(*key) {
                let i = self.keys@.index_of(*key);
                assert(self.keys@[i] == *key);
            }
        }
        (false, low)
    }

    /// Appends the id of `row` to the ids listed under the value that the
    /// row has in column `index_on_col`.
    pub fn insert(&mut self, row: Row, index_on_col: usize)
        requires
            old(self).wf(),
            index_on_col < row.fields@.len(),
        ensures
            final(self).wf(),
            final(self)@ == appended(old(self)@, row.fields@[index_on_col as int], row.id),
    {
        let key = row.fields[index_on_col];
        let (found, at) = self.search(&key);
        if found {
            proof {
                old(self).lemma_at(at as int);
            }
            self.ids[at].push(row.id);
            proof {
                assert(self.keys@ == old(self).keys@);
                assert(self.ids@[at as int]@ == old(self).ids@[at as int]@.push(row.id));
                assert(self.wf());
                self.lemma_at(at as int);
                assert forall|k: FieldType| #[trigger]
                    self@.contains_key(k) == appended(old(self)@, key, row.id).contains_key(k) && (
                    self@.contains_key(k) ==> self@[k] == appended(old(self)@, key, row.id)[k]) by {
                    if k != key && self.keys@.contains(k) {
                        let j = self.keys@.index_of(k);
                        assert(self.keys@[j] == k);
                        self.lemma_at(j);
                        old(self).lemma_at(j);
                    }
                }
                assert(self@ =~= appended(old(self)@, key, row.id));
            }
        } else {
            let mut list: Vec<RID> = Vec::new();
            list.push(row.id);
            self.keys.insert(at, key);
            self.ids.insert(at, list);
            proof {
                let n = at as int;
                assert(self.keys@ =~= old(self).keys@.insert(n, key));
                assert(self.ids@ =~= old(self).ids@.insert(n, list));
                assert forall|i: int, j: int| 0 <= i < j < self.keys@.len() implies key_rank(
                    self.keys@[i],
                ) < key_rank(self.keys@[j]) by {
                    let i2 = if i < n {
                        i
                    } else {
                        i - 1
                    };
                    let j2 = if j < n {
                        j
                    } else {
                        j - 1
                    };
                    if i != n && j != n {
                        assert(key_rank(old(self).keys@[i2]) < key_rank(old(self).keys@[j2]));
                    }
                }
                assert forall|i: int| 0 <= i < self.ids@.len()
                    implies (#[trigger] self.ids@[i])@.len() > 0 by {
                    if i < n {
                        assert(self.ids@[i] == old(self).ids@[i]);
                    } else if i > n {
                        assert(self.ids@[i] == old(self).ids@[i - 1]);
                    }
                }
                assert(self.wf());
                self.lemma_at(n);
                assert(list@ =~= Seq::<RID>::empty().push(row.id));
                assert forall|k: FieldType| #[trigger]
                    self@.contains_key(k) == appended(old(self)@, key, row.id).contains_key(k) && (
                    self@.contains_key(k) ==> self@[k] == appended(old(self)@, key, row.id)[k]) by {
                    if k != key {
                        if self.keys@.contains(k) {
                            let j = self.keys@.index_of(k);
                            assert(self.keys@[j] == k);
                            let j2 = if j < n {
                                j
                            } else {
                                j - 1
                            };
                            assert(old(self).keys@[j2] == k);
                            self.lemma_at(j);
                            old(self).lemma_at(j2);
                        } else if old(self).keys@.contains(k) {
                            let j = old(self).keys@.index_of(k);
                            assert(old(self).keys@[j] == k);
                            let j2 = if j < n {
                                j
                            } else {
                                j + 1
                            };
                            assert(self.keys@[j2] == k);
                        }
                    }
                }
                assert(self@ =~= appended(old(self)@, key, row.id));
            }
        }
    }

    /// The ids listed under `key`, in the order in which they came; nothing
    /// where the key is unknown.
    pub fn get(&self, key: FieldType) -> (res: Option<&Vec<RID>>)
        requires
            self.wf(),
        ensures
            match res {
                Some(ids) => self@.contains_key(key) && ids@ == self@[key] && ids@.len() > 0,
                None => !self@.contains_key(key),
            },
    {
        let (found, at) = self.search(&key);
        if found {
            proof {
                self.lemma_at(at as int);
            }
            Some(&self.ids[at])
        } else {
            None
        }
    }

    /// The number of distinct keys.
    pub fn len(&self) -> (n: usize)
        requires
            self.wf(),
        ensures
            n == self@.dom().len(),
    {
        proof {
            self.lemma_dom_len();
        }
        self.keys.len()
    }

    proof fn lemma_dom_len(&self)
        requires
            self.wf(),
        ensures
            self@.dom().finite(),
            self@.dom().len() == self.keys@.len(),
    {
        assert(self.keys@.no_duplicates()) by {
            assert forall|i: int, j: int|
                0 <= i < self.keys@.len() && 0 <= j < self.keys@.len() && i != j
                implies self.keys@[i] != self.keys@[j] by {
                if i < j {
                    assert(key_rank(self.keys@[i]) < key_rank(self.keys@[j]));
                } else {
                    assert(key_rank(self.keys@[j]) < key_rank(self.keys@[i]));
                }
            }
        }
        self.keys@.unique_seq_to_set();
        assert(self@.dom() =~= self.keys@.to_set());
    }
}

/// What an index holds under a key after a run of insertions is the ids of
/// the insertions with that key, in their order.
pub proof fn lemma_built_ids(entries: Seq<(FieldType, RID)>, key: FieldType)
    ensures
        ids_for(built(entries), key) == ids_of(entries, key),
        built(entries).contains_key(key) <==> occurrences(entries, key) > 0,
    decreases entries.len(),
{
    if entries.len() > 0 {
        lemma_built_ids(entries.drop_last(), key);
    }
}

/// A key that was inserted N times has exactly N ids.
pub proof fn lemma_ids_count(entries: Seq<(FieldType, RID)>, key: FieldType)
    ensures
        ids_of(entries, key).len() == occurrences(entries, key),
    decreases entries.len(),
{
    if entries.len() > 0 {
        lemma_ids_count(entries.drop_last(), key);
    }
}

/// Every id listed under a key is the id of an insertion with that key.
pub proof fn lemma_ids_come_from_entries(entries: Seq<(FieldType, RID)>, key: FieldType, i: int)
    requires
        0 <= i < ids_of(entries, key).len(),
    ensures
        exists|j: int|
            0 <= j < entries.len() && #[trigger] entries[j].1 == ids_of(entries, key)[i]
                && entries[j].0 == key,
    decreases entries.len(),
{
    let front = entries.drop_last();
    if entries.last().0 == key && i == ids_of(front, key).len() {
        assert(entries[entries.len() - 1].1 == ids_of(entries, key)[i]);
    } else {
        lemma_ids_come_from_entries(front, key, i);
        let j = choose|j: int|
            0 <= j < front.len() && #[trigger] front[j].1 == ids_of(front, key)[i] && front[j].0
                == key;
        assert(entries[j].1 == ids_of(entries, key)[i]);
    }
}

/// Where rows are inserted in the order of their ids, the ids listed under
/// every key are in ascending order.
pub proof fn lemma_ids_ascending(entries: Seq<(FieldType, RID)>, key: FieldType)
    requires
        entries_ascending(entries),
    ensures
        ascending(ids_of(entries, key)),
    decreases entries.len(),
{
    if entries.len() > 0 {
        let front = entries.drop_last();
        assert(entries_ascending(front)) by {
            assert forall|a: int, b: int| 0 <= a < b < front.len() implies front[a].1
                < front[b].1 by {
                assert(entries[a].1 < entries[b].1);
            }
        }
        lemma_ids_ascending(front, key);
        if entries.last().0 == key {
            let ids = ids_of(entries, key);
            let n = ids_of(front, key).len() as int;
            assert forall|i: int, j: int| 0 <= i < j < ids.len() implies ids[i] < ids[j] by {
                if j == n {
                    lemma_ids_come_from_entries(front, key, i);
                    let k = choose|k: int|
                        0 <= k < front.len() && #[trigger] front[k].1 == ids_of(front, key)[i]
                            && front[k].0 == key;
                    assert(entries[k].1 < entries[entries.len() - 1].1);
                } else {
                    assert(ids_of(front, key)[i] < ids_of(front, key)[j]);
                }
            }
        }
    }
}

} // verus!

//! A map from ids to values, kept in the order of the ids.
use vstd::prelude::*;

use crate::order::{bytes_less, bytes_order_is_total, copied, is_bytes_less, same_bytes};

verus! {

/// How many bytes the id of an operation has.
pub const OPERATION_ID_LENGTH: usize = 64;

/// How many bytes the id of a view has.
pub const VIEW_ID_LENGTH: usize = 64;

/// A map from ids to `V`, its entries kept in key order.
#[derive(Debug, PartialEq, Eq)]
pub struct IdMap<V> {
    entries: Vec<(Vec<u8>, V)>,
}

/// Keys in strictly increasing order: sorted, and none twice.
pub open spec fn ids_increase<V>(entries: Seq<(Vec<u8>, V)>) -> bool {
    forall|i: int, j: int|
        0 <= i < j < entries.len() ==> bytes_less(#[trigger] entries[i].0@, #[trigger] entries[j].0@)
}

/// The map that a list of entries denotes; of two entries for one key the later
/// one counts.
pub open spec fn id_entries<V: View>(entries: Seq<(Vec<u8>, V)>) -> Map<Seq<u8>, V::V>
    decreases entries.len(),
{
    if entries.len() == 0 {
        Map::empty()
    } else {
        id_entries(entries.drop_last()).insert(entries.last().0@, entries.last().1@)
    }
}

pub proof fn lemma_id_entries<V: View>(entries: Seq<(Vec<u8>, V)>)
    requires
        ids_increase(entries),
    ensures
        forall|i: int|
            0 <= i < entries.len() ==> id_entries(entries).contains_key(#[trigger] entries[i].0@)
                && id_entries(entries)[entries[i].0@] == entries[i].1@,
        forall|k: Seq<u8>| #[trigger]
            id_entries(entries).contains_key(k) ==> exists|i: int|
                0 <= i < entries.len() && #[trigger] entries[i].0@ == k,
    decreases entries.len(),
{
    if entries.len() > 0 {
        let front = entries.drop_last();
        lemma_id_entries(front);
        let n = entries.len() - 1;
        assert forall|i: int| 0 <= i < entries.len() implies id_entries(entries).contains_key(
            #[trigger] entries[i].0@,
        ) && id_entries(entries)[entries[i].0@] == entries[i].1@ by {
            if i < n {
                bytes_order_is_total(entries[i].0@, entries[n].0@, entries[n].0@);
                assert(front[i] == entries[i]);
            }
        }
        assert forall|k: Seq<u8>| #[trigger] id_entries(entries).contains_key(k) implies exists|
            i: int,
        |
            0 <= i < entries.len() && #[trigger] entries[i].0@ == k by {
            if k == entries[n].0@ {
            } else {
                assert(id_entries(front).contains_key(k));
                let i = choose|i: int| 0 <= i < front.len() && #[trigger] front[i].0@ == k;
                assert(entries[i].0@ == k);
            }
        }
    }
}

impl<V> IdMap<V> {
    #[verifier::type_invariant]
    spec fn ordered(self) -> bool {
        ids_increase(self.entries@)
    }

    /// The entries in key order.
    pub closed spec fn items(self) -> Seq<(Vec<u8>, V)> {
        self.entries@
    }
}

impl<V: View> View for IdMap<V> {
    type V = Map<Seq<u8>, V::V>;

    open spec fn view(&self) -> Map<Seq<u8>, V::V> {
        id_entries(self.items())
    }
}

impl<V: View> IdMap<V> {
    /// The empty map.
    pub fn new() -> (m: Self)
        ensures
            m@ == Map::<Seq<u8>, V::V>::empty(),
            m.items() == Seq::<(Vec<u8>, V)>::empty(),
    {
        IdMap { entries: Vec::new() }
    }

    pub fn len(&self) -> (n: usize)
        ensures
            n == self.items().len(),
    {
        self.entries.len()
    }

    pub fn is_empty(&self) -> (r: bool)
        ensures
            r == (self.items().len() == 0),
    {
        self.entries.len() == 0
    }

    /// The entries, each once, keys increasing.
    pub fn entries(&self) -> (r: &Vec<(Vec<u8>, V)>)
        ensures
            r@ == self.items(),
            ids_increase(r@),
            self@ == id_entries(r@),
    {
        proof {
            use_type_invariant(self);
        }
        &self.entries
    }

    /// Where `key` is, or where it would go.
    fn position(&self, key: &[u8]) -> (r: (usize, bool))
        ensures
            r.0 <= self.items().len(),
            r.1 ==> r.0 < self.items().len() && self.items()[r.0 as int].0@ == key@,
            forall|i: int| 0 <= i < r.0 ==> bytes_less(#[trigger] self.items()[i].0@, key@),
            !r.1 ==> forall|i: int|
                r.0 <= i < self.items().len() ==> bytes_less(key@, #[trigger] self.items()[i].0@),
    {
        proof {
            use_type_invariant(self);
        }
        let mut i: usize = 0;
        while i < self.entries.len() && is_bytes_less(self.entries[i].0.as_slice(), key)
            invariant
                i <= self.entries@.len(),
                forall|j: int| 0 <= j < i ==> bytes_less(#[trigger] self.entries@[j].0@, key@),
            decreases self.entries@.len() - i,
        {
            i = i + 1;
        }
        if i < self.entries.len() && same_bytes(self.entries[i].0.as_slice(), key) {
            return (i, true);
        }
        proof {
            if i < self.entries@.len() {
                let here = self.entries@[i as int].0@;
                bytes_order_is_total(here, key@, key@);
                assert forall|j: int| i <= j < self.entries@.len() implies bytes_less(
                    key@,
                    #[trigger] self.entries@[j].0@,
                ) by {
                    if j > i {
                        bytes_order_is_total(key@, here, self.entries@[j].0@);
                    }
                }
            }
        }
        (i, false)
    }

    /// The value of `key`.
    pub fn get(&self, key: &[u8]) -> (r: Option<&V>)
        ensures
            match r {
                Some(v) => self@.contains_key(key@) && v@ == self@[key@],
                None => !self@.contains_key(key@),
            },
    {
        proof {
            use_type_invariant(self);
            lemma_id_entries(self.entries@);
        }
        let (i, found) = self.position(key);
        if found {
            assert(self.items()[i as int].0@ == key@);
            Some(&self.entries[i].1)
        } else {
            proof {
                if self@.contains_key(key@) {
                    let j = choose|j: int|
                        0 <= j < self.entries@.len() && #[trigger] self.entries@[j].0@ == key@;
                    assert(self.items()[j].0@ == key@);
                    bytes_order_is_total(key@, key@, key@);
                }
            }
            None
        }
    }

    pub fn contains_key(&self, key: &[u8]) -> (r: bool)
        ensures
            r == self@.contains_key(key@),
    {
        self.get(key).is_some()
    }

    /// Set the value of `key`.
    pub fn insert(&mut self, key: &[u8], value: V)
        ensures
            final(self)@ == old(self)@.insert(key@, value@),
    {
        proof {
            use_type_invariant(&*self);
        }
        let (at, found) = self.position(key);
        let mut entries: Vec<(Vec<u8>, V)> = Vec::new();
        std::mem::swap(&mut entries, &mut self.entries);
        let ghost before = entries@;
        if found {
            let _ = entries.remove(at);
        }
        entries.insert(at, (copied(key), value));
        proof {
            let after = entries@;
            let n = after.len();
            assert(ids_increase(before));
            // Where each entry other than the new one stood before.
            let src = |i: int| -> int {
                if i < at {
                    i
                } else if found {
                    i
                } else {
                    i - 1
                }
            };
            assert forall|i: int| 0 <= i < n && i != at implies #[trigger] after[i] == before[src(i)]
                && 0 <= src(i) < before.len() by {}
            assert(after[at as int].0@ == key@);
            assert forall|i: int| 0 <= i < at implies bytes_less(#[trigger] after[i].0@, key@) by {
                assert(before[i].0@ == after[i].0@);
            }
            assert forall|i: int| at < i < n implies bytes_less(key@, #[trigger] after[i].0@) by {
                if found {
                    assert(bytes_less(before[at as int].0@, before[i].0@));
                } else {
                    assert(bytes_less(key@, before[i - 1].0@));
                }
            }
            assert(ids_increase(after)) by {
                assert forall|i: int, j: int| 0 <= i < j < n implies bytes_less(
                    #[trigger] after[i].0@,
                    #[trigger] after[j].0@,
                ) by {
                    if i == at {
                    } else if j == at {
                    } else {
                        assert(after[i] == before[src(i)]);
                        assert(after[j] == before[src(j)]);
                        assert(src(i) < src(j));
                    }
                }
            }
            lemma_id_entries(before);
            lemma_id_entries(after);
            let m = id_entries(before).insert(key@, value@);
            assert(id_entries(after) =~= m) by {
                assert forall|k: Seq<u8>| id_entries(after).contains_key(k) <==> #[trigger]
                    m.contains_key(k) by {
                    if id_entries(after).contains_key(k) {
                        let i = choose|i: int| 0 <= i < n && #[trigger] after[i].0@ == k;
                        if i != at {
                            assert(before[src(i)].0@ == k);
                        }
                    }
                    if m.contains_key(k) && k != key@ {
                        let i = choose|i: int| 0 <= i < before.len() && #[trigger] before[i].0@ == k;
                        let j = if i < at {
                            i
                        } else if found {
                            i
                        } else {
                            i + 1
                        };
                        assert(after[j] == before[src(j)]);
                        assert(after[j].0@ == k);
                    }
                }
                assert forall|k: Seq<u8>| #[trigger] m.contains_key(k) implies m[k] == id_entries(
                    after,
                )[k] by {
                    let i = choose|i: int| 0 <= i < n && #[trigger] after[i].0@ == k;
                    if i != at {
                        assert(before[src(i)].0@ == k);
                        bytes_order_is_total(k, key@, k);
                    }
                }
            }
        }
        self.entries = entries;
    }

    /// Take the value of `key` out.
    pub fn remove(&mut self, key: &[u8]) -> (r: Option<V>)
        ensures
            match r {
                Some(v) => old(self)@.contains_key(key@) && v@ == old(self)@[key@] && final(self)@
                    == old(self)@.remove(key@),
                None => !old(self)@.contains_key(key@) && final(self)@ == old(self)@,
            },
    {
        proof {
            use_type_invariant(&*self);
            lemma_id_entries(self.entries@);
        }
        let (at, found) = self.position(key);
        if !found {
            proof {
                if self@.contains_key(key@) {
                    let j = choose|j: int|
                        0 <= j < self.entries@.len() && #[trigger] self.entries@[j].0@ == key@;
                    assert(self.items()[j].0@ == key@);
                    bytes_order_is_total(key@, key@, key@);
                }
            }
            return None;
        }
        let mut entries: Vec<(Vec<u8>, V)> = Vec::new();
        std::mem::swap(&mut entries, &mut self.entries);
        let ghost before = entries@;
        let (_, value) = entries.remove(at);
        proof {
            let after = entries@;
            let src = |i: int| -> int {
                if i < at {
                    i
                } else {
                    i + 1
                }
            };
            assert forall|i: int| 0 <= i < after.len() implies #[trigger] after[i] == before[src(i)]
                && 0 <= src(i) < before.len() && src(i) != at by {}
            assert(ids_increase(after)) by {
                assert forall|i: int, j: int| 0 <= i < j < after.len() implies bytes_less(
                    #[trigger] after[i].0@,
                    #[trigger] after[j].0@,
                ) by {
                    assert(after[i] == before[src(i)]);
                    assert(after[j] == before[src(j)]);
                }
            }
            lemma_id_entries(after);
            let m = id_entries(before).remove(key@);
            assert(before[at as int].0@ == key@);
            assert forall|i: int| 0 <= i < after.len() implies #[trigger] after[i].0@ != key@ by {
                assert(after[i] == before[src(i)]);
                bytes_order_is_total(key@, key@, key@);
            }
            assert(id_entries(after) =~= m) by {
                assert forall|k: Seq<u8>| id_entries(after).contains_key(k) <==> #[trigger]
                    m.contains_key(k) by {
                    if id_entries(after).contains_key(k) {
                        let i = choose|i: int| 0 <= i < after.len() && #[trigger] after[i].0@ == k;
                        assert(before[src(i)].0@ == k);
                    }
                    if m.contains_key(k) {
                        let i = choose|i: int| 0 <= i < before.len() && #[trigger] before[i].0@ == k;
                        let j = if i < at {
                            i
                        } else {
                            i - 1
                        };
                        assert(after[j] == before[src(j)]);
                        assert(after[j].0@ == k);
                    }
                }
                assert forall|k: Seq<u8>| #[trigger] m.contains_key(k) implies m[k] == id_entries(
                    after,
                )[k] by {
                    assert(id_entries(after).contains_key(k));
                    let i = choose|i: int| 0 <= i < after.len() && #[trigger] after[i].0@ == k;
                    assert(before[src(i)].0@ == k);
                }
            }
        }
        self.entries = entries;
        Some(value)
    }
}

} // verus!

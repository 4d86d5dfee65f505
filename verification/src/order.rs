//! Sorted collections keyed by text.
//!
//! Texts are ordered as `str` orders them: by the code points of their
//! characters, the first difference deciding. Byte strings are ordered by their
//! bytes. A [`TextMap`] keeps its entries in that order with no key twice, so
//! that walking one is walking the keys in order.
use vstd::prelude::*;
use vstd::seq_lib::{to_multiset_contains, to_multiset_remove};
use vstd::string::*;

use crate::text::{chars_of, debug_text, join, joined, models, quoted, same_text};

verus! {

// ─── The order ────────────────────────────────────────────────────────────────

/// Lexicographic order on sequences of numbers.
pub open spec fn lex_less(a: Seq<int>, b: Seq<int>) -> bool
    decreases a.len(),
{
    if b.len() == 0 {
        false
    } else if a.len() == 0 {
        true
    } else {
        a[0] < b[0] || (a[0] == b[0] && lex_less(a.skip(1), b.skip(1)))
    }
}

/// The code points of a text.
pub open spec fn codes(s: Seq<char>) -> Seq<int> {
    s.map_values(|c: char| c as int)
}

/// The order of texts.
pub open spec fn text_less(a: Seq<char>, b: Seq<char>) -> bool {
    lex_less(codes(a), codes(b))
}

pub open spec fn byte_codes(s: Seq<u8>) -> Seq<int> {
    s.map_values(|c: u8| c as int)
}

/// The order of byte strings.
pub open spec fn bytes_less(a: Seq<u8>, b: Seq<u8>) -> bool {
    lex_less(byte_codes(a), byte_codes(b))
}

proof fn lemma_lex_irreflexive(a: Seq<int>)
    ensures
        !lex_less(a, a),
    decreases a.len(),
{
    if a.len() > 0 {
        lemma_lex_irreflexive(a.skip(1));
    }
}

proof fn lemma_lex_transitive(a: Seq<int>, b: Seq<int>, c: Seq<int>)
    requires
        lex_less(a, b),
        lex_less(b, c),
    ensures
        lex_less(a, c),
    decreases a.len(),
{
    if a.len() > 0 && a[0] == b[0] && b[0] == c[0] {
        lemma_lex_transitive(a.skip(1), b.skip(1), c.skip(1));
    }
}

proof fn lemma_lex_total(a: Seq<int>, b: Seq<int>)
    ensures
        lex_less(a, b) || lex_less(b, a) || a == b,
    decreases a.len(),
{
    if a.len() > 0 && b.len() > 0 && a[0] == b[0] {
        lemma_lex_total(a.skip(1), b.skip(1));
        if a.skip(1) == b.skip(1) {
            assert(a =~= seq![a[0]] + a.skip(1));
            assert(b =~= seq![b[0]] + b.skip(1));
        }
    } else if a.len() == 0 && b.len() == 0 {
        assert(a =~= b);
    }
}

proof fn lemma_codes_injective(a: Seq<char>, b: Seq<char>)
    requires
        codes(a) == codes(b),
    ensures
        a == b,
{
    assert(a.len() == codes(a).len() && b.len() == codes(b).len());
    assert forall|i: int| 0 <= i < a.len() implies a[i] == b[i] by {
        assert(codes(a)[i] == a[i] as int);
        assert(codes(b)[i] == b[i] as int);
    }
    assert(a =~= b);
}

/// The order of texts is a strict total order.
pub proof fn text_order_is_total(a: Seq<char>, b: Seq<char>, c: Seq<char>)
    ensures
        !text_less(a, a),
        text_less(a, b) && text_less(b, c) ==> text_less(a, c),
        text_less(a, b) || text_less(b, a) || a == b,
        text_less(a, b) ==> !text_less(b, a) && a != b,
{
    lemma_lex_irreflexive(codes(a));
    if text_less(a, b) && text_less(b, c) {
        lemma_lex_transitive(codes(a), codes(b), codes(c));
    }
    lemma_lex_total(codes(a), codes(b));
    if codes(a) == codes(b) {
        lemma_codes_injective(a, b);
    }
    if text_less(a, b) && text_less(b, a) {
        lemma_lex_transitive(codes(a), codes(b), codes(a));
    }
}

/// The order of byte strings is a strict total order.
pub proof fn bytes_order_is_total(a: Seq<u8>, b: Seq<u8>, c: Seq<u8>)
    ensures
        !bytes_less(a, a),
        bytes_less(a, b) && bytes_less(b, c) ==> bytes_less(a, c),
        bytes_less(a, b) || bytes_less(b, a) || a == b,
        bytes_less(a, b) ==> !bytes_less(b, a) && a != b,
{
    lemma_lex_irreflexive(byte_codes(a));
    if bytes_less(a, b) && bytes_less(b, c) {
        lemma_lex_transitive(byte_codes(a), byte_codes(b), byte_codes(c));
    }
    lemma_lex_total(byte_codes(a), byte_codes(b));
    if byte_codes(a) == byte_codes(b) {
        assert(byte_codes(a).len() == byte_codes(b).len());
        assert forall|i: int| 0 <= i < a.len() implies a[i] == b[i] by {
            assert(byte_codes(a)[i] == byte_codes(b)[i]);
        }
        assert(a =~= b);
    }
    if bytes_less(a, b) && bytes_less(b, a) {
        lemma_lex_transitive(byte_codes(a), byte_codes(b), byte_codes(a));
    }
}

proof fn lemma_first_difference(a: Seq<int>, b: Seq<int>, k: int)
    requires
        0 <= k <= a.len(),
        k <= b.len(),
        forall|i: int| 0 <= i < k ==> a[i] == b[i],
    ensures
        k < a.len() && k < b.len() && a[k] != b[k] ==> (lex_less(a, b) <==> a[k] < b[k]),
        k == a.len() ==> (lex_less(a, b) <==> a.len() < b.len()),
    decreases k,
{
    if k > 0 {
        assert forall|i: int| 0 <= i < k - 1 implies a.skip(1)[i] == b.skip(1)[i] by {
            assert(a[i + 1] == b[i + 1]);
        }
        lemma_first_difference(a.skip(1), b.skip(1), k - 1);
        assert(a[0] == b[0]);
    }
}

/// The first place at which two texts differ decides: the one with the smaller code there
/// comes first. Where one is the beginning of the other, the shorter comes first.
pub proof fn the_first_different_character_decides(a: Seq<char>, b: Seq<char>, k: int)
    requires
        0 <= k <= a.len(),
        k <= b.len(),
        a.take(k) == b.take(k),
    ensures
        k < a.len() && k < b.len() && a[k] != b[k] ==> (text_less(a, b) <==> a[k] < b[k]),
        k == a.len() ==> (text_less(a, b) <==> a.len() < b.len()),
{
    assert forall|i: int| 0 <= i < k implies codes(a)[i] == codes(b)[i] by {
        assert(a.take(k)[i] == a[i]);
        assert(b.take(k)[i] == b[i]);
    }
    lemma_first_difference(codes(a), codes(b), k);
    if k < a.len() && k < b.len() {
        assert(codes(a)[k] == a[k] as int && codes(b)[k] == b[k] as int);
    }
}

/// The first place at which two byte strings differ decides: the one with the smaller byte
/// there comes first. Where one is the beginning of the other, the shorter comes first.
pub proof fn the_first_different_byte_decides(a: Seq<u8>, b: Seq<u8>, k: int)
    requires
        0 <= k <= a.len(),
        k <= b.len(),
        a.take(k) == b.take(k),
    ensures
        k < a.len() && k < b.len() && a[k] != b[k] ==> (bytes_less(a, b) <==> a[k] < b[k]),
        k == a.len() ==> (bytes_less(a, b) <==> a.len() < b.len()),
{
    assert forall|i: int| 0 <= i < k implies byte_codes(a)[i] == byte_codes(b)[i] by {
        assert(a.take(k)[i] == a[i]);
        assert(b.take(k)[i] == b[i]);
    }
    lemma_first_difference(byte_codes(a), byte_codes(b), k);
}

/// Compare two texts.
pub fn is_text_less(a: &str, b: &str) -> (r: bool)
    ensures
        r == text_less(a@, b@),
{
    let x = chars_of(a);
    let y = chars_of(b);
    let mut i: usize = 0;
    assert(codes(x@).skip(0) =~= codes(x@));
    assert(codes(y@).skip(0) =~= codes(y@));
    while i < x.len() && i < y.len()
        invariant
            i <= x@.len(),
            i <= y@.len(),
            x@ == a@,
            y@ == b@,
            text_less(a@, b@) == lex_less(codes(x@).skip(i as int), codes(y@).skip(i as int)),
        decreases x@.len() - i,
    {
        let ghost p = codes(x@).skip(i as int);
        let ghost q = codes(y@).skip(i as int);
        assert(p[0] == x@[i as int] as int && q[0] == y@[i as int] as int);
        assert(p.skip(1) =~= codes(x@).skip(i + 1));
        assert(q.skip(1) =~= codes(y@).skip(i + 1));
        if x[i] < y[i] {
            return true;
        }
        if x[i] > y[i] {
            return false;
        }
        i = i + 1;
    }
    i < y.len()
}

/// Compare two byte strings.
pub fn is_bytes_less(a: &[u8], b: &[u8]) -> (r: bool)
    ensures
        r == bytes_less(a@, b@),
{
    let mut i: usize = 0;
    assert(byte_codes(a@).skip(0) =~= byte_codes(a@));
    assert(byte_codes(b@).skip(0) =~= byte_codes(b@));
    while i < a.len() && i < b.len()
        invariant
            i <= a@.len(),
            i <= b@.len(),
            bytes_less(a@, b@) == lex_less(
                byte_codes(a@).skip(i as int),
                byte_codes(b@).skip(i as int),
            ),
        decreases a@.len() - i,
    {
        let ghost p = byte_codes(a@).skip(i as int);
        let ghost q = byte_codes(b@).skip(i as int);
        assert(p[0] == a@[i as int] as int && q[0] == b@[i as int] as int);
        assert(p.skip(1) =~= byte_codes(a@).skip(i + 1));
        assert(q.skip(1) =~= byte_codes(b@).skip(i + 1));
        if a[i] < b[i] {
            return true;
        }
        if a[i] > b[i] {
            return false;
        }
        i = i + 1;
    }
    i < b.len()
}

/// Whether two byte strings are the same.
pub fn same_bytes(a: &[u8], b: &[u8]) -> (r: bool)
    ensures
        r == (a@ == b@),
{
    if a.len() != b.len() {
        return false;
    }
    let mut i: usize = 0;
    while i < a.len()
        invariant
            i <= a@.len(),
            a@.len() == b@.len(),
            forall|j: int| 0 <= j < i ==> a@[j] == b@[j],
        decreases a@.len() - i,
    {
        if a[i] != b[i] {
            return false;
        }
        i = i + 1;
    }
    assert(a@ =~= b@);
    true
}

/// A copy of a byte string.
pub fn copied(a: &[u8]) -> (r: Vec<u8>)
    ensures
        r@ == a@,
{
    let mut r: Vec<u8> = Vec::new();
    r.extend_from_slice(a);
    assert(r@ =~= a@);
    r
}

/// A list of ids again.
pub fn copied_ids(ids: &Vec<Vec<u8>>) -> (r: Vec<Vec<u8>>)
    ensures
        models(r@) == models(ids@),
{
    let mut r: Vec<Vec<u8>> = Vec::new();
    let mut i: usize = 0;
    while i < ids.len()
        invariant
            i <= ids@.len(),
            r@.len() == i,
            forall|j: int| 0 <= j < i ==> (#[trigger] r@[j])@ == ids@[j]@,
        decreases ids@.len() - i,
    {
        r.push(copied(ids[i].as_slice()));
        i = i + 1;
    }
    assert(models(r@) =~= models(ids@));
    r
}

// ─── The map ──────────────────────────────────────────────────────────────────

/// A map from text to `V`, its entries kept in key order.
#[derive(Debug, PartialEq, Eq)]
pub struct TextMap<V> {
    entries: Vec<(String, V)>,
}

/// Keys in strictly increasing order: sorted, and none twice.
pub open spec fn keys_increase<V>(entries: Seq<(String, V)>) -> bool {
    forall|i: int, j: int|
        0 <= i < j < entries.len() ==> text_less(#[trigger] entries[i].0@, #[trigger] entries[j].0@)
}

/// The map that a list of entries denotes; of two entries for one key the later
/// one counts.
pub open spec fn entries_map<V: View>(entries: Seq<(String, V)>) -> Map<Seq<char>, V::V>
    decreases entries.len(),
{
    if entries.len() == 0 {
        Map::empty()
    } else {
        entries_map(entries.drop_last()).insert(entries.last().0@, entries.last().1@)
    }
}

/// A key is in the map that entries denote exactly when an entry has it, and its value is
/// that of the last such entry.
pub proof fn the_later_entry_counts<V: View>(entries: Seq<(String, V)>, key: Seq<char>, i: int)
    ensures
        0 <= i < entries.len() && entries[i].0@ == key ==> entries_map(entries).contains_key(key),
        0 <= i < entries.len() && entries[i].0@ == key && (forall|j: int|
            i < j < entries.len() ==> #[trigger] entries[j].0@ != key) ==> entries_map(entries)[key]
            == entries[i].1@,
        (forall|j: int| 0 <= j < entries.len() ==> #[trigger] entries[j].0@ != key)
            ==> !entries_map(entries).contains_key(key),
    decreases entries.len(),
{
    if entries.len() > 0 {
        let front = entries.drop_last();
        the_later_entry_counts(front, key, i);
        if forall|j: int| 0 <= j < entries.len() ==> #[trigger] entries[j].0@ != key {
            assert forall|j: int| 0 <= j < front.len() implies #[trigger] front[j].0@ != key by {
                assert(entries[j].0@ != key);
            }
            assert(entries[entries.len() - 1].0@ != key);
        }
        if 0 <= i < entries.len() - 1 && entries[i].0@ == key && (forall|j: int|
            i < j < entries.len() ==> #[trigger] entries[j].0@ != key) {
            assert(front[i] == entries[i]);
            assert forall|j: int| i < j < front.len() implies #[trigger] front[j].0@ != key by {
                assert(entries[j].0@ != key);
            }
            assert(entries[entries.len() - 1].0@ != key);
        }
    }
}

pub proof fn lemma_entries_map<V: View>(entries: Seq<(String, V)>)
    requires
        keys_increase(entries),
    ensures
        forall|i: int|
            0 <= i < entries.len() ==> entries_map(entries).contains_key(#[trigger] entries[i].0@)
                && entries_map(entries)[entries[i].0@] == entries[i].1@,
        forall|k: Seq<char>| #[trigger]
            entries_map(entries).contains_key(k) ==> exists|i: int|
                0 <= i < entries.len() && #[trigger] entries[i].0@ == k,
    decreases entries.len(),
{
    if entries.len() > 0 {
        let front = entries.drop_last();
        lemma_entries_map(front);
        let n = entries.len() - 1;
        assert forall|i: int| 0 <= i < entries.len() implies entries_map(entries).contains_key(
            #[trigger] entries[i].0@,
        ) && entries_map(entries)[entries[i].0@] == entries[i].1@ by {
            if i < n {
                text_order_is_total(entries[i].0@, entries[n].0@, entries[n].0@);
                assert(front[i] == entries[i]);
            }
        }
        assert forall|k: Seq<char>| #[trigger] entries_map(entries).contains_key(k) implies exists|
            i: int,
        |
            0 <= i < entries.len() && #[trigger] entries[i].0@ == k by {
            if k == entries[n].0@ {
            } else {
                assert(entries_map(front).contains_key(k));
                let i = choose|i: int| 0 <= i < front.len() && #[trigger] front[i].0@ == k;
                assert(entries[i].0@ == k);
            }
        }
    }
}

impl<V> TextMap<V> {
    #[verifier::type_invariant]
    spec fn ordered(self) -> bool {
        keys_increase(self.entries@)
    }

    /// The entries in key order.
    pub closed spec fn items(self) -> Seq<(String, V)> {
        self.entries@
    }
}

impl<V: View> View for TextMap<V> {
    type V = Map<Seq<char>, V::V>;

    open spec fn view(&self) -> Map<Seq<char>, V::V> {
        entries_map(self.items())
    }
}

impl<V: Clone> Clone for TextMap<V> {
    fn clone(&self) -> (r: Self)
        ensures
            r.items().len() == self.items().len(),
            forall|i: int| 0 <= i < r.items().len() ==> (#[trigger] r.items()[i]).0 == self.items()[i].0,
            forall|i: int|
                0 <= i < r.items().len() ==> cloned::<V>(
                    self.items()[i].1,
                    (#[trigger] r.items()[i]).1,
                ),
    {
        proof {
            use_type_invariant(self);
        }
        let mut entries: Vec<(String, V)> = Vec::new();
        let mut i: usize = 0;
        while i < self.entries.len()
            invariant
                i <= self.entries@.len(),
                entries@.len() == i,
                forall|j: int| 0 <= j < i ==> (#[trigger] entries@[j]).0 == self.entries@[j].0,
                forall|j: int|
                    0 <= j < i ==> cloned::<V>(self.entries@[j].1, (#[trigger] entries@[j]).1),
            decreases self.entries@.len() - i,
        {
            entries.push((self.entries[i].0.clone(), self.entries[i].1.clone()));
            i = i + 1;
        }
        TextMap { entries }
    }
}

impl TextMap<String> {
    /// The same map again.
    pub fn duplicate(&self) -> (r: Self)
        ensures
            r@ == self@,
            r.items() == self.items(),
    {
        proof {
            use_type_invariant(self);
        }
        let mut entries: Vec<(String, String)> = Vec::new();
        let mut i: usize = 0;
        while i < self.entries.len()
            invariant
                i <= self.entries@.len(),
                entries@ == self.entries@.take(i as int),
            decreases self.entries@.len() - i,
        {
            entries.push((self.entries[i].0.clone(), self.entries[i].1.clone()));
            assert(entries@ =~= self.entries@.take(i + 1));
            i = i + 1;
        }
        assert(entries@ =~= self.entries@);
        TextMap { entries }
    }
}

impl TextMap<String> {
    /// The map of a list of entries; of two entries for one key the later one
    /// counts.
    pub fn from_pairs(pairs: &Vec<(String, String)>) -> (m: Self)
        ensures
            m@ == entries_map(pairs@),
    {
        let mut m: TextMap<String> = TextMap::new();
        let mut i: usize = 0;
        while i < pairs.len()
            invariant
                i <= pairs@.len(),
                m@ == entries_map(pairs@.take(i as int)),
            decreases pairs@.len() - i,
        {
            m.insert(pairs[i].0.as_str(), pairs[i].1.clone());
            assert(pairs@.take(i + 1).drop_last() =~= pairs@.take(i as int));
            i = i + 1;
        }
        assert(pairs@.take(i as int) =~= pairs@);
        m
    }
}

impl<V: View> TextMap<V> {
    /// The empty map.
    pub fn new() -> (m: Self)
        ensures
            m@ == Map::<Seq<char>, V::V>::empty(),
            m.items() == Seq::<(String, V)>::empty(),
    {
        TextMap { entries: Vec::new() }
    }

    pub fn len(&self) -> (n: usize)
        ensures
            n == self.items().len(),
    {
        self.entries.len()
    }

    pub fn is_empty(&self) -> (r: bool)
        ensures
            r == (self.items().len() == 0),
    {
        self.entries.len() == 0
    }

    /// The entries, each once, keys increasing.
    pub fn entries(&self) -> (r: &Vec<(String, V)>)
        ensures
            r@ == self.items(),
            keys_increase(r@),
            self@ == entries_map(r@),
    {
        proof {
            use_type_invariant(self);
        }
        &self.entries
    }

    /// Where `key` is, or where it would go.
    fn position(&self, key: &str) -> (r: (usize, bool))
        ensures
            r.0 <= self.items().len(),
            r.1 ==> r.0 < self.items().len() && self.items()[r.0 as int].0@ == key@,
            forall|i: int| 0 <= i < r.0 ==> text_less(#[trigger] self.items()[i].0@, key@),
            !r.1 ==> forall|i: int|
                r.0 <= i < self.items().len() ==> text_less(key@, #[trigger] self.items()[i].0@),
    {
        proof {
            use_type_invariant(self);
        }
        let mut i: usize = 0;
        while i < self.entries.len() && is_text_less(self.entries[i].0.as_str(), key)
            invariant
                i <= self.entries@.len(),
                forall|j: int| 0 <= j < i ==> text_less(#[trigger] self.entries@[j].0@, key@),
            decreases self.entries@.len() - i,
        {
            i = i + 1;
        }
        if i < self.entries.len() && same_text(self.entries[i].0.as_str(), key) {
            return (i, true);
        }
        proof {
            if i < self.entries@.len() {
                let here = self.entries@[i as int].0@;
                text_order_is_total(here, key@, key@);
                assert forall|j: int| i <= j < self.entries@.len() implies text_less(
                    key@,
                    #[trigger] self.entries@[j].0@,
                ) by {
                    if j > i {
                        text_order_is_total(key@, here, self.entries@[j].0@);
                    }
                }
            }
        }
        (i, false)
    }

    /// The value of `key`.
    pub fn get(&self, key: &str) -> (r: Option<&V>)
        ensures
            match r {
                Some(v) => self@.contains_key(key@) && v@ == self@[key@],
                None => !self@.contains_key(key@),
            },
    {
        proof {
            use_type_invariant(self);
            lemma_entries_map(self.entries@);
        }
        let (i, found) = self.position(key);
        if found {
            assert(self.items()[i as int].0@ == key@);
            Some(&self.entries[i].1)
        } else {
            proof {
                if self@.contains_key(key@) {
                    let j = choose|j: int|
                        0 <= j < self.entries@.len() && #[trigger] self.entries@[j].0@ == key@;
                    assert(self.items()[j].0@ == key@);
                    text_order_is_total(key@, key@, key@);
                }
            }
            None
        }
    }

    pub fn contains_key(&self, key: &str) -> (r: bool)
        ensures
            r == self@.contains_key(key@),
    {
        self.get(key).is_some()
    }

    /// Set the value of `key`.
    pub fn insert(&mut self, key: &str, value: V)
        ensures
            final(self)@ == old(self)@.insert(key@, value@),
    {
        proof {
            use_type_invariant(&*self);
        }
        let (at, found) = self.position(key);
        let mut entries: Vec<(String, V)> = Vec::new();
        std::mem::swap(&mut entries, &mut self.entries);
        let ghost before = entries@;
        if found {
            let _ = entries.remove(at);
        }
        entries.insert(at, (key.to_owned(), value));
        proof {
            let after = entries@;
            let n = after.len();
            assert(keys_increase(before));
            // Where each entry other than the new one stood before.
            let src = |i: int| -> int {
                if i < at {
                    i
                } else if found {
                    i
                } else {
                    i - 1
                }
            };
            assert forall|i: int| 0 <= i < n && i != at implies #[trigger] after[i] == before[src(i)]
                && 0 <= src(i) < before.len() by {}
            assert(after[at as int].0@ == key@);
            assert forall|i: int| 0 <= i < at implies text_less(#[trigger] after[i].0@, key@) by {
                assert(before[i].0@ == after[i].0@);
            }
            assert forall|i: int| at < i < n implies text_less(key@, #[trigger] after[i].0@) by {
                if found {
                    assert(text_less(before[at as int].0@, before[i].0@));
                } else {
                    assert(text_less(key@, before[i - 1].0@));
                }
            }
            assert(keys_increase(after)) by {
                assert forall|i: int, j: int| 0 <= i < j < n implies text_less(
                    #[trigger] after[i].0@,
                    #[trigger] after[j].0@,
                ) by {
                    if i == at {
                    } else if j == at {
                    } else {
                        assert(after[i] == before[src(i)]);
                        assert(after[j] == before[src(j)]);
                        assert(src(i) < src(j));
                    }
                }
            }
            lemma_entries_map(before);
            lemma_entries_map(after);
            let m = entries_map(before).insert(key@, value@);
            assert(entries_map(after) =~= m) by {
                assert forall|k: Seq<char>| entries_map(after).contains_key(k) <==> #[trigger]
                    m.contains_key(k) by {
                    if entries_map(after).contains_key(k) {
                        let i = choose|i: int| 0 <= i < n && #[trigger] after[i].0@ == k;
                        if i != at {
                            assert(before[src(i)].0@ == k);
                        }
                    }
                    if m.contains_key(k) && k != key@ {
                        let i = choose|i: int| 0 <= i < before.len() && #[trigger] before[i].0@ == k;
                        let j = if i < at {
                            i
                        } else if found {
                            i
                        } else {
                            i + 1
                        };
                        assert(after[j] == before[src(j)]);
                        assert(after[j].0@ == k);
                    }
                }
                assert forall|k: Seq<char>| #[trigger] m.contains_key(k) implies m[k] == entries_map(
                    after,
                )[k] by {
                    let i = choose|i: int| 0 <= i < n && #[trigger] after[i].0@ == k;
                    if i != at {
                        assert(before[src(i)].0@ == k);
                        text_order_is_total(k, key@, k);
                    }
                }
            }
        }
        self.entries = entries;
    }

    /// Take the value of `key` out.
    pub fn remove(&mut self, key: &str) -> (r: Option<V>)
        ensures
            match r {
                Some(v) => old(self)@.contains_key(key@) && v@ == old(self)@[key@] && final(self)@
                    == old(self)@.remove(key@),
                None => !old(self)@.contains_key(key@) && final(self)@ == old(self)@,
            },
    {
        proof {
            use_type_invariant(&*self);
            lemma_entries_map(self.entries@);
        }
        let (at, found) = self.position(key);
        if !found {
            proof {
                if self@.contains_key(key@) {
                    let j = choose|j: int|
                        0 <= j < self.entries@.len() && #[trigger] self.entries@[j].0@ == key@;
                    assert(self.items()[j].0@ == key@);
                    text_order_is_total(key@, key@, key@);
                }
            }
            return None;
        }
        let mut entries: Vec<(String, V)> = Vec::new();
        std::mem::swap(&mut entries, &mut self.entries);
        let ghost before = entries@;
        let (_, value) = entries.remove(at);
        proof {
            let after = entries@;
            let src = |i: int| -> int {
                if i < at {
                    i
                } else {
                    i + 1
                }
            };
            assert forall|i: int| 0 <= i < after.len() implies #[trigger] after[i] == before[src(i)]
                && 0 <= src(i) < before.len() && src(i) != at by {}
            assert(keys_increase(after)) by {
                assert forall|i: int, j: int| 0 <= i < j < after.len() implies text_less(
                    #[trigger] after[i].0@,
                    #[trigger] after[j].0@,
                ) by {
                    assert(after[i] == before[src(i)]);
                    assert(after[j] == before[src(j)]);
                }
            }
            lemma_entries_map(after);
            let m = entries_map(before).remove(key@);
            assert(before[at as int].0@ == key@);
            assert forall|i: int| 0 <= i < after.len() implies #[trigger] after[i].0@ != key@ by {
                assert(after[i] == before[src(i)]);
                text_order_is_total(key@, key@, key@);
            }
            assert(entries_map(after) =~= m) by {
                assert forall|k: Seq<char>| entries_map(after).contains_key(k) <==> #[trigger]
                    m.contains_key(k) by {
                    if entries_map(after).contains_key(k) {
                        let i = choose|i: int| 0 <= i < after.len() && #[trigger] after[i].0@ == k;
                        assert(before[src(i)].0@ == k);
                    }
                    if m.contains_key(k) {
                        let i = choose|i: int| 0 <= i < before.len() && #[trigger] before[i].0@ == k;
                        let j = if i < at {
                            i
                        } else {
                            i - 1
                        };
                        assert(after[j] == before[src(j)]);
                        assert(after[j].0@ == k);
                    }
                }
                assert forall|k: Seq<char>| #[trigger] m.contains_key(k) implies m[k] == entries_map(
                    after,
                )[k] by {
                    assert(entries_map(after).contains_key(k));
                    let i = choose|i: int| 0 <= i < after.len() && #[trigger] after[i].0@ == k;
                    assert(before[src(i)].0@ == k);
                }
            }
        }
        self.entries = entries;
        Some(value)
    }
}

// ─── Sorted lists ─────────────────────────────────────────────────────────────

/// Texts in strictly increasing order: sorted, and none twice.
pub open spec fn texts_increase(texts: Seq<Seq<char>>) -> bool {
    forall|i: int, j: int|
        0 <= i < j < texts.len() ==> text_less(#[trigger] texts[i], #[trigger] texts[j])
}

/// Put `text` where it belongs in a sorted list, once.
pub fn insert_text(list: &mut Vec<String>, text: &str)
    requires
        texts_increase(models(old(list)@)),
    ensures
        texts_increase(models(final(list)@)),
        forall|t: Seq<char>| #[trigger]
            models(final(list)@).contains(t) <==> models(old(list)@).contains(t) || t == text@,
{
    let ghost before = models(list@);
    let mut at: usize = 0;
    while at < list.len() && is_text_less(list[at].as_str(), text)
        invariant
            at <= list@.len(),
            before == models(list@),
            *list == *old(list),
            forall|j: int| 0 <= j < at ==> text_less(#[trigger] before[j], text@),
        decreases list@.len() - at,
    {
        assert(before[at as int] == list@[at as int]@);
        at = at + 1;
    }
    if at < list.len() && same_text(list[at].as_str(), text) {
        assert(before[at as int] == text@);
        return;
    }
    list.insert(at, text.to_owned());
    proof {
        let after = models(list@);
        let here = at as int;
        assert(after =~= before.insert(here, text@));
        assert forall|j: int| here <= j < before.len() implies text_less(
            text@,
            #[trigger] before[j],
        ) by {
            text_order_is_total(before[here], text@, text@);
            if j > here {
                text_order_is_total(text@, before[here], before[j]);
            }
        }
        assert forall|i: int, j: int| 0 <= i < j < after.len() implies text_less(
            #[trigger] after[i],
            #[trigger] after[j],
        ) by {
            if i < here && j < here {
                assert(after[i] == before[i] && after[j] == before[j]);
            } else if i < here && j == here {
                assert(after[i] == before[i]);
            } else if i < here {
                assert(after[i] == before[i] && after[j] == before[j - 1]);
            } else if i == here {
                assert(after[j] == before[j - 1]);
            } else {
                assert(after[i] == before[i - 1] && after[j] == before[j - 1]);
            }
        }
        assert forall|t: Seq<char>| #[trigger] after.contains(t) <==> before.contains(t) || t
            == text@ by {
            if before.contains(t) {
                let i = choose|i: int| 0 <= i < before.len() && before[i] == t;
                if i < here {
                    assert(after[i] == t);
                } else {
                    assert(after[i + 1] == t);
                }
            }
            if t == text@ {
                assert(after[here] == t);
            }
            if after.contains(t) && t != text@ {
                let i = choose|i: int| 0 <= i < after.len() && after[i] == t;
                if i < here {
                    assert(before[i] == t);
                } else {
                    assert(before[i - 1] == t);
                }
            }
        }
    }
}

/// Texts in order, equal ones side by side.
pub open spec fn texts_ascend(texts: Seq<Seq<char>>) -> bool {
    forall|i: int, j: int|
        0 <= i < j < texts.len() ==> !text_less(#[trigger] texts[j], #[trigger] texts[i])
}

/// The texts in order.
pub fn sorted_texts(texts: &Vec<String>) -> (r: Vec<String>)
    ensures
        texts_ascend(models(r@)),
        models(r@).to_multiset() == models(texts@).to_multiset(),
{
    let ghost all = models(texts@);
    let mut r: Vec<String> = Vec::new();
    let mut i: usize = 0;
    assert(models(r@) =~= all.take(0));
    while i < texts.len()
        invariant
            i <= texts@.len(),
            all == models(texts@),
            texts_ascend(models(r@)),
            models(r@).to_multiset() == all.take(i as int).to_multiset(),
        decreases texts@.len() - i,
    {
        let ghost before = models(r@);
        let text = &texts[i];
        let mut at: usize = 0;
        while at < r.len() && !is_text_less(text.as_str(), r[at].as_str())
            invariant
                at <= r@.len(),
                before == models(r@),
                forall|j: int| 0 <= j < at ==> !text_less(text@, #[trigger] before[j]),
            decreases r@.len() - at,
        {
            assert(before[at as int] == r@[at as int]@);
            at = at + 1;
        }
        r.insert(at, text.clone());
        proof {
            let here = at as int;
            let after = models(r@);
            assert(after =~= before.insert(here, text@));
            assert forall|j: int| here <= j < before.len() implies text_less(
                text@,
                #[trigger] before[j],
            ) by {
                text_order_is_total(before[here], before[j], text@);
                text_order_is_total(text@, before[here], before[j]);
                if j > here {
                    assert(!text_less(before[j], before[here]));
                }
            }
            assert forall|k: int, j: int| 0 <= k < j < after.len() implies !text_less(
                #[trigger] after[j],
                #[trigger] after[k],
            ) by {
                let x = if k < here {
                    before[k]
                } else if k == here {
                    text@
                } else {
                    before[k - 1]
                };
                let y = if j < here {
                    before[j]
                } else if j == here {
                    text@
                } else {
                    before[j - 1]
                };
                assert(after[k] == x && after[j] == y);
                text_order_is_total(x, y, y);
            }
            lemma_inserted(before, here, text@);
            let more = all.take(i + 1);
            assert(more =~= all.take(i as int).push(text@));
            lemma_inserted(all.take(i as int), i as int, text@);
            assert(all.take(i as int).insert(i as int, text@) =~= more);
        }
        i = i + 1;
    }
    assert(all.take(i as int) =~= all);
    r
}

proof fn lemma_inserted(texts: Seq<Seq<char>>, at: int, text: Seq<char>)
    requires
        0 <= at <= texts.len(),
    ensures
        texts.insert(at, text).to_multiset() == texts.to_multiset().insert(text),
{
    let more = texts.insert(at, text);
    assert(more.remove(at) =~= texts);
    to_multiset_remove(more, at);
    assert(more[at] == text);
    to_multiset_contains(more, text);
    assert(more.to_multiset() =~= texts.to_multiset().insert(text));
}

/// A sorted list is fixed by what it holds.
pub proof fn sorted_lists_are_unique(a: Seq<Seq<char>>, b: Seq<Seq<char>>)
    requires
        texts_increase(a),
        texts_increase(b),
        forall|t: Seq<char>| a.contains(t) <==> b.contains(t),
    ensures
        a == b,
    decreases a.len(),
{
    if a.len() == 0 {
        if b.len() > 0 {
            assert(b.contains(b[0]));
        }
        assert(a =~= b);
    } else {
        let top = a.last();
        assert(a[a.len() - 1] == top);
        assert(a.contains(top));
        let i = choose|i: int| 0 <= i < b.len() && b[i] == top;
        let end = b.len() - 1;
        assert(b.contains(b[end]));
        let j = choose|j: int| 0 <= j < a.len() && a[j] == b[end];
        if i < end {
            assert(text_less(b[i], b[end]));
            if j < a.len() - 1 {
                assert(text_less(a[j], a[a.len() - 1]));
            }
            text_order_is_total(top, b[end], b[end]);
        }
        let low_a = a.drop_last();
        let low_b = b.drop_last();
        assert forall|t: Seq<char>| low_a.contains(t) implies low_b.contains(t) by {
            let k = choose|k: int| 0 <= k < low_a.len() && low_a[k] == t;
            assert(a[k] == t && text_less(a[k], a[a.len() - 1]));
            assert(a.contains(t));
            let m = choose|m: int| 0 <= m < b.len() && b[m] == t;
            text_order_is_total(t, top, top);
            assert(low_b[m] == t);
        }
        assert forall|t: Seq<char>| low_b.contains(t) implies low_a.contains(t) by {
            let k = choose|k: int| 0 <= k < low_b.len() && low_b[k] == t;
            assert(b[k] == t && text_less(b[k], b[end]));
            assert(b.contains(t));
            let m = choose|m: int| 0 <= m < a.len() && a[m] == t;
            text_order_is_total(t, top, top);
            assert(low_a[m] == t);
        }
        sorted_lists_are_unique(low_a, low_b);
        assert(a =~= low_a.push(top));
        assert(b =~= low_b.push(top));
    }
}

/// Whether a list holds `text`.
pub fn holds_text(list: &Vec<String>, text: &str) -> (r: bool)
    ensures
        r == models(list@).contains(text@),
{
    let mut i: usize = 0;
    while i < list.len()
        invariant
            i <= list@.len(),
            forall|j: int| 0 <= j < i ==> (#[trigger] list@[j])@ != text@,
        decreases list@.len() - i,
    {
        if same_text(list[i].as_str(), text) {
            assert(models(list@)[i as int] == text@);
            return true;
        }
        i = i + 1;
    }
    proof {
        if models(list@).contains(text@) {
            let j = choose|j: int| 0 <= j < list@.len() && models(list@)[j] == text@;
            assert(list@[j]@ == text@);
        }
    }
    false
}

/// Whether a list holds these bytes.
pub fn holds_bytes(list: &Vec<Vec<u8>>, bytes: &[u8]) -> (r: bool)
    ensures
        r == models(list@).contains(bytes@),
{
    let mut i: usize = 0;
    while i < list.len()
        invariant
            i <= list@.len(),
            forall|j: int| 0 <= j < i ==> (#[trigger] list@[j])@ != bytes@,
        decreases list@.len() - i,
    {
        if same_bytes(list[i].as_slice(), bytes) {
            assert(models(list@)[i as int] == bytes@);
            return true;
        }
        i = i + 1;
    }
    proof {
        if models(list@).contains(bytes@) {
            let j = choose|j: int| 0 <= j < list@.len() && models(list@)[j] == bytes@;
            assert(list@[j]@ == bytes@);
        }
    }
    false
}

/// What a list holds once `x` was put at its end.
pub proof fn lemma_pushed<A>(list: Seq<A>, x: A)
    ensures
        forall|y: A| #[trigger] list.push(x).contains(y) <==> list.contains(y) || y == x,
{
    assert forall|y: A| #[trigger] list.push(x).contains(y) <==> list.contains(y) || y == x by {
        if list.contains(y) {
            let k = choose|k: int| 0 <= k < list.len() && list[k] == y;
            assert(list.push(x)[k] == y);
        }
        assert(list.push(x)[list.len() as int] == x);
        if list.push(x).contains(y) && y != x {
            let k = choose|k: int| 0 <= k < list.len() + 1 && list.push(x)[k] == y;
            assert(list[k] == y);
        }
    }
}

// ─── Sets of texts ────────────────────────────────────────────────────────────

/// A set of texts, kept sorted.
#[derive(Debug, PartialEq, Eq)]
pub struct TextSet {
    texts: Vec<String>,
}

impl TextSet {
    #[verifier::type_invariant]
    spec fn ordered(self) -> bool {
        texts_increase(models(self.texts@))
    }

    /// The texts in order.
    pub closed spec fn items(self) -> Seq<Seq<char>> {
        models(self.texts@)
    }
}

impl View for TextSet {
    type V = Set<Seq<char>>;

    open spec fn view(&self) -> Set<Seq<char>> {
        self.items().to_set()
    }
}

/// Texts that increase are all different.
pub proof fn lemma_increasing_are_distinct(texts: Seq<Seq<char>>)
    requires
        texts_increase(texts),
    ensures
        texts.no_duplicates(),
{
    assert forall|i: int, j: int| 0 <= i < texts.len() && 0 <= j < texts.len() && i != j implies
        texts[i] != texts[j] by {
        text_order_is_total(texts[i], texts[i], texts[i]);
        if i < j {
            assert(text_less(texts[i], texts[j]));
        } else {
            assert(text_less(texts[j], texts[i]));
        }
    }
}

impl TextSet {
    /// The empty set.
    pub fn new() -> (r: Self)
        ensures
            r@ == Set::<Seq<char>>::empty(),
            r.items() == Seq::<Seq<char>>::empty(),
    {
        let texts: Vec<String> = Vec::new();
        assert(models(texts@) =~= Seq::<Seq<char>>::empty());
        let r = TextSet { texts };
        assert(r@ =~= Set::<Seq<char>>::empty());
        r
    }

    /// The set of what a list holds.
    pub fn from_list(list: &Vec<String>) -> (r: Self)
        ensures
            r@ == models(list@).to_set(),
    {
        let ghost all = models(list@);
        let mut texts: Vec<String> = Vec::new();
        let mut i: usize = 0;
        while i < list.len()
            invariant
                i <= list@.len(),
                all == models(list@),
                texts_increase(models(texts@)),
                forall|t: Seq<char>| #[trigger]
                    models(texts@).contains(t) <==> exists|j: int|
                        0 <= j < i && #[trigger] all[j] == t,
            decreases list@.len() - i,
        {
            let ghost before = models(texts@);
            assert(all[i as int] == list@[i as int]@);
            insert_text(&mut texts, list[i].as_str());
            assert forall|t: Seq<char>| #[trigger] models(texts@).contains(t) <==> exists|j: int|
                0 <= j < i + 1 && #[trigger] all[j] == t by {
                if before.contains(t) {
                    let j = choose|j: int| 0 <= j < i && #[trigger] all[j] == t;
                    assert(all[j] == t);
                }
                assert(all[i as int] == all[i as int]);
            }
            i = i + 1;
        }
        let r = TextSet { texts };
        assert(r@ =~= all.to_set()) by {
            assert forall|t: Seq<char>| r@.contains(t) <==> #[trigger] all.to_set().contains(t) by {
                assert(r@.contains(t) <==> models(texts@).contains(t));
                assert(all.to_set().contains(t) <==> all.contains(t));
            }
        }
        r
    }

    /// The texts, each once, in order.
    pub fn texts(&self) -> (r: &Vec<String>)
        ensures
            models(r@) == self.items(),
            texts_increase(self.items()),
            self@ == self.items().to_set(),
            self.items().len() == self@.len(),
            self@.finite(),
    {
        proof {
            use_type_invariant(self);
            lemma_increasing_are_distinct(self.items());
            self.items().unique_seq_to_set();
        }
        &self.texts
    }

    pub fn contains(&self, text: &str) -> (r: bool)
        ensures
            r == self@.contains(text@),
    {
        holds_text(&self.texts, text)
    }

    pub fn insert(&mut self, text: &str)
        ensures
            final(self)@ == old(self)@.insert(text@),
    {
        proof {
            use_type_invariant(&*self);
        }
        let mut texts: Vec<String> = Vec::new();
        assert(models(texts@) =~= Seq::<Seq<char>>::empty());
        std::mem::swap(&mut texts, &mut self.texts);
        let ghost before = models(texts@);
        insert_text(&mut texts, text);
        self.texts = texts;
        assert(self@ =~= before.to_set().insert(text@)) by {
            assert forall|t: Seq<char>| self@.contains(t) <==> #[trigger] before.to_set().insert(
                text@,
            ).contains(t) by {
                assert(self@.contains(t) <==> models(self.texts@).contains(t));
                assert(before.to_set().contains(t) <==> before.contains(t));
            }
        }
    }

    /// Whether two sets are the same.
    pub fn same(&self, other: &TextSet) -> (r: bool)
        ensures
            r == (self@ == other@),
    {
        let mut i: usize = 0;
        while i < self.texts.len()
            invariant
                i <= self.texts@.len(),
                forall|j: int|
                    0 <= j < i ==> other@.contains(#[trigger] models(self.texts@)[j]),
            decreases self.texts@.len() - i,
        {
            assert(models(self.texts@)[i as int] == self.texts@[i as int]@);
            if !other.contains(self.texts[i].as_str()) {
                assert(self@.contains(models(self.texts@)[i as int]));
                return false;
            }
            i = i + 1;
        }
        let mut i: usize = 0;
        while i < other.texts.len()
            invariant
                i <= other.texts@.len(),
                forall|j: int|
                    0 <= j < i ==> self@.contains(#[trigger] models(other.texts@)[j]),
            decreases other.texts@.len() - i,
        {
            assert(models(other.texts@)[i as int] == other.texts@[i as int]@);
            if !self.contains(other.texts[i].as_str()) {
                assert(other@.contains(models(other.texts@)[i as int]));
                return false;
            }
            i = i + 1;
        }
        assert(self@ =~= other@);
        true
    }
}

/// Whether two maps of texts are the same.
pub fn same_map(a: &TextMap<String>, b: &TextMap<String>) -> (r: bool)
    ensures
        r == (a@ == b@),
{
    let entries = a.entries();
    let others = b.entries();
    proof {
        lemma_entries_map(entries@);
        lemma_entries_map(others@);
    }
    let mut i: usize = 0;
    while i < entries.len()
        invariant
            i <= entries@.len(),
            forall|j: int|
                0 <= j < i ==> b@.contains_key(#[trigger] entries@[j].0@) && b@[entries@[j].0@]
                    == entries@[j].1@,
            forall|j: int|
                0 <= j < entries@.len() ==> a@.contains_key(#[trigger] entries@[j].0@)
                    && a@[entries@[j].0@] == entries@[j].1@,
        decreases entries@.len() - i,
    {
        match b.get(entries[i].0.as_str()) {
            Some(value) => {
                if !same_text(value.as_str(), entries[i].1.as_str()) {
                    assert(a@.contains_key(entries@[i as int].0@));
                    return false;
                }
            },
            None => {
                assert(a@.contains_key(entries@[i as int].0@));
                return false;
            },
        }
        i = i + 1;
    }
    let mut i: usize = 0;
    while i < others.len()
        invariant
            i <= others@.len(),
            forall|j: int| 0 <= j < i ==> a@.contains_key(#[trigger] others@[j].0@),
            forall|j: int| 0 <= j < others@.len() ==> b@.contains_key(#[trigger] others@[j].0@),
        decreases others@.len() - i,
    {
        if !a.contains_key(others[i].0.as_str()) {
            assert(b@.contains_key(others@[i as int].0@));
            return false;
        }
        i = i + 1;
    }
    assert(a@ =~= b@);
    true
}

// ─── Lists, sets and maps in messages ─────────────────────────────────────────

pub open spec fn quoted_texts(texts: Seq<Seq<char>>) -> Seq<Seq<char>> {
    texts.map_values(|t: Seq<char>| debug_text(t))
}

/// A list in a message: quoted, in square brackets.
pub open spec fn list_text(texts: Seq<Seq<char>>) -> Seq<char> {
    "["@ + joined(quoted_texts(texts), ", "@) + "]"@
}

/// A set in a message: quoted, in braces.
pub open spec fn set_text(texts: Seq<Seq<char>>) -> Seq<char> {
    "{"@ + joined(quoted_texts(texts), ", "@) + "}"@
}

pub open spec fn entry_texts(entries: Seq<(String, String)>) -> Seq<Seq<char>> {
    Seq::new(
        entries.len(),
        |i: int| debug_text(entries[i].0@) + ": "@ + debug_text(entries[i].1@),
    )
}

/// A map in a message: keys and values quoted, in braces.
pub open spec fn map_text(entries: Seq<(String, String)>) -> Seq<char> {
    "{"@ + joined(entry_texts(entries), ", "@) + "}"@
}

fn all_quoted(texts: &Vec<String>) -> (r: Vec<String>)
    ensures
        models(r@) == quoted_texts(models(texts@)),
{
    let mut r: Vec<String> = Vec::new();
    let mut i: usize = 0;
    while i < texts.len()
        invariant
            i <= texts@.len(),
            r@.len() == i,
            forall|j: int| 0 <= j < i ==> (#[trigger] r@[j])@ == debug_text(texts@[j]@),
        decreases texts@.len() - i,
    {
        r.push(quoted(texts[i].as_str()));
        i = i + 1;
    }
    assert(models(r@) =~= quoted_texts(models(texts@)));
    r
}

pub fn show_list(texts: &Vec<String>) -> (r: String)
    ensures
        r@ == list_text(models(texts@)),
{
    let shown = all_quoted(texts);
    let mut r = "[".to_owned();
    r.append(join(&shown, ", ").as_str());
    r.append("]");
    r
}

impl TextSet {
    pub fn show(&self) -> (r: String)
        ensures
            r@ == set_text(self.items()),
    {
        let shown = all_quoted(self.texts());
        let mut r = "{".to_owned();
        r.append(join(&shown, ", ").as_str());
        r.append("}");
        r
    }
}

pub fn show_map(map: &TextMap<String>) -> (r: String)
    ensures
        r@ == map_text(map.items()),
{
    let entries = map.entries();
    let mut shown: Vec<String> = Vec::new();
    let mut i: usize = 0;
    while i < entries.len()
        invariant
            i <= entries@.len(),
            entries@ == map.items(),
            shown@.len() == i,
            forall|j: int| 0 <= j < i ==> (#[trigger] shown@[j])@ == entry_texts(map.items())[j],
        decreases entries@.len() - i,
    {
        let mut entry = quoted(entries[i].0.as_str());
        entry.append(": ");
        entry.append(quoted(entries[i].1.as_str()).as_str());
        shown.push(entry);
        i = i + 1;
    }
    assert(models(shown@) =~= entry_texts(map.items()));
    let mut r = "{".to_owned();
    r.append(join(&shown, ", ").as_str());
    r.append("}");
    r
}

} // verus!

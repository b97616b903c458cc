//! An insertion-ordered map from string keys to values, kept in an
//! `indexmap::IndexMap` and described to Verus by a sequence of entries.
use vstd::prelude::*;

verus! {

#[verifier::external_type_specification]
#[verifier::external_body]
#[verifier::reject_recursive_types(K)]
#[verifier::reject_recursive_types(V)]
#[verifier::reject_recursive_types(S)]
pub struct ExIndexMap<K, V, S>(indexmap::IndexMap<K, V, S>);

/// Keys of an entry sequence are pairwise distinct.
pub open spec fn distinct_keys<V>(s: Seq<(Seq<char>, V)>) -> bool {
    forall|i: int, j: int|
        0 <= i < s.len() && 0 <= j < s.len() && i != j ==> #[trigger] s[i].0 != #[trigger] s[j].0
}

/// Position of key `k` in an entry sequence, or -1 when it is absent.
pub open spec fn index_of<V>(s: Seq<(Seq<char>, V)>, k: Seq<char>) -> int
    decreases s.len(),
{
    if s.len() == 0 {
        -1
    } else if s.last().0 == k {
        s.len() - 1
    } else {
        index_of(s.drop_last(), k)
    }
}

/// The value under key `k`.
pub open spec fn lookup<T>(s: Seq<(Seq<char>, T)>, k: Seq<char>) -> T {
    s[index_of(s, k)].1
}

/// Whether key `k` occurs in an entry sequence.
pub open spec fn has_key<V>(s: Seq<(Seq<char>, V)>, k: Seq<char>) -> bool {
    exists|i: int| 0 <= i < s.len() && #[trigger] s[i].0 == k
}

/// The entry sequence after inserting `(k, v)`: the value is replaced in place
/// where the key is present, and the entry goes last where it is not.
pub open spec fn insert_entry<V>(s: Seq<(Seq<char>, V)>, k: Seq<char>, v: V) -> Seq<(Seq<char>, V)> {
    if has_key(s, k) {
        s.update(index_of(s, k), (k, v))
    } else {
        s.push((k, v))
    }
}

pub proof fn lemma_index_of<V>(s: Seq<(Seq<char>, V)>, k: Seq<char>)
    ensures
        has_key(s, k) <==> 0 <= index_of(s, k) < s.len(),
        has_key(s, k) ==> s[index_of(s, k)].0 == k,
        !has_key(s, k) ==> index_of(s, k) == -1,
        distinct_keys(s) ==> forall|i: int| 0 <= i < s.len() && #[trigger] s[i].0 == k ==> i == index_of(s, k),
    decreases s.len(),
{
    if s.len() > 0 {
        let t = s.drop_last();
        lemma_index_of(t, k);
        if s.last().0 != k {
            if has_key(s, k) {
                let i = choose|i: int| 0 <= i < s.len() && #[trigger] s[i].0 == k;
                assert(t[i].0 == k);
            }
            if has_key(t, k) {
                let i = choose|i: int| 0 <= i < t.len() && #[trigger] t[i].0 == k;
                assert(s[i].0 == k);
            }
            if distinct_keys(s) {
                assert forall|i: int, j: int|
                    0 <= i < t.len() && 0 <= j < t.len() && i != j implies #[trigger] t[i].0 != #[trigger] t[j].0 by {
                    assert(s[i] == t[i] && s[j] == t[j]);
                }
                assert forall|i: int| 0 <= i < s.len() && #[trigger] s[i].0 == k implies i == index_of(s, k) by {
                    assert(t[i] == s[i]);
                }
            }
        } else {
            assert(s[s.len() - 1].0 == k);
        }
    }
}

pub proof fn lemma_insert_entry<V>(s: Seq<(Seq<char>, V)>, k: Seq<char>, v: V)
    requires
        distinct_keys(s),
    ensures
        distinct_keys(insert_entry(s, k, v)),
        has_key(insert_entry(s, k, v), k),
        forall|j: Seq<char>| has_key(insert_entry(s, k, v), j) <==> (has_key(s, j) || j == k),
{
    lemma_index_of(s, k);
    let r = insert_entry(s, k, v);
    if has_key(s, k) {
        assert(r[index_of(s, k)].0 == k);
        assert forall|j: Seq<char>| has_key(r, j) <==> (has_key(s, j) || j == k) by {
            if has_key(s, j) {
                let i = choose|i: int| 0 <= i < s.len() && #[trigger] s[i].0 == j;
                assert(r[i].0 == j);
            }
            if has_key(r, j) {
                let i = choose|i: int| 0 <= i < r.len() && #[trigger] r[i].0 == j;
                assert(s[i].0 == j || i == index_of(s, k));
            }
        }
    } else {
        assert(r[s.len() as int].0 == k);
        assert forall|j: Seq<char>| has_key(r, j) <==> (has_key(s, j) || j == k) by {
            if has_key(s, j) {
                let i = choose|i: int| 0 <= i < s.len() && #[trigger] s[i].0 == j;
                assert(r[i].0 == j);
            }
            if has_key(r, j) {
                let i = choose|i: int| 0 <= i < r.len() && #[trigger] r[i].0 == j;
                if i < s.len() {
                    assert(s[i].0 == j);
                }
            }
        }
    }
}

/// What an insertion does to the value under each key.
pub proof fn lemma_lookup_insert<V>(s: Seq<(Seq<char>, V)>, k: Seq<char>, v: V, x: Seq<char>)
    requires
        distinct_keys(s),
    ensures
        has_key(insert_entry(s, k, v), x) <==> (has_key(s, x) || x == k),
        x == k ==> insert_entry(s, k, v)[index_of(insert_entry(s, k, v), x)].1 == v,
        x != k && has_key(s, x) ==> insert_entry(s, k, v)[index_of(insert_entry(s, k, v), x)].1
            == s[index_of(s, x)].1,
{
    let r = insert_entry(s, k, v);
    lemma_insert_entry(s, k, v);
    lemma_index_of(s, k);
    lemma_index_of(s, x);
    lemma_index_of(r, x);
    if x == k {
        if has_key(s, k) {
            assert(r[index_of(s, k)].0 == x);
        } else {
            assert(r[s.len() as int].0 == x);
        }
    } else if has_key(s, x) {
        let i = index_of(s, x);
        assert(r[i] == s[i]);
    }
}

/// A map from string keys to values that remembers the order in which keys
/// were first inserted. The `IndexMap` holds the data; the ghost sequence
/// `entries` records, for Verus, what it holds: each key with the view of
/// its value, in order. Only the wrappers below touch `inner`, and each
/// states how `entries` follows the call.
#[verifier::reject_recursive_types(V)]
pub struct OrderedMap<V: View> {
    inner: indexmap::IndexMap<String, V>,
    entries: Ghost<Seq<(Seq<char>, V::V)>>,
}

impl<V: View> View for OrderedMap<V> {
    type V = Seq<(Seq<char>, V::V)>;

    /// The entries in insertion order, each value by its view.
    closed spec fn view(&self) -> Seq<(Seq<char>, V::V)> {
        self.entries@
    }
}

impl<V: View> OrderedMap<V> {
    pub open spec fn entries(&self) -> Seq<(Seq<char>, V::V)> {
        self@
    }

    #[verifier::type_invariant]
    spec fn keys_distinct(self) -> bool {
        distinct_keys(self.entries@)
    }

    /// Relies on `IndexMap::new`: the new map is empty.
    #[verifier::external_body]
    fn raw_new() -> (r: Self)
        ensures
            r.entries() == Seq::<(Seq<char>, V::V)>::empty(),
    {
        OrderedMap { inner: indexmap::IndexMap::new(), entries: Ghost(Seq::empty()) }
    }

    /// Relies on `IndexMap::len`: the number of entries.
    #[verifier::external_body]
    fn raw_len(&self) -> (r: usize)
        ensures
            r == self.entries().len(),
    {
        self.inner.len()
    }

    /// Relies on `IndexMap::get_index`: the entry at position `i`.
    #[verifier::external_body]
    fn raw_get_index(&self, i: usize) -> (r: (&String, &V))
        requires
            i < self.entries().len(),
        ensures
            r.0@ == self.entries()[i as int].0,
            r.1@ == self.entries()[i as int].1,
    {
        self.inner.get_index(i).unwrap()
    }

    /// Relies on `IndexMap::get_index_of`: the position of the entry whose key
    /// equals `k`, if there is one.
    #[verifier::external_body]
    fn raw_get_index_of(&self, k: &str) -> (r: Option<usize>)
        ensures
            match r {
                Some(i) => has_key(self.entries(), k@) && i as int == index_of(self.entries(), k@),
                None => !has_key(self.entries(), k@),
            },
    {
        self.inner.get_index_of(k)
    }

    /// Relies on `IndexMap::get_index_mut`: the value at position `i`, to
    /// change in place; the entry keeps its key and position.
    #[verifier::external_body]
    fn raw_get_index_mut(&mut self, i: usize) -> (r: &mut V)
        requires
            i < old(self).entries().len(),
        ensures
            r@ == old(self).entries()[i as int].1,
            final(self).entries() == old(self).entries().update(i as int, (old(self).entries()[i as int].0, final(r)@)),
    {
        self.inner.get_index_mut(i).unwrap().1
    }

    /// Relies on `IndexMap::insert`: an existing key keeps its place and takes
    /// the new value; a new key goes last.
    #[verifier::external_body]
    fn raw_insert(&mut self, k: String, v: V)
        ensures
            final(self).entries() == insert_entry(old(self).entries(), k@, v@),
    {
        self.inner.insert(k, v);
    }

    pub fn new() -> (r: Self)
        ensures
            r.entries() == Seq::<(Seq<char>, V::V)>::empty(),
    {
        Self::raw_new()
    }

    /// The number of entries; the call also shows that no key is repeated.
    pub fn len(&self) -> (r: usize)
        ensures
            r == self.entries().len(),
            distinct_keys(self.entries()),
    {
        proof {
            use_type_invariant(self);
        }
        self.raw_len()
    }

    pub fn is_empty(&self) -> (r: bool)
        ensures
            r == (self.entries().len() == 0),
    {
        self.raw_len() == 0
    }

    /// The key and value at position `i`.
    pub fn get_index(&self, i: usize) -> (r: (&String, &V))
        requires
            i < self.entries().len(),
        ensures
            r.0@ == self.entries()[i as int].0,
            r.1@ == self.entries()[i as int].1,
    {
        self.raw_get_index(i)
    }

    /// The position of key `k`, if present.
    pub fn get_index_of(&self, k: &str) -> (r: Option<usize>)
        ensures
            match r {
                Some(i) => i < self.entries().len() && self.entries()[i as int].0 == k@
                    && has_key(self.entries(), k@),
                None => !has_key(self.entries(), k@),
            },
    {
        proof {
            lemma_index_of(self.entries(), k@);
        }
        self.raw_get_index_of(k)
    }

    pub fn contains_key(&self, k: &str) -> (r: bool)
        ensures
            r == has_key(self.entries(), k@),
    {
        proof {
            lemma_index_of(self.entries(), k@);
        }
        self.raw_get_index_of(k).is_some()
    }

    /// The value under key `k`, if present.
    pub fn get(&self, k: &str) -> (r: Option<&V>)
        ensures
            match r {
                Some(v) => has_key(self.entries(), k@) && v@ == self.entries()[index_of(self.entries(), k@)].1,
                None => !has_key(self.entries(), k@),
            },
    {
        proof {
            lemma_index_of(self.entries(), k@);
        }
        match self.raw_get_index_of(k) {
            Some(i) => Some(self.raw_get_index(i).1),
            None => None,
        }
    }

    /// The value under key `k`, to change in place.
    pub fn get_mut(&mut self, k: &str) -> (r: Option<&mut V>)
        ensures
            match r {
                Some(v) => has_key(old(self).entries(), k@) && v@ == lookup(old(self).entries(), k@)
                    && final(self).entries() == old(self).entries().update(index_of(old(self).entries(), k@), (k@, final(v)@)),
                None => !has_key(old(self).entries(), k@) && final(self).entries() == old(self).entries(),
            },
    {
        proof {
            lemma_index_of(self.entries(), k@);
            use_type_invariant(&*self);
        }
        match self.raw_get_index_of(k) {
            Some(i) => Some(self.raw_get_index_mut(i)),
            None => None,
        }
    }

    /// Inserts `v` under `k`: an existing key keeps its position and takes the
    /// new value, a new key is appended.
    pub fn insert(&mut self, k: String, v: V)
        ensures
            final(self).entries() == insert_entry(old(self).entries(), k@, v@),
    {
        proof {
            use_type_invariant(&*self);
            lemma_insert_entry(self.entries(), k@, v@);
        }
        self.raw_insert(k, v);
    }
}

/// A value whose view decides equality and is kept by copying.
pub trait ExactView: View + Sized {
    fn view_eq(&self, other: &Self) -> (r: bool)
        ensures
            r == (self@ == other@),
    ;

    fn copy_exact(&self) -> (r: Self)
        ensures
            r@ == self@,
    ;
}

impl ExactView for String {
    fn view_eq(&self, other: &Self) -> (r: bool) {
        *self == *other
    }

    fn copy_exact(&self) -> (r: Self) {
        self.clone()
    }
}

impl<V: ExactView> ExactView for OrderedMap<V> {
    /// Same keys with equal values, in the same order.
    fn view_eq(&self, other: &Self) -> (r: bool) {
        let n = self.len();
        if n != other.len() {
            return false;
        }
        let mut i: usize = 0;
        while i < n
            invariant
                n == self@.len(),
                n == other@.len(),
                i <= n,
                forall|j: int| 0 <= j < i ==> self@[j] == other@[j],
            decreases n - i,
        {
            let (ka, va) = self.get_index(i);
            let (kb, vb) = other.get_index(i);
            if *ka != *kb || !va.view_eq(vb) {
                return false;
            }
            i = i + 1;
        }
        assert(self@ =~= other@);
        true
    }

    fn copy_exact(&self) -> (r: Self) {
        let n = self.len();
        let mut r = OrderedMap::new();
        let mut i: usize = 0;
        while i < n
            invariant
                n == self@.len(),
                distinct_keys(self@),
                i <= n,
                r@ == self@.take(i as int),
            decreases n - i,
        {
            let (k, v) = self.get_index(i);
            proof {
                assert(!has_key(r@, k@)) by {
                    if has_key(r@, k@) {
                        let j = choose|j: int| 0 <= j < r@.len() && #[trigger] r@[j].0 == k@;
                        assert(self@[j].0 == self@[i as int].0);
                    }
                }
            }
            r.insert(k.clone(), v.copy_exact());
            assert(r@ =~= self@.take(i + 1));
            i = i + 1;
        }
        assert(r@ =~= self@);
        r
    }
}

impl<V: ExactView> Clone for OrderedMap<V> {
    fn clone(&self) -> (r: Self)
        ensures
            r@ == self@,
    {
        self.copy_exact()
    }
}

impl<V: ExactView> PartialEq for OrderedMap<V> {
    fn eq(&self, other: &Self) -> (r: bool) {
        self.view_eq(other)
    }
}

impl<V: ExactView> vstd::std_specs::cmp::PartialEqSpecImpl for OrderedMap<V> {
    open spec fn obeys_eq_spec() -> bool {
        true
    }

    open spec fn eq_spec(&self, other: &Self) -> bool {
        self@ == other@
    }
}

} // verus!

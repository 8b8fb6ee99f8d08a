//! A map with text keys that keeps its entries in key order.
use crate::text;
use vstd::prelude::*;

verus! {

/// A map from texts to values. Walking it by index visits the keys in
/// ascending order, each once.
#[derive(Debug)]
pub struct StrMap<T> {
    entries: Vec<(Vec<char>, T)>,
}

/// Whether the keys ascend strictly.
pub open spec fn ascending(keys: Seq<Seq<char>>) -> bool {
    forall|i: int, j: int| 0 <= i < j < keys.len() ==> text::text_lt(keys[i], keys[j])
}

/// Whether `keys` are the keys of a map, each once, in ascending order.
pub open spec fn walks<T>(keys: Seq<Seq<char>>, m: Map<Seq<char>, T>) -> bool {
    &&& ascending(keys)
    &&& forall|k: Seq<char>| #[trigger] keys.contains(k) <==> m.contains_key(k)
}

/// The keys of a map in ascending order.
pub open spec fn walk<T>(m: Map<Seq<char>, T>) -> Seq<Seq<char>> {
    choose|keys: Seq<Seq<char>>| walks(keys, m)
}

/// A map is walked in one way only.
pub proof fn one_walk<T>(keys: Seq<Seq<char>>, m: Map<Seq<char>, T>)
    requires
        walks(keys, m),
    ensures
        walk(m) == keys,
{
    lemma_same_walk(keys, walk(m), |k: Seq<char>| m.contains_key(k));
}

proof fn lemma_same_walk(a: Seq<Seq<char>>, b: Seq<Seq<char>>, p: spec_fn(Seq<char>) -> bool)
    requires
        ascending(a),
        ascending(b),
        forall|k: Seq<char>| #[trigger] a.contains(k) <==> p(k),
        forall|k: Seq<char>| #[trigger] b.contains(k) <==> p(k),
    ensures
        a == b,
    decreases a.len(),
{
    if a.len() == 0 {
        if b.len() > 0 {
            assert(b.contains(b[0]));
            assert(a.contains(b[0]));
        }
        assert(a == b);
    } else {
        let x = a.last();
        assert(a.contains(x));
        assert(b.contains(x));
        let i = b.index_of(x);
        let y = b.last();
        assert(b.contains(y));
        assert(a.contains(y));
        let j = a.index_of(y);
        if i < b.len() - 1 {
            assert(text::text_lt(x, y));
            if j < a.len() - 1 {
                assert(text::text_lt(y, x));
                text::lemma_text_lt_trans(x, y, x);
            }
            text::lemma_text_lt_irreflexive(x);
        }
        assert(x == y);
        let q = |k: Seq<char>| p(k) && k != x;
        let a1 = a.drop_last();
        let b1 = b.drop_last();
        assert forall|k: Seq<char>| #[trigger] a1.contains(k) <==> q(k) by {
            lemma_without_last(a, k);
        }
        assert forall|k: Seq<char>| #[trigger] b1.contains(k) <==> q(k) by {
            lemma_without_last(b, k);
        }
        lemma_same_walk(a1, b1, q);
        assert(a == a1.push(x));
        assert(b == b1.push(x));
    }
}

proof fn lemma_without_last(a: Seq<Seq<char>>, k: Seq<char>)
    requires
        ascending(a),
        a.len() > 0,
    ensures
        a.drop_last().contains(k) <==> (a.contains(k) && k != a.last()),
{
    let b = a.drop_last();
    if b.contains(k) {
        let i = b.index_of(k);
        assert(a[i] == k);
        text::lemma_text_lt_irreflexive(k);
    }
    if a.contains(k) && k != a.last() {
        let i = a.index_of(k);
        assert(b[i] == k);
    }
}

impl<T> View for StrMap<T> {
    type V = Map<Seq<char>, T>;

    closed spec fn view(&self) -> Map<Seq<char>, T> {
        Map::new(
            |k: Seq<char>| self.keys().contains(k),
            |k: Seq<char>| self.entries@[self.keys().index_of(k)].1,
        )
    }
}

impl<T> StrMap<T> {
    #[verifier::type_invariant]
    spec fn sorted(self) -> bool {
        ascending(self.keys())
    }

    /// The keys in the order in which the map is walked.
    pub closed spec fn keys(&self) -> Seq<Seq<char>> {
        Seq::new(self.entries@.len(), |i: int| self.entries@[i].0@)
    }

    proof fn lemma_entry(self, i: int)
        requires
            ascending(self.keys()),
            0 <= i < self.entries@.len(),
        ensures
            self@.contains_key(self.entries@[i].0@),
            self@[self.entries@[i].0@] == self.entries@[i].1,
    {
        let k = self.keys()[i];
        let j = self.keys().index_of(k);
        if j < i {
            text::lemma_text_lt_irreflexive(k);
        }
        if i < j {
            text::lemma_text_lt_irreflexive(k);
        }
    }

    /// The empty map.
    pub fn new() -> (r: Self)
        ensures
            r@ == Map::<Seq<char>, T>::empty(),
            r.keys() == Seq::<Seq<char>>::empty(),
    {
        let r = StrMap { entries: Vec::new() };
        assert(r@ == Map::<Seq<char>, T>::empty());
        r
    }

    /// The number of entries.
    pub fn len(&self) -> (n: usize)
        ensures
            n == self.keys().len(),
            ascending(self.keys()),
            forall|k: Seq<char>| self@.contains_key(k) <==> self.keys().contains(k),
            self.keys() == walk(self@),
    {
        proof {
            use_type_invariant(&*self);
            one_walk(self.keys(), self@);
        }
        self.entries.len()
    }

    /// Whether the map has no entry.
    pub fn is_empty(&self) -> (r: bool)
        ensures
            r == (self@ == Map::<Seq<char>, T>::empty()),
    {
        proof {
            use_type_invariant(&*self);
            if self.entries@.len() == 0 {
                assert(self@ == Map::<Seq<char>, T>::empty());
            } else {
                self.lemma_entry(0);
            }
        }
        self.entries.len() == 0
    }

    /// The key of the entry at a place in the order.
    pub fn key_at(&self, i: usize) -> (r: &Vec<char>)
        requires
            i < self.keys().len(),
        ensures
            r@ == self.keys()[i as int],
            self@.contains_key(r@),
    {
        proof {
            use_type_invariant(&*self);
            self.lemma_entry(i as int);
        }
        &self.entries[i].0
    }

    /// The value of the entry at a place in the order.
    pub fn value_at(&self, i: usize) -> (r: &T)
        requires
            i < self.keys().len(),
        ensures
            self@.contains_key(self.keys()[i as int]),
            *r == self@[self.keys()[i as int]],
    {
        proof {
            use_type_invariant(&*self);
            self.lemma_entry(i as int);
        }
        &self.entries[i].1
    }

    /// The first place whose key does not come before `key`.
    fn place(&self, key: &Vec<char>) -> (r: usize)
        ensures
            r <= self.entries@.len(),
            forall|i: int| 0 <= i < r ==> text::text_lt(#[trigger] self.keys()[i], key@),
            forall|i: int|
                r <= i < self.entries@.len() ==> !text::text_lt(#[trigger] self.keys()[i], key@),
    {
        proof {
            use_type_invariant(&*self);
        }
        let mut lo: usize = 0;
        let mut hi: usize = self.entries.len();
        while lo < hi
            invariant
                lo <= hi <= self.entries@.len(),
                ascending(self.keys()),
                forall|i: int| 0 <= i < lo ==> text::text_lt(#[trigger] self.keys()[i], key@),
                forall|i: int|
                    hi <= i < self.entries@.len() ==> !text::text_lt(
                        #[trigger] self.keys()[i],
                        key@,
                    ),
            decreases hi - lo,
        {
            let mid: usize = lo + (hi - lo) / 2;
            let ghost k = self.keys()[mid as int];
            if text::comes_before(&self.entries[mid].0, key) {
                assert forall|i: int| 0 <= i < mid + 1 implies text::text_lt(
                    #[trigger] self.keys()[i],
                    key@,
                ) by {
                    if i < mid {
                        text::lemma_text_lt_trans(self.keys()[i], k, key@);
                    }
                }
                lo = mid + 1;
            } else {
                assert forall|i: int| mid <= i < self.entries@.len() implies !text::text_lt(
                    #[trigger] self.keys()[i],
                    key@,
                ) by {
                    if i > mid && text::text_lt(self.keys()[i], key@) {
                        text::lemma_text_lt_trans(k, self.keys()[i], key@);
                    }
                }
                hi = mid;
            }
        }
        lo
    }

    proof fn lemma_missing(self, key: Seq<char>, r: int)
        requires
            0 <= r <= self.entries@.len(),
            forall|i: int| 0 <= i < r ==> text::text_lt(#[trigger] self.keys()[i], key),
            forall|i: int|
                r <= i < self.entries@.len() ==> !text::text_lt(#[trigger] self.keys()[i], key),
            ascending(self.keys()),
            r == self.entries@.len() || self.keys()[r] != key,
        ensures
            !self@.contains_key(key),
            forall|i: int| r <= i < self.entries@.len() ==> text::text_lt(key, #[trigger] self.keys()[i]),
    {
        assert forall|i: int| r <= i < self.entries@.len() implies text::text_lt(
            key,
            #[trigger] self.keys()[i],
        ) by {
            text::lemma_text_lt_total(self.keys()[r], key);
            if i > r {
                text::lemma_text_lt_trans(key, self.keys()[r], self.keys()[i]);
            }
        }
        if self.keys().contains(key) {
            let i = self.keys().index_of(key);
            text::lemma_text_lt_irreflexive(key);
        }
    }

    /// The value of a key.
    pub fn get_chars(&self, key: &Vec<char>) -> (r: Option<&T>)
        ensures
            r == (if self@.contains_key(key@) {
                Some(&self@[key@])
            } else {
                None
            }),
    {
        proof {
            use_type_invariant(&*self);
        }
        let at: usize = self.place(key);
        if at < self.entries.len() && text::same_chars(&self.entries[at].0, key) {
            proof {
                self.lemma_entry(at as int);
            }
            Some(&self.entries[at].1)
        } else {
            proof {
                self.lemma_missing(key@, at as int);
            }
            None
        }
    }

    /// The value of a key.
    pub fn get(&self, key: &str) -> (r: Option<&T>)
        ensures
            r == (if self@.contains_key(key@) {
                Some(&self@[key@])
            } else {
                None
            }),
    {
        self.get_chars(&text::chars_of(key))
    }

    /// Gives a key a value, in place of the value that it had.
    pub fn insert_chars(&mut self, key: &Vec<char>, value: T)
        ensures
            final(self)@ == old(self)@.insert(key@, value),
    {
        proof {
            use_type_invariant(&*self);
        }
        let ghost before = *self;
        let at: usize = self.place(key);
        let found: bool = at < self.entries.len() && text::same_chars(&self.entries[at].0, key);
        let mut entries: Vec<(Vec<char>, T)> = Vec::new();
        std::mem::swap(&mut entries, &mut self.entries);
        let copy = text::part(key, 0, key.len());
        assert(copy@ == key@);
        if found {
            let _ = entries.remove(at);
            entries.insert(at, (copy, value));
            let ghost after = StrMap { entries };
            assert(after.keys() == before.keys());
            assert forall|k: Seq<char>| after.keys().contains(k) implies after@[k]
                == before@.insert(key@, value)[k] by {
                let i = after.keys().index_of(k);
                after.lemma_entry(i);
                before.lemma_entry(i);
                if i != at {
                    text::lemma_text_lt_irreflexive(key@);
                    assert(after.keys()[i] != after.keys()[at as int]);
                }
            }
            assert(after.keys()[at as int] == key@);
            assert(after@ == before@.insert(key@, value));
        } else {
            proof {
                before.lemma_missing(key@, at as int);
            }
            entries.insert(at, (copy, value));
            let ghost after = StrMap { entries };
            assert(after.keys() == before.keys().insert(at as int, key@));
            assert(ascending(after.keys()));
            assert forall|k: Seq<char>| #[trigger]
                after.keys().contains(k) <==> (before.keys().contains(k) || k == key@) by {
                if before.keys().contains(k) {
                    let i = before.keys().index_of(k);
                    if i < at {
                        assert(after.keys()[i] == k);
                    } else {
                        assert(after.keys()[i + 1] == k);
                    }
                }
                if k == key@ {
                    assert(after.keys()[at as int] == k);
                }
                if after.keys().contains(k) {
                    let i = after.keys().index_of(k);
                    if i < at {
                        assert(before.keys()[i] == k);
                    } else if i > at {
                        assert(before.keys()[i - 1] == k);
                    }
                }
            }
            assert forall|k: Seq<char>| after.keys().contains(k) implies after@[k]
                == before@.insert(key@, value)[k] by {
                let i = after.keys().index_of(k);
                after.lemma_entry(i);
                if i < at {
                    before.lemma_entry(i);
                } else if i > at {
                    before.lemma_entry(i - 1);
                }
            }
            assert(after@ == before@.insert(key@, value));
        }
        self.entries = entries;
    }

    /// Gives a key a value, in place of the value that it had.
    pub fn insert(&mut self, key: &str, value: T)
        ensures
            final(self)@ == old(self)@.insert(key@, value),
    {
        let k = text::chars_of(key);
        self.insert_chars(&k, value);
    }
}

} // verus!

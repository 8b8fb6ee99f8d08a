//! A stable merge sort over keys with a total order.
use crate::text;
use vstd::prelude::*;

verus! {

/// A total order.
pub trait Ordered: Sized {
    /// Whether the value comes before `other`.
    spec fn precedes(self, other: Self) -> bool;

    proof fn lemma_irreflexive(a: Self)
        ensures
            !a.precedes(a),
    ;

    proof fn lemma_transitive(a: Self, b: Self, c: Self)
        requires
            a.precedes(b),
            b.precedes(c),
        ensures
            a.precedes(c),
    ;

    /// Values of which neither comes before the other stand alike to all
    /// values.
    proof fn lemma_tie(a: Self, b: Self, c: Self)
        requires
            !a.precedes(b),
            !b.precedes(a),
            b.precedes(c),
        ensures
            a.precedes(c),
    ;

    fn before(&self, other: &Self) -> (r: bool)
        ensures
            r == self.precedes(*other),
    ;
}

impl Ordered for usize {
    open spec fn precedes(self, other: Self) -> bool {
        self < other
    }

    proof fn lemma_irreflexive(a: Self) {
    }

    proof fn lemma_transitive(a: Self, b: Self, c: Self) {
    }

    proof fn lemma_tie(a: Self, b: Self, c: Self) {
    }

    fn before(&self, other: &Self) -> (r: bool) {
        *self < *other
    }
}

/// A pair of names, ordered by the first name and then by the second.
pub struct NamePair {
    pub a: Vec<char>,
    pub b: Vec<char>,
}

/// Whether one pair of names comes before another.
pub open spec fn pair_lt(p: (Seq<char>, Seq<char>), q: (Seq<char>, Seq<char>)) -> bool {
    text::text_lt(p.0, q.0) || (p.0 == q.0 && text::text_lt(p.1, q.1))
}

impl Ordered for NamePair {
    open spec fn precedes(self, other: Self) -> bool {
        pair_lt((self.a@, self.b@), (other.a@, other.b@))
    }

    proof fn lemma_irreflexive(a: Self) {
        text::lemma_text_lt_irreflexive(a.a@);
        text::lemma_text_lt_irreflexive(a.b@);
    }

    proof fn lemma_transitive(a: Self, b: Self, c: Self) {
        if text::text_lt(a.a@, b.a@) && text::text_lt(b.a@, c.a@) {
            text::lemma_text_lt_trans(a.a@, b.a@, c.a@);
        } else if a.a@ == b.a@ && b.a@ == c.a@ {
            text::lemma_text_lt_trans(a.b@, b.b@, c.b@);
        }
    }

    proof fn lemma_tie(a: Self, b: Self, c: Self) {
        text::lemma_text_lt_total(a.a@, b.a@);
        text::lemma_text_lt_total(a.b@, b.b@);
    }

    fn before(&self, other: &Self) -> (r: bool) {
        if text::comes_before(&self.a, &other.a) {
            true
        } else if text::same_chars(&self.a, &other.a) {
            text::comes_before(&self.b, &other.b)
        } else {
            false
        }
    }
}

/// Whether the indices hold each index from `lo` up to `hi` once.
pub open spec fn arranges(s: Seq<usize>, lo: int, hi: int) -> bool {
    &&& s.no_duplicates()
    &&& forall|i: usize| #[trigger] s.contains(i) <==> lo <= i < hi
}

/// Whether the place `x` comes before the place `y`: its key does, or the keys
/// are tied and `x` is the lower place.
pub open spec fn comes<K: Ordered>(keys: Seq<K>, x: usize, y: usize) -> bool {
    ||| keys[x as int].precedes(keys[y as int])
    ||| !keys[y as int].precedes(keys[x as int]) && x < y
}

/// Whether the places stand in the order of their keys, and those of tied keys
/// in ascending order.
pub open spec fn in_order<K: Ordered>(keys: Seq<K>, s: Seq<usize>) -> bool {
    forall|i: int, j: int|
        0 <= i < j < s.len() ==> #[trigger] comes(keys, s[i], s[j])
}

proof fn lemma_comes_trans<K: Ordered>(keys: Seq<K>, x: usize, y: usize, z: usize)
    requires
        comes(keys, x, y),
        comes(keys, y, z),
    ensures
        comes(keys, x, z),
{
    let (a, b, c) = (keys[x as int], keys[y as int], keys[z as int]);
    if a.precedes(b) {
        if b.precedes(c) {
            K::lemma_transitive(a, b, c);
        } else {
            // b and c are tied
            lemma_before_tie(a, b, c);
        }
    } else if b.precedes(c) {
        K::lemma_tie(a, b, c);
    } else if c.precedes(a) {
        // c is tied with b and so comes before a as b would
        K::lemma_tie(b, c, a);
    }
}

/// What comes before a value comes before one that is tied with it.
proof fn lemma_before_tie<K: Ordered>(a: K, b: K, c: K)
    requires
        a.precedes(b),
        !b.precedes(c),
        !c.precedes(b),
    ensures
        a.precedes(c),
{
    if !a.precedes(c) {
        if c.precedes(a) {
            K::lemma_transitive(c, a, b);
        } else {
            K::lemma_tie(c, a, b);
        }
    }
}

/// Whether all of `s` come before all of `t`.
spec fn all_come<K: Ordered>(keys: Seq<K>, s: Seq<usize>, t: Seq<usize>) -> bool {
    forall|i: int, j: int|
        0 <= i < s.len() && 0 <= j < t.len() ==> #[trigger] comes(keys, s[i], t[j])
}

/// What comes before the first of an ordered list comes before all of it.
proof fn lemma_before_rest<K: Ordered>(keys: Seq<K>, x: usize, s: Seq<usize>, k: int)
    requires
        in_order(keys, s),
        0 <= k < s.len(),
        comes(keys, x, s[k]),
    ensures
        forall|q: int| k <= q < s.len() ==> #[trigger] comes(keys, x, s[q]),
{
    assert forall|q: int| k <= q < s.len() implies #[trigger] comes(keys, x, s[q]) by {
        if q > k {
            assert(comes(keys, s[k], s[q]));
            lemma_comes_trans(keys, x, s[k], s[q]);
        }
    }
}

/// One more place at the end of an ordered list that all come before it.
proof fn lemma_extend<K: Ordered>(
    keys: Seq<K>,
    before: Seq<usize>,
    s: Seq<usize>,
    i: int,
    t: Seq<usize>,
    j: int,
)
    requires
        0 <= i < s.len(),
        0 <= j <= t.len(),
        in_order(keys, before),
        in_order(keys, s),
        in_order(keys, t),
        all_come(keys, before, s.skip(i)),
        all_come(keys, before, t.skip(j)),
        j < t.len() ==> comes(keys, s[i], t[j]),
    ensures
        in_order(keys, before.push(s[i])),
        all_come(keys, before.push(s[i]), s.skip(i + 1)),
        all_come(keys, before.push(s[i]), t.skip(j)),
{
    let x = s[i];
    let out = before.push(x);
    assert(s.skip(i)[0] == x);
    assert forall|p: int, q: int| 0 <= p < q < out.len() implies #[trigger] comes(
        keys,
        out[p],
        out[q],
    ) by {
        assert(out[p] == before[p]);
        if q == before.len() {
            assert(comes(keys, before[p], s.skip(i)[0]));
        } else {
            assert(out[q] == before[q]);
        }
    }
    assert forall|p: int, q: int|
        0 <= p < out.len() && 0 <= q < s.skip(i + 1).len() implies #[trigger] comes(
        keys,
        out[p],
        s.skip(i + 1)[q],
    ) by {
        assert(s.skip(i + 1)[q] == s[i + 1 + q]);
        assert(s.skip(i)[q + 1] == s[i + 1 + q]);
        if p < before.len() {
            assert(comes(keys, before[p], s.skip(i)[q + 1]));
        } else {
            assert(comes(keys, s[i], s[i + 1 + q]));
        }
    }
    if j < t.len() {
        lemma_before_rest(keys, x, t, j);
    }
    assert forall|p: int, q: int|
        0 <= p < out.len() && 0 <= q < t.skip(j).len() implies #[trigger] comes(
        keys,
        out[p],
        t.skip(j)[q],
    ) by {
        assert(t.skip(j)[q] == t[j + q]);
        if p < before.len() {
            assert(comes(keys, before[p], t.skip(j)[q]));
        } else {
            assert(comes(keys, x, t[j + q]));
        }
    }
}

fn merge<K: Ordered>(
    keys: &Vec<K>,
    a: &Vec<usize>,
    b: &Vec<usize>,
    lo: usize,
    mid: usize,
    hi: usize,
) -> (r: Vec<usize>)
    requires
        lo <= mid <= hi <= keys@.len(),
        arranges(a@, lo as int, mid as int),
        arranges(b@, mid as int, hi as int),
        in_order(keys@, a@),
        in_order(keys@, b@),
    ensures
        arranges(r@, lo as int, hi as int),
        in_order(keys@, r@),
{
    let mut out: Vec<usize> = Vec::new();
    let mut i: usize = 0;
    let mut j: usize = 0;
    while i < a.len() || j < b.len()
        invariant
            i <= a@.len(),
            j <= b@.len(),
            lo <= mid <= hi <= keys@.len(),
            arranges(a@, lo as int, mid as int),
            arranges(b@, mid as int, hi as int),
            in_order(keys@, a@),
            in_order(keys@, b@),
            in_order(keys@, out@),
            out@.no_duplicates(),
            forall|x: usize| #[trigger]
                out@.contains(x) <==> (a@.take(i as int).contains(x) || b@.take(j as int).contains(
                    x,
                )),
            all_come(keys@, out@, a@.skip(i as int)),
            all_come(keys@, out@, b@.skip(j as int)),
        decreases a@.len() - i + b@.len() - j,
    {
        let ghost before = out@;
        proof {
            if i < a@.len() {
                assert(a@.contains(a@[i as int]));
            }
            if j < b@.len() {
                assert(b@.contains(b@[j as int]));
            }
        }
        let left: bool = if i < a.len() && j < b.len() {
            !keys[b[j]].before(&keys[a[i]])
        } else {
            i < a.len()
        };
        if left {
            let x: usize = a[i];
            proof {
                lemma_fresh(a@, b@, i as int, j as int, lo as int, mid as int, hi as int);
                assert(!before.contains(x)) by {
                    if before.contains(x) {
                        if a@.take(i as int).contains(x) {
                            assert(a@[a@.take(i as int).index_of(x)] == x);
                        } else {
                            assert(b@[b@.take(j as int).index_of(x)] == x);
                            assert(b@.contains(x));
                        }
                    }
                }
            }
            out.push(x);
            proof {
                lemma_take_push(a@, i as int);
                assert(out@ == before.push(x));
                lemma_push_contains(before, x);
                assert forall|y: usize| #[trigger]
                    out@.contains(y) <==> (a@.take(i + 1).contains(y) || b@.take(
                        j as int,
                    ).contains(y)) by {
                    assert(before.contains(y) <==> (a@.take(i as int).contains(y) || b@.take(
                        j as int,
                    ).contains(y)));
                }
                lemma_extend(keys@, before, a@, i as int, b@, j as int);
            }
            i = i + 1;
        } else {
            let x: usize = b[j];
            proof {
                assert(!before.contains(x)) by {
                    if before.contains(x) {
                        if b@.take(j as int).contains(x) {
                            assert(b@[b@.take(j as int).index_of(x)] == x);
                        } else {
                            assert(a@[a@.take(i as int).index_of(x)] == x);
                            assert(a@.contains(x));
                        }
                    }
                }
            }
            out.push(x);
            proof {
                lemma_take_push(b@, j as int);
                assert(out@ == before.push(x));
                lemma_push_contains(before, x);
                assert forall|y: usize| #[trigger]
                    out@.contains(y) <==> (a@.take(i as int).contains(y) || b@.take(
                        j + 1,
                    ).contains(y)) by {
                    assert(before.contains(y) <==> (a@.take(i as int).contains(y) || b@.take(
                        j as int,
                    ).contains(y)));
                }
                if i < a@.len() {
                    // the head of b comes before the head of a
                    let (kx, ka) = (keys@[x as int], keys@[a@[i as int] as int]);
                    assert(kx.precedes(ka));
                }
                lemma_extend(keys@, before, b@, j as int, a@, i as int);
            }
            j = j + 1;
        }
    }
    proof {
        assert(a@.take(a@.len() as int) == a@);
        assert(b@.take(b@.len() as int) == b@);
        assert forall|x: usize| #[trigger] out@.contains(x) <==> lo <= x < hi by {
            assert(a@.contains(x) <==> lo <= x < mid);
            assert(b@.contains(x) <==> mid <= x < hi);
        }
    }
    out
}

proof fn lemma_fresh(a: Seq<usize>, b: Seq<usize>, i: int, j: int, lo: int, mid: int, hi: int)
    requires
        arranges(a, lo, mid),
        arranges(b, mid, hi),
        0 <= i < a.len(),
    ensures
        !b.contains(a[i]),
{
    assert(a.contains(a[i]));
}

proof fn lemma_take_push(s: Seq<usize>, i: int)
    requires
        0 <= i < s.len(),
    ensures
        s.take(i + 1) == s.take(i).push(s[i]),
        forall|x: usize| #[trigger] s.take(i + 1).contains(x) <==> (s.take(i).contains(x) || x == s[i]),
{
    assert(s.take(i + 1) == s.take(i).push(s[i]));
    lemma_push_contains(s.take(i), s[i]);
}

proof fn lemma_push_contains(s: Seq<usize>, x: usize)
    ensures
        forall|y: usize| #[trigger] s.push(x).contains(y) <==> (s.contains(y) || y == x),
{
    assert forall|y: usize| #[trigger] s.push(x).contains(y) <==> (s.contains(y) || y == x) by {
        if s.contains(y) {
            assert(s.push(x)[s.index_of(y)] == y);
        }
        if y == x {
            assert(s.push(x)[s.len() as int] == y);
        }
        if s.push(x).contains(y) {
            let k = s.push(x).index_of(y);
            if k < s.len() {
                assert(s[k] == y);
            }
        }
    }
}

/// The indices from `lo` up to `hi` in the order of their keys.
fn sort_range<K: Ordered>(keys: &Vec<K>, lo: usize, hi: usize) -> (r: Vec<usize>)
    requires
        lo <= hi <= keys@.len(),
    ensures
        arranges(r@, lo as int, hi as int),
        in_order(keys@, r@),
    decreases hi - lo,
{
    let mut out: Vec<usize> = Vec::new();
    if lo == hi {
        return out;
    }
    if hi - lo == 1 {
        out.push(lo);
        assert(out@[0] == lo);
        return out;
    }
    let mid: usize = lo + (hi - lo) / 2;
    let a = sort_range(keys, lo, mid);
    let b = sort_range(keys, mid, hi);
    merge(keys, &a, &b, lo, mid, hi)
}

/// The indices of the keys in the order of the keys.
pub fn order_of<K: Ordered>(keys: &Vec<K>) -> (r: Vec<usize>)
    ensures
        arranges(r@, 0, keys@.len() as int),
        in_order(keys@, r@),
{
    sort_range(keys, 0, keys.len())
}

/// An arrangement of `n` indices has `n` of them.
pub proof fn lemma_arranged_len(s: Seq<usize>, n: int)
    requires
        0 <= n <= usize::MAX,
        arranges(s, 0, n),
    ensures
        s.len() == n,
{
    let ints = Seq::new(s.len(), |i: int| s[i] as int);
    assert forall|i: int| #[trigger] ints.contains(i) <==> 0 <= i < n by {
        if ints.contains(i) {
            let k = ints.index_of(i);
            assert(s.contains(s[k]));
        }
        if 0 <= i < n {
            assert(s.contains(i as usize));
            let k = s.index_of(i as usize);
            assert(ints[k] == i);
        }
    }
    ints.unique_seq_to_set();
    vstd::set_lib::lemma_int_range(0, n);
    assert(ints.to_set() =~= vstd::set_lib::set_int_range(0, n));
}

/// Whether the places are all those of the names, in the order of the names,
/// and those of equal names in ascending order.
pub open spec fn orders(s: Seq<usize>, names: Seq<(Seq<char>, Seq<char>)>) -> bool {
    &&& arranges(s, 0, names.len() as int)
    &&& s.len() == names.len()
    &&& forall|i: int, j: int|
        0 <= i < j < s.len() ==> #[trigger] name_comes(names, s[i], s[j])
}

/// Whether the place `x` comes before the place `y`: its names do, or they are
/// equal and `x` is the lower place.
pub open spec fn name_comes(names: Seq<(Seq<char>, Seq<char>)>, x: usize, y: usize) -> bool {
    ||| pair_lt(names[x as int], names[y as int])
    ||| names[x as int] == names[y as int] && x < y
}

/// The places of names have one order only.
pub proof fn one_order(a: Seq<usize>, b: Seq<usize>, names: Seq<(Seq<char>, Seq<char>)>)
    requires
        orders(a, names),
        orders(b, names),
    ensures
        a == b,
{
    lemma_same_order(a, b, names, |x: usize| 0 <= x < names.len());
}

proof fn lemma_same_order(
    a: Seq<usize>,
    b: Seq<usize>,
    names: Seq<(Seq<char>, Seq<char>)>,
    p: spec_fn(usize) -> bool,
)
    requires
        a.no_duplicates(),
        b.no_duplicates(),
        forall|i: int, j: int| 0 <= i < j < a.len() ==> #[trigger] name_comes(names, a[i], a[j]),
        forall|i: int, j: int| 0 <= i < j < b.len() ==> #[trigger] name_comes(names, b[i], b[j]),
        forall|x: usize| #[trigger] a.contains(x) <==> p(x),
        forall|x: usize| #[trigger] b.contains(x) <==> p(x),
    ensures
        a == b,
    decreases a.len(),
{
    if a.len() == 0 {
        if b.len() > 0 {
            assert(b.contains(b[0]));
            assert(a.contains(b[0]));
        }
        assert(a == b);
    } else {
        let x = a.last();
        assert(a.contains(x));
        assert(b.contains(x));
        let i = b.index_of(x);
        let y = b.last();
        assert(b.contains(y));
        assert(a.contains(y));
        let j = a.index_of(y);
        if i < b.len() - 1 {
            assert(name_comes(names, b[i], b[b.len() - 1]));
            if j < a.len() - 1 {
                assert(name_comes(names, a[j], a[a.len() - 1]));
                lemma_one_way(names, x, y);
            }
        }
        assert(x == y);
        let q = |k: usize| p(k) && k != x;
        let a1 = a.drop_last();
        let b1 = b.drop_last();
        assert(a == a1.push(x));
        assert(b == b1.push(x));
        assert forall|k: usize| #[trigger] a1.contains(k) <==> q(k) by {
            lemma_push_contains(a1, x);
            assert(a.contains(k) <==> p(k));
            if a1.contains(x) {
                assert(a[a1.index_of(x)] == a[a.len() - 1]);
            }
        }
        assert forall|k: usize| #[trigger] b1.contains(k) <==> q(k) by {
            lemma_push_contains(b1, x);
            assert(b.contains(k) <==> p(k));
            if b1.contains(x) {
                assert(b[b1.index_of(x)] == b[b.len() - 1]);
            }
        }
        lemma_same_order(a1, b1, names, q);
    }
}

proof fn lemma_one_way(names: Seq<(Seq<char>, Seq<char>)>, x: usize, y: usize)
    requires
        name_comes(names, x, y),
    ensures
        !name_comes(names, y, x),
{
    let (p, q) = (names[x as int], names[y as int]);
    text::lemma_text_lt_irreflexive(p.0);
    text::lemma_text_lt_irreflexive(p.1);
    if text::text_lt(p.0, q.0) && text::text_lt(q.0, p.0) {
        text::lemma_text_lt_trans(p.0, q.0, p.0);
    }
    if text::text_lt(p.1, q.1) && text::text_lt(q.1, p.1) {
        text::lemma_text_lt_trans(p.1, q.1, p.1);
    }
}

/// The places of keys in the order of the keys are those of the names in the
/// order of the names.
pub proof fn lemma_orders(keys: Seq<NamePair>, s: Seq<usize>, names: Seq<(Seq<char>, Seq<char>)>)
    requires
        keys.len() == names.len(),
        forall|i: int|
            0 <= i < keys.len() ==> ((#[trigger] keys[i]).a@, keys[i].b@) == names[i],
        names.len() <= usize::MAX,
        arranges(s, 0, keys.len() as int),
        in_order(keys, s),
    ensures
        orders(s, names),
{
    lemma_arranged_len(s, names.len() as int);
    assert forall|i: int, j: int| 0 <= i < j < s.len() implies #[trigger] name_comes(
        names,
        s[i],
        s[j],
    ) by {
        assert(comes(keys, s[i], s[j]));
        assert(s.contains(s[i]));
        assert(s.contains(s[j]));
        let (p, q) = (names[s[i] as int], names[s[j] as int]);
        text::lemma_text_lt_total(p.0, q.0);
        text::lemma_text_lt_total(p.1, q.1);
    }
}

} // verus!

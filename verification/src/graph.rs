//! Connected components of an undirected graph.
use vstd::prelude::*;

verus! {

/// Whether an edge joins `i` and `j`.
pub open spec fn adjacent(edges: Seq<(int, int)>, i: int, j: int) -> bool {
    edges.contains((i, j)) || edges.contains((j, i))
}

/// Whether each node of the walk is joined to the one after it.
pub open spec fn is_walk(edges: Seq<(int, int)>, walk: Seq<int>) -> bool {
    forall|k: int| 0 <= k < walk.len() - 1 ==> adjacent(edges, #[trigger] walk[k], walk[k + 1])
}

/// Whether a walk leads from `i` to `j`.
pub open spec fn leads(edges: Seq<(int, int)>, walk: Seq<int>, i: int, j: int) -> bool {
    walk.len() > 0 && walk[0] == i && walk.last() == j && is_walk(edges, walk)
}

/// Whether `i` and `j` hang together.
pub open spec fn connected(edges: Seq<(int, int)>, i: int, j: int) -> bool {
    exists|walk: Seq<int>| leads(edges, walk, i, j)
}

/// Whether `i` is the least node of its component.
pub open spec fn is_first(edges: Seq<(int, int)>, i: int) -> bool {
    forall|j: int| 0 <= j < i ==> !connected(edges, i, j)
}

/// The number of components that have their least node below `n`.
pub open spec fn pieces(edges: Seq<(int, int)>, n: int) -> nat
    decreases n,
{
    if n <= 0 {
        0
    } else if is_first(edges, n - 1) {
        pieces(edges, n - 1) + 1
    } else {
        pieces(edges, n - 1)
    }
}

/// Whether every edge joins nodes below `n`.
pub open spec fn within(edges: Seq<(int, int)>, n: int) -> bool {
    forall|k: int|
        0 <= k < edges.len() ==> 0 <= (#[trigger] edges[k]).0 < n && 0 <= edges[k].1 < n
}

pub proof fn lemma_connected_self(edges: Seq<(int, int)>, i: int)
    ensures
        connected(edges, i, i),
{
    assert(leads(edges, seq![i], i, i));
}

pub proof fn lemma_connected_edge(edges: Seq<(int, int)>, i: int, j: int)
    requires
        adjacent(edges, i, j),
    ensures
        connected(edges, i, j),
{
    let w = seq![i, j];
    assert(is_walk(edges, w));
    assert(leads(edges, w, i, j));
}

pub proof fn lemma_connected_sym(edges: Seq<(int, int)>, i: int, j: int)
    requires
        connected(edges, i, j),
    ensures
        connected(edges, j, i),
{
    let w = choose|w: Seq<int>| leads(edges, w, i, j);
    let r = w.reverse();
    assert forall|k: int| 0 <= k < r.len() - 1 implies adjacent(edges, #[trigger] r[k], r[k + 1]) by {
        let m = w.len() - 2 - k;
        assert(adjacent(edges, w[m], w[m + 1]));
        assert(r[k] == w[m + 1]);
        assert(r[k + 1] == w[m]);
    }
    assert(leads(edges, r, j, i));
}

pub proof fn lemma_connected_trans(edges: Seq<(int, int)>, i: int, j: int, k: int)
    requires
        connected(edges, i, j),
        connected(edges, j, k),
    ensures
        connected(edges, i, k),
{
    let v = choose|w: Seq<int>| leads(edges, w, i, j);
    let w = choose|w: Seq<int>| leads(edges, w, j, k);
    let u = v + w.drop_first();
    assert forall|m: int| 0 <= m < u.len() - 1 implies adjacent(edges, #[trigger] u[m], u[m + 1]) by {
        if m < v.len() - 1 {
            assert(adjacent(edges, v[m], v[m + 1]));
            assert(u[m] == v[m] && u[m + 1] == v[m + 1]);
        } else {
            let q = m - (v.len() - 1);
            assert(adjacent(edges, w[q], w[q + 1]));
            assert(u[m + 1] == w[q + 1]);
            if q == 0 {
                assert(u[m] == v.last());
            } else {
                assert(u[m] == w[q]);
            }
        }
    }
    assert(u[0] == i);
    if w.len() == 1 {
        assert(u == v);
    } else {
        assert(u.last() == w.last());
    }
    assert(leads(edges, u, i, k));
}

pub proof fn lemma_connected_more(edges: Seq<(int, int)>, e: (int, int), i: int, j: int)
    requires
        connected(edges, i, j),
    ensures
        connected(edges.push(e), i, j),
{
    let w = choose|w: Seq<int>| leads(edges, w, i, j);
    assert forall|k: int| 0 <= k < w.len() - 1 implies adjacent(
        edges.push(e),
        #[trigger] w[k],
        w[k + 1],
    ) by {
        assert(adjacent(edges, w[k], w[k + 1]));
        if edges.contains((w[k], w[k + 1])) {
            assert(edges.push(e)[edges.index_of((w[k], w[k + 1]))] == (w[k], w[k + 1]));
        } else {
            assert(edges.push(e)[edges.index_of((w[k + 1], w[k]))] == (w[k + 1], w[k]));
        }
    }
    assert(leads(edges.push(e), w, i, j));
}

/// Whether two nodes bear one label exactly if they hang together, and each
/// label is that of the node it names.
spec fn labelled(labels: Seq<int>, edges: Seq<(int, int)>) -> bool {
    &&& forall|i: int|
        0 <= i < labels.len() ==> 0 <= (#[trigger] labels[i]) <= i && labels[labels[i]] == labels[i]
    &&& forall|i: int, j: int|
        0 <= i < labels.len() && 0 <= j < labels.len() ==> ((#[trigger] labels[i]) == (
        #[trigger] labels[j]) <==> connected(edges, i, j))
}

spec fn relabelled(labels: Seq<int>, lo: int, hi: int) -> Seq<int> {
    Seq::new(
        labels.len(),
        |i: int|
            if labels[i] == hi {
                lo
            } else {
                labels[i]
            },
    )
}

proof fn lemma_walk_labels(
    labels: Seq<int>,
    after: Seq<int>,
    edges: Seq<(int, int)>,
    e: (int, int),
    w: Seq<int>,
    k: int,
)
    requires
        labelled(labels, edges),
        within(edges.push(e), labels.len() as int),
        after.len() == labels.len(),
        forall|i: int, j: int|
            0 <= i < labels.len() && 0 <= j < labels.len() && (#[trigger] labels[i]) == (
            #[trigger] labels[j]) ==> after[i] == after[j],
        after[e.0] == after[e.1],
        is_walk(edges.push(e), w),
        w.len() > 0,
        0 <= w[0] < labels.len(),
        0 <= k < w.len(),
    ensures
        0 <= w[k] < labels.len(),
        after[w[k]] == after[w[0]],
    decreases k,
{
    let all = edges.push(e);
    if k > 0 {
        lemma_walk_labels(labels, after, edges, e, w, k - 1);
        let (x, y) = (w[k - 1], w[k]);
        assert(adjacent(all, w[k - 1], w[k - 1 + 1]));
        let p = if all.contains((x, y)) {
            (x, y)
        } else {
            (y, x)
        };
        let m = all.index_of(p);
        assert(all[m] == p);
        if m < edges.len() {
            assert(edges[m] == p);
            assert(edges.contains(p));
            assert(adjacent(edges, x, y));
            lemma_connected_edge(edges, x, y);
            assert(labels[x] == labels[y]);
        } else {
            assert(p == e);
        }
    }
}

proof fn lemma_join(labels: Seq<int>, edges: Seq<(int, int)>, e: (int, int), lo: int, hi: int)
    requires
        labelled(labels, edges),
        within(edges.push(e), labels.len() as int),
        (labels[e.0] == lo && labels[e.1] == hi) || (labels[e.0] == hi && labels[e.1] == lo),
        lo <= hi,
    ensures
        labelled(relabelled(labels, lo, hi), edges.push(e)),
{
    let after = relabelled(labels, lo, hi);
    let all = edges.push(e);
    let n = labels.len() as int;
    assert(all[edges.len() as int] == e);
    assert(0 <= e.0 < n && 0 <= e.1 < n);
    assert(0 <= lo < n && 0 <= hi < n && labels[lo] == lo && labels[hi] == hi);
    assert(all.contains((e.0, e.1)));
    lemma_connected_edge(all, e.0, e.1);
    lemma_connected_sym(all, e.0, e.1);
    assert forall|i: int| 0 <= i < n implies 0 <= (#[trigger] after[i]) <= i && after[after[i]]
        == after[i] by {
        assert(0 <= labels[i] <= i);
        assert(labels[labels[i]] == labels[i]);
    }
    assert forall|i: int, j: int| 0 <= i < n && 0 <= j < n implies ((#[trigger] after[i]) == (
    #[trigger] after[j]) <==> connected(all, i, j)) by {
        if after[i] == after[j] {
            if labels[i] == labels[j] {
                lemma_connected_more(edges, e, i, j);
            } else {
                // one of the two hangs together with one end of the new edge,
                // the other with its other end
                let (p, q) = if labels[i] == labels[e.0] {
                    (e.0, e.1)
                } else {
                    (e.1, e.0)
                };
                assert(labels[i] == labels[p] && labels[q] == labels[j]);
                lemma_connected_more(edges, e, i, p);
                lemma_connected_more(edges, e, q, j);
                lemma_connected_trans(all, i, p, q);
                lemma_connected_trans(all, i, q, j);
            }
        }
        if connected(all, i, j) {
            let w = choose|w: Seq<int>| leads(all, w, i, j);
            lemma_walk_labels(labels, after, edges, e, w, w.len() - 1);
        }
    }
}

spec fn ints(v: Seq<usize>) -> Seq<int> {
    Seq::new(v.len(), |i: int| v[i] as int)
}

/// The ends of a list of edges.
pub open spec fn ends(v: Seq<(usize, usize)>) -> Seq<(int, int)> {
    Seq::new(v.len(), |i: int| (v[i].0 as int, v[i].1 as int))
}

fn relabel(labels: &mut Vec<usize>, lo: usize, hi: usize)
    ensures
        ints(final(labels)@) == relabelled(ints(old(labels)@), lo as int, hi as int),
        final(labels)@.len() == old(labels)@.len(),
{
    let n: usize = labels.len();
    let mut i: usize = 0;
    while i < n
        invariant
            i <= n,
            n == labels@.len(),
            labels@.len() == old(labels)@.len(),
            forall|j: int|
                0 <= j < i ==> labels@[j] == (if old(labels)@[j] == hi {
                    lo
                } else {
                    old(labels)@[j]
                }),
            forall|j: int| i <= j < n ==> labels@[j] == old(labels)@[j],
        decreases n - i,
    {
        if labels[i] == hi {
            labels[i] = lo;
        }
        i = i + 1;
    }
    assert(ints(labels@) == relabelled(ints(old(labels)@), lo as int, hi as int));
}

proof fn lemma_no_walk(i: int, j: int)
    requires
        connected(Seq::empty(), i, j),
    ensures
        i == j,
{
    let w = choose|w: Seq<int>| leads(Seq::empty(), w, i, j);
    if w.len() > 1 {
        assert(adjacent(Seq::empty(), w[0], w[0int + 1]));
    }
}

/// The number of components of the graph on the nodes below `n`.
pub fn count_pieces(n: usize, edges: &Vec<(usize, usize)>) -> (r: usize)
    requires
        within(ends(edges@), n as int),
    ensures
        r == pieces(ends(edges@), n as int),
        r <= n,
{
    let ghost all = ends(edges@);
    let mut labels: Vec<usize> = Vec::new();
    for i in 0..n
        invariant
            labels@.len() == i,
            forall|j: int| 0 <= j < i ==> labels@[j] == j,
    {
        labels.push(i);
    }
    proof {
        let l = ints(labels@);
        assert(all.take(0) == Seq::<(int, int)>::empty());
        assert forall|i: int, j: int| 0 <= i < l.len() && 0 <= j < l.len() implies ((
        #[trigger] l[i]) == (#[trigger] l[j]) <==> connected(all.take(0), i, j)) by {
            if i == j {
                lemma_connected_self(all.take(0), i);
            }
            if connected(all.take(0), i, j) {
                lemma_no_walk(i, j);
            }
        }
        assert(labelled(l, all.take(0)));
    }
    for k in 0..edges.len()
        invariant
            all == ends(edges@),
            within(all, n as int),
            labels@.len() == n,
            labelled(ints(labels@), all.take(k as int)),
    {
        let (a, b) = edges[k];
        proof {
            assert(all[k as int] == (a as int, b as int));
            assert(all.take(k + 1) == all.take(k as int).push(all[k as int]));
            assert forall|m: int| 0 <= m < k + 1 implies 0 <= (#[trigger] all.take(k + 1)[m]).0 < n
                && 0 <= all.take(k + 1)[m].1 < n by {
                assert(all.take(k + 1)[m] == all[m]);
            }
            assert(ints(labels@)[a as int] == labels@[a as int]);
            assert(ints(labels@)[b as int] == labels@[b as int]);
        }
        let la: usize = labels[a];
        let lb: usize = labels[b];
        if la <= lb {
            proof {
                lemma_join(
                    ints(labels@),
                    all.take(k as int),
                    all[k as int],
                    la as int,
                    lb as int,
                );
            }
            relabel(&mut labels, la, lb);
        } else {
            proof {
                lemma_join(
                    ints(labels@),
                    all.take(k as int),
                    all[k as int],
                    lb as int,
                    la as int,
                );
            }
            relabel(&mut labels, lb, la);
        }
    }
    assert(all.take(edges@.len() as int) == all);
    let mut count: usize = 0;
    for i in 0..n
        invariant
            labels@.len() == n,
            labelled(ints(labels@), all),
            count == pieces(all, i as int),
            count <= i,
    {
        let ghost l = ints(labels@);
        proof {
            assert(l[i as int] == labels@[i as int]);
            if l[i as int] == i {
                assert forall|j: int| 0 <= j < i implies !connected(all, i as int, j) by {
                    assert(l[j] <= j);
                }
                assert(is_first(all, i as int));
            } else {
                let j = l[i as int];
                assert(l[j] == j);
                assert(connected(all, i as int, j));
                assert(!is_first(all, i as int));
            }
        }
        if labels[i] == i {
            count = count + 1;
        }
    }
    count
}

/// A graph in one piece is one whose every node hangs together with the first.
pub proof fn one_piece_is_connected(edges: Seq<(int, int)>, n: int, i: int)
    requires
        pieces(edges, n) <= 1,
        0 <= i < n,
    ensures
        connected(edges, 0, i),
{
    lemma_first_counted(edges, n, 0);
    if !connected(edges, 0, i) {
        lemma_connected_self(edges, i);
        let j = lemma_least(edges, i, i);
        if j == 0 {
            lemma_connected_sym(edges, i, 0);
        }
        lemma_two_firsts(edges, n, j);
    }
}

proof fn lemma_first_counted(edges: Seq<(int, int)>, n: int, i: int)
    requires
        0 <= i < n,
        is_first(edges, i),
    ensures
        pieces(edges, n) >= 1,
    decreases n,
{
    if i < n - 1 {
        lemma_first_counted(edges, n - 1, i);
    }
}

/// The least node that hangs together with `i`, found among those up to `k`.
proof fn lemma_least(edges: Seq<(int, int)>, i: int, k: int) -> (j: int)
    requires
        0 <= k <= i,
        connected(edges, i, k),
    ensures
        0 <= j <= i,
        connected(edges, i, j),
        is_first(edges, j),
    decreases k,
{
    if is_first(edges, k) {
        k
    } else {
        let m = choose|m: int| 0 <= m < k && connected(edges, k, m);
        lemma_connected_trans(edges, i, k, m);
        lemma_least(edges, i, m)
    }
}

proof fn lemma_two_firsts(edges: Seq<(int, int)>, n: int, j: int)
    requires
        0 < j < n,
        is_first(edges, j),
    ensures
        pieces(edges, n) >= 2,
    decreases n,
{
    if j == n - 1 {
        lemma_first_counted(edges, n - 1, 0);
    } else {
        lemma_two_firsts(edges, n - 1, j);
    }
}

/// A graph in several pieces has a node that does not hang together with the
/// first.
pub proof fn several_pieces_are_apart(edges: Seq<(int, int)>, n: int)
    requires
        pieces(edges, n) > 1,
    ensures
        exists|i: int| 0 < i < n && !connected(edges, 0, i),
    decreases n,
{
    if n > 1 && is_first(edges, n - 1) {
        if connected(edges, 0, n - 1) {
            lemma_connected_sym(edges, 0, n - 1);
        }
        assert(0 < n - 1 < n && !connected(edges, 0, n - 1));
    } else {
        several_pieces_are_apart(edges, n - 1);
    }
}

} // verus!

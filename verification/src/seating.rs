//! Which nodes of a network the pins of its net take.
use crate::def::NetView;
use crate::number::Real;
use crate::rules::RulesView;
use crate::tree;
use crate::tree::{EdgeView, OutcomeView};
use vstd::prelude::*;

verus! {

/// How many ends of the first `n` resistors lie on a node.
pub open spec fn ends_on<N: Real>(edges: Seq<EdgeView<N>>, i: int, n: int) -> int
    decreases n,
{
    if n <= 0 {
        0
    } else {
        ends_on(edges, i, n - 1) + (if edges[n - 1].a == i {
            1int
        } else {
            0
        }) + (if edges[n - 1].b == i {
            1int
        } else {
            0
        })
    }
}

proof fn lemma_degree<N: Real>(edges: Seq<EdgeView<N>>, i: int, n: int)
    requires
        0 <= n <= edges.len(),
    ensures
        tree::degree_upto(tree::ends(edges), i, n) == ends_on(edges, i, n),
    decreases n,
{
    if n > 0 {
        lemma_degree(edges, i, n - 1);
    }
}

proof fn lemma_leaves_ascend(deg: Seq<int>, n: int)
    requires
        0 <= n <= deg.len(),
    ensures
        forall|i: int, j: int|
            0 <= i < j < tree::leaves_upto(deg, n).len() ==> #[trigger] tree::leaves_upto(deg, n)[i]
                < #[trigger] tree::leaves_upto(deg, n)[j],
        forall|i: int|
            0 <= i < tree::leaves_upto(deg, n).len() ==> 0 <= #[trigger] tree::leaves_upto(
                deg,
                n,
            )[i] < n,
    decreases n,
{
    if n > 0 {
        lemma_leaves_ascend(deg, n - 1);
        let before = tree::leaves_upto(deg, n - 1);
        let all = tree::leaves_upto(deg, n);
        assert forall|i: int| 0 <= i < all.len() implies 0 <= #[trigger] all[i] < n by {
            if i < before.len() {
                assert(all[i] == before[i]);
            }
        }
        assert forall|i: int, j: int| 0 <= i < j < all.len() implies #[trigger] all[i]
            < #[trigger] all[j] by {
            assert(all[i] == before[i]);
            if j < before.len() {
                assert(all[j] == before[j]);
            }
        }
    }
}

/// Whether the nodes go from the busiest down.
spec fn descends(deg: Seq<int>, s: Seq<int>) -> bool {
    forall|i: int, j: int| 0 <= i < j < s.len() ==> deg[#[trigger] s[i]] >= deg[#[trigger] s[j]]
}

proof fn lemma_insert_descends(deg: Seq<int>, s: Seq<int>, i: int)
    requires
        descends(deg, s),
    ensures
        descends(deg, tree::insert_by_degree(deg, s, i)),
        tree::insert_by_degree(deg, s, i).len() == s.len() + 1,
        forall|k: int|
            0 <= k < s.len() + 1 ==> #[trigger] tree::insert_by_degree(deg, s, i)[k] == i
                || s.contains(tree::insert_by_degree(deg, s, i)[k]),
    decreases s.len(),
{
    let out = tree::insert_by_degree(deg, s, i);
    if s.len() > 0 && deg[s.last()] < deg[i] {
        let d = s.drop_last();
        assert(descends(deg, d)) by {
            assert forall|x: int, y: int| 0 <= x < y < d.len() implies deg[#[trigger] d[x]]
                >= deg[#[trigger] d[y]] by {
                assert(d[x] == s[x] && d[y] == s[y]);
            }
        }
        lemma_insert_descends(deg, d, i);
        let e = tree::insert_by_degree(deg, d, i);
        assert(out == e.push(s.last()));
        assert forall|k: int| 0 <= k < out.len() implies #[trigger] out[k] == i || s.contains(
            out[k],
        ) by {
            if k < e.len() {
                assert(out[k] == e[k]);
                if e[k] != i {
                    assert(d.contains(e[k]));
                    assert(s[d.index_of(e[k])] == e[k]);
                }
            } else {
                assert(s[s.len() - 1] == out[k]);
            }
        }
        assert forall|x: int, y: int| 0 <= x < y < out.len() implies deg[#[trigger] out[x]]
            >= deg[#[trigger] out[y]] by {
            if y < e.len() {
                assert(out[x] == e[x] && out[y] == e[y]);
            } else {
                assert(out[x] == e[x]);
                if e[x] != i {
                    assert(d.contains(e[x]));
                    let k = d.index_of(e[x]);
                    assert(s[k] == e[x]);
                    assert(deg[s[k]] >= deg[s[s.len() - 1]]);
                }
            }
        }
    } else {
        assert forall|k: int| 0 <= k < out.len() implies #[trigger] out[k] == i || s.contains(
            out[k],
        ) by {
            if k < s.len() {
                assert(s[k] == out[k]);
            }
        }
        assert forall|x: int, y: int| 0 <= x < y < out.len() implies deg[#[trigger] out[x]]
            >= deg[#[trigger] out[y]] by {
            if y < s.len() {
                assert(out[x] == s[x] && out[y] == s[y]);
            } else if x < s.len() {
                assert(out[x] == s[x]);
                if x < s.len() - 1 {
                    assert(deg[s[x]] >= deg[s[s.len() - 1]]);
                }
            }
        }
    }
}

proof fn lemma_spill_descends(deg: Seq<int>, n: int)
    requires
        0 <= n <= deg.len(),
    ensures
        descends(deg, tree::spill_upto(deg, n)),
    decreases n,
{
    if n > 0 {
        lemma_spill_descends(deg, n - 1);
        if deg[n - 1] != 1 {
            lemma_insert_descends(deg, tree::spill_upto(deg, n - 1), n - 1);
        }
    }
}

/// Pins take the nodes on which one resistor ends before any others, these in the order
/// of the nodes, and of the others the busiest first: where a node has a pin, each node
/// that comes before it has one too.
#[verifier::rlimit(50)]
pub proof fn pins_take_leaves_first<N: Real>(
    net: NetView,
    r: RulesView<N>,
    widths: Map<Seq<char>, N>,
    library: Map<Seq<char>, Seq<Seq<char>>>,
    i: int,
    j: int,
)
    ensures
        tree::outcome(net, r, widths, library) matches OutcomeView::Built(t) ==> {
            let n = t.edges.len() as int;
            let (p, q) = (ends_on(t.edges, i, n), ends_on(t.edges, j, n));
            0 <= i < t.nodes.len() && 0 <= j < t.nodes.len() && t.nodes[j].pin is Some && (p == 1
                && q != 1 || p == 1 && q == 1 && i < j || p != 1 && q != 1 && p > q)
                ==> t.nodes[i].pin is Some
        },
{
    if let OutcomeView::Built(t) = tree::outcome(net, r, widths, library) {
        let n = t.edges.len() as int;
        let w = tree::wired(net, r, widths, library)->0;
        let deg = tree::degrees(tree::ends(w.edges), w.keys.len() as int);
        let m = deg.len() as int;
        let (p, q) = (ends_on(t.edges, i, n), ends_on(t.edges, j, n));
        if 0 <= i < t.nodes.len() && 0 <= j < t.nodes.len() && t.nodes[j].pin is Some && (p == 1
            && q != 1 || p == 1 && q == 1 && i < j || p != 1 && q != 1 && p > q) {
            lemma_degree(w.edges, i, n);
            lemma_degree(w.edges, j, n);
            assert(deg[i] == p && deg[j] == q);
            let order = tree::seats(deg);
            tree::seats_are_the_nodes(deg);
            let (l, s) = (tree::leaves_upto(deg, m), tree::spill_upto(deg, m));
            tree::lemma_leaves(deg, m);
            tree::lemma_spill(deg, m);
            lemma_leaves_ascend(deg, m);
            lemma_spill_descends(deg, m);
            assert(order.contains(i) && order.contains(j));
            let taken = order.take(net.pins.len() as int);
            let y = taken.index_of(j);
            assert(order[y] == j);
            let x = order.index_of(i);
            assert(order[x] == i);
            assert(x < y) by {
                if p == 1 {
                    assert(x < l.len()) by {
                        if x >= l.len() {
                            assert(s[x - l.len()] == i);
                            assert(s.contains(i));
                        }
                    }
                    assert(l[x] == i);
                    if y < l.len() {
                        assert(l[y] == j);
                        assert(l.contains(j));
                        if y < x {
                            assert(l[y] < l[x]);
                        }
                    }
                } else {
                    assert(x >= l.len()) by {
                        if x < l.len() {
                            assert(l[x] == i);
                            assert(l.contains(i));
                        }
                    }
                    assert(y >= l.len()) by {
                        if y < l.len() {
                            assert(l[y] == j);
                            assert(l.contains(j));
                        }
                    }
                    assert(s[x - l.len()] == i && s[y - l.len()] == j);
                    if y < x {
                        assert(deg[s[y - l.len()]] >= deg[s[x - l.len()]]);
                    }
                }
            }
            assert(taken[x] == i);
            assert(taken.contains(i));
        }
    }
}

} // verus!

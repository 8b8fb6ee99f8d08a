//! What a network is made of: a node for every place and layer that the wire and the
//! vias of a net reach, a resistor for every piece of wire, and one for every via.
use crate::def::{NetView, SegmentView, ViaView};
use crate::graph;
use crate::junction;
use crate::junction::RunView;
use crate::number;
use crate::number::Real;
use crate::rules::RulesView;
use crate::text;
use crate::tree;
use crate::tree::{EdgeView, NetworkView, OutcomeView, Wiring};
use vstd::prelude::*;

verus! {

/// A place and a layer.
pub open spec fn spot(p: (int, int), layer: Seq<char>) -> (int, int, Seq<char>) {
    (p.0, p.1, layer)
}

/// The whole nanometre nearest to picometres; halves go away from zero.
pub open spec fn in_nm(v: int) -> int {
    if v >= 0 {
        (v + 500) / 1000
    } else {
        -((500 - v) / 1000)
    }
}

/// Where a via lands, in nanometres.
pub open spec fn landing(via: ViaView) -> (int, int) {
    (in_nm(via.x), in_nm(via.y))
}

/// Whether some node stands at a place.
pub open spec fn reached(at: Seq<(int, int, Seq<char>)>, p: (int, int)) -> bool {
    exists|layer: Seq<char>| #[trigger] at.contains(spot(p, layer))
}

/// Whether a resistor of a value joins two nodes.
pub open spec fn joined<N: Real>(
    edges: Seq<EdgeView<N>>,
    at: Seq<(int, int, Seq<char>)>,
    p: (int, int, Seq<char>),
    q: (int, int, Seq<char>),
    ohm: N,
) -> bool {
    exists|e: int|
        0 <= e < edges.len() && (#[trigger] edges[e]).res == ohm && (at[edges[e].a] == p
            && at[edges[e].b] == q || at[edges[e].a] == q && at[edges[e].b] == p)
}

/// How many of the first `n` pieces have two ends.
pub open spec fn stretched(ps: Seq<RunView>, n: int) -> int
    decreases n,
{
    if n <= 0 {
        0
    } else {
        stretched(ps, n - 1) + (if ps[n - 1].a != ps[n - 1].b {
            1int
        } else {
            0
        })
    }
}

/// The resistance of a piece of wire: its length times the resistance of its layer,
/// or, where the layer has a sheet resistance and the piece a width, the sheet
/// resistance times the length over the width.
pub open spec fn piece_ohm<N: Real>(
    run: RunView,
    r: RulesView<N>,
    widths: Map<Seq<char>, N>,
) -> N {
    let len = N::spec_micro(1000 * reach_of(run));
    let width = if run.width > 0 {
        N::spec_micro(run.width)
    } else if widths.contains_key(run.layer) {
        widths[run.layer]
    } else {
        number::zero()
    };
    if r.rsheet.contains_key(run.layer) && number::zero::<N>().spec_below(width) {
        r.rsheet[run.layer].spec_times(len).spec_over(width)
    } else {
        len.spec_times(r.layers[run.layer].res_per_um)
    }
}

/// The length of a piece along the axes, in nanometres.
pub open spec fn reach_of(run: RunView) -> int {
    (if run.a.0 <= run.b.0 {
        run.b.0 - run.a.0
    } else {
        run.a.0 - run.b.0
    }) + (if run.a.1 <= run.b.1 {
        run.b.1 - run.a.1
    } else {
        run.a.1 - run.b.1
    })
}

/// Half of the capacitance of a piece of wire.
pub open spec fn half_of<N: Real>(run: RunView, r: RulesView<N>) -> N {
    N::spec_micro(1000 * reach_of(run)).spec_times(r.layers[run.layer].cap_per_um).spec_over(
        N::spec_count(2),
    )
}

/// What the first `n` pieces of wire put on a node: half of each for each of its ends
/// there.
pub open spec fn put_on<N: Real>(
    ps: Seq<RunView>,
    r: RulesView<N>,
    key: (int, int, Seq<char>),
    n: int,
) -> N
    decreases n,
{
    if n <= 0 {
        number::zero()
    } else {
        let run = ps[n - 1];
        let before = put_on(ps, r, key, n - 1);
        let once = if spot(run.a, run.layer) == key {
            before.spec_plus(half_of(run, r))
        } else {
            before
        };
        if spot(run.b, run.layer) == key {
            once.spec_plus(half_of(run, r))
        } else {
            once
        }
    }
}

/// Whether the nodes and resistors of a wiring are those of the first `n` pieces.
spec fn is_laid<N: Real>(
    w: Wiring<N>,
    ps: Seq<RunView>,
    n: int,
    r: RulesView<N>,
    widths: Map<Seq<char>, N>,
) -> bool {
    &&& tree::sound(w)
    &&& forall|i: int|
        0 <= i < n ==> w.keys.contains(spot((#[trigger] ps[i]).a, ps[i].layer)) && w.keys.contains(
            spot(ps[i].b, ps[i].layer),
        )
    &&& forall|k: int| 0 <= k < w.keys.len() ==> is_end(ps, n, #[trigger] w.keys[k])
    &&& forall|i: int|
        0 <= i < n && (#[trigger] ps[i]).a != ps[i].b ==> joined(
            w.edges,
            w.keys,
            spot(ps[i].a, ps[i].layer),
            spot(ps[i].b, ps[i].layer),
            piece_ohm(ps[i], r, widths),
        )
    &&& w.edges.len() == stretched(ps, n)
    &&& forall|e: int|
        0 <= e < w.edges.len() ==> apart(w.keys[(#[trigger] w.edges[e]).a], w.keys[w.edges[e].b])
    &&& forall|k: int| 0 <= k < w.keys.len() ==> #[trigger] w.caps[k] == put_on(ps, r, w.keys[k], n)
}

/// Whether a node is an end of one of the first `n` pieces.
pub open spec fn is_end(ps: Seq<RunView>, n: int, key: (int, int, Seq<char>)) -> bool {
    exists|i: int|
        0 <= i < n && (spot((#[trigger] ps[i]).a, ps[i].layer) == key || spot(ps[i].b, ps[i].layer)
            == key)
}

/// Whether two nodes stand at different places.
pub open spec fn apart(p: (int, int, Seq<char>), q: (int, int, Seq<char>)) -> bool {
    p.0 != q.0 || p.1 != q.1
}

proof fn lemma_untouched<N: Real>(
    ps: Seq<RunView>,
    r: RulesView<N>,
    key: (int, int, Seq<char>),
    n: int,
)
    requires
        !is_end(ps, n, key),
    ensures
        put_on(ps, r, key, n) == number::zero::<N>(),
    decreases n,
{
    if n > 0 {
        if is_end(ps, n - 1, key) {
            let i = choose|i: int|
                0 <= i < n - 1 && (spot((#[trigger] ps[i]).a, ps[i].layer) == key || spot(
                    ps[i].b,
                    ps[i].layer,
                ) == key);
            assert(is_end(ps, n, key));
        }
        lemma_untouched(ps, r, key, n - 1);
        assert(spot(ps[n - 1].a, ps[n - 1].layer) != key);
    }
}

/// A resistor stays where nodes and resistors are added after the others.
proof fn lemma_still_joined<N: Real>(
    w: Wiring<N>,
    g: Wiring<N>,
    p: (int, int, Seq<char>),
    q: (int, int, Seq<char>),
    ohm: N,
)
    requires
        tree::sound(w),
        grows(w, g),
        joined(w.edges, w.keys, p, q, ohm),
    ensures
        joined(g.edges, g.keys, p, q, ohm),
{
    let e = choose|e: int|
        0 <= e < w.edges.len() && (#[trigger] w.edges[e]).res == ohm && (w.keys[w.edges[e].a] == p
            && w.keys[w.edges[e].b] == q || w.keys[w.edges[e].a] == q && w.keys[w.edges[e].b] == p);
    assert(tree::ends(w.edges)[e] == (w.edges[e].a, w.edges[e].b));
    assert(g.edges[e] == w.edges[e]);
    assert(g.keys[w.edges[e].a] == w.keys[w.edges[e].a]);
    assert(g.keys[w.edges[e].b] == w.keys[w.edges[e].b]);
}

/// Whether a wiring is another with more nodes and resistors after its own.
spec fn grows<N: Real>(w: Wiring<N>, g: Wiring<N>) -> bool {
    &&& w.keys.len() <= g.keys.len()
    &&& forall|k: int| 0 <= k < w.keys.len() ==> #[trigger] g.keys[k] == w.keys[k]
    &&& w.edges.len() <= g.edges.len()
    &&& forall|e: int| 0 <= e < w.edges.len() ==> #[trigger] g.edges[e] == w.edges[e]
}

proof fn lemma_lay<N: Real>(
    ps: Seq<RunView>,
    n: int,
    r: RulesView<N>,
    widths: Map<Seq<char>, N>,
)
    requires
        0 <= n <= ps.len(),
    ensures
        tree::lay_upto(ps, n, r, widths) matches Some(w) ==> is_laid(w, ps, n, r, widths),
    decreases n,
{
    if n <= 0 {
        let w = tree::lay_upto(ps, n, r, widths)->0;
        assert(tree::ends(w.edges).len() == 0);
    } else {
        lemma_lay(ps, n - 1, r, widths);
        if let Some(w) = tree::lay_upto(ps, n - 1, r, widths) {
            let run = ps[n - 1];
            if r.layers.contains_key(run.layer) {
                lemma_lay_one(w, ps, n, r, widths);
            }
        }
    }
}

#[verifier::rlimit(50)]
proof fn lemma_lay_one<N: Real>(
    w: Wiring<N>,
    ps: Seq<RunView>,
    n: int,
    r: RulesView<N>,
    widths: Map<Seq<char>, N>,
)
    requires
        0 < n <= ps.len(),
        is_laid(w, ps, n - 1, r, widths),
        r.layers.contains_key(ps[n - 1].layer),
    ensures
        is_laid(tree::lay(w, ps[n - 1], r, widths)->0, ps, n, r, widths),
{
    let run = ps[n - 1];
    let (ka, kb) = (spot(run.a, run.layer), spot(run.b, run.layer));
    let h = tree::with_node(w, ka);
    let g = tree::with_node(h, kb);
    tree::lemma_with_node(w, ka);
    tree::lemma_with_node(h, kb);
    let out = tree::lay(w, run, r, widths)->0;
    let (a, b) = (g.keys.index_of(ka), g.keys.index_of(kb));
    assert(g.keys.contains(ka) && g.keys.contains(kb));
    assert(g.keys[a] == ka && g.keys[b] == kb);
    assert(run.len() == reach_of(run));
    let half = half_of(run, r);
    assert(grows(w, out));
    // nodes
    assert forall|i: int| 0 <= i < n implies out.keys.contains(
        spot((#[trigger] ps[i]).a, ps[i].layer),
    ) && out.keys.contains(spot(ps[i].b, ps[i].layer)) by {
        if i < n - 1 {
            let x = w.keys.index_of(spot(ps[i].a, ps[i].layer));
            let y = w.keys.index_of(spot(ps[i].b, ps[i].layer));
            assert(w.keys.contains(spot(ps[i].a, ps[i].layer)));
            assert(w.keys.contains(spot(ps[i].b, ps[i].layer)));
            assert(out.keys[x] == w.keys[x] && out.keys[y] == w.keys[y]);
        }
    }
    assert forall|k: int| 0 <= k < out.keys.len() implies is_end(
        ps,
        n,
        #[trigger] out.keys[k],
    ) by {
        if k < w.keys.len() {
            assert(out.keys[k] == w.keys[k]);
            assert(is_end(ps, n - 1, w.keys[k]));
            let i = choose|i: int|
                0 <= i < n - 1 && (spot((#[trigger] ps[i]).a, ps[i].layer) == w.keys[k] || spot(
                    ps[i].b,
                    ps[i].layer,
                ) == w.keys[k]);
            assert(spot(ps[i].a, ps[i].layer) == w.keys[k] || spot(ps[i].b, ps[i].layer)
                == w.keys[k]);
        } else {
            assert(out.keys[k] == ka || out.keys[k] == kb);
            assert(spot(ps[n - 1].a, ps[n - 1].layer) == ka);
        }
    }
    // resistors
    if a != b {
        let e = EdgeView { a, b, res: piece_ohm(run, r, widths) };
        assert(out.edges == g.edges.push(e));
        tree::lemma_push_edge(g, e);
        assert(out.edges[out.edges.len() - 1] == e);
        assert(run.a != run.b);
    } else {
        assert(ka == kb);
        assert(run.a == run.b);
    }
    assert(tree::sound(out));
    assert forall|i: int| 0 <= i < n && (#[trigger] ps[i]).a != ps[i].b implies joined(
        out.edges,
        out.keys,
        spot(ps[i].a, ps[i].layer),
        spot(ps[i].b, ps[i].layer),
        piece_ohm(ps[i], r, widths),
    ) by {
        if i < n - 1 {
            lemma_still_joined(
                w,
                out,
                spot(ps[i].a, ps[i].layer),
                spot(ps[i].b, ps[i].layer),
                piece_ohm(ps[i], r, widths),
            );
        } else {
            let e = out.edges.len() - 1;
            assert(out.edges[e].res == piece_ohm(run, r, widths));
            assert(out.keys[out.edges[e].a] == ka && out.keys[out.edges[e].b] == kb);
        }
    }
    assert forall|e: int| 0 <= e < out.edges.len() implies apart(
        out.keys[(#[trigger] out.edges[e]).a],
        out.keys[out.edges[e].b],
    ) by {
        if e < w.edges.len() {
            assert(out.edges[e] == w.edges[e]);
            assert(tree::ends(w.edges)[e] == (w.edges[e].a, w.edges[e].b));
            assert(apart(w.keys[w.edges[e].a], w.keys[w.edges[e].b]));
        }
    }
    // capacitances
    assert forall|k: int| 0 <= k < out.keys.len() implies #[trigger] out.caps[k] == put_on(
        ps,
        r,
        out.keys[k],
        n,
    ) by {
        let key = out.keys[k];
        assert(g.keys[k] == key);
        let before = put_on(ps, r, key, n - 1);
        assert(g.caps[k] == before) by {
            if k < w.keys.len() {
                assert(w.keys[k] == key);
                assert(g.caps[k] == w.caps[k]);
            } else {
                assert(g.caps[k] == number::zero::<N>());
                assert(!is_end(ps, n - 1, key)) by {
                    if is_end(ps, n - 1, key) {
                        let i = choose|i: int|
                            0 <= i < n - 1 && (spot((#[trigger] ps[i]).a, ps[i].layer) == key
                                || spot(ps[i].b, ps[i].layer) == key);
                        assert(w.keys.contains(spot(ps[i].a, ps[i].layer)));
                        assert(w.keys.contains(spot(ps[i].b, ps[i].layer)));
                        let j = w.keys.index_of(key);
                        assert(g.keys[j] == w.keys[j]);
                        assert(j == k);
                    }
                }
                lemma_untouched(ps, r, key, n - 1);
            }
        }
        assert((k == a) == (key == ka));
        assert((k == b) == (key == kb));
    }
}

/// Whether a wiring has landed the first `n` vias on another one: nodes are added
/// where a node stands already, and nothing else.
spec fn is_landed<N: Real>(
    g: Wiring<N>,
    w: Wiring<N>,
    vias: Seq<ViaView>,
    n: int,
    r: RulesView<N>,
) -> bool {
    &&& tree::sound(g)
    &&& grows(w, g)
    &&& g.edges == w.edges
    &&& forall|p: (int, int)| reached(g.keys, p) ==> #[trigger] reached(w.keys, p)
    &&& forall|i: int|
        0 <= i < n && r.layers.contains_key((#[trigger] vias[i]).layer) && reached(
            w.keys,
            landing(vias[i]),
        ) ==> g.keys.contains(spot(landing(vias[i]), vias[i].layer))
    &&& forall|k: int|
        w.keys.len() <= k < g.keys.len() ==> lands(vias, n, r, #[trigger] g.keys[k]) && g.caps[k]
            == number::zero::<N>()
    &&& forall|k: int| 0 <= k < w.keys.len() ==> #[trigger] g.caps[k] == w.caps[k]
}

/// Whether one of the first `n` vias is declared at a place, on a layer with a rule.
pub open spec fn lands<N: Real>(
    vias: Seq<ViaView>,
    n: int,
    r: RulesView<N>,
    key: (int, int, Seq<char>),
) -> bool {
    r.layers.contains_key(key.2) && exists|i: int|
        0 <= i < n && spot(landing(#[trigger] vias[i]), vias[i].layer) == key
}

proof fn lemma_reached<N: Real>(keys: Seq<(int, int, Seq<char>)>, p: (int, int))
    ensures
        tree::occupied(keys, p) <==> reached(keys, p),
{
    if tree::occupied(keys, p) {
        let i = choose|i: int|
            0 <= i < keys.len() && (#[trigger] keys[i]).0 == p.0 && keys[i].1 == p.1;
        assert(keys.contains(spot(p, keys[i].2)));
    }
    if reached(keys, p) {
        let layer = choose|layer: Seq<char>| #[trigger] keys.contains(spot(p, layer));
        let i = keys.index_of(spot(p, layer));
        assert(keys[i].0 == p.0 && keys[i].1 == p.1);
    }
}

#[verifier::rlimit(50)]
proof fn lemma_land<N: Real>(w: Wiring<N>, vias: Seq<ViaView>, n: int, r: RulesView<N>)
    requires
        tree::sound(w),
        0 <= n <= vias.len(),
    ensures
        is_landed(tree::land_upto(w, vias, n, r), w, vias, n, r),
    decreases n,
{
    let out = tree::land_upto(w, vias, n, r);
    if n > 0 {
        lemma_land(w, vias, n - 1, r);
        let g = tree::land_upto(w, vias, n - 1, r);
        let p = landing(vias[n - 1]);
        let layer = vias[n - 1].layer;
        let key = spot(p, layer);
        assert(junction::via_places(vias)[n - 1] == p);
        lemma_reached::<N>(g.keys, p);
        lemma_reached::<N>(w.keys, p);
        tree::lemma_with_node(g, key);
        assert(grows(g, out));
        assert forall|k: int| 0 <= k < w.keys.len() implies #[trigger] out.keys[k] == w.keys[k] by {
            assert(g.keys[k] == w.keys[k]);
            assert(out.keys[k] == g.keys[k]);
        }
        assert forall|k: int| 0 <= k < w.keys.len() implies #[trigger] out.caps[k] == w.caps[k] by {
            assert(g.caps[k] == w.caps[k]);
            assert(out.caps[k] == g.caps[k]);
        }
        assert(out.edges == w.edges);
        assert(grows(w, out));
        assert(reached(w.keys, p) ==> reached(g.keys, p)) by {
            if reached(w.keys, p) {
                let l = choose|l: Seq<char>| #[trigger] w.keys.contains(spot(p, l));
                let i = w.keys.index_of(spot(p, l));
                assert(g.keys[i] == w.keys[i]);
                assert(g.keys.contains(spot(p, l)));
            }
        }
        assert forall|q: (int, int)| reached(out.keys, q) implies #[trigger] reached(w.keys, q) by {
            let l = choose|l: Seq<char>| #[trigger] out.keys.contains(spot(q, l));
            let i = out.keys.index_of(spot(q, l));
            if i < g.keys.len() {
                assert(g.keys[i] == out.keys[i]);
                assert(g.keys.contains(spot(q, l)));
                assert(reached(g.keys, q));
            } else {
                assert(out.keys[i] == key);
                assert(q == p);
                assert(reached(g.keys, p));
            }
        }
        assert forall|i: int|
            0 <= i < n && r.layers.contains_key((#[trigger] vias[i]).layer) && reached(
                w.keys,
                landing(vias[i]),
            ) implies out.keys.contains(spot(landing(vias[i]), vias[i].layer)) by {
            if i < n - 1 {
                let k = g.keys.index_of(spot(landing(vias[i]), vias[i].layer));
                assert(g.keys.contains(spot(landing(vias[i]), vias[i].layer)));
                assert(out.keys[k] == g.keys[k]);
            }
        }
        assert forall|k: int| w.keys.len() <= k < out.keys.len() implies lands(
            vias,
            n,
            r,
            #[trigger] out.keys[k],
        ) && out.caps[k] == number::zero::<N>() by {
            if k < g.keys.len() {
                assert(out.keys[k] == g.keys[k]);
                assert(lands(vias, n - 1, r, g.keys[k]));
                let i = choose|i: int|
                    0 <= i < n - 1 && spot(landing(#[trigger] vias[i]), vias[i].layer) == g.keys[k];
                assert(spot(landing(vias[i]), vias[i].layer) == out.keys[k]);
            } else {
                assert(spot(landing(vias[n - 1]), vias[n - 1].layer) == out.keys[k]);
            }
        }
        assert(tree::sound(out));
        assert(is_landed(out, w, vias, n, r));
    } else {
        assert(out == w);
        assert(is_landed(out, w, vias, n, r));
    }
}

/// Whether a layer is the only other one at a place.
pub open spec fn two_there(
    at: Seq<(int, int, Seq<char>)>,
    p: (int, int),
    a: Seq<char>,
    b: Seq<char>,
) -> bool {
    &&& a != b
    &&& at.contains(spot(p, a))
    &&& at.contains(spot(p, b))
    &&& forall|c: Seq<char>| #[trigger] at.contains(spot(p, c)) ==> c == a || c == b
}

/// Whether a layer comes right after another in the order of names among those at a
/// place.
pub open spec fn next_there(
    at: Seq<(int, int, Seq<char>)>,
    p: (int, int),
    a: Seq<char>,
    b: Seq<char>,
) -> bool {
    &&& text::text_lt(a, b)
    &&& at.contains(spot(p, a))
    &&& at.contains(spot(p, b))
    &&& forall|c: Seq<char>| #[trigger]
        at.contains(spot(p, c)) ==> c == a || c == b || text::text_lt(c, a) || text::text_lt(b, c)
}

/// Whether no layer at a place comes before one.
pub open spec fn lowest_there(
    at: Seq<(int, int, Seq<char>)>,
    p: (int, int),
    a: Seq<char>,
) -> bool {
    at.contains(spot(p, a)) && forall|c: Seq<char>| #[trigger]
        at.contains(spot(p, c)) ==> c == a || text::text_lt(a, c)
}

/// Whether no layer at a place comes after one.
pub open spec fn highest_there(
    at: Seq<(int, int, Seq<char>)>,
    p: (int, int),
    a: Seq<char>,
) -> bool {
    at.contains(spot(p, a)) && forall|c: Seq<char>| #[trigger]
        at.contains(spot(p, c)) ==> c == a || text::text_lt(c, a)
}

/// How many of the first `n` names have a node at a place.
pub open spec fn named_there(
    at: Seq<(int, int, Seq<char>)>,
    p: (int, int),
    names: Seq<Seq<char>>,
    n: int,
) -> int
    decreases n,
{
    if n <= 0 {
        0
    } else {
        named_there(at, p, names, n - 1) + (if at.contains(spot(p, names[n - 1])) {
            1int
        } else {
            0
        })
    }
}

/// Whether it is clear which layers a via joins: the library of vias names exactly two
/// that have a node where it lands, or else its declared layer is the lowest or the
/// highest of several there.
pub open spec fn clear(
    at: Seq<(int, int, Seq<char>)>,
    via: ViaView,
    library: Map<Seq<char>, Seq<Seq<char>>>,
) -> bool {
    let p = landing(via);
    ||| library.contains_key(via.name) && named_there(
        at,
        p,
        library[via.name],
        library[via.name].len() as int,
    ) == 2
    ||| (lowest_there(at, p, via.layer) || highest_there(at, p, via.layer)) && exists|c: Seq<char>|
        c != via.layer && #[trigger] at.contains(spot(p, c))
}

/// How many of the first `n` vias it is clear of which layers they join.
pub open spec fn clear_vias(
    at: Seq<(int, int, Seq<char>)>,
    vias: Seq<ViaView>,
    library: Map<Seq<char>, Seq<Seq<char>>>,
    n: int,
) -> int
    decreases n,
{
    if n <= 0 {
        0
    } else {
        clear_vias(at, vias, library, n - 1) + (if clear(at, vias[n - 1], library) {
            1int
        } else {
            0
        })
    }
}

proof fn lemma_insert_name(s: Seq<Seq<char>>, p: Seq<char>)
    ensures
        forall|q: Seq<char>| #[trigger]
            tree::insert_name(s, p).contains(q) <==> s.contains(q) || q == p,
    decreases s.len(),
{
    let out = tree::insert_name(s, p);
    if s.len() == 0 || text::text_lt(s.last(), p) {
        assert forall|q: Seq<char>| #[trigger] out.contains(q) <==> s.contains(q) || q == p by {
            if s.contains(q) {
                assert(out[s.index_of(q)] == q);
            }
            if q == p {
                assert(out[s.len() as int] == q);
            }
            if out.contains(q) {
                let i = out.index_of(q);
                if i < s.len() {
                    assert(s[i] == q);
                }
            }
        }
    } else if s.last() == p {
        assert(s[s.len() - 1] == p);
    } else {
        let d = s.drop_last();
        lemma_insert_name(d, p);
        let e = tree::insert_name(d, p);
        assert forall|q: Seq<char>| #[trigger] out.contains(q) <==> s.contains(q) || q == p by {
            assert(out == e.push(s.last()));
            if s.contains(q) {
                let i = s.index_of(q);
                if i < d.len() {
                    assert(d[i] == q);
                    assert(e.contains(q));
                    assert(out[e.index_of(q)] == q);
                } else {
                    assert(out[e.len() as int] == q);
                }
            }
            if q == p {
                assert(e.contains(q));
                assert(out[e.index_of(q)] == q);
            }
            if out.contains(q) {
                let i = out.index_of(q);
                if i < e.len() {
                    assert(e[i] == q);
                    assert(e.contains(q));
                    if d.contains(q) {
                        assert(s[d.index_of(q)] == q);
                    }
                } else {
                    assert(s[s.len() - 1] == q);
                }
            }
        }
    }
}

/// The layers at a place are those of the nodes there.
proof fn lemma_layers(keys: Seq<(int, int, Seq<char>)>, p: (int, int), n: int)
    requires
        0 <= n <= keys.len(),
    ensures
        forall|c: Seq<char>| #[trigger]
            tree::layers_upto(keys, p, n).contains(c) <==> keys.take(n).contains(spot(p, c)),
    decreases n,
{
    if n > 0 {
        lemma_layers(keys, p, n - 1);
        let before = tree::layers_upto(keys, p, n - 1);
        let k = keys[n - 1];
        lemma_insert_name(before, k.2);
        assert forall|c: Seq<char>| #[trigger]
            tree::layers_upto(keys, p, n).contains(c) <==> keys.take(n).contains(spot(p, c)) by {
            assert(keys.take(n) == keys.take(n - 1).push(k));
            if keys.take(n - 1).contains(spot(p, c)) {
                assert(keys.take(n)[keys.take(n - 1).index_of(spot(p, c))] == spot(p, c));
            }
            if k == spot(p, c) {
                assert(keys.take(n)[n - 1] == k);
            }
            if keys.take(n).contains(spot(p, c)) {
                let i = keys.take(n).index_of(spot(p, c));
                if i < n - 1 {
                    assert(keys.take(n - 1)[i] == spot(p, c));
                }
            }
        }
    } else {
        assert forall|c: Seq<char>| #[trigger]
            tree::layers_upto(keys, p, n).contains(c) <==> keys.take(n).contains(spot(p, c)) by {
            assert(keys.take(n).len() == 0);
        }
    }
}

proof fn lemma_layers_at(keys: Seq<(int, int, Seq<char>)>, p: (int, int))
    ensures
        forall|c: Seq<char>| #[trigger]
            tree::layers_at(keys, p).contains(c) <==> keys.contains(spot(p, c)),
        tree::names_ascend(tree::layers_at(keys, p)),
        tree::layers_at(keys, p).no_duplicates(),
{
    let n = keys.len() as int;
    lemma_layers(keys, p, n);
    assert(keys.take(n) == keys);
    tree::lemma_layers_distinct(keys, p, n);
}

proof fn lemma_present(
    keys: Seq<(int, int, Seq<char>)>,
    p: (int, int),
    names: Seq<Seq<char>>,
    n: int,
)
    requires
        0 <= n <= names.len(),
    ensures
        ({
            let s = tree::present_upto(keys, p, names, n);
            &&& s.len() == named_there(keys, p, names, n)
            &&& forall|i: int|
                0 <= i < s.len() ==> keys.contains(spot(p, #[trigger] s[i])) && names.take(
                    n,
                ).contains(s[i])
            &&& names.no_duplicates() ==> s.no_duplicates()
        }),
    decreases n,
{
    if n > 0 {
        lemma_present(keys, p, names, n - 1);
        let before = tree::present_upto(keys, p, names, n - 1);
        let s = tree::present_upto(keys, p, names, n);
        let name = names[n - 1];
        assert(names.take(n)[n - 1] == name);
        assert forall|i: int| 0 <= i < s.len() implies keys.contains(spot(p, #[trigger] s[i]))
            && names.take(n).contains(s[i]) by {
            if i < before.len() {
                assert(s[i] == before[i]);
                let j = names.take(n - 1).index_of(s[i]);
                assert(names.take(n)[j] == s[i]);
            }
        }
        if names.no_duplicates() {
            assert forall|i: int, j: int|
                0 <= i < s.len() && 0 <= j < s.len() && i != j implies s[i] != s[j] by {
                if i < before.len() && j == before.len() {
                    assert(s[i] == before[i]);
                    let k = names.take(n - 1).index_of(before[i]);
                    assert(names[k] == before[i]);
                    assert(names[n - 1] == s[j]);
                }
                if j < before.len() && i == before.len() {
                    assert(s[j] == before[j]);
                    let k = names.take(n - 1).index_of(before[j]);
                    assert(names[k] == before[j]);
                    assert(names[n - 1] == s[i]);
                }
            }
        }
    }
}

/// The pair of layers that a via joins, where that is clear.
#[verifier::rlimit(50)]
proof fn lemma_pair(
    keys: Seq<(int, int, Seq<char>)>,
    via: ViaView,
    library: Map<Seq<char>, Seq<Seq<char>>>,
)
    ensures
        tree::via_pair(keys, landing(via), via, library) is Some <==> clear(keys, via, library),
        tree::via_pair(keys, landing(via), via, library) matches Some((a, b)) ==> keys.contains(
            spot(landing(via), a),
        ) && keys.contains(spot(landing(via), b)) && (!library.contains_key(via.name)
            || library[via.name].no_duplicates() ==> a != b) && (!library.contains_key(via.name)
            || named_there(
            keys,
            landing(via),
            library[via.name],
            library[via.name].len() as int,
        ) != 2 ==> next_there(keys, landing(via), a, b) && (a == via.layer || b == via.layer)),
{
    let p = landing(via);
    let here = tree::layers_at(keys, p);
    lemma_layers_at(keys, p);
    if library.contains_key(via.name) {
        let list = library[via.name];
        lemma_present(keys, p, list, list.len() as int);
        let s = tree::present_upto(keys, p, list, list.len() as int);
        if s.len() == 2 {
            assert(keys.contains(spot(p, s[0])) && keys.contains(spot(p, s[1])));
        }
    }
    let layer = via.layer;
    let low = lowest_there(keys, p, layer);
    let high = highest_there(keys, p, layer);
    let other = exists|c: Seq<char>| c != layer && #[trigger] keys.contains(spot(p, c));
    if here.contains(layer) {
        let i = here.index_of(layer);
        assert(here[i] == layer);
        assert(keys.contains(spot(p, layer)));
        assert forall|c: Seq<char>| #[trigger] keys.contains(spot(p, c)) implies here.contains(
            c,
        ) by {}
        if i == 0 {
            assert forall|c: Seq<char>| #[trigger] keys.contains(spot(p, c)) implies c == layer
                || text::text_lt(layer, c) by {
                assert(here.contains(c));
                let j = here.index_of(c);
                if j > 0 {
                    assert(text::text_lt(here[0], here[j]));
                }
            }
            assert(low);
        } else {
            assert(text::text_lt(here[0], here[i]));
            assert(here.contains(here[0]));
            assert(keys.contains(spot(p, here[0])));
            if low {
                text::lemma_text_lt_trans(layer, here[0], layer);
                text::lemma_text_lt_irreflexive(layer);
                text::lemma_text_lt_irreflexive(here[0]);
            }
            assert(!low);
        }
        if i == here.len() - 1 {
            assert forall|c: Seq<char>| #[trigger] keys.contains(spot(p, c)) implies c == layer
                || text::text_lt(c, layer) by {
                assert(here.contains(c));
                let j = here.index_of(c);
                if j < i {
                    assert(text::text_lt(here[j], here[i]));
                }
            }
            assert(high);
        } else {
            let z = here.len() - 1;
            assert(text::text_lt(here[i], here[z]));
            assert(here.contains(here[z]));
            assert(keys.contains(spot(p, here[z])));
            if high {
                text::lemma_text_lt_trans(layer, here[z], layer);
                text::lemma_text_lt_irreflexive(layer);
                text::lemma_text_lt_irreflexive(here[z]);
            }
            assert(!high);
        }
        if here.len() > 1 {
            let j = if i == 0 {
                1
            } else {
                0int
            };
            assert(here.contains(here[j]));
            assert(here[j] != layer);
            assert(keys.contains(spot(p, here[j])));
            assert(other);
        } else if other {
            let c = choose|c: Seq<char>| c != layer && #[trigger] keys.contains(spot(p, c));
            assert(here.contains(c));
            assert(here[here.index_of(c)] == here[i]);
        }
        if i > 0 && i + 1 >= here.len() {
            lemma_next(keys, p, i - 1);
        } else if i == 0 && here.len() > 1 {
            lemma_next(keys, p, 0);
        }
    } else {
        assert(!keys.contains(spot(p, layer)));
        assert(!low && !high);
    }
}

/// Layers that follow each other in the list at a place follow each other there.
proof fn lemma_next(keys: Seq<(int, int, Seq<char>)>, p: (int, int), i: int)
    requires
        0 <= i < tree::layers_at(keys, p).len() - 1,
    ensures
        next_there(keys, p, tree::layers_at(keys, p)[i], tree::layers_at(keys, p)[i + 1]),
        tree::layers_at(keys, p)[i] != tree::layers_at(keys, p)[i + 1],
{
    let here = tree::layers_at(keys, p);
    lemma_layers_at(keys, p);
    assert(text::text_lt(here[i], here[i + 1]));
    assert(here.contains(here[i]) && here.contains(here[i + 1]));
    assert(keys.contains(spot(p, here[i])) && keys.contains(spot(p, here[i + 1])));
    assert forall|c: Seq<char>| #[trigger] keys.contains(spot(p, c)) implies c == here[i] || c
        == here[i + 1] || text::text_lt(c, here[i]) || text::text_lt(here[i + 1], c) by {
        assert(here.contains(c));
        let j = here.index_of(c);
        if j < i {
            assert(text::text_lt(here[j], here[i]));
        } else if j > i + 1 {
            assert(text::text_lt(here[i + 1], here[j]));
        }
    }
}

/// Whether a wiring is another with resistors of vias after its own, each of one value
/// and between nodes at one place.
spec fn only_joins<N: Real>(w: Wiring<N>, g: Wiring<N>, ohm: N) -> bool {
    &&& tree::sound(g)
    &&& g.keys == w.keys
    &&& g.caps == w.caps
    &&& grows(w, g)
    &&& forall|e: int|
        w.edges.len() <= e < g.edges.len() ==> (#[trigger] g.edges[e]).res == ohm && !apart(
            g.keys[g.edges[e].a],
            g.keys[g.edges[e].b],
        )
}

proof fn lemma_joins<N: Real>(w: Wiring<N>, g: Wiring<N>, h: Wiring<N>, ohm: N)
    requires
        only_joins(w, g, ohm),
        only_joins(g, h, ohm),
    ensures
        only_joins(w, h, ohm),
{
    assert forall|e: int| 0 <= e < w.edges.len() implies #[trigger] h.edges[e] == w.edges[e] by {
        assert(g.edges[e] == w.edges[e]);
        assert(h.edges[e] == g.edges[e]);
    }
    assert forall|e: int| w.edges.len() <= e < h.edges.len() implies (#[trigger] h.edges[e]).res
        == ohm && !apart(h.keys[h.edges[e].a], h.keys[h.edges[e].b]) by {
        if e < g.edges.len() {
            assert(h.edges[e] == g.edges[e]);
            assert(g.edges[e].res == ohm);
        }
    }
    assert forall|k: int| 0 <= k < w.keys.len() implies #[trigger] h.keys[k] == w.keys[k] by {}
}

proof fn lemma_join<N: Real>(
    w: Wiring<N>,
    p: (int, int),
    a: Seq<char>,
    b: Seq<char>,
    ohm: N,
)
    requires
        tree::sound(w),
        w.keys.contains(spot(p, a)),
        w.keys.contains(spot(p, b)),
    ensures
        only_joins(w, tree::join(w, p, a, b, ohm), ohm),
        tree::join(w, p, a, b, ohm).edges.len() == w.edges.len() + 1,
        joined(tree::join(w, p, a, b, ohm).edges, w.keys, spot(p, a), spot(p, b), ohm),
{
    let g = tree::join(w, p, a, b, ohm);
    let e = EdgeView { a: w.keys.index_of(spot(p, a)), b: w.keys.index_of(spot(p, b)), res: ohm };
    assert(g.edges == w.edges.push(e));
    assert(w.keys[e.a] == spot(p, a) && w.keys[e.b] == spot(p, b));
    tree::lemma_push_edge(w, e);
    assert(g.edges[w.edges.len() as int] == e);
    assert(g == Wiring { edges: w.edges.push(e), ..w });
}

/// How many of the first `n` vias land at a place and are clear.
spec fn clear_at(
    at: Seq<(int, int, Seq<char>)>,
    p: (int, int),
    vias: Seq<ViaView>,
    library: Map<Seq<char>, Seq<Seq<char>>>,
    n: int,
) -> int
    decreases n,
{
    if n <= 0 {
        0
    } else {
        clear_at(at, p, vias, library, n - 1) + (if landing(vias[n - 1]) == p && clear(
            at,
            vias[n - 1],
            library,
        ) {
            1int
        } else {
            0
        })
    }
}

/// Whether each of the first `n` vias that lands at a place and is clear is a resistor
/// between its layers.
spec fn dropped<N: Real>(
    g: Wiring<N>,
    p: (int, int),
    vias: Seq<ViaView>,
    library: Map<Seq<char>, Seq<Seq<char>>>,
    n: int,
    ohm: N,
) -> bool {
    forall|k: int|
        0 <= k < n && landing(#[trigger] vias[k]) == p ==> (tree::via_pair(
            g.keys,
            p,
            vias[k],
            library,
        ) matches Some((a, b)) ==> joined(g.edges, g.keys, spot(p, a), spot(p, b), ohm))
}

proof fn lemma_dropped_still<N: Real>(
    w: Wiring<N>,
    g: Wiring<N>,
    p: (int, int),
    vias: Seq<ViaView>,
    library: Map<Seq<char>, Seq<Seq<char>>>,
    n: int,
    ohm: N,
)
    requires
        tree::sound(w),
        only_joins(w, g, ohm),
        dropped(w, p, vias, library, n, ohm),
    ensures
        dropped(g, p, vias, library, n, ohm),
{
    assert forall|k: int| 0 <= k < n && landing(#[trigger] vias[k]) == p implies (tree::via_pair(
        g.keys,
        p,
        vias[k],
        library,
    ) matches Some((a, b)) ==> joined(g.edges, g.keys, spot(p, a), spot(p, b), ohm)) by {
        if let Some((a, b)) = tree::via_pair(g.keys, p, vias[k], library) {
            lemma_still_joined(w, g, spot(p, a), spot(p, b), ohm);
        }
    }
}

proof fn lemma_drop_at<N: Real>(
    w: Wiring<N>,
    p: (int, int),
    vias: Seq<ViaView>,
    n: int,
    library: Map<Seq<char>, Seq<Seq<char>>>,
    ohm: N,
)
    requires
        tree::sound(w),
        0 <= n <= vias.len(),
    ensures
        ({
            let g = tree::drop_at(w, p, vias, n, library, ohm);
            &&& only_joins(w, g, ohm)
            &&& g.edges.len() == w.edges.len() + clear_at(w.keys, p, vias, library, n)
            &&& dropped(g, p, vias, library, n, ohm)
        }),
    decreases n,
{
    let out = tree::drop_at(w, p, vias, n, library, ohm);
    if n > 0 {
        lemma_drop_at(w, p, vias, n - 1, library, ohm);
        let g = tree::drop_at(w, p, vias, n - 1, library, ohm);
        let via = vias[n - 1];
        assert(junction::via_places(vias)[n - 1] == landing(via));
        lemma_pair(w.keys, via, library);
        if landing(via) == p {
            if let Some((a, b)) = tree::via_pair(w.keys, p, via, library) {
                lemma_join(g, p, a, b, ohm);
                lemma_joins(w, g, out, ohm);
                lemma_dropped_still(g, out, p, vias, library, n - 1, ohm);
                assert(joined(out.edges, out.keys, spot(p, a), spot(p, b), ohm));
            }
        }
    }
}

proof fn lemma_insert_point(s: Seq<(int, int)>, p: (int, int))
    requires
        points_ascend(s),
    ensures
        points_ascend(tree::insert_point(s, p)),
        forall|q: (int, int)| #[trigger]
            tree::insert_point(s, p).contains(q) <==> s.contains(q) || q == p,
    decreases s.len(),
{
    let out = tree::insert_point(s, p);
    if s.len() == 0 || tree::point_lt(s.last(), p) {
        assert forall|q: (int, int)| #[trigger] out.contains(q) <==> s.contains(q) || q == p by {
            if s.contains(q) {
                assert(out[s.index_of(q)] == q);
            }
            if q == p {
                assert(out[s.len() as int] == q);
            }
            if out.contains(q) {
                let i = out.index_of(q);
                if i < s.len() {
                    assert(s[i] == q);
                }
            }
        }
        assert forall|i: int, j: int| 0 <= i < j < out.len() implies tree::point_lt(
            #[trigger] out[i],
            #[trigger] out[j],
        ) by {
            if j == s.len() && i < s.len() - 1 {
                assert(tree::point_lt(s[i], s[s.len() - 1]));
            }
        }
    } else if s.last() == p {
        assert(s[s.len() - 1] == p);
    } else {
        let d = s.drop_last();
        assert(points_ascend(d)) by {
            assert forall|i: int, j: int| 0 <= i < j < d.len() implies tree::point_lt(
                #[trigger] d[i],
                #[trigger] d[j],
            ) by {
                assert(d[i] == s[i] && d[j] == s[j]);
            }
        }
        lemma_insert_point(d, p);
        let e = tree::insert_point(d, p);
        assert(out == e.push(s.last()));
        assert forall|q: (int, int)| #[trigger] out.contains(q) <==> s.contains(q) || q == p by {
            if s.contains(q) {
                let i = s.index_of(q);
                if i < d.len() {
                    assert(d[i] == q);
                    assert(e.contains(q));
                    assert(out[e.index_of(q)] == q);
                } else {
                    assert(out[e.len() as int] == q);
                }
            }
            if q == p {
                assert(e.contains(q));
                assert(out[e.index_of(q)] == q);
            }
            if out.contains(q) {
                let i = out.index_of(q);
                if i < e.len() {
                    assert(e[i] == q);
                    assert(e.contains(q));
                    if d.contains(q) {
                        assert(s[d.index_of(q)] == q);
                    }
                } else {
                    assert(s[s.len() - 1] == q);
                }
            }
        }
        assert forall|i: int, j: int| 0 <= i < j < out.len() implies tree::point_lt(
            #[trigger] out[i],
            #[trigger] out[j],
        ) by {
            if j == e.len() {
                assert(e.contains(e[i]));
                if e[i] != p {
                    let k = d.index_of(e[i]);
                    assert(s[k] == e[i]);
                    assert(tree::point_lt(s[k], s[s.len() - 1]));
                }
            } else {
                assert(out[i] == e[i] && out[j] == e[j]);
            }
        }
    }
}

spec fn points_ascend(s: Seq<(int, int)>) -> bool {
    forall|i: int, j: int|
        0 <= i < j < s.len() ==> tree::point_lt(#[trigger] s[i], #[trigger] s[j])
}

proof fn lemma_ranked(s: Seq<(int, int)>, n: int)
    requires
        0 <= n <= s.len(),
    ensures
        points_ascend(tree::ranked_upto(s, n)),
        forall|k: int| 0 <= k < n ==> tree::ranked_upto(s, n).contains(#[trigger] s[k]),
    decreases n,
{
    if n > 0 {
        lemma_ranked(s, n - 1);
        lemma_insert_point(tree::ranked_upto(s, n - 1), s[n - 1]);
    }
}

/// How many of the first `n` vias are clear and land at one of some places.
spec fn tally(
    at: Seq<(int, int, Seq<char>)>,
    places: Seq<(int, int)>,
    vias: Seq<ViaView>,
    library: Map<Seq<char>, Seq<Seq<char>>>,
    n: int,
) -> int
    decreases n,
{
    if n <= 0 {
        0
    } else {
        tally(at, places, vias, library, n - 1) + (if places.contains(landing(vias[n - 1]))
            && clear(at, vias[n - 1], library) {
            1int
        } else {
            0
        })
    }
}

proof fn lemma_tally_step(
    at: Seq<(int, int, Seq<char>)>,
    places: Seq<(int, int)>,
    m: int,
    vias: Seq<ViaView>,
    library: Map<Seq<char>, Seq<Seq<char>>>,
    n: int,
)
    requires
        points_ascend(places),
        0 <= m < places.len(),
    ensures
        tally(at, places.take(m + 1), vias, library, n) == tally(
            at,
            places.take(m),
            vias,
            library,
            n,
        ) + clear_at(at, places[m], vias, library, n),
    decreases n,
{
    if n > 0 {
        lemma_tally_step(at, places, m, vias, library, n - 1);
        let p = landing(vias[n - 1]);
        let (few, more) = (places.take(m), places.take(m + 1));
        assert(more == few.push(places[m]));
        if few.contains(p) {
            let i = few.index_of(p);
            assert(places[i] == p);
            assert(more[i] == p);
            assert(tree::point_lt(places[i], places[m]));
        }
        if more.contains(p) {
            let i = more.index_of(p);
            if i < m {
                assert(few[i] == p);
            }
        }
        if p == places[m] {
            assert(more[m] == p);
        }
    }
}

proof fn lemma_tally_all(
    at: Seq<(int, int, Seq<char>)>,
    places: Seq<(int, int)>,
    vias: Seq<ViaView>,
    library: Map<Seq<char>, Seq<Seq<char>>>,
    n: int,
)
    requires
        0 <= n <= vias.len(),
        forall|k: int| 0 <= k < vias.len() ==> places.contains(landing(#[trigger] vias[k])),
    ensures
        tally(at, places, vias, library, n) == clear_vias(at, vias, library, n),
    decreases n,
{
    if n > 0 {
        lemma_tally_all(at, places, vias, library, n - 1);
        assert(places.contains(landing(vias[n - 1])));
    }
}

proof fn lemma_tally_none(
    at: Seq<(int, int, Seq<char>)>,
    vias: Seq<ViaView>,
    library: Map<Seq<char>, Seq<Seq<char>>>,
    n: int,
)
    ensures
        tally(at, Seq::empty(), vias, library, n) == 0,
    decreases n,
{
    if n > 0 {
        lemma_tally_none(at, vias, library, n - 1);
    }
}

proof fn lemma_drops<N: Real>(
    w: Wiring<N>,
    places: Seq<(int, int)>,
    m: int,
    vias: Seq<ViaView>,
    library: Map<Seq<char>, Seq<Seq<char>>>,
    ohm: N,
)
    requires
        tree::sound(w),
        points_ascend(places),
        0 <= m <= places.len(),
    ensures
        ({
            let n = vias.len() as int;
            let g = tree::drop_upto(w, places, m, vias, library, ohm);
            &&& only_joins(w, g, ohm)
            &&& g.edges.len() == w.edges.len() + tally(w.keys, places.take(m), vias, library, n)
            &&& forall|i: int|
                0 <= i < m ==> dropped(g, #[trigger] places[i], vias, library, n, ohm)
        }),
    decreases m,
{
    let n = vias.len() as int;
    let out = tree::drop_upto(w, places, m, vias, library, ohm);
    if m == 0 {
        assert(places.take(0) == Seq::<(int, int)>::empty());
        lemma_tally_none(w.keys, vias, library, n);
    } else {
        lemma_drops(w, places, m - 1, vias, library, ohm);
        let g = tree::drop_upto(w, places, m - 1, vias, library, ohm);
        lemma_drop_at(g, places[m - 1], vias, n, library, ohm);
        lemma_joins(w, g, out, ohm);
        lemma_tally_step(w.keys, places, m - 1, vias, library, n);
        assert forall|i: int| 0 <= i < m implies dropped(
            out,
            #[trigger] places[i],
            vias,
            library,
            n,
            ohm,
        ) by {
            if i < m - 1 {
                lemma_dropped_still(g, out, places[i], vias, library, n, ohm);
            }
        }
    }
}

/// Stacks join each layer at a place with the next one.
spec fn stacked<N: Real>(g: Wiring<N>, p: (int, int), ohm: N) -> bool {
    forall|i: int|
        0 <= i < tree::layers_at(g.keys, p).len() - 1 ==> joined(
            g.edges,
            g.keys,
            spot(p, #[trigger] tree::layers_at(g.keys, p)[i]),
            spot(p, tree::layers_at(g.keys, p)[i + 1]),
            ohm,
        )
}

proof fn lemma_stack<N: Real>(w: Wiring<N>, p: (int, int), n: int, ohm: N)
    requires
        tree::sound(w),
        0 <= n < tree::layers_at(w.keys, p).len(),
    ensures
        ({
            let here = tree::layers_at(w.keys, p);
            let g = tree::stack(w, p, here, n, ohm);
            &&& only_joins(w, g, ohm)
            &&& forall|i: int|
                0 <= i < n ==> joined(
                    g.edges,
                    g.keys,
                    spot(p, #[trigger] here[i]),
                    spot(p, here[i + 1]),
                    ohm,
                )
        }),
    decreases n,
{
    if n > 0 {
        lemma_stack(w, p, n - 1, ohm);
        let here = tree::layers_at(w.keys, p);
        let g = tree::stack(w, p, here, n - 1, ohm);
        let out = tree::stack(w, p, here, n, ohm);
        lemma_layers_at(w.keys, p);
        assert(here.contains(here[n - 1]) && here.contains(here[n]));
        lemma_join(g, p, here[n - 1], here[n], ohm);
        lemma_joins(w, g, out, ohm);
        assert forall|i: int| 0 <= i < n implies joined(
            out.edges,
            out.keys,
            spot(p, #[trigger] here[i]),
            spot(p, here[i + 1]),
            ohm,
        ) by {
            if i < n - 1 {
                lemma_still_joined(g, out, spot(p, here[i]), spot(p, here[i + 1]), ohm);
            }
        }
    }
}

proof fn lemma_stacks<N: Real>(w: Wiring<N>, places: Seq<(int, int)>, m: int, ohm: N)
    requires
        tree::sound(w),
        0 <= m <= places.len(),
    ensures
        ({
            let g = tree::stack_upto(w, places, m, ohm);
            &&& only_joins(w, g, ohm)
            &&& forall|i: int| 0 <= i < m ==> stacked(g, #[trigger] places[i], ohm)
        }),
    decreases m,
{
    if m > 0 {
        lemma_stacks(w, places, m - 1, ohm);
        let g = tree::stack_upto(w, places, m - 1, ohm);
        let p = places[m - 1];
        let here = tree::layers_at(w.keys, p);
        let out = tree::stack_upto(w, places, m, ohm);
        if here.len() > 0 {
            lemma_stack(g, p, here.len() - 1, ohm);
            lemma_joins(w, g, out, ohm);
        }
        assert forall|i: int| 0 <= i < m implies stacked(out, #[trigger] places[i], ohm) by {
            let q = places[i];
            let there = tree::layers_at(out.keys, q);
            if i < m - 1 {
                assert(stacked(g, places[i], ohm));
                assert forall|j: int| 0 <= j < there.len() - 1 implies joined(
                    out.edges,
                    out.keys,
                    spot(q, #[trigger] there[j]),
                    spot(q, there[j + 1]),
                    ohm,
                ) by {
                    lemma_still_joined(g, out, spot(q, there[j]), spot(q, there[j + 1]), ohm);
                }
            }
        }
    }
}

/// The ohm of one via: that of the deck, and nothing where it is below zero.
pub open spec fn one_via<N: Real>(r: RulesView<N>) -> N {
    if r.via_res.spec_below(number::zero()) {
        number::zero()
    } else {
        r.via_res
    }
}

/// The pieces of a net's wire, cut where it meets other wire of its layer and vias.
pub open spec fn pieces_of(net: NetView) -> Seq<RunView> {
    junction::split(junction::net_runs(net.segments), junction::via_places(net.via_points))
}

/// Whether every wire of a net ends on nodes, and no via that is declared is lost: where
/// one lands on a place that is reached, on a layer with a rule, there is a node of its
/// layer. There are no other nodes than these and those between pieces of wire.
pub open spec fn nodes_drawn<N: Real>(
    net: NetView,
    r: RulesView<N>,
    at: Seq<(int, int, Seq<char>)>,
) -> bool {
    let ps = pieces_of(net);
    &&& at.no_duplicates()
    &&& forall|i: int|
        0 <= i < net.segments.len() ==> at.contains(
            spot((in_nm((#[trigger] net.segments[i]).x0), in_nm(net.segments[i].y0)), net.segments[i].layer),
        ) && at.contains(
            spot((in_nm(net.segments[i].x1), in_nm(net.segments[i].y1)), net.segments[i].layer),
        )
    &&& forall|k: int|
        0 <= k < net.via_points.len() && r.layers.contains_key(
            (#[trigger] net.via_points[k]).layer,
        ) && reached(at, landing(net.via_points[k])) ==> at.contains(
            spot(landing(net.via_points[k]), net.via_points[k].layer),
        )
    &&& forall|i: int|
        0 <= i < at.len() ==> is_end(ps, ps.len() as int, #[trigger] at[i]) || lands(
            net.via_points,
            net.via_points.len() as int,
            r,
            at[i],
        )
}

/// Whether each via of which it is clear which layers it joins is a resistor of one via
/// between them, and there are as many resistors as pieces of wire with two ends and
/// clear vias. Where just two layers stand where a via lands, it joins the two; where
/// the library of vias says nothing of it, and its declared layer is the lowest or the
/// highest of those there, it joins that and the one next to it. A net that gives no
/// places of vias has one between each layer at a place and the next.
pub open spec fn vias_drawn<N: Real>(
    net: NetView,
    r: RulesView<N>,
    library: Map<Seq<char>, Seq<Seq<char>>>,
    edges: Seq<EdgeView<N>>,
    at: Seq<(int, int, Seq<char>)>,
) -> bool {
    let vias = net.via_points;
    let ps = pieces_of(net);
    &&& forall|k: int, b: Seq<char>|
        0 <= k < vias.len() && #[trigger] two_there(
            at,
            landing(#[trigger] vias[k]),
            vias[k].layer,
            b,
        ) && (library.contains_key(vias[k].name) ==> library[vias[k].name].no_duplicates())
            ==> joined(
            edges,
            at,
            spot(landing(vias[k]), vias[k].layer),
            spot(landing(vias[k]), b),
            one_via(r),
        )
    &&& forall|k: int, a: Seq<char>, b: Seq<char>|
        0 <= k < vias.len() && !library.contains_key((#[trigger] vias[k]).name)
            && #[trigger] next_there(at, landing(vias[k]), a, b) && (a == vias[k].layer
            && lowest_there(at, landing(vias[k]), a) || b == vias[k].layer && highest_there(
            at,
            landing(vias[k]),
            b,
        )) ==> joined(edges, at, spot(landing(vias[k]), a), spot(landing(vias[k]), b), one_via(r))
    &&& vias.len() > 0 ==> edges.len() == stretched(ps, ps.len() as int) + clear_vias(
        at,
        vias,
        library,
        vias.len() as int,
    )
    &&& vias.len() == 0 ==> forall|p: (int, int), a: Seq<char>, b: Seq<char>| #[trigger]
        next_there(at, p, a, b) ==> joined(edges, at, spot(p, a), spot(p, b), one_via(r))
}

/// Whether each piece of wire with two ends is a resistor of its own resistance between
/// its ends, and each node has half of the capacitance of each piece that ends on it.
pub open spec fn wire_drawn<N: Real>(
    net: NetView,
    r: RulesView<N>,
    widths: Map<Seq<char>, N>,
    t: NetworkView<N>,
    at: Seq<(int, int, Seq<char>)>,
) -> bool {
    let ps = pieces_of(net);
    &&& forall|i: int|
        0 <= i < ps.len() && (#[trigger] ps[i]).a != ps[i].b ==> joined(
            t.edges,
            at,
            spot(ps[i].a, ps[i].layer),
            spot(ps[i].b, ps[i].layer),
            piece_ohm(ps[i], r, widths),
        )
    &&& forall|i: int|
        0 <= i < at.len() ==> (#[trigger] t.nodes[i]).cap == put_on(
            ps,
            r,
            at[i],
            ps.len() as int,
        )
    &&& t.raw_res == number::total(tree::ohms(t.edges))
}

/// A network is what is drawn of its net. Its nodes stand at places and on layers, one
/// each: the ends of the wire, where wire is cut, and where vias land. Its resistors are
/// the pieces of wire and the vias, and none of either is lost.
#[verifier::rlimit(50)]
pub proof fn a_network_is_what_is_drawn<N: Real>(
    net: NetView,
    r: RulesView<N>,
    widths: Map<Seq<char>, N>,
    library: Map<Seq<char>, Seq<Seq<char>>>,
) -> (at: Seq<(int, int, Seq<char>)>)
    ensures
        tree::outcome(net, r, widths, library) matches OutcomeView::Built(t) ==> {
            &&& at.len() == t.nodes.len()
            &&& nodes_drawn(net, r, at)
            &&& vias_drawn(net, r, library, t.edges, at)
            &&& wire_drawn(net, r, widths, t, at)
        },
{
    match tree::outcome(net, r, widths, library) {
        OutcomeView::Built(t) => {
            let ps = pieces_of(net);
            let n = ps.len() as int;
            let vias = net.via_points;
            let m = vias.len() as int;
            lemma_lay(ps, n, r, widths);
            let laid = tree::lay_upto(ps, n, r, widths)->0;
            lemma_land(laid, vias, m, r);
            let landed = tree::land_upto(laid, vias, m, r);
            let ohm = tree::via_ohm(r);
            assert(ohm == one_via(r));
            let w = tree::with_vias(landed, vias, library, ohm);
            if m == 0 {
                let spots = tree::spots(landed.keys);
                let places = tree::ranked_upto(spots, landed.keys.len() as int);
                lemma_ranked(spots, landed.keys.len() as int);
                lemma_stacks(landed, places, places.len() as int, ohm);
                lemma_stacks_drawn(w, places, landed, ohm);
            } else {
                let all = junction::via_places(vias);
                let places = tree::ranked_upto(all, m);
                lemma_ranked(all, m);
                lemma_drops(landed, places, places.len() as int, vias, library, ohm);
                assert(places.take(places.len() as int) == places);
                assert forall|k: int| 0 <= k < vias.len() implies places.contains(
                    landing(#[trigger] vias[k]),
                ) by {
                    assert(all[k] == landing(vias[k]));
                }
                lemma_tally_all(landed.keys, places, vias, library, m);
                lemma_drops_drawn(w, places, net, r, library);
            }
            lemma_nodes_drawn(net, r, widths, laid, landed);
            lemma_wire_drawn(net, r, widths, laid, landed, w, t);
            w.keys
        },
        _ => Seq::empty(),
    }
}

proof fn lemma_stacks_drawn<N: Real>(
    w: Wiring<N>,
    places: Seq<(int, int)>,
    landed: Wiring<N>,
    ohm: N,
)
    requires
        only_joins(landed, w, ohm),
        places == tree::ranked_upto(tree::spots(landed.keys), landed.keys.len() as int),
        forall|i: int| 0 <= i < places.len() ==> stacked(w, #[trigger] places[i], ohm),
    ensures
        forall|p: (int, int), a: Seq<char>, b: Seq<char>| #[trigger]
            next_there(w.keys, p, a, b) ==> joined(w.edges, w.keys, spot(p, a), spot(p, b), ohm),
{
    let spots = tree::spots(landed.keys);
    lemma_ranked(spots, landed.keys.len() as int);
    assert forall|p: (int, int), a: Seq<char>, b: Seq<char>| #[trigger]
        next_there(w.keys, p, a, b) implies joined(
        w.edges,
        w.keys,
        spot(p, a),
        spot(p, b),
        ohm,
    ) by {
        let k = w.keys.index_of(spot(p, a));
        assert(spots[k] == p);
        let i = places.index_of(p);
        assert(places[i] == p);
        assert(stacked(w, places[i], ohm));
        let here = tree::layers_at(w.keys, p);
        lemma_layers_at(w.keys, p);
        assert(here.contains(a) && here.contains(b));
        let (x, y) = (here.index_of(a), here.index_of(b));
        assert(y == x + 1) by {
            if y < x {
                assert(text::text_lt(here[y], here[x]));
                text::lemma_text_lt_trans(a, b, a);
                text::lemma_text_lt_irreflexive(a);
            } else if y == x {
                text::lemma_text_lt_irreflexive(a);
            } else if y > x + 1 {
                let c = here[x + 1];
                assert(here.contains(c));
                assert(w.keys.contains(spot(p, c)));
                assert(text::text_lt(here[x], here[x + 1]));
                assert(text::text_lt(here[x + 1], here[y]));
                if text::text_lt(c, a) {
                    text::lemma_text_lt_trans(a, c, a);
                }
                if text::text_lt(b, c) {
                    text::lemma_text_lt_trans(b, c, b);
                }
                text::lemma_text_lt_irreflexive(a);
                text::lemma_text_lt_irreflexive(b);
            }
        }
        assert(here[x] == a);
    }
}

#[verifier::rlimit(50)]
proof fn lemma_drops_drawn<N: Real>(
    w: Wiring<N>,
    places: Seq<(int, int)>,
    net: NetView,
    r: RulesView<N>,
    library: Map<Seq<char>, Seq<Seq<char>>>,
)
    requires
        ({
            let vias = net.via_points;
            let n = vias.len() as int;
            let ps = pieces_of(net);
            &&& n > 0
            &&& forall|k: int|
                0 <= k < vias.len() ==> places.contains(landing(#[trigger] vias[k]))
            &&& forall|i: int|
                0 <= i < places.len() ==> dropped(
                    w,
                    #[trigger] places[i],
                    vias,
                    library,
                    n,
                    one_via(r),
                )
            &&& w.edges.len() == stretched(ps, ps.len() as int) + clear_vias(
                w.keys,
                vias,
                library,
                n,
            )
        }),
    ensures
        vias_drawn(net, r, library, w.edges, w.keys),
{
    let vias = net.via_points;
    let n = vias.len() as int;
    let ohm = one_via(r);
    assert forall|k: int| 0 <= k < n implies (tree::via_pair(
        w.keys,
        landing(#[trigger] vias[k]),
        vias[k],
        library,
    ) matches Some((a, b)) ==> joined(
        w.edges,
        w.keys,
        spot(landing(vias[k]), a),
        spot(landing(vias[k]), b),
        ohm,
    )) by {
        let i = places.index_of(landing(vias[k]));
        assert(places[i] == landing(vias[k]));
        assert(dropped(w, places[i], vias, library, n, ohm));
    }
    assert forall|k: int, b: Seq<char>|
        0 <= k < vias.len() && #[trigger] two_there(
            w.keys,
            landing(#[trigger] vias[k]),
            vias[k].layer,
            b,
        ) && (library.contains_key(vias[k].name)
            ==> library[vias[k].name].no_duplicates()) implies joined(
        w.edges,
        w.keys,
        spot(landing(vias[k]), vias[k].layer),
        spot(landing(vias[k]), b),
        ohm,
    ) by {
        let (p, a) = (landing(vias[k]), vias[k].layer);
        lemma_pair(w.keys, vias[k], library);
        text::lemma_text_lt_total(a, b);
        assert(w.keys.contains(spot(p, b)));
        if text::text_lt(a, b) {
            assert(lowest_there(w.keys, p, a));
        } else {
            assert(highest_there(w.keys, p, a));
        }
        assert(clear(w.keys, vias[k], library));
        let (x, y) = tree::via_pair(w.keys, p, vias[k], library)->0;
        assert(w.keys.contains(spot(p, x)) && w.keys.contains(spot(p, y)));
        assert(x != y);
        assert(joined(w.edges, w.keys, spot(p, x), spot(p, y), ohm));
    }
    assert forall|k: int, a: Seq<char>, b: Seq<char>|
        0 <= k < vias.len() && !library.contains_key((#[trigger] vias[k]).name)
            && #[trigger] next_there(w.keys, landing(vias[k]), a, b) && (a == vias[k].layer
            && lowest_there(w.keys, landing(vias[k]), a) || b == vias[k].layer && highest_there(
            w.keys,
            landing(vias[k]),
            b,
        )) implies joined(
        w.edges,
        w.keys,
        spot(landing(vias[k]), a),
        spot(landing(vias[k]), b),
        ohm,
    ) by {
        let (p, layer) = (landing(vias[k]), vias[k].layer);
        lemma_pair(w.keys, vias[k], library);
        text::lemma_text_lt_irreflexive(a);
        assert(w.keys.contains(spot(p, a)) && w.keys.contains(spot(p, b)));
        assert(clear(w.keys, vias[k], library));
        let (x, y) = tree::via_pair(w.keys, p, vias[k], library)->0;
        assert(next_there(w.keys, p, x, y));
        lemma_same_next(w.keys, p, a, b, x, y, layer);
    }
}

/// A layer that is the lowest or the highest at a place has one neighbour there.
proof fn lemma_same_next(
    at: Seq<(int, int, Seq<char>)>,
    p: (int, int),
    a: Seq<char>,
    b: Seq<char>,
    x: Seq<char>,
    y: Seq<char>,
    layer: Seq<char>,
)
    requires
        next_there(at, p, a, b),
        next_there(at, p, x, y),
        x == layer || y == layer,
        a == layer && lowest_there(at, p, a) || b == layer && highest_there(at, p, b),
    ensures
        a == x && b == y,
{
    text::lemma_text_lt_irreflexive(a);
    text::lemma_text_lt_irreflexive(b);
    text::lemma_text_lt_irreflexive(x);
    text::lemma_text_lt_irreflexive(y);
    assert(at.contains(spot(p, a)) && at.contains(spot(p, b)));
    assert(at.contains(spot(p, x)) && at.contains(spot(p, y)));
    if a == layer && lowest_there(at, p, a) {
        if y == layer {
            // then x comes before the lowest
            if x != a {
                text::lemma_text_lt_trans(a, x, a);
            }
        } else if b != y {
            if text::text_lt(y, a) {
                text::lemma_text_lt_trans(x, y, x);
            } else if text::text_lt(b, y) {
                if text::text_lt(b, x) {
                    text::lemma_text_lt_trans(a, b, a);
                }
                if text::text_lt(y, b) {
                    text::lemma_text_lt_trans(b, y, b);
                }
            }
        }
    } else {
        if x == layer {
            if y != b {
                text::lemma_text_lt_trans(b, y, b);
            }
        } else if a != x {
            if text::text_lt(b, x) {
                text::lemma_text_lt_trans(x, y, x);
            } else if text::text_lt(x, a) {
                if text::text_lt(a, x) {
                    text::lemma_text_lt_trans(a, x, a);
                }
                if text::text_lt(y, a) {
                    text::lemma_text_lt_trans(a, b, a);
                }
            }
        }
    }
}

proof fn lemma_nodes_drawn<N: Real>(
    net: NetView,
    r: RulesView<N>,
    widths: Map<Seq<char>, N>,
    laid: Wiring<N>,
    landed: Wiring<N>,
)
    requires
        is_laid(laid, pieces_of(net), pieces_of(net).len() as int, r, widths),
        is_landed(landed, laid, net.via_points, net.via_points.len() as int, r),
    ensures
        nodes_drawn(net, r, landed.keys),
{
    let ps = pieces_of(net);
    let n = ps.len() as int;
    let at = landed.keys;
    let runs = junction::net_runs(net.segments);
    let places = junction::via_places(net.via_points);
    assert forall|i: int| 0 <= i < net.segments.len() implies at.contains(
        spot((in_nm((#[trigger] net.segments[i]).x0), in_nm(net.segments[i].y0)), net.segments[i].layer),
    ) && at.contains(
        spot((in_nm(net.segments[i].x1), in_nm(net.segments[i].y1)), net.segments[i].layer),
    ) by {
        let s = net.segments[i];
        let (j, k) = lemma_run_ends(runs, places, runs.len() as int, i);
        assert(ps[j].a == runs[i].a && ps[k].b == runs[i].b);
        let (x, y) = (spot(ps[j].a, ps[j].layer), spot(ps[k].b, ps[k].layer));
        assert(laid.keys.contains(x) && laid.keys.contains(y));
        assert(at[laid.keys.index_of(x)] == x);
        assert(at[laid.keys.index_of(y)] == y);
    }
    assert forall|k: int|
        0 <= k < net.via_points.len() && r.layers.contains_key(
            (#[trigger] net.via_points[k]).layer,
        ) && reached(at, landing(net.via_points[k])) implies at.contains(
        spot(landing(net.via_points[k]), net.via_points[k].layer),
    ) by {
        assert(reached(laid.keys, landing(net.via_points[k])));
    }
    assert forall|i: int| 0 <= i < at.len() implies is_end(ps, n, #[trigger] at[i]) || lands(
        net.via_points,
        net.via_points.len() as int,
        r,
        at[i],
    ) by {
        if i < laid.keys.len() {
            assert(at[i] == laid.keys[i]);
        }
    }
}

/// The ends of a run are ends of pieces of it.
proof fn lemma_run_ends(s: Seq<RunView>, vias: Seq<(int, int)>, n: int, i: int) -> (jk: (int, int))
    requires
        0 <= i < n <= s.len(),
    ensures
        ({
            let ps = junction::split_upto(s, vias, n);
            let (j, k) = jk;
            &&& 0 <= j < ps.len() && ps[j].a == s[i].a && ps[j].layer == s[i].layer
            &&& 0 <= k < ps.len() && ps[k].b == s[i].b && ps[k].layer == s[i].layer
        }),
    decreases n,
{
    let ps = junction::split_upto(s, vias, n);
    let before = junction::split_upto(s, vias, n - 1);
    let run = s[n - 1];
    let own = junction::pieces(run, junction::cuts(s, vias, run));
    assert(ps == before + own);
    if i < n - 1 {
        let (j, k) = lemma_run_ends(s, vias, n - 1, i);
        assert(ps[j] == before[j] && ps[k] == before[k]);
        (j, k)
    } else {
        let j = before.len() as int;
        let k = before.len() + own.len() - 1;
        assert(ps[j] == own[0]);
        assert(ps[k] == own[own.len() - 1]);
        (j, k)
    }
}

proof fn lemma_wire_drawn<N: Real>(
    net: NetView,
    r: RulesView<N>,
    widths: Map<Seq<char>, N>,
    laid: Wiring<N>,
    landed: Wiring<N>,
    w: Wiring<N>,
    t: NetworkView<N>,
)
    requires
        is_laid(laid, pieces_of(net), pieces_of(net).len() as int, r, widths),
        is_landed(landed, laid, net.via_points, net.via_points.len() as int, r),
        only_joins(landed, w, tree::via_ohm(r)),
        t == tree::network(w, net.pins),
    ensures
        wire_drawn(net, r, widths, t, w.keys),
{
    let ps = pieces_of(net);
    let n = ps.len() as int;
    assert forall|i: int| 0 <= i < n && (#[trigger] ps[i]).a != ps[i].b implies joined(
        t.edges,
        w.keys,
        spot(ps[i].a, ps[i].layer),
        spot(ps[i].b, ps[i].layer),
        piece_ohm(ps[i], r, widths),
    ) by {
        let (p, q) = (spot(ps[i].a, ps[i].layer), spot(ps[i].b, ps[i].layer));
        lemma_still_joined(laid, landed, p, q, piece_ohm(ps[i], r, widths));
        lemma_still_joined(landed, w, p, q, piece_ohm(ps[i], r, widths));
    }
    assert forall|i: int| 0 <= i < w.keys.len() implies (#[trigger] t.nodes[i]).cap == put_on(
        ps,
        r,
        w.keys[i],
        n,
    ) by {
        assert(t.nodes[i].cap == landed.caps[i]);
        if i < laid.keys.len() {
            assert(landed.keys[i] == laid.keys[i]);
            assert(landed.caps[i] == laid.caps[i]);
        } else {
            let key = landed.keys[i];
            assert(landed.caps[i] == number::zero::<N>());
            assert(!is_end(ps, n, key)) by {
                if is_end(ps, n, key) {
                    let j = choose|j: int|
                        0 <= j < n && (spot((#[trigger] ps[j]).a, ps[j].layer) == key || spot(
                            ps[j].b,
                            ps[j].layer,
                        ) == key);
                    assert(laid.keys.contains(spot(ps[j].a, ps[j].layer)));
                    assert(laid.keys.contains(spot(ps[j].b, ps[j].layer)));
                    let k = laid.keys.index_of(key);
                    assert(landed.keys[k] == laid.keys[k]);
                }
            }
            lemma_untouched(ps, r, key, n);
        }
    }
}

/// Wire is cut where it meets wire of its layer and where a via lands: an end of a wire
/// of the layer, or the place of any via, that lies inside a wire, is the end of one
/// piece of that wire and the start of the next.
pub proof fn wire_is_cut_where_it_meets(net: NetView, i: int, p: (int, int)) -> (k: int)
    requires
        0 <= i < net.segments.len(),
        junction::inside(
            (in_nm(net.segments[i].x0), in_nm(net.segments[i].y0)),
            (in_nm(net.segments[i].x1), in_nm(net.segments[i].y1)),
            p,
        ),
        (exists|j: int|
            0 <= j < net.segments.len() && (#[trigger] net.segments[j]).layer
                == net.segments[i].layer && (p == (
                in_nm(net.segments[j].x0),
                in_nm(net.segments[j].y0),
            ) || p == (in_nm(net.segments[j].x1), in_nm(net.segments[j].y1)))) || (exists|j: int|
            0 <= j < net.via_points.len() && landing(#[trigger] net.via_points[j]) == p),
    ensures
        0 <= k < pieces_of(net).len() - 1,
        pieces_of(net)[k].b == p && pieces_of(net)[k + 1].a == p,
        pieces_of(net)[k].layer == net.segments[i].layer && pieces_of(net)[k + 1].layer
            == net.segments[i].layer,
        pieces_of(net)[k].width == net.segments[i].width && pieces_of(net)[k + 1].width
            == net.segments[i].width,
{
    let runs = junction::net_runs(net.segments);
    let places = junction::via_places(net.via_points);
    let run = runs[i];
    let c = junction::candidates(runs, places, run.layer);
    let ends = junction::ends_upto(runs, run.layer, runs.len() as int);
    assert(c.contains(p)) by {
        if exists|j: int|
            0 <= j < net.via_points.len() && landing(#[trigger] net.via_points[j]) == p {
            let j = choose|j: int|
                0 <= j < net.via_points.len() && landing(#[trigger] net.via_points[j]) == p;
            assert(places[j] == p);
            assert(c[ends.len() + j] == p);
        } else {
            let j = choose|j: int|
                0 <= j < net.segments.len() && (#[trigger] net.segments[j]).layer
                    == net.segments[i].layer && (p == (
                    in_nm(net.segments[j].x0),
                    in_nm(net.segments[j].y0),
                ) || p == (in_nm(net.segments[j].x1), in_nm(net.segments[j].y1)));
            lemma_ends(runs, run.layer, runs.len() as int, j);
            assert(ends.contains(p));
            assert(c[ends.index_of(p)] == p);
        }
    }
    junction::cuts_are_the_candidates_inside(runs, places, run);
    let cuts = junction::cuts(runs, places, run);
    assert(cuts.contains(p));
    let x = cuts.index_of(p);
    let own = junction::pieces(run, cuts);
    assert(own[x].b == p && own[x + 1].a == p);
    let at = lemma_own_pieces(runs, places, runs.len() as int, i);
    let ps = pieces_of(net);
    assert(ps[at + x] == own[x] && ps[at + x + 1] == own[x + 1]);
    at + x
}

proof fn lemma_ends(s: Seq<RunView>, layer: Seq<char>, n: int, j: int)
    requires
        0 <= j < n <= s.len(),
        s[j].layer == layer,
    ensures
        junction::ends_upto(s, layer, n).contains(s[j].a),
        junction::ends_upto(s, layer, n).contains(s[j].b),
    decreases n,
{
    let all = junction::ends_upto(s, layer, n);
    let before = junction::ends_upto(s, layer, n - 1);
    if j == n - 1 {
        assert(all[before.len() as int] == s[j].a);
        assert(all[before.len() as int + 1] == s[j].b);
    } else {
        lemma_ends(s, layer, n - 1, j);
        assert(all[before.index_of(s[j].a)] == s[j].a);
        assert(all[before.index_of(s[j].b)] == s[j].b);
    }
}

/// Where the pieces of a run stand among all.
proof fn lemma_own_pieces(s: Seq<RunView>, vias: Seq<(int, int)>, n: int, i: int) -> (at: int)
    requires
        0 <= i < n <= s.len(),
    ensures
        ({
            let ps = junction::split_upto(s, vias, n);
            let own = junction::pieces(s[i], junction::cuts(s, vias, s[i]));
            &&& 0 <= at
            &&& at + own.len() <= ps.len()
            &&& forall|k: int| 0 <= k < own.len() ==> ps[at + k] == #[trigger] own[k]
        }),
    decreases n,
{
    let ps = junction::split_upto(s, vias, n);
    let before = junction::split_upto(s, vias, n - 1);
    let last = junction::pieces(s[n - 1], junction::cuts(s, vias, s[n - 1]));
    assert(ps == before + last);
    if i == n - 1 {
        before.len() as int
    } else {
        let at = lemma_own_pieces(s, vias, n - 1, i);
        let own = junction::pieces(s[i], junction::cuts(s, vias, s[i]));
        assert forall|k: int| 0 <= k < own.len() implies ps[at + k] == #[trigger] own[k] by {
            assert(before[at + k] == own[k]);
        }
        at
    }
}

proof fn lemma_split_layers(s: Seq<RunView>, vias: Seq<(int, int)>, n: int, k: int) -> (i: int)
    requires
        0 <= n <= s.len(),
        0 <= k < junction::split_upto(s, vias, n).len(),
    ensures
        0 <= i < n,
        junction::split_upto(s, vias, n)[k].layer == s[i].layer,
    decreases n,
{
    let before = junction::split_upto(s, vias, n - 1);
    let own = junction::pieces(s[n - 1], junction::cuts(s, vias, s[n - 1]));
    assert(junction::split_upto(s, vias, n) == before + own);
    if k < before.len() {
        lemma_split_layers(s, vias, n - 1, k)
    } else {
        assert((before + own)[k] == own[k - before.len()]);
        n - 1
    }
}

proof fn lemma_laid<N: Real>(
    ps: Seq<RunView>,
    n: int,
    r: RulesView<N>,
    widths: Map<Seq<char>, N>,
)
    requires
        0 <= n <= ps.len(),
        forall|k: int| 0 <= k < n ==> r.layers.contains_key((#[trigger] ps[k]).layer),
    ensures
        tree::lay_upto(ps, n, r, widths) is Some,
    decreases n,
{
    if n > 0 {
        lemma_laid(ps, n - 1, r, widths);
        assert(r.layers.contains_key(ps[n - 1].layer));
    }
}

/// A net whose layers all have a rule gets a network where its nodes hang together, are
/// two or more and no fewer than its pins; where they do not hang together it is said to
/// be disconnected. A net with a layer without a rule gets none.
pub proof fn a_network_is_built_where_it_can_be<N: Real>(
    net: NetView,
    r: RulesView<N>,
    widths: Map<Seq<char>, N>,
    library: Map<Seq<char>, Seq<Seq<char>>>,
)
    requires
        forall|i: int|
            0 <= i < net.segments.len() ==> r.layers.contains_key(
                (#[trigger] net.segments[i]).layer,
            ),
    ensures
        ({
            let o = tree::outcome(net, r, widths, library);
            let w = tree::wired(net, r, widths, library)->0;
            let e = tree::ends(w.edges);
            let n = w.keys.len() as int;
            let whole = forall|i: int| 0 <= i < n ==> #[trigger] graph::connected(e, 0, i);
            &&& tree::wired(net, r, widths, library) is Some
            &&& n >= 2 && w.edges.len() > 0 && whole && net.pins.len() <= n ==> o is Built
            &&& n >= 2 && w.edges.len() > 0 && !whole ==> o is Disconnected
        }),
{
    let ps = pieces_of(net);
    let runs = junction::net_runs(net.segments);
    let places = junction::via_places(net.via_points);
    assert forall|k: int| 0 <= k < ps.len() implies r.layers.contains_key(
        (#[trigger] ps[k]).layer,
    ) by {
        let i = lemma_split_layers(runs, places, runs.len() as int, k);
        assert(runs[i].layer == net.segments[i].layer);
    }
    lemma_laid(ps, ps.len() as int, r, widths);
    let w = tree::wired(net, r, widths, library)->0;
    let e = tree::ends(w.edges);
    let n = w.keys.len() as int;
    if graph::pieces(e, n) > 1 {
        graph::several_pieces_are_apart(e, n);
    } else {
        assert forall|i: int| 0 <= i < n implies #[trigger] graph::connected(e, 0, i) by {
            graph::one_piece_is_connected(e, n, i);
        }
    }
}

/// A net of one wire with two ends, on a layer with a rule, with no vias and at most two
/// pins, has a network of two nodes, each with half of the capacitance of the wire, and of
/// one resistor between them with its resistance.
#[verifier::rlimit(50)]
pub proof fn one_wire_is_two_nodes_and_a_resistor<N: Real>(
    net: NetView,
    s: SegmentView,
    r: RulesView<N>,
    widths: Map<Seq<char>, N>,
    library: Map<Seq<char>, Seq<Seq<char>>>,
)
    requires
        net.segments == seq![s],
        net.via_points.len() == 0,
        net.pins.len() <= 2,
        r.layers.contains_key(s.layer),
        (in_nm(s.x0), in_nm(s.y0)) != (in_nm(s.x1), in_nm(s.y1)),
    ensures
        ({
            let run = RunView {
                layer: s.layer,
                a: (in_nm(s.x0), in_nm(s.y0)),
                b: (in_nm(s.x1), in_nm(s.y1)),
                width: s.width,
            };
            let o = tree::outcome(net, r, widths, library);
            let t = o->Built_0;
            let half = number::zero::<N>().spec_plus(half_of(run, r));
            &&& o is Built
            &&& t.nodes.len() == 2 && t.edges.len() == 1
            &&& t.nodes[0].cap == half && t.nodes[1].cap == half
            &&& t.edges[0].res == piece_ohm(run, r, widths)
            &&& t.edges[0].a == 0 && t.edges[0].b == 1
        }),
{
    let run = RunView {
        layer: s.layer,
        a: (in_nm(s.x0), in_nm(s.y0)),
        b: (in_nm(s.x1), in_nm(s.y1)),
        width: s.width,
    };
    let runs = junction::net_runs(net.segments);
    let places = junction::via_places(net.via_points);
    assert(runs =~= seq![run]);
    assert(places =~= Seq::<(int, int)>::empty());
    let cuts = junction::cuts(runs, places, run);
    junction::cuts_are_the_candidates_inside(runs, places, run);
    reveal_with_fuel(junction::ends_upto, 3);
    let c = junction::candidates(runs, places, run.layer);
    assert(c =~= seq![run.a, run.b]);
    if cuts.len() > 0 {
        assert(cuts.contains(cuts[0]));
        assert(c.contains(cuts[0]));
        let k = c.index_of(cuts[0]);
        assert(c[k] == run.a || c[k] == run.b);
    }
    reveal_with_fuel(junction::split_upto, 3);
    let ps = pieces_of(net);
    assert(junction::pieces(run, cuts) =~= seq![run]);
    assert(ps =~= seq![run]);
    reveal_with_fuel(tree::lay_upto, 3);
    let (ka, kb) = (spot(run.a, run.layer), spot(run.b, run.layer));
    let none = tree::no_wiring::<N>();
    let g = tree::with_node(tree::with_node(none, ka), kb);
    assert(!none.keys.contains(ka));
    assert(seq![ka][0] == ka);
    assert(!seq![ka].contains(kb)) by {
        if seq![ka].contains(kb) {
            let i = seq![ka].index_of(kb);
            assert(seq![ka][i] == ka);
        }
    }
    assert(tree::with_node(none, ka).keys =~= seq![ka]);
    assert(g.keys =~= seq![ka, kb]);
    assert(g.keys.index_of(ka) == 0) by {
        assert(g.keys[0] == ka && g.keys[1] == kb);
        assert(g.keys.contains(ka));
        let i = g.keys.index_of(ka);
        assert(g.keys[i] == ka);
    }
    assert(g.keys.index_of(kb) == 1) by {
        assert(g.keys[0] == ka && g.keys[1] == kb);
        assert(g.keys.contains(kb));
        let i = g.keys.index_of(kb);
        assert(g.keys[i] == kb);
    }
    let laid = tree::lay_upto(ps, 1, r, widths)->0;
    assert(run.len() == reach_of(run));
    assert(laid == tree::lay(none, run, r, widths)->0);
    assert(laid.keys == g.keys);
    assert(laid.edges.len() == 1);
    let landed = tree::land_upto(laid, net.via_points, 0, r);
    assert(landed == laid);
    let at = tree::ranked_upto(tree::spots(landed.keys), landed.keys.len() as int);
    let w = tree::wired(net, r, widths, library)->0;
    lemma_flat(laid, run.layer, at, at.len() as int, tree::via_ohm(r));
    assert(w == laid);
    let e = tree::ends(w.edges);
    assert(e[0] == (0int, 1int));
    assert(e.contains((0int, 1int)));
    graph::lemma_connected_edge(e, 0, 1);
    graph::lemma_connected_self(e, 0);
    a_network_is_built_where_it_can_be(net, r, widths, library);
    assert forall|i: int| 0 <= i < 2 implies #[trigger] graph::connected(e, 0, i) by {
        assert(i == 0 || i == 1);
    }
}

/// Nothing is stacked where all nodes are on one layer.
proof fn lemma_flat<N: Real>(
    w: Wiring<N>,
    layer: Seq<char>,
    places: Seq<(int, int)>,
    n: int,
    ohm: N,
)
    requires
        forall|k: int| 0 <= k < w.keys.len() ==> (#[trigger] w.keys[k]).2 == layer,
    ensures
        tree::stack_upto(w, places, n, ohm) == w,
    decreases n,
{
    if n > 0 {
        lemma_flat(w, layer, places, n - 1, ohm);
        let p = places[n - 1];
        let here = tree::layers_at(w.keys, p);
        lemma_layers_at(w.keys, p);
        if here.len() > 1 {
            assert(here.contains(here[0]) && here.contains(here[1]));
            let (i, j) = (
                w.keys.index_of(spot(p, here[0])),
                w.keys.index_of(spot(p, here[1])),
            );
            assert(w.keys.contains(spot(p, here[0])) && w.keys.contains(spot(p, here[1])));
            assert(w.keys[i].2 == layer && w.keys[j].2 == layer);
            assert(here[0] != here[1]);
        }
    }
}

} // verus!

//! What holds of every network that is built from a net.
use crate::def::{NetView, ViaView};
use crate::graph;
use crate::junction;
use crate::junction::RunView;
use crate::number::Real;
use crate::rules::RulesView;
use crate::tree;
use crate::tree::{EdgeView, OutcomeView, Wiring};
use vstd::prelude::*;

verus! {

/// Whether a piece of wire runs on a layer from one place to another.
pub open spec fn is_piece(run: RunView, p: (int, int, Seq<char>), q: (int, int, Seq<char>)) -> bool {
    &&& p == (run.a.0, run.a.1, run.layer)
    &&& q == (run.b.0, run.b.1, run.layer)
}

/// Whether a resistor between two nodes is a piece of wire.
pub open spec fn is_wire(
    ps: Seq<RunView>,
    p: (int, int, Seq<char>),
    q: (int, int, Seq<char>),
) -> bool {
    exists|i: int| 0 <= i < ps.len() && is_piece(#[trigger] ps[i], p, q)
}

/// Whether a resistor between two nodes is a via: both stand at one place, and
/// where the net gives via places, at one of them.
pub open spec fn is_via(
    vias: Seq<(int, int)>,
    p: (int, int, Seq<char>),
    q: (int, int, Seq<char>),
) -> bool {
    &&& p.0 == q.0
    &&& p.1 == q.1
    &&& vias.len() == 0 || vias.contains((p.0, p.1))
}

/// Whether a resistor between two nodes is in the geometry.
pub open spec fn is_drawn(
    ps: Seq<RunView>,
    vias: Seq<(int, int)>,
    p: (int, int, Seq<char>),
    q: (int, int, Seq<char>),
) -> bool {
    is_wire(ps, p, q) || is_via(vias, p, q)
}

/// Whether every resistor of a wiring is in the geometry.
pub open spec fn drawn<N: Real>(w: Wiring<N>, ps: Seq<RunView>, vias: Seq<(int, int)>) -> bool {
    forall|k: int|
        0 <= k < w.edges.len() ==> is_drawn(
            ps,
            vias,
            w.keys[(#[trigger] w.edges[k]).a],
            w.keys[w.edges[k].b],
        )
}

spec fn holds<N: Real>(w: Wiring<N>, ps: Seq<RunView>, vias: Seq<(int, int)>) -> bool {
    tree::sound(w) && drawn(w, ps, vias)
}

proof fn lemma_node<N: Real>(
    w: Wiring<N>,
    k: (int, int, Seq<char>),
    ps: Seq<RunView>,
    vias: Seq<(int, int)>,
)
    requires
        holds(w, ps, vias),
    ensures
        holds(tree::with_node(w, k), ps, vias),
{
    let g = tree::with_node(w, k);
    tree::lemma_with_node(w, k);
    assert forall|j: int| 0 <= j < g.edges.len() implies is_drawn(
        ps,
        vias,
        g.keys[(#[trigger] g.edges[j]).a],
        g.keys[g.edges[j].b],
    ) by {
        assert(tree::ends(w.edges)[j] == (w.edges[j].a, w.edges[j].b));
        assert(g.keys[g.edges[j].a] == w.keys[w.edges[j].a]);
        assert(g.keys[g.edges[j].b] == w.keys[w.edges[j].b]);
    }
}

proof fn lemma_edge<N: Real>(
    w: Wiring<N>,
    e: EdgeView<N>,
    caps: Seq<N>,
    ps: Seq<RunView>,
    vias: Seq<(int, int)>,
)
    requires
        holds(w, ps, vias),
        0 <= e.a < w.keys.len(),
        0 <= e.b < w.keys.len(),
        is_drawn(ps, vias, w.keys[e.a], w.keys[e.b]),
        caps.len() == w.caps.len(),
    ensures
        holds(Wiring { edges: w.edges.push(e), caps, ..w }, ps, vias),
{
    let g = Wiring { edges: w.edges.push(e), caps, ..w };
    tree::lemma_push_edge(w, e);
    assert forall|j: int| 0 <= j < g.edges.len() implies is_drawn(
        ps,
        vias,
        g.keys[(#[trigger] g.edges[j]).a],
        g.keys[g.edges[j].b],
    ) by {
        if j < w.edges.len() {
            assert(g.edges[j] == w.edges[j]);
        }
    }
}

proof fn lemma_lay<N: Real>(
    ps: Seq<RunView>,
    n: int,
    rules: RulesView<N>,
    widths: Map<Seq<char>, N>,
    vias: Seq<(int, int)>,
)
    requires
        0 <= n <= ps.len(),
    ensures
        tree::lay_upto(ps, n, rules, widths) matches Some(w) ==> holds(w, ps, vias),
    decreases n,
{
    if n > 0 {
        lemma_lay(ps, n - 1, rules, widths, vias);
        if let Some(w) = tree::lay_upto(ps, n - 1, rules, widths) {
            let run = ps[n - 1];
            if rules.layers.contains_key(run.layer) {
                let ka = (run.a.0, run.a.1, run.layer);
                let kb = (run.b.0, run.b.1, run.layer);
                let g1 = tree::with_node(w, ka);
                let g = tree::with_node(g1, kb);
                lemma_node(w, ka, ps, vias);
                lemma_node(g1, kb, ps, vias);
                tree::lemma_with_node(w, ka);
                tree::lemma_with_node(g1, kb);
                let a = g.keys.index_of(ka);
                let b = g.keys.index_of(kb);
                assert(g.keys[a] == ka && g.keys[b] == kb);
                let laid = tree::lay(w, run, rules, widths)->0;
                assert(is_piece(ps[n - 1], ka, kb));
                assert(is_wire(ps, ka, kb));
                if a != b {
                    let e = laid.edges.last();
                    assert(laid.edges == g.edges.push(e));
                    lemma_edge(g, e, laid.caps, ps, vias);
                    assert(laid == Wiring { edges: g.edges.push(e), caps: laid.caps, ..g });
                }
            }
        }
    }
}

proof fn lemma_land<N: Real>(
    w: Wiring<N>,
    via_points: Seq<ViaView>,
    n: int,
    rules: RulesView<N>,
    ps: Seq<RunView>,
    vias: Seq<(int, int)>,
)
    requires
        holds(w, ps, vias),
    ensures
        holds(tree::land_upto(w, via_points, n, rules), ps, vias),
    decreases n,
{
    if n > 0 {
        lemma_land(w, via_points, n - 1, rules, ps, vias);
        let g = tree::land_upto(w, via_points, n - 1, rules);
        let p = junction::via_places(via_points)[n - 1];
        lemma_node(g, (p.0, p.1, via_points[n - 1].layer), ps, vias);
    }
}

proof fn lemma_join<N: Real>(
    w: Wiring<N>,
    p: (int, int),
    a: Seq<char>,
    b: Seq<char>,
    ohm: N,
    ps: Seq<RunView>,
    vias: Seq<(int, int)>,
)
    requires
        holds(w, ps, vias),
        vias.len() == 0 || vias.contains(p),
    ensures
        holds(tree::join(w, p, a, b, ohm), ps, vias),
        tree::join(w, p, a, b, ohm).keys == w.keys,
{
    let ka = (p.0, p.1, a);
    let kb = (p.0, p.1, b);
    if w.keys.contains(ka) && w.keys.contains(kb) {
        let e = EdgeView { a: w.keys.index_of(ka), b: w.keys.index_of(kb), res: ohm };
        assert(w.keys[e.a] == ka && w.keys[e.b] == kb);
        assert(is_via(vias, ka, kb));
        lemma_edge(w, e, w.caps, ps, vias);
    }
}

proof fn lemma_stack<N: Real>(
    w: Wiring<N>,
    p: (int, int),
    layers: Seq<Seq<char>>,
    n: int,
    ohm: N,
    ps: Seq<RunView>,
    vias: Seq<(int, int)>,
)
    requires
        holds(w, ps, vias),
        vias.len() == 0,
    ensures
        holds(tree::stack(w, p, layers, n, ohm), ps, vias),
    decreases n,
{
    if n > 0 {
        lemma_stack(w, p, layers, n - 1, ohm, ps, vias);
        let g = tree::stack(w, p, layers, n - 1, ohm);
        lemma_join(g, p, layers[n - 1], layers[n], ohm, ps, vias);
    }
}

proof fn lemma_stacks<N: Real>(
    w: Wiring<N>,
    places: Seq<(int, int)>,
    n: int,
    ohm: N,
    ps: Seq<RunView>,
    vias: Seq<(int, int)>,
)
    requires
        holds(w, ps, vias),
        vias.len() == 0,
    ensures
        holds(tree::stack_upto(w, places, n, ohm), ps, vias),
    decreases n,
{
    if n > 0 {
        lemma_stacks(w, places, n - 1, ohm, ps, vias);
        let g = tree::stack_upto(w, places, n - 1, ohm);
        let layers = tree::layers_at(w.keys, places[n - 1]);
        lemma_stack(g, places[n - 1], layers, layers.len() - 1, ohm, ps, vias);
    }
}

proof fn lemma_drop<N: Real>(
    w: Wiring<N>,
    p: (int, int),
    via_points: Seq<ViaView>,
    n: int,
    via_layers: Map<Seq<char>, Seq<Seq<char>>>,
    ohm: N,
    ps: Seq<RunView>,
)
    requires
        0 <= n <= via_points.len(),
        holds(w, ps, junction::via_places(via_points)),
    ensures
        holds(
            tree::drop_at(w, p, via_points, n, via_layers, ohm),
            ps,
            junction::via_places(via_points),
        ),
    decreases n,
{
    let vias = junction::via_places(via_points);
    if n > 0 {
        lemma_drop(w, p, via_points, n - 1, via_layers, ohm, ps);
        let g = tree::drop_at(w, p, via_points, n - 1, via_layers, ohm);
        if vias[n - 1] == p {
            assert(vias.contains(p));
            if let Some((a, b)) = tree::via_pair(w.keys, p, via_points[n - 1], via_layers) {
                lemma_join(g, p, a, b, ohm, ps, vias);
            }
        }
    }
}

proof fn lemma_drops<N: Real>(
    w: Wiring<N>,
    places: Seq<(int, int)>,
    n: int,
    via_points: Seq<ViaView>,
    via_layers: Map<Seq<char>, Seq<Seq<char>>>,
    ohm: N,
    ps: Seq<RunView>,
)
    requires
        holds(w, ps, junction::via_places(via_points)),
    ensures
        holds(
            tree::drop_upto(w, places, n, via_points, via_layers, ohm),
            ps,
            junction::via_places(via_points),
        ),
    decreases n,
{
    if n > 0 {
        lemma_drops(w, places, n - 1, via_points, via_layers, ohm, ps);
        let g = tree::drop_upto(w, places, n - 1, via_points, via_layers, ohm);
        lemma_drop(
            g,
            places[n - 1],
            via_points,
            via_points.len() as int,
            via_layers,
            ohm,
            ps,
        );
    }
}

/// A resistor is never invented: each one of a net's wiring is a piece of the
/// net's wire on one layer, or a via, which joins two nodes at one place. Where
/// the net gives via places, it is one of these places; so layers that merely
/// cross are not shorted.
pub proof fn every_resistor_is_drawn<N: Real>(
    net: NetView,
    rules: RulesView<N>,
    widths: Map<Seq<char>, N>,
    via_layers: Map<Seq<char>, Seq<Seq<char>>>,
)
    ensures
        tree::wired(net, rules, widths, via_layers) matches Some(w) ==> tree::sound(w) && drawn(
            w,
            junction::split(
                junction::net_runs(net.segments),
                junction::via_places(net.via_points),
            ),
            junction::via_places(net.via_points),
        ),
{
    let vias = junction::via_places(net.via_points);
    let ps = junction::split(junction::net_runs(net.segments), vias);
    lemma_lay(ps, ps.len() as int, rules, widths, vias);
    if let Some(laid) = tree::lay_upto(ps, ps.len() as int, rules, widths) {
        let n = net.via_points.len() as int;
        lemma_land(laid, net.via_points, n, rules, ps, vias);
        let landed = tree::land_upto(laid, net.via_points, n, rules);
        let ohm = tree::via_ohm(rules);
        if n == 0 {
            let places = tree::ranked_upto(tree::spots(landed.keys), landed.keys.len() as int);
            lemma_stacks(landed, places, places.len() as int, ohm, ps, vias);
        } else {
            let places = tree::ranked_upto(vias, n);
            lemma_drops(
                landed,
                places,
                places.len() as int,
                net.via_points,
                via_layers,
                ohm,
                ps,
            );
        }
    }
}

/// A network that is built hangs together: every two of its nodes are joined by
/// resistors, and every resistor joins nodes of it.
pub proof fn a_network_hangs_together<N: Real>(
    net: NetView,
    rules: RulesView<N>,
    widths: Map<Seq<char>, N>,
    via_layers: Map<Seq<char>, Seq<Seq<char>>>,
)
    ensures
        tree::outcome(net, rules, widths, via_layers) matches OutcomeView::Built(t)
            ==> graph::within(tree::ends(t.edges), t.nodes.len() as int) && forall|i: int, j: int|
            0 <= i < t.nodes.len() && 0 <= j < t.nodes.len() ==> #[trigger] graph::connected(
                tree::ends(t.edges),
                i,
                j,
            ),
{
    every_resistor_is_drawn(net, rules, widths, via_layers);
    if let OutcomeView::Built(t) = tree::outcome(net, rules, widths, via_layers) {
        let e = tree::ends(t.edges);
        let n = t.nodes.len() as int;
        assert forall|i: int, j: int|
            0 <= i < n && 0 <= j < n implies #[trigger] graph::connected(e, i, j) by {
            graph::one_piece_is_connected(e, n, i);
            graph::one_piece_is_connected(e, n, j);
            graph::lemma_connected_sym(e, 0, i);
            graph::lemma_connected_trans(e, i, 0, j);
        }
    }
}

/// A net whose geometry is reported as disconnected has nodes that no resistors
/// join.
pub proof fn a_disconnected_net_is_in_pieces<N: Real>(
    net: NetView,
    rules: RulesView<N>,
    widths: Map<Seq<char>, N>,
    via_layers: Map<Seq<char>, Seq<Seq<char>>>,
)
    ensures
        tree::outcome(net, rules, widths, via_layers) is Disconnected ==> ({
            let w = tree::wired(net, rules, widths, via_layers)->0;
            exists|i: int|
                0 < i < w.keys.len() && !graph::connected(tree::ends(w.edges), 0, i)
        }),
{
    if tree::outcome(net, rules, widths, via_layers) is Disconnected {
        let w = tree::wired(net, rules, widths, via_layers)->0;
        graph::several_pieces_are_apart(tree::ends(w.edges), w.keys.len() as int);
    }
}

/// Each pin of a net has a node of its own in the network, and no other node
/// has a pin.
pub proof fn each_pin_has_its_own_node<N: Real>(
    net: NetView,
    rules: RulesView<N>,
    widths: Map<Seq<char>, N>,
    via_layers: Map<Seq<char>, Seq<Seq<char>>>,
) -> (at: Seq<int>)
    ensures
        tree::outcome(net, rules, widths, via_layers) matches OutcomeView::Built(t) ==> {
            &&& at.len() == net.pins.len()
            &&& at.no_duplicates()
            &&& forall|k: int|
                0 <= k < at.len() ==> 0 <= #[trigger] at[k] < t.nodes.len() && t.nodes[at[k]].pin
                    == Some(net.pins[k])
            &&& forall|i: int|
                0 <= i < t.nodes.len() && !at.contains(i) ==> (#[trigger] t.nodes[i]).pin is None
        },
{
    match tree::outcome(net, rules, widths, via_layers) {
        OutcomeView::Built(t) => {
            let w = tree::wired(net, rules, widths, via_layers)->0;
            let deg = tree::degrees(tree::ends(w.edges), w.keys.len() as int);
            let order = tree::seats(deg);
            tree::seats_are_the_nodes(deg);
            let at = order.take(net.pins.len() as int);
            assert forall|k: int| 0 <= k < at.len() implies 0 <= #[trigger] at[k] < t.nodes.len()
                && t.nodes[at[k]].pin == Some(net.pins[k]) by {
                assert(order.contains(order[k]));
                assert(at.contains(at[k]));
                let j = at.index_of(at[k]);
                assert(at[j] == at[k]);
                assert(order[j] == order[k]);
                assert(j == k);
                assert(tree::seated(order, net.pins, at[k]) == Some(net.pins[k]));
            }
            at
        },
        _ => Seq::empty(),
    }
}

} // verus!

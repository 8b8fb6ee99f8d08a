//! The distributed RC network of a net, from its routing geometry.
//!
//! Every place where runs of a layer meet, end or are cut is a node; every piece
//! of wire is a resistor between two nodes, with half of its capacitance at
//! each; a via is a resistor between the nodes of two layers at one place. A
//! network comes back only if it hangs together: a resistor is never invented,
//! and geometry that stays in several pieces is reported as such.
use crate::def::{DefNet, NetView, ViaPoint, ViaView};
use crate::geom;
use crate::graph;
use crate::junction;
use crate::junction::{NmSeg, RunView};
use crate::number;
use crate::number::Real;
use crate::rules;
use crate::rules::{RcRules, RulesView};
use crate::strmap::StrMap;
use crate::text;
use vstd::prelude::*;

verus! {

/// A node: its grounded capacitance (fF) and the `(instance, pin)` bound to it.
#[derive(Debug)]
pub struct RcNode<N: Real> {
    pub cap_ff: N,
    pub pin: Option<(String, String)>,
}

/// A resistor between two nodes.
#[derive(Clone, Copy, Debug)]
pub struct RcEdge<N: Real> {
    pub a: usize,
    pub b: usize,
    pub res_ohm: N,
}

/// The network of a net, with the sums of its capacitances and resistances.
#[derive(Debug)]
pub struct RcNetwork<N: Real> {
    pub nodes: Vec<RcNode<N>>,
    pub edges: Vec<RcEdge<N>>,
    pub raw_cap: N,
    pub raw_res: N,
}

/// What came of building the network of a net.
#[derive(Debug)]
pub enum Outcome<N: Real> {
    Built(RcNetwork<N>),
    /// No usable geometry: no wire, a single point, a layer without a rule, or
    /// more pins than nodes.
    NoGeometry,
    /// The geometry is in more than one piece.
    Disconnected { pieces: usize },
}

/// What an [`RcNode`] is.
#[verifier::ext_equal]
pub struct NodeView<N: Real> {
    pub cap: N,
    pub pin: Option<(Seq<char>, Seq<char>)>,
}

/// What an [`RcEdge`] is.
#[verifier::ext_equal]
pub struct EdgeView<N: Real> {
    pub a: int,
    pub b: int,
    pub res: N,
}

/// What an [`RcNetwork`] is.
#[verifier::ext_equal]
pub struct NetworkView<N: Real> {
    pub nodes: Seq<NodeView<N>>,
    pub edges: Seq<EdgeView<N>>,
    pub raw_cap: N,
    pub raw_res: N,
}

/// What an [`Outcome`] is.
#[verifier::ext_equal]
pub enum OutcomeView<N: Real> {
    Built(NetworkView<N>),
    NoGeometry,
    Disconnected { pieces: nat },
}

impl<N: Real> View for RcNode<N> {
    type V = NodeView<N>;

    open spec fn view(&self) -> NodeView<N> {
        NodeView {
            cap: self.cap_ff,
            pin: match self.pin {
                Some((i, p)) => Some((i@, p@)),
                None => None,
            },
        }
    }
}

impl<N: Real> View for RcEdge<N> {
    type V = EdgeView<N>;

    open spec fn view(&self) -> EdgeView<N> {
        EdgeView { a: self.a as int, b: self.b as int, res: self.res_ohm }
    }
}

/// The views of a list of edges.
pub open spec fn edges_view<N: Real>(v: Seq<RcEdge<N>>) -> Seq<EdgeView<N>> {
    Seq::new(v.len(), |i: int| v[i]@)
}

/// The views of a list of nodes.
pub open spec fn nodes_view<N: Real>(v: Seq<RcNode<N>>) -> Seq<NodeView<N>> {
    Seq::new(v.len(), |i: int| v[i]@)
}

impl<N: Real> View for RcNetwork<N> {
    type V = NetworkView<N>;

    open spec fn view(&self) -> NetworkView<N> {
        NetworkView {
            nodes: nodes_view(self.nodes@),
            edges: edges_view(self.edges@),
            raw_cap: self.raw_cap,
            raw_res: self.raw_res,
        }
    }
}

impl<N: Real> View for Outcome<N> {
    type V = OutcomeView<N>;

    open spec fn view(&self) -> OutcomeView<N> {
        match self {
            Outcome::Built(t) => OutcomeView::Built(t@),
            Outcome::NoGeometry => OutcomeView::NoGeometry,
            Outcome::Disconnected { pieces } => OutcomeView::Disconnected { pieces: *pieces as nat },
        }
    }
}

impl<N: Real> Outcome<N> {
    /// The network, if one was built.
    pub fn built(self) -> (r: Option<RcNetwork<N>>)
        ensures
            r == (match self {
                Outcome::Built(t) => Some(t),
                _ => None,
            }),
    {
        match self {
            Outcome::Built(t) => Some(t),
            _ => None,
        }
    }
}

/// The ends of a list of edges.
pub open spec fn ends<N: Real>(edges: Seq<EdgeView<N>>) -> Seq<(int, int)> {
    Seq::new(edges.len(), |i: int| (edges[i].a, edges[i].b))
}

/// The number of pieces that the nodes and edges of a network are in.
pub fn components<N: Real>(nodes: &Vec<RcNode<N>>, edges: &Vec<RcEdge<N>>) -> (r: usize)
    requires
        graph::within(ends(edges_view(edges@)), nodes@.len() as int),
    ensures
        r == graph::pieces(ends(edges_view(edges@)), nodes@.len() as int),
{
    pieces_of(nodes.len(), edges)
}

fn pieces_of<N: Real>(n: usize, edges: &Vec<RcEdge<N>>) -> (r: usize)
    requires
        graph::within(ends(edges_view(edges@)), n as int),
    ensures
        r == graph::pieces(ends(edges_view(edges@)), n as int),
{
    let mut list: Vec<(usize, usize)> = Vec::new();
    for i in 0..edges.len()
        invariant
            list@.len() == i,
            forall|j: int| 0 <= j < i ==> list@[j] == (edges@[j].a, edges@[j].b),
    {
        list.push((edges[i].a, edges[i].b));
    }
    assert(graph::ends(list@) == ends(edges_view(edges@)));
    graph::count_pieces(n, &list)
}

/// A network while it is built: for each node its place and layer and its
/// capacitance, and the edges.
#[verifier::ext_equal]
pub struct Wiring<N: Real> {
    pub keys: Seq<(int, int, Seq<char>)>,
    pub caps: Seq<N>,
    pub edges: Seq<EdgeView<N>>,
}

/// No nodes and no edges.
pub open spec fn no_wiring<N: Real>() -> Wiring<N> {
    Wiring { keys: Seq::empty(), caps: Seq::empty(), edges: Seq::empty() }
}

/// Whether no node occurs twice, and every edge joins nodes.
pub open spec fn sound<N: Real>(w: Wiring<N>) -> bool {
    &&& w.keys.no_duplicates()
    &&& w.caps.len() == w.keys.len()
    &&& graph::within(ends(w.edges), w.keys.len() as int)
}

/// The wiring with a node for a place and layer.
pub open spec fn with_node<N: Real>(w: Wiring<N>, k: (int, int, Seq<char>)) -> Wiring<N> {
    if w.keys.contains(k) {
        w
    } else {
        Wiring { keys: w.keys.push(k), caps: w.caps.push(number::zero()), ..w }
    }
}

/// The width (um) of a run: its own, else that of its layer, else zero.
pub open spec fn run_width<N: Real>(run: RunView, widths: Map<Seq<char>, N>) -> N {
    if run.width > 0 {
        N::spec_micro(run.width)
    } else if widths.contains_key(run.layer) {
        widths[run.layer]
    } else {
        number::zero()
    }
}

/// The length (um) of a run.
pub open spec fn run_len<N: Real>(run: RunView) -> N {
    N::spec_micro(run.len() * 1000)
}

/// The wiring with one more piece of wire; nothing where its layer has no rule.
pub open spec fn lay<N: Real>(
    w: Wiring<N>,
    run: RunView,
    rules: RulesView<N>,
    widths: Map<Seq<char>, N>,
) -> Option<Wiring<N>> {
    if !rules.layers.contains_key(run.layer) {
        None
    } else {
        let (ka, kb) = ((run.a.0, run.a.1, run.layer), (run.b.0, run.b.1, run.layer));
        let g = with_node(with_node(w, ka), kb);
        let (a, b) = (g.keys.index_of(ka), g.keys.index_of(kb));
        let len = run_len::<N>(run);
        let half = len.spec_times(rules.layers[run.layer].cap_per_um).spec_over(N::spec_count(2));
        let once = g.caps.update(a, g.caps[a].spec_plus(half));
        let caps = once.update(b, once[b].spec_plus(half));
        let edges = if a != b {
            g.edges.push(
                EdgeView {
                    a,
                    b,
                    res: rules::wire_res(rules, run.layer, len, run_width(run, widths))->0,
                },
            )
        } else {
            g.edges
        };
        Some(Wiring { caps, edges, ..g })
    }
}

/// The wiring of the first `n` pieces.
pub open spec fn lay_upto<N: Real>(
    ps: Seq<RunView>,
    n: int,
    rules: RulesView<N>,
    widths: Map<Seq<char>, N>,
) -> Option<Wiring<N>>
    decreases n,
{
    if n <= 0 {
        Some(no_wiring())
    } else {
        match lay_upto(ps, n - 1, rules, widths) {
            None => None,
            Some(w) => lay(w, ps[n - 1], rules, widths),
        }
    }
}

/// Whether a node stands at a place.
pub open spec fn occupied(keys: Seq<(int, int, Seq<char>)>, p: (int, int)) -> bool {
    exists|i: int| 0 <= i < keys.len() && (#[trigger] keys[i]).0 == p.0 && keys[i].1 == p.1
}

/// The wiring with a node for the layer of each of the first `n` vias that land
/// where a node stands already.
pub open spec fn land_upto<N: Real>(
    w: Wiring<N>,
    vias: Seq<ViaView>,
    n: int,
    rules: RulesView<N>,
) -> Wiring<N>
    decreases n,
{
    if n <= 0 {
        w
    } else {
        let g = land_upto(w, vias, n - 1, rules);
        let p = junction::via_places(vias)[n - 1];
        if occupied(g.keys, p) && rules.layers.contains_key(vias[n - 1].layer) {
            with_node(g, (p.0, p.1, vias[n - 1].layer))
        } else {
            g
        }
    }
}

pub open spec fn point_lt(p: (int, int), q: (int, int)) -> bool {
    p.0 < q.0 || (p.0 == q.0 && p.1 < q.1)
}

/// The points, in ascending order, with `p` among them once.
pub open spec fn insert_point(s: Seq<(int, int)>, p: (int, int)) -> Seq<(int, int)>
    decreases s.len(),
{
    if s.len() == 0 || point_lt(s.last(), p) {
        s.push(p)
    } else if s.last() == p {
        s
    } else {
        insert_point(s.drop_last(), p).push(s.last())
    }
}

/// The first `n` of a list of points, each once, in ascending order.
pub open spec fn ranked_upto(s: Seq<(int, int)>, n: int) -> Seq<(int, int)>
    decreases n,
{
    if n <= 0 {
        Seq::empty()
    } else {
        insert_point(ranked_upto(s, n - 1), s[n - 1])
    }
}

/// The names, in ascending order, with `p` among them once.
pub open spec fn insert_name(s: Seq<Seq<char>>, p: Seq<char>) -> Seq<Seq<char>>
    decreases s.len(),
{
    if s.len() == 0 || text::text_lt(s.last(), p) {
        s.push(p)
    } else if s.last() == p {
        s
    } else {
        insert_name(s.drop_last(), p).push(s.last())
    }
}

/// The layers of those of the first `n` nodes that stand at a place, in
/// ascending order.
pub open spec fn layers_upto(keys: Seq<(int, int, Seq<char>)>, p: (int, int), n: int) -> Seq<
    Seq<char>,
>
    decreases n,
{
    if n <= 0 {
        Seq::empty()
    } else {
        let before = layers_upto(keys, p, n - 1);
        let k = keys[n - 1];
        if k.0 == p.0 && k.1 == p.1 {
            insert_name(before, k.2)
        } else {
            before
        }
    }
}

/// The layers of the nodes at a place, in ascending order.
pub open spec fn layers_at(keys: Seq<(int, int, Seq<char>)>, p: (int, int)) -> Seq<Seq<char>> {
    layers_upto(keys, p, keys.len() as int)
}

/// The ohm of one via.
pub open spec fn via_ohm<N: Real>(rules: RulesView<N>) -> N {
    number::greater(rules.via_res, number::zero())
}

/// The wiring with a via at a place between two layers, where both have a node
/// there.
pub open spec fn join<N: Real>(
    w: Wiring<N>,
    p: (int, int),
    a: Seq<char>,
    b: Seq<char>,
    ohm: N,
) -> Wiring<N> {
    let (ka, kb) = ((p.0, p.1, a), (p.0, p.1, b));
    if w.keys.contains(ka) && w.keys.contains(kb) {
        Wiring {
            edges: w.edges.push(
                EdgeView { a: w.keys.index_of(ka), b: w.keys.index_of(kb), res: ohm },
            ),
            ..w
        }
    } else {
        w
    }
}

/// The wiring with vias between the first `n` layers at a place and the ones
/// above them.
pub open spec fn stack<N: Real>(
    w: Wiring<N>,
    p: (int, int),
    layers: Seq<Seq<char>>,
    n: int,
    ohm: N,
) -> Wiring<N>
    decreases n,
{
    if n <= 0 {
        w
    } else {
        join(stack(w, p, layers, n - 1, ohm), p, layers[n - 1], layers[n], ohm)
    }
}

/// The wiring with a stack of vias at each of the first `n` places.
pub open spec fn stack_upto<N: Real>(
    w: Wiring<N>,
    places: Seq<(int, int)>,
    n: int,
    ohm: N,
) -> Wiring<N>
    decreases n,
{
    if n <= 0 {
        w
    } else {
        let g = stack_upto(w, places, n - 1, ohm);
        let layers = layers_at(w.keys, places[n - 1]);
        stack(g, places[n - 1], layers, layers.len() - 1, ohm)
    }
}

/// Those of the first `n` names that have a node at a place.
pub open spec fn present_upto(
    keys: Seq<(int, int, Seq<char>)>,
    p: (int, int),
    names: Seq<Seq<char>>,
    n: int,
) -> Seq<Seq<char>>
    decreases n,
{
    if n <= 0 {
        Seq::empty()
    } else {
        let before = present_upto(keys, p, names, n - 1);
        if keys.contains((p.0, p.1, names[n - 1])) {
            before.push(names[n - 1])
        } else {
            before
        }
    }
}

/// The layer pair that stands next to a layer in an ascending list: the layer
/// and its one neighbour. Nothing where it is missing, has no neighbour, or has
/// one on either side.
pub open spec fn neighbours(here: Seq<Seq<char>>, layer: Seq<char>) -> Option<
    (Seq<char>, Seq<char>),
> {
    if !here.contains(layer) {
        None
    } else {
        let i = here.index_of(layer);
        if i > 0 && i + 1 >= here.len() {
            Some((here[i - 1], layer))
        } else if i == 0 && here.len() > 1 {
            Some((layer, here[1]))
        } else {
            None
        }
    }
}

/// The layers that a via joins: those that the library of vias names for it, if
/// exactly two of them have a node there; else its declared layer and that
/// one's only neighbour.
pub open spec fn via_pair(
    keys: Seq<(int, int, Seq<char>)>,
    p: (int, int),
    via: ViaView,
    via_layers: Map<Seq<char>, Seq<Seq<char>>>,
) -> Option<(Seq<char>, Seq<char>)> {
    let named = if via_layers.contains_key(via.name) {
        present_upto(keys, p, via_layers[via.name], via_layers[via.name].len() as int)
    } else {
        Seq::empty()
    };
    if named.len() == 2 {
        Some((named[0], named[1]))
    } else {
        neighbours(layers_at(keys, p), via.layer)
    }
}

/// The wiring with those of the first `n` vias that land at a place.
pub open spec fn drop_at<N: Real>(
    w: Wiring<N>,
    p: (int, int),
    vias: Seq<ViaView>,
    n: int,
    via_layers: Map<Seq<char>, Seq<Seq<char>>>,
    ohm: N,
) -> Wiring<N>
    decreases n,
{
    if n <= 0 {
        w
    } else {
        let g = drop_at(w, p, vias, n - 1, via_layers, ohm);
        if junction::via_places(vias)[n - 1] == p {
            match via_pair(w.keys, p, vias[n - 1], via_layers) {
                Some((a, b)) => join(g, p, a, b, ohm),
                None => g,
            }
        } else {
            g
        }
    }
}

/// The wiring with the vias of the first `n` places.
pub open spec fn drop_upto<N: Real>(
    w: Wiring<N>,
    places: Seq<(int, int)>,
    n: int,
    vias: Seq<ViaView>,
    via_layers: Map<Seq<char>, Seq<Seq<char>>>,
    ohm: N,
) -> Wiring<N>
    decreases n,
{
    if n <= 0 {
        w
    } else {
        drop_at(
            drop_upto(w, places, n - 1, vias, via_layers, ohm),
            places[n - 1],
            vias,
            vias.len() as int,
            via_layers,
            ohm,
        )
    }
}

/// The wiring with its vias. Where the net gives no via places, layers that
/// stand at one place are joined from the lowest to the highest; else a pair is
/// joined only where a via says so.
pub open spec fn with_vias<N: Real>(
    w: Wiring<N>,
    vias: Seq<ViaView>,
    via_layers: Map<Seq<char>, Seq<Seq<char>>>,
    ohm: N,
) -> Wiring<N> {
    if vias.len() == 0 {
        let places = ranked_upto(spots(w.keys), w.keys.len() as int);
        stack_upto(w, places, places.len() as int, ohm)
    } else {
        let places = ranked_upto(junction::via_places(vias), vias.len() as int);
        drop_upto(w, places, places.len() as int, vias, via_layers, ohm)
    }
}

/// The places of a list of nodes.
pub open spec fn spots(keys: Seq<(int, int, Seq<char>)>) -> Seq<(int, int)> {
    Seq::new(keys.len(), |i: int| (keys[i].0, keys[i].1))
}

/// The number of ends of the first `n` edges that lie on node `i`.
pub open spec fn degree_upto(edges: Seq<(int, int)>, i: int, n: int) -> int
    decreases n,
{
    if n <= 0 {
        0
    } else {
        degree_upto(edges, i, n - 1) + (if edges[n - 1].0 == i {
            1int
        } else {
            0
        }) + (if edges[n - 1].1 == i {
            1int
        } else {
            0
        })
    }
}

/// The number of edge ends on each node.
pub open spec fn degrees(edges: Seq<(int, int)>, n: int) -> Seq<int> {
    Seq::new(n as nat, |i: int| degree_upto(edges, i, edges.len() as int))
}

/// Those of the first `n` nodes that one edge ends on.
pub open spec fn leaves_upto(deg: Seq<int>, n: int) -> Seq<int>
    decreases n,
{
    if n <= 0 {
        Seq::empty()
    } else if deg[n - 1] == 1 {
        leaves_upto(deg, n - 1).push(n - 1)
    } else {
        leaves_upto(deg, n - 1)
    }
}

/// The nodes with `i` among them: after those of the same or a higher degree.
pub open spec fn insert_by_degree(deg: Seq<int>, s: Seq<int>, i: int) -> Seq<int>
    decreases s.len(),
{
    if s.len() > 0 && deg[s.last()] < deg[i] {
        insert_by_degree(deg, s.drop_last(), i).push(s.last())
    } else {
        s.push(i)
    }
}

/// Those of the first `n` nodes that are no leaves, the busiest first.
pub open spec fn spill_upto(deg: Seq<int>, n: int) -> Seq<int>
    decreases n,
{
    if n <= 0 {
        Seq::empty()
    } else if deg[n - 1] == 1 {
        spill_upto(deg, n - 1)
    } else {
        insert_by_degree(deg, spill_upto(deg, n - 1), n - 1)
    }
}

/// The nodes in the order in which pins take them: the leaves, then the
/// others, the busiest first.
pub open spec fn seats(deg: Seq<int>) -> Seq<int> {
    leaves_upto(deg, deg.len() as int) + spill_upto(deg, deg.len() as int)
}

/// The pin that sits on node `i`.
pub open spec fn seated(
    seats: Seq<int>,
    pins: Seq<(Seq<char>, Seq<char>)>,
    i: int,
) -> Option<(Seq<char>, Seq<char>)> {
    if seats.take(pins.len() as int).contains(i) {
        Some(pins[seats.take(pins.len() as int).index_of(i)])
    } else {
        None
    }
}

/// The resistances of a list of edges.
pub open spec fn ohms<N: Real>(edges: Seq<EdgeView<N>>) -> Seq<N> {
    Seq::new(edges.len(), |i: int| edges[i].res)
}

/// The network of a finished wiring.
pub open spec fn network<N: Real>(w: Wiring<N>, pins: Seq<(Seq<char>, Seq<char>)>) -> NetworkView<
    N,
> {
    let order = seats(degrees(ends(w.edges), w.keys.len() as int));
    NetworkView {
        nodes: Seq::new(
            w.keys.len(),
            |i: int| NodeView { cap: w.caps[i], pin: seated(order, pins, i) },
        ),
        edges: w.edges,
        raw_cap: number::total(w.caps),
        raw_res: number::total(ohms(w.edges)),
    }
}

/// The wiring of a net: the pieces of its wire, cut where they meet, and its
/// vias. Nothing where a layer has no rule.
pub open spec fn wired<N: Real>(
    net: NetView,
    rules: RulesView<N>,
    widths: Map<Seq<char>, N>,
    via_layers: Map<Seq<char>, Seq<Seq<char>>>,
) -> Option<Wiring<N>> {
    let places = junction::via_places(net.via_points);
    let ps = junction::split(junction::net_runs(net.segments), places);
    match lay_upto(ps, ps.len() as int, rules, widths) {
        None => None,
        Some(laid) => {
            let landed = land_upto(laid, net.via_points, net.via_points.len() as int, rules);
            Some(with_vias(landed, net.via_points, via_layers, via_ohm(rules)))
        },
    }
}

/// What comes of building the network of a net.
pub open spec fn outcome<N: Real>(
    net: NetView,
    rules: RulesView<N>,
    widths: Map<Seq<char>, N>,
    via_layers: Map<Seq<char>, Seq<Seq<char>>>,
) -> OutcomeView<N> {
    match wired(net, rules, widths, via_layers) {
        None => OutcomeView::NoGeometry,
        Some(w) => {
            let p = graph::pieces(ends(w.edges), w.keys.len() as int);
            if w.keys.len() < 2 || w.edges.len() == 0 {
                OutcomeView::NoGeometry
            } else if p > 1 {
                OutcomeView::Disconnected { pieces: p }
            } else if net.pins.len() > w.keys.len() {
                OutcomeView::NoGeometry
            } else {
                OutcomeView::Built(network(w, net.pins))
            }
        },
    }
}

/// The layers that each via of a library names.
pub open spec fn named_layers(m: Map<Seq<char>, Vec<String>>) -> Map<Seq<char>, Seq<Seq<char>>> {
    Map::new(|k: Seq<char>| m.contains_key(k), |k: Seq<char>| text::texts(m[k]@))
}

struct NodeKey {
    x: i64,
    y: i64,
    layer: String,
}

impl NodeKey {
    spec fn key(self) -> (int, int, Seq<char>) {
        (self.x as int, self.y as int, self.layer@)
    }
}

struct Builder<N: Real> {
    keys: Vec<NodeKey>,
    caps: Vec<N>,
    edges: Vec<RcEdge<N>>,
}

spec fn keys_view(v: Seq<NodeKey>) -> Seq<(int, int, Seq<char>)> {
    Seq::new(v.len(), |i: int| v[i].key())
}

pub proof fn lemma_with_node<N: Real>(w: Wiring<N>, k: (int, int, Seq<char>))
    requires
        sound(w),
    ensures
        sound(with_node(w, k)),
        with_node(w, k).keys.contains(k),
        with_node(w, k).keys.len() >= w.keys.len(),
        forall|j: (int, int, Seq<char>)| #[trigger]
            w.keys.contains(j) ==> with_node(w, k).keys.contains(j),
{
    let g = with_node(w, k);
    if !w.keys.contains(k) {
        assert(g.keys[w.keys.len() as int] == k);
        assert forall|j: (int, int, Seq<char>)| #[trigger] w.keys.contains(j) implies g.keys.contains(
            j,
        ) by {
            assert(g.keys[w.keys.index_of(j)] == j);
        }
        assert(ends(g.edges) == ends(w.edges));
    }
}

proof fn lemma_slot(keys: Seq<(int, int, Seq<char>)>, i: int)
    requires
        keys.no_duplicates(),
        0 <= i < keys.len(),
    ensures
        keys.contains(keys[i]),
        keys.index_of(keys[i]) == i,
{
}

pub proof fn lemma_push_edge<N: Real>(w: Wiring<N>, e: EdgeView<N>)
    requires
        sound(w),
        0 <= e.a < w.keys.len(),
        0 <= e.b < w.keys.len(),
    ensures
        sound(Wiring { edges: w.edges.push(e), ..w }),
{
    let g = Wiring { edges: w.edges.push(e), ..w };
    assert(ends(g.edges) == ends(w.edges).push((e.a, e.b)));
    assert forall|k: int| 0 <= k < ends(g.edges).len() implies 0 <= (#[trigger] ends(g.edges)[k]).0
        < w.keys.len() && 0 <= ends(g.edges)[k].1 < w.keys.len() by {
        if k < w.edges.len() {
            assert(ends(g.edges)[k] == ends(w.edges)[k]);
        }
    }
}

impl<N: Real> Builder<N> {
    spec fn wiring(self) -> Wiring<N> {
        Wiring {
            keys: keys_view(self.keys@),
            caps: self.caps@,
            edges: edges_view(self.edges@),
        }
    }

    fn new() -> (r: Self)
        ensures
            r.wiring() == no_wiring::<N>(),
            sound(r.wiring()),
    {
        let r = Builder { keys: Vec::new(), caps: Vec::new(), edges: Vec::new() };
        assert(r.wiring() == no_wiring::<N>());
        r
    }

    /// The index of the node for a place and layer.
    fn find(&self, p: (i64, i64), layer: &String) -> (r: Option<usize>)
        requires
            sound(self.wiring()),
        ensures
            match r {
                Some(i) => i < self.keys@.len() && self.wiring().keys[i as int] == (
                    p.0 as int,
                    p.1 as int,
                    layer@,
                ) && self.wiring().keys.contains((p.0 as int, p.1 as int, layer@))
                    && self.wiring().keys.index_of((p.0 as int, p.1 as int, layer@)) == i,
                None => !self.wiring().keys.contains((p.0 as int, p.1 as int, layer@)),
            },
    {
        let ghost k = (p.0 as int, p.1 as int, layer@);
        for i in 0..self.keys.len()
            invariant
                sound(self.wiring()),
                k == (p.0 as int, p.1 as int, layer@),
                forall|j: int| 0 <= j < i ==> self.wiring().keys[j] != k,
        {
            let e = &self.keys[i];
            assert(self.wiring().keys[i as int] == self.keys@[i as int].key());
            if e.x == p.0 && e.y == p.1 && e.layer == *layer {
                proof {
                    lemma_slot(self.wiring().keys, i as int);
                }
                return Some(i);
            }
        }
        None
    }

    /// The index of the node for a place and layer, which is made if need be.
    fn node_of(&mut self, p: (i64, i64), layer: &String) -> (r: usize)
        requires
            sound(old(self).wiring()),
        ensures
            final(self).wiring() == with_node(
                old(self).wiring(),
                (p.0 as int, p.1 as int, layer@),
            ),
            sound(final(self).wiring()),
            r < final(self).keys@.len(),
            r == final(self).wiring().keys.index_of((p.0 as int, p.1 as int, layer@)),
    {
        let ghost k = (p.0 as int, p.1 as int, layer@);
        let ghost before = self.wiring();
        proof {
            lemma_with_node(before, k);
        }
        match self.find(p, layer) {
            Some(i) => i,
            None => {
                let i: usize = self.keys.len();
                self.keys.push(NodeKey { x: p.0, y: p.1, layer: layer.clone() });
                self.caps.push(number::zero_of());
                assert(self.wiring().keys == before.keys.push(k));
                assert(self.wiring() == with_node(before, k));
                proof {
                    lemma_slot(self.wiring().keys, i as int);
                }
                i
            },
        }
    }

    fn add_cap(&mut self, i: usize, c: N)
        requires
            sound(old(self).wiring()),
            i < old(self).keys@.len(),
        ensures
            final(self).wiring() == (Wiring {
                caps: old(self).wiring().caps.update(
                    i as int,
                    old(self).wiring().caps[i as int].spec_plus(c),
                ),
                ..old(self).wiring()
            }),
            sound(final(self).wiring()),
            final(self).keys@ == old(self).keys@,
    {
        let v: N = self.caps[i].plus(c);
        self.caps[i] = v;
    }

    fn add_edge(&mut self, a: usize, b: usize, res_ohm: N)
        requires
            sound(old(self).wiring()),
            a < old(self).keys@.len(),
            b < old(self).keys@.len(),
        ensures
            final(self).wiring() == (Wiring {
                edges: old(self).wiring().edges.push(
                    EdgeView { a: a as int, b: b as int, res: res_ohm },
                ),
                ..old(self).wiring()
            }),
            sound(final(self).wiring()),
            final(self).keys@ == old(self).keys@,
    {
        let ghost before = self.wiring();
        let e = RcEdge { a, b, res_ohm };
        let ghost v = e@;
        self.edges.push(e);
        assert(self.wiring().edges == before.edges.push(v));
        assert(self.wiring() == Wiring { edges: before.edges.push(v), ..before });
        proof {
            lemma_push_edge(before, v);
        }
    }

    /// Takes up one piece of wire; says whether its layer has a rule.
    fn lay(&mut self, run: &NmSeg, rules: &RcRules<N>, widths: &StrMap<N>) -> (r: bool)
        requires
            sound(old(self).wiring()),
            junction::run_in_range(run@),
        ensures
            r == lay(old(self).wiring(), run@, rules@, widths@) is Some,
            r ==> final(self).wiring() == lay(old(self).wiring(), run@, rules@, widths@)->0,
            r ==> sound(final(self).wiring()),
    {
        let ghost w = self.wiring();
        let ghost rv = run@;
        let l = match rules.layer(run.layer.as_str()) {
            None => {
                return false;
            },
            Some(l) => l,
        };
        let ghost ka = (rv.a.0, rv.a.1, rv.layer);
        let ghost kb = (rv.b.0, rv.b.1, rv.layer);
        let a: usize = self.node_of(run.a, &run.layer);
        let ghost g1 = self.wiring();
        let b: usize = self.node_of(run.b, &run.layer);
        let ghost g = self.wiring();
        proof {
            lemma_with_node(w, ka);
            lemma_with_node(g1, kb);
            assert(g.keys[a as int] == ka) by {
                if g1.keys.contains(kb) {
                } else {
                    assert(g.keys[a as int] == g1.keys[a as int]);
                }
            }
            lemma_slot(g.keys, a as int);
        }
        let nm: i128 = geom::gap(run.a.0, run.b.0) + geom::gap(run.a.1, run.b.1);
        let len: N = N::micro(nm * 1000);
        assert(len == run_len::<N>(rv));
        let half: N = len.times(l.cap_per_um).over(N::count(2));
        self.add_cap(a, half);
        self.add_cap(b, half);
        if a != b {
            let width: N = if run.width > 0 {
                N::micro(run.width as i128)
            } else {
                match widths.get(run.layer.as_str()) {
                    Some(v) => *v,
                    None => number::zero_of(),
                }
            };
            assert(width == run_width(rv, widths@));
            let res: N = match rules.wire_res(run.layer.as_str(), len, width) {
                Some(v) => v,
                None => len.times(l.res_per_um),
            };
            self.add_edge(a, b, res);
        }
        assert(self.wiring() == lay(w, rv, rules@, widths@)->0);
        true
    }

    fn is_occupied(&self, p: (i64, i64)) -> (r: bool)
        ensures
            r == occupied(self.wiring().keys, (p.0 as int, p.1 as int)),
    {
        for i in 0..self.keys.len()
            invariant
                forall|j: int|
                    0 <= j < i ==> !((#[trigger] self.wiring().keys[j]).0 == p.0
                        && self.wiring().keys[j].1 == p.1),
        {
            assert(self.wiring().keys[i as int] == self.keys@[i as int].key());
            if self.keys[i].x == p.0 && self.keys[i].y == p.1 {
                return true;
            }
        }
        false
    }

    fn join(&mut self, p: (i64, i64), a: &String, b: &String, ohm: N)
        requires
            sound(old(self).wiring()),
        ensures
            final(self).wiring() == join(
                old(self).wiring(),
                (p.0 as int, p.1 as int),
                a@,
                b@,
                ohm,
            ),
            sound(final(self).wiring()),
            final(self).keys@ == old(self).keys@,
    {
        if let Some(i) = self.find(p, a) {
            if let Some(j) = self.find(p, b) {
                self.add_edge(i, j, ohm);
            }
        }
    }

    /// The layers of the nodes at a place, in ascending order.
    fn layers_at(&self, p: (i64, i64)) -> (r: Vec<String>)
        ensures
            text::texts(r@) == layers_at(self.wiring().keys, (p.0 as int, p.1 as int)),
    {
        let ghost keys = self.wiring().keys;
        let ghost pv = (p.0 as int, p.1 as int);
        let mut out: Vec<String> = Vec::new();
        assert(text::texts(out@) == Seq::<Seq<char>>::empty());
        for i in 0..self.keys.len()
            invariant
                keys == self.wiring().keys,
                pv == (p.0 as int, p.1 as int),
                text::texts(out@) == layers_upto(keys, pv, i as int),
        {
            assert(keys[i as int] == self.keys@[i as int].key());
            if self.keys[i].x == p.0 && self.keys[i].y == p.1 {
                place_name(&mut out, &self.keys[i].layer);
            }
        }
        out
    }
}

proof fn lemma_insert_name_at(s: Seq<Seq<char>>, p: Seq<char>, k: int)
    requires
        0 <= k <= s.len(),
        forall|i: int| k <= i < s.len() ==> !text::text_lt(#[trigger] s[i], p) && s[i] != p,
        k > 0 ==> text::text_lt(s[k - 1], p),
    ensures
        insert_name(s, p) == s.insert(k, p),
    decreases s.len(),
{
    if k < s.len() {
        lemma_insert_name_at(s.drop_last(), p, k);
        assert(s.drop_last().insert(k, p).push(s.last()) == s.insert(k, p));
    } else {
        assert(s.push(p) == s.insert(k, p));
    }
}

proof fn lemma_insert_name_found(s: Seq<Seq<char>>, p: Seq<char>, k: int)
    requires
        0 <= k < s.len(),
        forall|i: int| k < i < s.len() ==> !text::text_lt(#[trigger] s[i], p) && s[i] != p,
        s[k] == p,
    ensures
        insert_name(s, p) == s,
    decreases s.len(),
{
    if k < s.len() - 1 {
        lemma_insert_name_found(s.drop_last(), p, k);
        assert(s.drop_last().push(s.last()) == s);
    } else {
        text::lemma_text_lt_irreflexive(p);
    }
}

/// Puts a name in its place among names in ascending order.
fn place_name(v: &mut Vec<String>, name: &String)
    ensures
        text::texts(final(v)@) == insert_name(text::texts(old(v)@), name@),
{
    let ghost s = text::texts(v@);
    let key = text::chars_of(name.as_str());
    let mut k: usize = v.len();
    while k > 0
        invariant
            k <= v@.len(),
            v@ == old(v)@,
            s == text::texts(v@),
            key@ == name@,
            forall|i: int| k <= i < s.len() ==> !text::text_lt(#[trigger] s[i], name@) && s[i]
                != name@,
        ensures
            k <= v@.len(),
            v@ == old(v)@,
            s == text::texts(v@),
            forall|i: int| k <= i < s.len() ==> !text::text_lt(#[trigger] s[i], name@) && s[i]
                != name@,
            k > 0 ==> text::text_lt(s[k - 1], name@),
        decreases k,
    {
        assert(s[k - 1] == v@[k - 1]@);
        if v[k - 1] == *name {
            proof {
                lemma_insert_name_found(s, name@, k - 1);
            }
            return;
        }
        if text::comes_before(&text::chars_of(v[k - 1].as_str()), &key) {
            break;
        }
        k = k - 1;
    }
    proof {
        lemma_insert_name_at(s, name@, k as int);
    }
    v.insert(k, name.clone());
    assert(text::texts(v@) == s.insert(k as int, name@));
}

proof fn lemma_insert_point_at(s: Seq<(int, int)>, p: (int, int), k: int)
    requires
        0 <= k <= s.len(),
        forall|i: int| k <= i < s.len() ==> !point_lt(#[trigger] s[i], p) && s[i] != p,
        k > 0 ==> point_lt(s[k - 1], p),
    ensures
        insert_point(s, p) == s.insert(k, p),
    decreases s.len(),
{
    if k < s.len() {
        lemma_insert_point_at(s.drop_last(), p, k);
        assert(s.drop_last().insert(k, p).push(s.last()) == s.insert(k, p));
    } else {
        assert(s.push(p) == s.insert(k, p));
    }
}

proof fn lemma_insert_point_found(s: Seq<(int, int)>, p: (int, int), k: int)
    requires
        0 <= k < s.len(),
        forall|i: int| k < i < s.len() ==> !point_lt(#[trigger] s[i], p) && s[i] != p,
        s[k] == p,
    ensures
        insert_point(s, p) == s,
    decreases s.len(),
{
    if k < s.len() - 1 {
        lemma_insert_point_found(s.drop_last(), p, k);
        assert(s.drop_last().push(s.last()) == s);
    }
}

/// Puts a point in its place among points in ascending order.
fn place_point(v: &mut Vec<(i64, i64)>, p: (i64, i64))
    ensures
        junction::points(final(v)@) == insert_point(
            junction::points(old(v)@),
            (p.0 as int, p.1 as int),
        ),
{
    let ghost s = junction::points(v@);
    let ghost pv = (p.0 as int, p.1 as int);
    let mut k: usize = v.len();
    while k > 0
        invariant
            k <= v@.len(),
            v@ == old(v)@,
            s == junction::points(v@),
            pv == (p.0 as int, p.1 as int),
            forall|i: int| k <= i < s.len() ==> !point_lt(#[trigger] s[i], pv) && s[i] != pv,
        ensures
            k <= v@.len(),
            v@ == old(v)@,
            s == junction::points(v@),
            forall|i: int| k <= i < s.len() ==> !point_lt(#[trigger] s[i], pv) && s[i] != pv,
            k > 0 ==> point_lt(s[k - 1], pv),
        decreases k,
    {
        let q: (i64, i64) = v[k - 1];
        assert(s[k - 1] == (q.0 as int, q.1 as int));
        if q.0 == p.0 && q.1 == p.1 {
            proof {
                lemma_insert_point_found(s, pv, k - 1);
            }
            return;
        }
        if q.0 < p.0 || (q.0 == p.0 && q.1 < p.1) {
            break;
        }
        k = k - 1;
    }
    proof {
        lemma_insert_point_at(s, pv, k as int);
    }
    v.insert(k, p);
    assert(junction::points(v@) == s.insert(k as int, pv));
}

/// A list of points, each once, in ascending order.
fn ranked_points(v: &Vec<(i64, i64)>) -> (r: Vec<(i64, i64)>)
    ensures
        junction::points(r@) == ranked_upto(junction::points(v@), v@.len() as int),
{
    let mut out: Vec<(i64, i64)> = Vec::new();
    assert(junction::points(out@) == Seq::<(int, int)>::empty());
    for i in 0..v.len()
        invariant
            junction::points(out@) == ranked_upto(junction::points(v@), i as int),
    {
        place_point(&mut out, v[i]);
    }
    out
}

impl<N: Real> Builder<N> {
    /// Takes up a node for each via that lands where a node stands already.
    fn land(&mut self, vias: &Vec<ViaPoint>, places: &Vec<(i64, i64)>, rules: &RcRules<N>)
        requires
            sound(old(self).wiring()),
            junction::points(places@) == junction::via_places(geom::vias_view(vias@)),
        ensures
            final(self).wiring() == land_upto(
                old(self).wiring(),
                geom::vias_view(vias@),
                vias@.len() as int,
                rules@,
            ),
            sound(final(self).wiring()),
    {
        let ghost w = self.wiring();
        let ghost vv = geom::vias_view(vias@);
        assert(places@.len() == junction::points(places@).len());
        for i in 0..vias.len()
            invariant
                sound(self.wiring()),
                vv == geom::vias_view(vias@),
                places@.len() == vias@.len(),
                junction::points(places@) == junction::via_places(vv),
                self.wiring() == land_upto(w, vv, i as int, rules@),
        {
            assert(junction::points(places@)[i as int] == (
                places@[i as int].0 as int,
                places@[i as int].1 as int,
            ));
            assert(vv[i as int] == vias@[i as int]@);
            if self.is_occupied(places[i]) && rules.layer(vias[i].layer.as_str()).is_some() {
                let _ = self.node_of(places[i], &vias[i].layer);
            }
        }
    }

    /// Joins the layers at one place, each with the next one up.
    fn stack_at(&mut self, p: (i64, i64), ohm: N)
        requires
            sound(old(self).wiring()),
        ensures
            final(self).wiring() == stack(
                old(self).wiring(),
                (p.0 as int, p.1 as int),
                layers_at(old(self).wiring().keys, (p.0 as int, p.1 as int)),
                layers_at(old(self).wiring().keys, (p.0 as int, p.1 as int)).len() - 1,
                ohm,
            ),
            sound(final(self).wiring()),
            final(self).keys@ == old(self).keys@,
    {
        let ghost w = self.wiring();
        let ghost pv = (p.0 as int, p.1 as int);
        let layers = self.layers_at(p);
        let ghost ls = text::texts(layers@);
        if layers.len() == 0 {
            return;
        }
        let last: usize = layers.len() - 1;
        let mut i: usize = 0;
        while i < last
            invariant
                i <= last,
                last == layers@.len() - 1,
                sound(self.wiring()),
                self.keys@ == old(self).keys@,
                pv == (p.0 as int, p.1 as int),
                ls == text::texts(layers@),
                self.wiring() == stack(w, pv, ls, i as int, ohm),
            decreases layers@.len() - i,
        {
            assert(ls[i as int] == layers@[i as int]@ && ls[i + 1] == layers@[i + 1]@);
            self.join(p, &layers[i], &layers[i + 1], ohm);
            i = i + 1;
        }
    }

    /// Joins the layers at every place where nodes stand.
    fn stack_all(&mut self, ohm: N)
        requires
            sound(old(self).wiring()),
        ensures
            ({
                let w = old(self).wiring();
                let places = ranked_upto(spots(w.keys), w.keys.len() as int);
                final(self).wiring() == stack_upto(w, places, places.len() as int, ohm)
            }),
            sound(final(self).wiring()),
    {
        let ghost w = self.wiring();
        let mut all: Vec<(i64, i64)> = Vec::new();
        for i in 0..self.keys.len()
            invariant
                all@.len() == i,
                forall|j: int| 0 <= j < i ==> all@[j] == (self.keys@[j].x, self.keys@[j].y),
        {
            all.push((self.keys[i].x, self.keys[i].y));
        }
        assert(junction::points(all@) == spots(w.keys));
        let places = ranked_points(&all);
        let ghost pv = junction::points(places@);
        for i in 0..places.len()
            invariant
                sound(self.wiring()),
                self.wiring().keys == w.keys,
                pv == junction::points(places@),
                self.wiring() == stack_upto(w, pv, i as int, ohm),
        {
            assert(pv[i as int] == (places@[i as int].0 as int, places@[i as int].1 as int));
            self.stack_at(places[i], ohm);
        }
    }

    /// The layers among `names` that have a node at a place.
    fn present(&self, p: (i64, i64), names: &Vec<String>) -> (r: Vec<String>)
        requires
            sound(self.wiring()),
        ensures
            text::texts(r@) == present_upto(
                self.wiring().keys,
                (p.0 as int, p.1 as int),
                text::texts(names@),
                names@.len() as int,
            ),
    {
        let ghost nv = text::texts(names@);
        let mut out: Vec<String> = Vec::new();
        assert(text::texts(out@) == Seq::<Seq<char>>::empty());
        for i in 0..names.len()
            invariant
                sound(self.wiring()),
                nv == text::texts(names@),
                text::texts(out@) == present_upto(
                    self.wiring().keys,
                    (p.0 as int, p.1 as int),
                    nv,
                    i as int,
                ),
        {
            assert(nv[i as int] == names@[i as int]@);
            if self.find(p, &names[i]).is_some() {
                let ghost before = text::texts(out@);
                out.push(names[i].clone());
                assert(text::texts(out@) == before.push(nv[i as int]));
            }
        }
        out
    }

    /// The layers that a via joins.
    fn pair_of(&self, p: (i64, i64), via: &ViaPoint, via_layers: &StrMap<Vec<String>>) -> (r:
        Option<(String, String)>)
        requires
            sound(self.wiring()),
        ensures
            match (
                r,
                via_pair(
                    self.wiring().keys,
                    (p.0 as int, p.1 as int),
                    via@,
                    named_layers(via_layers@),
                ),
            ) {
                (Some((a, b)), Some((c, d))) => a@ == c && b@ == d,
                (None, None) => true,
                _ => false,
            },
    {
        let ghost keys = self.wiring().keys;
        let ghost pv = (p.0 as int, p.1 as int);
        if let Some(names) = via_layers.get(via.name.as_str()) {
            let here = self.present(p, names);
            let ghost hv = text::texts(here@);
            if here.len() == 2 {
                assert(hv[0] == here@[0]@ && hv[1] == here@[1]@);
                return Some((here[0].clone(), here[1].clone()));
            }
        }
        let here = self.layers_at(p);
        let ghost hv = text::texts(here@);
        proof {
            lemma_layers_distinct(keys, pv, keys.len() as int);
        }
        let mut i: usize = 0;
        while i < here.len() && here[i] != via.layer
            invariant
                i <= here@.len(),
                hv == text::texts(here@),
                forall|j: int| 0 <= j < i ==> hv[j] != via.layer@,
            decreases here@.len() - i,
        {
            i = i + 1;
        }
        if i >= here.len() {
            assert(!hv.contains(via.layer@));
            return None;
        }
        assert(hv[i as int] == via.layer@);
        assert(hv.contains(via.layer@));
        assert(hv.index_of(via.layer@) == i);
        if i > 0 && i + 1 >= here.len() {
            assert(hv[i - 1] == here@[i - 1]@);
            Some((here[i - 1].clone(), via.layer.clone()))
        } else if i == 0 && here.len() > 1 {
            assert(hv[1] == here@[1]@);
            Some((via.layer.clone(), here[1].clone()))
        } else {
            None
        }
    }

    /// Takes up the vias that land at one place.
    fn drop_at(
        &mut self,
        p: (i64, i64),
        vias: &Vec<ViaPoint>,
        places: &Vec<(i64, i64)>,
        via_layers: &StrMap<Vec<String>>,
        ohm: N,
    )
        requires
            sound(old(self).wiring()),
            junction::points(places@) == junction::via_places(geom::vias_view(vias@)),
        ensures
            final(self).wiring() == drop_at(
                old(self).wiring(),
                (p.0 as int, p.1 as int),
                geom::vias_view(vias@),
                vias@.len() as int,
                named_layers(via_layers@),
                ohm,
            ),
            sound(final(self).wiring()),
    {
        let ghost w = self.wiring();
        let ghost vv = geom::vias_view(vias@);
        let ghost pv = (p.0 as int, p.1 as int);
        assert(places@.len() == junction::points(places@).len());
        for i in 0..vias.len()
            invariant
                sound(self.wiring()),
                self.wiring().keys == w.keys,
                vv == geom::vias_view(vias@),
                pv == (p.0 as int, p.1 as int),
                places@.len() == vias@.len(),
                junction::points(places@) == junction::via_places(vv),
                self.wiring() == drop_at(
                    w,
                    pv,
                    vv,
                    i as int,
                    named_layers(via_layers@),
                    ohm,
                ),
        {
            assert(junction::points(places@)[i as int] == (
                places@[i as int].0 as int,
                places@[i as int].1 as int,
            ));
            assert(vv[i as int] == vias@[i as int]@);
            if places[i].0 == p.0 && places[i].1 == p.1 {
                if let Some((a, b)) = self.pair_of(p, &vias[i], via_layers) {
                    self.join(p, &a, &b, ohm);
                }
            }
        }
    }

    /// Takes up the vias of the net.
    fn drop_all(
        &mut self,
        vias: &Vec<ViaPoint>,
        places: &Vec<(i64, i64)>,
        via_layers: &StrMap<Vec<String>>,
        ohm: N,
    )
        requires
            sound(old(self).wiring()),
            junction::points(places@) == junction::via_places(geom::vias_view(vias@)),
        ensures
            ({
                let vv = geom::vias_view(vias@);
                let ranked = ranked_upto(junction::via_places(vv), vv.len() as int);
                final(self).wiring() == drop_upto(
                    old(self).wiring(),
                    ranked,
                    ranked.len() as int,
                    vv,
                    named_layers(via_layers@),
                    ohm,
                )
            }),
            sound(final(self).wiring()),
    {
        let ghost w = self.wiring();
        let ghost vv = geom::vias_view(vias@);
        assert(places@.len() == junction::points(places@).len());
        let ranked = ranked_points(places);
        let ghost rv = junction::points(ranked@);
        for i in 0..ranked.len()
            invariant
                sound(self.wiring()),
                vv == geom::vias_view(vias@),
                rv == junction::points(ranked@),
                junction::points(places@) == junction::via_places(vv),
                self.wiring() == drop_upto(
                    w,
                    rv,
                    i as int,
                    vv,
                    named_layers(via_layers@),
                    ohm,
                ),
        {
            assert(rv[i as int] == (ranked@[i as int].0 as int, ranked@[i as int].1 as int));
            self.drop_at(ranked[i], vias, places, via_layers, ohm);
        }
    }
}

/// Whether the names ascend strictly.
pub open spec fn names_ascend(s: Seq<Seq<char>>) -> bool {
    forall|i: int, j: int| 0 <= i < j < s.len() ==> text::text_lt(s[i], s[j])
}

proof fn lemma_insert_name_ascends(s: Seq<Seq<char>>, p: Seq<char>)
    requires
        names_ascend(s),
    ensures
        names_ascend(insert_name(s, p)),
        forall|q: Seq<char>| #[trigger]
            insert_name(s, p).contains(q) ==> s.contains(q) || q == p,
    decreases s.len(),
{
    let r = insert_name(s, p);
    if s.len() == 0 || text::text_lt(s.last(), p) {
        assert forall|i: int, j: int| 0 <= i < j < r.len() implies text::text_lt(r[i], r[j]) by {
            if j == s.len() && i < s.len() - 1 {
                text::lemma_text_lt_trans(s[i], s.last(), p);
            }
        }
        assert forall|q: Seq<char>| #[trigger] r.contains(q) implies s.contains(q) || q == p by {
            let k = r.index_of(q);
            if k < s.len() {
                assert(s[k] == q);
            }
        }
    } else if s.last() != p {
        let d = s.drop_last();
        lemma_insert_name_ascends(d, p);
        let e = insert_name(d, p);
        text::lemma_text_lt_total(s.last(), p);
        assert forall|i: int, j: int| 0 <= i < j < r.len() implies text::text_lt(r[i], r[j]) by {
            if j == e.len() {
                assert(e.contains(e[i]));
                if e[i] != p {
                    let k = d.index_of(e[i]);
                    assert(s[k] == e[i]);
                }
            }
        }
        assert forall|q: Seq<char>| #[trigger] r.contains(q) implies s.contains(q) || q == p by {
            let k = r.index_of(q);
            if k < e.len() {
                assert(e.contains(q));
                if d.contains(q) {
                    assert(s[d.index_of(q)] == q);
                }
            } else {
                assert(s[s.len() - 1] == q);
            }
        }
    }
}

pub(crate) proof fn lemma_layers_distinct(keys: Seq<(int, int, Seq<char>)>, p: (int, int), n: int)
    requires
        0 <= n <= keys.len(),
    ensures
        names_ascend(layers_upto(keys, p, n)),
        layers_upto(keys, p, n).no_duplicates(),
    decreases n,
{
    if n > 0 {
        lemma_layers_distinct(keys, p, n - 1);
        lemma_insert_name_ascends(layers_upto(keys, p, n - 1), keys[n - 1].2);
    }
    let s = layers_upto(keys, p, n);
    assert forall|i: int, j: int| 0 <= i < s.len() && 0 <= j < s.len() && i != j implies s[i] != s[j]
        by {
        if i < j {
            assert(text::text_lt(s[i], s[j]));
            text::lemma_text_lt_irreflexive(s[i]);
        } else {
            assert(text::text_lt(s[j], s[i]));
            text::lemma_text_lt_irreflexive(s[i]);
        }
    }
}

/// Whether a list holds exactly the nodes below `n` that satisfy a degree
/// condition, each once.
pub(crate) proof fn lemma_leaves(deg: Seq<int>, n: int)
    requires
        0 <= n <= deg.len(),
    ensures
        leaves_upto(deg, n).no_duplicates(),
        forall|i: int| #[trigger]
            leaves_upto(deg, n).contains(i) <==> (0 <= i < n && deg[i] == 1),
    decreases n,
{
    if n > 0 {
        lemma_leaves(deg, n - 1);
        let b = leaves_upto(deg, n - 1);
        let r = leaves_upto(deg, n);
        assert forall|i: int| #[trigger] r.contains(i) <==> (0 <= i < n && deg[i] == 1) by {
            assert(b.contains(i) <==> (0 <= i < n - 1 && deg[i] == 1));
            if deg[n - 1] == 1 {
                assert(r[r.len() - 1] == n - 1);
                if b.contains(i) {
                    assert(r[b.index_of(i)] == i);
                }
                if r.contains(i) {
                    let k = r.index_of(i);
                    if k < b.len() {
                        assert(b[k] == i);
                        assert(b.contains(i));
                    }
                }
            }
        }
        if deg[n - 1] == 1 {
            assert(!b.contains(n - 1));
        }
    }
}

proof fn lemma_insert_degree(deg: Seq<int>, s: Seq<int>, i: int)
    requires
        s.no_duplicates(),
        !s.contains(i),
    ensures
        insert_by_degree(deg, s, i).no_duplicates(),
        forall|j: int| #[trigger]
            insert_by_degree(deg, s, i).contains(j) <==> (s.contains(j) || j == i),
    decreases s.len(),
{
    let r = insert_by_degree(deg, s, i);
    if s.len() > 0 && deg[s.last()] < deg[i] {
        let d = s.drop_last();
        assert(!d.contains(i)) by {
            if d.contains(i) {
                assert(s[d.index_of(i)] == i);
            }
        }
        lemma_insert_degree(deg, d, i);
        let e = insert_by_degree(deg, d, i);
        assert(!e.contains(s.last())) by {
            if e.contains(s.last()) {
                if d.contains(s.last()) {
                    assert(s[d.index_of(s.last())] == s[s.len() - 1]);
                } else {
                    assert(s[s.len() - 1] == i);
                }
            }
        }
        assert forall|j: int| #[trigger] r.contains(j) <==> (s.contains(j) || j == i) by {
            if r.contains(j) {
                let k = r.index_of(j);
                if k < e.len() {
                    assert(e[k] == j);
                    assert(e.contains(j));
                    if d.contains(j) {
                        assert(s[d.index_of(j)] == j);
                    }
                } else {
                    assert(s[s.len() - 1] == j);
                }
            }
            if s.contains(j) || j == i {
                if s.contains(j) && s.index_of(j) == s.len() - 1 {
                    assert(r[r.len() - 1] == j);
                } else {
                    if s.contains(j) {
                        assert(d[s.index_of(j)] == j);
                    }
                    assert(e.contains(j));
                    assert(r[e.index_of(j)] == j);
                }
            }
        }
    } else {
        assert forall|j: int| #[trigger] r.contains(j) <==> (s.contains(j) || j == i) by {
            if s.contains(j) {
                assert(r[s.index_of(j)] == j);
            }
            if j == i {
                assert(r[r.len() - 1] == j);
            }
            if r.contains(j) {
                let k = r.index_of(j);
                if k < s.len() {
                    assert(s[k] == j);
                }
            }
        }
    }
}

pub(crate) proof fn lemma_spill(deg: Seq<int>, n: int)
    requires
        0 <= n <= deg.len(),
    ensures
        spill_upto(deg, n).no_duplicates(),
        forall|i: int| #[trigger]
            spill_upto(deg, n).contains(i) <==> (0 <= i < n && deg[i] != 1),
    decreases n,
{
    if n > 0 {
        lemma_spill(deg, n - 1);
        if deg[n - 1] != 1 {
            lemma_insert_degree(deg, spill_upto(deg, n - 1), n - 1);
        }
        assert forall|i: int| #[trigger]
            spill_upto(deg, n).contains(i) <==> (0 <= i < n && deg[i] != 1) by {
            assert(spill_upto(deg, n - 1).contains(i) <==> (0 <= i < n - 1 && deg[i] != 1));
            if deg[n - 1] != 1 {
                assert(insert_by_degree(deg, spill_upto(deg, n - 1), n - 1).contains(i) <==> (
                spill_upto(deg, n - 1).contains(i) || i == n - 1));
            }
        }
    }
}

/// Every node is one seat.
pub proof fn seats_are_the_nodes(deg: Seq<int>)
    ensures
        seats(deg).no_duplicates(),
        seats(deg).len() == deg.len(),
        forall|i: int| #[trigger] seats(deg).contains(i) <==> 0 <= i < deg.len(),
{
    let n = deg.len() as int;
    lemma_leaves(deg, n);
    lemma_spill(deg, n);
    let l = leaves_upto(deg, n);
    let s = spill_upto(deg, n);
    let all = seats(deg);
    assert forall|i: int| #[trigger] all.contains(i) <==> 0 <= i < n by {
        if 0 <= i < n {
            if deg[i] == 1 {
                assert(l.contains(i));
                assert(all[l.index_of(i)] == i);
            } else {
                assert(s.contains(i));
                assert(all[l.len() + s.index_of(i)] == i);
            }
        }
        if all.contains(i) {
            let k = all.index_of(i);
            if k < l.len() {
                assert(l[k] == i);
                assert(l.contains(i));
            } else {
                assert(s[k - l.len()] == i);
                assert(s.contains(i));
            }
        }
    }
    assert forall|i: int, j: int|
        0 <= i < all.len() && 0 <= j < all.len() && i != j implies all[i] != all[j] by {
        if i < l.len() && j >= l.len() {
            assert(l.contains(all[i]));
            assert(s[j - l.len()] == all[j]);
            assert(s.contains(all[j]));
        }
        if j < l.len() && i >= l.len() {
            assert(l.contains(all[j]));
            assert(s[i - l.len()] == all[i]);
            assert(s.contains(all[i]));
        }
    }
    lemma_full(all, n);
}

proof fn lemma_full(s: Seq<int>, n: int)
    requires
        0 <= n,
        s.no_duplicates(),
        forall|i: int| #[trigger] s.contains(i) <==> 0 <= i < n,
    ensures
        s.len() == n,
{
    s.unique_seq_to_set();
    vstd::set_lib::lemma_int_range(0, n);
    assert(s.to_set() =~= vstd::set_lib::set_int_range(0, n));
}

spec fn wide_ints(v: Seq<u128>) -> Seq<int> {
    Seq::new(v.len(), |i: int| v[i] as int)
}

proof fn lemma_degree_bound(edges: Seq<(int, int)>, i: int, n: int)
    requires
        0 <= n,
    ensures
        0 <= degree_upto(edges, i, n) <= 2 * n,
    decreases n,
{
    if n > 0 {
        lemma_degree_bound(edges, i, n - 1);
    }
}

fn degrees_of<N: Real>(n: usize, edges: &Vec<RcEdge<N>>) -> (r: Vec<u128>)
    requires
        graph::within(ends(edges_view(edges@)), n as int),
    ensures
        wide_ints(r@) == degrees(ends(edges_view(edges@)), n as int),
{
    let ghost ev = ends(edges_view(edges@));
    let mut deg: Vec<u128> = Vec::new();
    for i in 0..n
        invariant
            deg@.len() == i,
            forall|j: int| 0 <= j < i ==> deg@[j] == 0,
    {
        deg.push(0);
    }
    for k in 0..edges.len()
        invariant
            deg@.len() == n,
            ev == ends(edges_view(edges@)),
            graph::within(ev, n as int),
            forall|j: int| 0 <= j < n ==> deg@[j] == degree_upto(ev, j, k as int),
    {
        let (a, b) = (edges[k].a, edges[k].b);
        assert(ev[k as int] == (a as int, b as int));
        proof {
            lemma_degree_bound(ev, a as int, k as int);
            lemma_degree_bound(ev, b as int, k as int);
        }
        let da: u128 = deg[a];
        deg[a] = da + 1;
        let db: u128 = deg[b];
        deg[b] = db + 1;
    }
    assert(wide_ints(deg@) == degrees(ev, n as int));
    deg
}

proof fn lemma_insert_degree_at(deg: Seq<int>, s: Seq<int>, i: int, k: int)
    requires
        0 <= k <= s.len(),
        forall|j: int| k <= j < s.len() ==> deg[#[trigger] s[j]] < deg[i],
        k > 0 ==> deg[s[k - 1]] >= deg[i],
    ensures
        insert_by_degree(deg, s, i) == s.insert(k, i),
    decreases s.len(),
{
    if k < s.len() {
        lemma_insert_degree_at(deg, s.drop_last(), i, k);
        assert(s.drop_last().insert(k, i).push(s.last()) == s.insert(k, i));
    } else {
        assert(s.push(i) == s.insert(k, i));
    }
}

spec fn ints(v: Seq<usize>) -> Seq<int> {
    Seq::new(v.len(), |i: int| v[i] as int)
}

/// The nodes in the order in which pins take them.
fn seats_of(deg: &Vec<u128>) -> (r: Vec<usize>)
    ensures
        ints(r@) == seats(wide_ints(deg@)),
{
    let ghost dv = wide_ints(deg@);
    let mut out: Vec<usize> = Vec::new();
    let mut spill: Vec<usize> = Vec::new();
    assert(ints(out@) == Seq::<int>::empty());
    for i in 0..deg.len()
        invariant
            dv == wide_ints(deg@),
            ints(out@) == leaves_upto(dv, i as int),
            ints(spill@) == spill_upto(dv, i as int),
            forall|j: int| 0 <= j < spill@.len() ==> spill@[j] < i,
    {
        assert(dv[i as int] == deg@[i as int]);
        if deg[i] == 1 {
            let ghost before = ints(out@);
            out.push(i);
            assert(ints(out@) == before.push(i as int));
        } else {
            let ghost sv = ints(spill@);
            let mut k: usize = spill.len();
            while k > 0 && deg[spill[k - 1]] < deg[i]
                invariant
                    k <= spill@.len(),
                    i < deg@.len(),
                    dv == wide_ints(deg@),
                    sv == ints(spill@),
                    forall|j: int| 0 <= j < spill@.len() ==> spill@[j] < i,
                    forall|j: int| k <= j < sv.len() ==> dv[#[trigger] sv[j]] < dv[i as int],
                decreases k,
            {
                assert(sv[k - 1] == spill@[k - 1]);
                k = k - 1;
            }
            proof {
                if k > 0 {
                    assert(sv[k - 1] == spill@[k - 1]);
                }
                lemma_insert_degree_at(dv, sv, i as int, k as int);
            }
            spill.insert(k, i);
            assert(ints(spill@) == sv.insert(k as int, i as int));
        }
    }
    let ghost lv = ints(out@);
    for i in 0..spill.len()
        invariant
            ints(out@) == lv + ints(spill@).take(i as int),
    {
        let ghost before = ints(out@);
        out.push(spill[i]);
        assert(ints(out@) == before.push(ints(spill@)[i as int]));
        assert(lv + ints(spill@).take(i + 1) == (lv + ints(spill@).take(i as int)).push(
            ints(spill@)[i as int],
        ));
    }
    assert(ints(spill@).take(spill@.len() as int) == ints(spill@));
    out
}

/// Binds the pins to the nodes of a finished wiring.
fn nodes_of<N: Real>(caps: &Vec<N>, order: &Vec<usize>, pins: &Vec<(String, String)>) -> (r: Vec<
    RcNode<N>,
>)
    requires
        order@.len() == caps@.len(),
        pins@.len() <= caps@.len(),
        ints(order@).no_duplicates(),
        forall|i: int| 0 <= i < order@.len() ==> order@[i] < caps@.len(),
    ensures
        nodes_view(r@) == Seq::new(
            caps@.len(),
            |i: int|
                NodeView {
                    cap: caps@[i],
                    pin: seated(ints(order@), geom::pins_view(pins@), i),
                },
        ),
{
    let ghost ov = ints(order@);
    let ghost pv = geom::pins_view(pins@);
    let mut nodes: Vec<RcNode<N>> = Vec::new();
    for i in 0..caps.len()
        invariant
            nodes@.len() == i,
            forall|j: int| 0 <= j < i ==> (#[trigger] nodes@[j]).cap_ff == caps@[j],
            forall|j: int| 0 <= j < i ==> (#[trigger] nodes@[j]).pin is None,
    {
        nodes.push(RcNode { cap_ff: caps[i], pin: None });
    }
    assert forall|j: int| 0 <= j < nodes@.len() implies (#[trigger] nodes@[j])@.pin == seated(
        ov,
        pv.take(0),
        j,
    ) by {}
    for k in 0..pins.len()
        invariant
            ov == ints(order@),
            pv == geom::pins_view(pins@),
            nodes@.len() == caps@.len(),
            order@.len() == caps@.len(),
            pins@.len() <= caps@.len(),
            ov.no_duplicates(),
            forall|i: int| 0 <= i < order@.len() ==> order@[i] < caps@.len(),
            forall|j: int| 0 <= j < nodes@.len() ==> (#[trigger] nodes@[j]).cap_ff == caps@[j],
            forall|j: int|
                0 <= j < nodes@.len() ==> (#[trigger] nodes@[j])@.pin == seated(
                    ov,
                    pv.take(k as int),
                    j,
                ),
    {
        let at: usize = order[k];
        let ghost before = nodes@;
        let cap_ff: N = nodes[at].cap_ff;
        let node = RcNode { cap_ff, pin: Some((pins[k].0.clone(), pins[k].1.clone())) };
        let ghost nv = node@;
        nodes[at] = node;
        proof {
            let s0 = ov.take(k as int);
            let s1 = ov.take(k + 1);
            assert(pv.take(k as int).len() == k && pv.take(k + 1).len() == k + 1);
            assert(s1 == s0.push(ov[k as int]));
            assert(ov[k as int] == at);
            assert forall|j: int| 0 <= j < nodes@.len() implies (#[trigger] nodes@[j])@.pin
                == seated(ov, pv.take(k + 1), j) by {
                if j == at {
                    assert(s1[k as int] == j);
                    assert(s1.contains(j));
                    assert(s1.index_of(j) == k);
                    assert(pv.take(k + 1)[k as int] == pv[k as int]);
                    assert(nodes@[j]@ == nv);
                } else {
                    assert(nodes@[j] == before[j]);
                    assert(before[j]@.pin == seated(ov, pv.take(k as int), j));
                    if s1.contains(j) {
                        let m = s1.index_of(j);
                        assert(s0[m] == j);
                        assert(s0.contains(j));
                        assert(s0.index_of(j) == m);
                        assert(pv.take(k + 1)[m] == pv.take(k as int)[m]);
                    }
                    if s0.contains(j) {
                        assert(s1[s0.index_of(j)] == j);
                    }
                }
            }
        }
    }
    assert(pv.take(pins@.len() as int) == pv);
    assert(nodes_view(nodes@) == Seq::new(
        caps@.len(),
        |i: int| NodeView { cap: caps@[i], pin: seated(ov, pv, i) },
    ));
    nodes
}

fn sum_ohms<N: Real>(edges: &Vec<RcEdge<N>>) -> (r: N)
    ensures
        r == number::total(ohms(edges_view(edges@))),
{
    let mut list: Vec<N> = Vec::new();
    for i in 0..edges.len()
        invariant
            list@.len() == i,
            forall|j: int| 0 <= j < i ==> list@[j] == edges@[j].res_ohm,
    {
        list.push(edges[i].res_ohm);
    }
    assert(list@ == ohms(edges_view(edges@)));
    number::total_of(&list)
}

/// Builds the network of a net.
pub fn build_network<N: Real>(
    net: &DefNet,
    rules: &RcRules<N>,
    widths: &StrMap<N>,
    via_layers: &StrMap<Vec<String>>,
) -> (r: Outcome<N>)
    ensures
        r@ == outcome(net@, rules@, widths@, named_layers(via_layers@)),
{
    let ghost nv = net@;
    let segs = junction::runs_of(&net.segments);
    let mut places: Vec<(i64, i64)> = Vec::new();
    for i in 0..net.via_points.len()
        invariant
            places@.len() == i,
            forall|j: int|
                0 <= j < i ==> (#[trigger] places@[j]).0 == junction::nearest_nm(
                    net.via_points@[j].x as int,
                ) && places@[j].1 == junction::nearest_nm(net.via_points@[j].y as int)
                    && junction::in_range(places@[j].0 as int) && junction::in_range(
                    places@[j].1 as int,
                ),
    {
        places.push((junction::qkey(net.via_points[i].x), junction::qkey(net.via_points[i].y)));
    }
    assert(junction::points(places@) == junction::via_places(nv.via_points));
    let pieces = junction::split_at_junctions(&segs, &places);
    let ghost ps = junction::runs(pieces@);
    let mut b: Builder<N> = Builder::new();
    for i in 0..pieces.len()
        invariant
            sound(b.wiring()),
            ps == junction::runs(pieces@),
            ps == junction::split(
                junction::net_runs(nv.segments),
                junction::via_places(nv.via_points),
            ),
            nv == net@,
            forall|j: int| 0 <= j < pieces@.len() ==> junction::run_in_range((#[trigger] pieces@[j])@),
            lay_upto(ps, i as int, rules@, widths@) == Some(b.wiring()),
    {
        assert(ps[i as int] == pieces@[i as int]@);
        assert(junction::run_in_range(pieces@[i as int]@));
        if !b.lay(&pieces[i], rules, widths) {
            proof {
                lemma_lay_stuck(ps, i + 1, ps.len() as int, rules@, widths@);
            }
            return Outcome::NoGeometry;
        }
    }
    b.land(&net.via_points, &places, rules);
    let ohm: N = number::greater_of(rules.via_res, number::zero_of());
    if net.via_points.len() == 0 {
        b.stack_all(ohm);
    } else {
        b.drop_all(&net.via_points, &places, via_layers, ohm);
    }
    let ghost w = b.wiring();
    let n: usize = b.keys.len();
    if n < 2 || b.edges.len() == 0 {
        return Outcome::NoGeometry;
    }
    let p: usize = pieces_of(n, &b.edges);
    if p > 1 {
        return Outcome::Disconnected { pieces: p };
    }
    if net.pins.len() > n {
        return Outcome::NoGeometry;
    }
    let deg = degrees_of(n, &b.edges);
    let order = seats_of(&deg);
    proof {
        seats_are_the_nodes(wide_ints(deg@));
        assert forall|i: int| 0 <= i < order@.len() implies order@[i] < n by {
            assert(ints(order@)[i] == order@[i]);
            assert(ints(order@).contains(order@[i] as int));
        }
        assert(ints(order@).len() == order@.len());
    }
    let nodes = nodes_of(&b.caps, &order, &net.pins);
    let raw_cap: N = number::total_of(&b.caps);
    let raw_res: N = sum_ohms(&b.edges);
    let t = RcNetwork { nodes, edges: b.edges, raw_cap, raw_res };
    assert(t@ == network(w, nv.pins));
    Outcome::Built(t)
}

proof fn lemma_lay_stuck<N: Real>(
    ps: Seq<RunView>,
    i: int,
    n: int,
    rules: RulesView<N>,
    widths: Map<Seq<char>, N>,
)
    requires
        0 < i <= n,
        lay_upto(ps, i, rules, widths) is None,
    ensures
        lay_upto(ps, n, rules, widths) is None,
    decreases n - i,
{
    if i < n {
        lemma_lay_stuck(ps, i, n - 1, rules, widths);
    }
}

} // verus!

//! The network of a net against its lumped values: cutting wire where it meets
//! other wire neither adds capacitance nor resistance nor loses any, where arithmetic
//! is exact; `cutting` says what it costs in decimal fixed point.
use crate::balance;
use crate::def::{NetView, SegmentView, ViaView};
use crate::junction;
use crate::junction::RunView;
use crate::number;
use crate::number::Real;
use crate::rc;
use crate::rules;
use crate::rules::RulesView;
use crate::text;
use crate::tree;
use crate::tree::{EdgeView, OutcomeView, Wiring};
use vstd::prelude::*;

verus! {

/// The grounded capacitance of a run.
pub(crate) open spec fn run_cap<N: Real>(run: RunView, r: RulesView<N>) -> N {
    tree::run_len::<N>(run).spec_times(r.layers[run.layer].cap_per_um)
}

/// The resistance of a run.
pub(crate) open spec fn run_res<N: Real>(run: RunView, r: RulesView<N>, widths: Map<Seq<char>, N>) -> N {
    rules::wire_res(r, run.layer, tree::run_len::<N>(run), tree::run_width(run, widths))->0
}

pub(crate) open spec fn run_caps<N: Real>(s: Seq<RunView>, r: RulesView<N>) -> Seq<N> {
    Seq::new(s.len(), |i: int| run_cap(s[i], r))
}

pub(crate) open spec fn run_ress<N: Real>(s: Seq<RunView>, r: RulesView<N>, widths: Map<Seq<char>, N>) -> Seq<N> {
    Seq::new(s.len(), |i: int| run_res(s[i], r, widths))
}

/// Whether every run is on a layer that the deck has a rule for.
pub(crate) open spec fn ruled<N: Real>(s: Seq<RunView>, r: RulesView<N>) -> bool {
    forall|i: int| 0 <= i < s.len() ==> r.layers.contains_key((#[trigger] s[i]).layer)
}

proof fn lemma_total_update<N: Real>(s: Seq<N>, i: int, x: N)
    requires
        balance::exact::<N>(),
        0 <= i < s.len(),
    ensures
        number::total(s.update(i, s[i].spec_plus(x))) == number::total(s).spec_plus(x),
    decreases s.len(),
{
    let t = s.update(i, s[i].spec_plus(x));
    let before = number::total(s.drop_last());
    if i == s.len() - 1 {
        assert(t.drop_last() == s.drop_last());
        balance::lemma_regroup(before, s[i], x);
    } else {
        let u = s.drop_last();
        lemma_total_update(u, i, x);
        assert(t.drop_last() == u.update(i, u[i].spec_plus(x)));
        assert(t.last() == s.last());
        balance::lemma_regroup(before, x, s.last());
        balance::lemma_reorder(x, s.last());
        balance::lemma_regroup(before, s.last(), x);
    }
}

proof fn lemma_node<N: Real>(w: Wiring<N>, k: (int, int, Seq<char>))
    requires
        balance::exact::<N>(),
        tree::sound(w),
    ensures
        tree::sound(tree::with_node(w, k)),
        number::total(tree::with_node(w, k).caps) == number::total(w.caps),
        tree::with_node(w, k).edges == w.edges,
        tree::with_node(w, k).keys.contains(k),
        forall|q: (int, int, Seq<char>)|
            w.keys.contains(q) ==> #[trigger] tree::with_node(w, k).keys.contains(q),
{
    tree::lemma_with_node(w, k);
    let g = tree::with_node(w, k);
    if !w.keys.contains(k) {
        assert(g.caps.drop_last() == w.caps);
        balance::lemma_zero(number::total(w.caps));
        assert(g.keys[w.keys.len() as int] == k);
        assert forall|q: (int, int, Seq<char>)| w.keys.contains(q) implies #[trigger] g.keys.contains(
            q,
        ) by {
            assert(g.keys[w.keys.index_of(q)] == q);
        }
    }
}

proof fn lemma_no_length<N: Real>(run: RunView, r: RulesView<N>, widths: Map<Seq<char>, N>)
    requires
        balance::exact::<N>(),
        run.a == run.b,
        r.layers.contains_key(run.layer),
    ensures
        run_res(run, r, widths) == number::zero::<N>(),
{
    assert(tree::run_len::<N>(run) == number::zero::<N>());
    balance::lemma_zero(r.layers[run.layer].res_per_um);
    if r.rsheet.contains_key(run.layer) {
        balance::lemma_zero(r.rsheet[run.layer]);
        let w = tree::run_width(run, widths);
        if number::positive(w) {
            balance::lemma_spread_over(number::zero::<N>(), number::zero::<N>(), w);
        }
    }
}

/// A piece of wire adds its capacitance and its resistance to a wiring.
proof fn lemma_lay<N: Real>(
    w: Wiring<N>,
    run: RunView,
    r: RulesView<N>,
    widths: Map<Seq<char>, N>,
)
    requires
        balance::exact::<N>(),
        tree::sound(w),
        r.layers.contains_key(run.layer),
    ensures
        tree::lay(w, run, r, widths) matches Some(g) && tree::sound(g) && number::total(g.caps)
            == number::total(w.caps).spec_plus(run_cap(run, r)) && number::total(
            tree::ohms(g.edges),
        ) == number::total(tree::ohms(w.edges)).spec_plus(run_res(run, r, widths)),
{
    let (ka, kb) = ((run.a.0, run.a.1, run.layer), (run.b.0, run.b.1, run.layer));
    lemma_node(w, ka);
    let h = tree::with_node(w, ka);
    lemma_node(h, kb);
    let g = tree::with_node(h, kb);
    assert(g.keys.contains(ka) && g.keys.contains(kb));
    let (a, b) = (g.keys.index_of(ka), g.keys.index_of(kb));
    let x = run_cap(run, r);
    let half = x.spec_over(N::spec_count(2));
    let once = g.caps.update(a, g.caps[a].spec_plus(half));
    let twice = once.update(b, once[b].spec_plus(half));
    lemma_total_update(g.caps, a, half);
    lemma_total_update(once, b, half);
    balance::lemma_regroup(number::total(g.caps), half, half);
    balance::lemma_two_halves(x);
    let out = tree::lay(w, run, r, widths)->0;
    assert(out.caps == twice);
    assert(out.keys == g.keys);
    if a != b {
        let e = EdgeView { a, b, res: run_res(run, r, widths) };
        assert(out.edges == g.edges.push(e));
        assert(tree::ohms(out.edges).drop_last() == tree::ohms(g.edges));
        assert(tree::ohms(out.edges).last() == e.res);
        tree::lemma_push_edge(g, e);
    } else {
        assert(ka == kb);
        lemma_no_length(run, r, widths);
        balance::lemma_zero(number::total(tree::ohms(g.edges)));
    }
}

proof fn lemma_lays<N: Real>(
    ps: Seq<RunView>,
    n: int,
    r: RulesView<N>,
    widths: Map<Seq<char>, N>,
)
    requires
        balance::exact::<N>(),
        0 <= n <= ps.len(),
        tree::lay_upto(ps, n, r, widths) is Some,
    ensures
        ruled(ps.take(n), r),
        ({
            let w = tree::lay_upto(ps, n, r, widths)->0;
            &&& tree::sound(w)
            &&& number::total(w.caps) == number::total(run_caps(ps.take(n), r))
            &&& number::total(tree::ohms(w.edges)) == number::total(
                run_ress(ps.take(n), r, widths),
            )
        }),
    decreases n,
{
    if n == 0 {
        let w = tree::lay_upto(ps, 0, r, widths)->0;
        assert(run_caps(ps.take(0), r) == Seq::<N>::empty());
        assert(run_ress(ps.take(0), r, widths) == Seq::<N>::empty());
        assert(tree::ohms(w.edges) == Seq::<N>::empty());
        assert(tree::ends(w.edges).len() == 0);
    } else {
        lemma_lays(ps, n - 1, r, widths);
        let w = tree::lay_upto(ps, n - 1, r, widths)->0;
        lemma_lay(w, ps[n - 1], r, widths);
        assert(run_caps(ps.take(n), r).drop_last() == run_caps(ps.take(n - 1), r));
        assert(run_ress(ps.take(n), r, widths).drop_last() == run_ress(ps.take(n - 1), r, widths));
        assert forall|i: int| 0 <= i < n implies r.layers.contains_key(
            (#[trigger] ps.take(n)[i]).layer,
        ) by {
            if i < n - 1 {
                assert(ps.take(n - 1)[i] == ps[i]);
            }
        }
    }
}

/// Runs of one layer and width, by what they are together.
proof fn lemma_alike<N: Real>(
    s: Seq<RunView>,
    run: RunView,
    r: RulesView<N>,
    widths: Map<Seq<char>, N>,
)
    requires
        balance::exact::<N>(),
        r.layers.contains_key(run.layer),
        forall|i: int|
            0 <= i < s.len() ==> (#[trigger] s[i]).layer == run.layer && s[i].width == run.width,
    ensures
        number::total(run_caps(s, r)) == N::spec_micro(junction::total_len(s) * 1000).spec_times(
            r.layers[run.layer].cap_per_um,
        ),
        number::total(run_ress(s, r, widths)) == rules::wire_res(
            r,
            run.layer,
            N::spec_micro(junction::total_len(s) * 1000),
            tree::run_width(run, widths),
        )->0,
    decreases s.len(),
{
    let k = r.layers[run.layer];
    let w = tree::run_width(run, widths);
    if s.len() == 0 {
        balance::lemma_zero(k.cap_per_um);
        balance::lemma_zero(k.res_per_um);
        if r.rsheet.contains_key(run.layer) {
            balance::lemma_zero(r.rsheet[run.layer]);
            if number::positive(w) {
                balance::lemma_spread_over(number::zero::<N>(), number::zero::<N>(), w);
            }
        }
        assert(run_caps(s, r) == Seq::<N>::empty());
        assert(run_ress(s, r, widths) == Seq::<N>::empty());
    } else {
        let t = s.drop_last();
        lemma_alike(t, run, r, widths);
        assert(run_caps(s, r).drop_last() == run_caps(t, r));
        assert(run_ress(s, r, widths).drop_last() == run_ress(t, r, widths));
        let (m, n) = (junction::total_len(t) * 1000, s.last().len() * 1000);
        let (a, b) = (N::spec_micro(m), N::spec_micro(n));
        assert(s.last() == s[s.len() - 1]);
        assert(m + n == junction::total_len(s) * 1000);
        balance::lemma_lengths::<N>(m, n);
        balance::lemma_spread(a, b, k.cap_per_um);
        balance::lemma_spread(a, b, k.res_per_um);
        if r.rsheet.contains_key(run.layer) {
            let q = r.rsheet[run.layer];
            balance::lemma_spread_left(q, a, b);
            if number::positive(w) {
                balance::lemma_spread_over(q.spec_times(a), q.spec_times(b), w);
            }
        }
    }
}

/// The pieces of runs carry what the runs carry.
proof fn lemma_split<N: Real>(
    s: Seq<RunView>,
    vias: Seq<(int, int)>,
    n: int,
    r: RulesView<N>,
    widths: Map<Seq<char>, N>,
)
    requires
        balance::exact::<N>(),
        0 <= n <= s.len(),
        ruled(junction::split_upto(s, vias, n), r),
    ensures
        ruled(s.take(n), r),
        number::total(run_caps(junction::split_upto(s, vias, n), r)) == number::total(
            run_caps(s.take(n), r),
        ),
        number::total(run_ress(junction::split_upto(s, vias, n), r, widths)) == number::total(
            run_ress(s.take(n), r, widths),
        ),
    decreases n,
{
    if n == 0 {
        assert(run_caps(s.take(0), r) == run_caps(junction::split_upto(s, vias, 0), r));
        assert(run_ress(s.take(0), r, widths) == run_ress(
            junction::split_upto(s, vias, 0),
            r,
            widths,
        ));
    } else {
        let run = s[n - 1];
        let c = junction::cuts(s, vias, run);
        let before = junction::split_upto(s, vias, n - 1);
        let ps = junction::pieces(run, c);
        let all = junction::split_upto(s, vias, n);
        assert(all == before + ps);
        assert forall|i: int| 0 <= i < before.len() implies r.layers.contains_key(
            (#[trigger] before[i]).layer,
        ) by {
            assert(all[i] == before[i]);
        }
        assert(all[before.len() as int] == ps[0]);
        assert(ps[0].layer == run.layer);
        lemma_split(s, vias, n - 1, r, widths);
        junction::cuts_are_the_candidates_inside(s, vias, run);
        junction::lemma_pieces_len(run, c);
        lemma_alike(ps, run, r, widths);
        assert(run_caps(all, r) == run_caps(before, r) + run_caps(ps, r));
        assert(run_ress(all, r, widths) == run_ress(before, r, widths) + run_ress(ps, r, widths));
        balance::lemma_total_append(run_caps(before, r), run_caps(ps, r));
        balance::lemma_total_append(run_ress(before, r, widths), run_ress(ps, r, widths));
        assert(run_caps(s.take(n), r).drop_last() == run_caps(s.take(n - 1), r));
        assert(run_ress(s.take(n), r, widths).drop_last() == run_ress(s.take(n - 1), r, widths));
        assert(run_caps(s.take(n), r).last() == run_cap(run, r));
        assert(run_ress(s.take(n), r, widths).last() == run_res(run, r, widths));
        assert forall|i: int| 0 <= i < n implies r.layers.contains_key(
            (#[trigger] s.take(n)[i]).layer,
        ) by {
            if i < n - 1 {
                assert(s.take(n - 1)[i] == s[i]);
            }
        }
    }
}

/// Whether the coordinates of a segment are whole nanometres.
pub open spec fn in_whole_nm(s: SegmentView) -> bool {
    s.x0 % 1000 == 0 && s.y0 % 1000 == 0 && s.x1 % 1000 == 0 && s.y1 % 1000 == 0
}

proof fn lemma_nearest(v: int)
    requires
        v % 1000 == 0,
    ensures
        junction::nearest_nm(v) * 1000 == v,
{
}

/// The runs of segments in whole nanometres carry what the segments carry.
pub(crate) proof fn lemma_runs<N: Real>(
    s: Seq<SegmentView>,
    n: int,
    r: RulesView<N>,
    widths: Map<Seq<char>, N>,
)
    requires
        0 <= n <= s.len(),
        forall|i: int| 0 <= i < s.len() ==> in_whole_nm(#[trigger] s[i]),
    ensures
        number::total(run_caps(junction::net_runs(s).take(n), r)) == rc::wire_cap(s, n, r),
        number::total(run_ress(junction::net_runs(s).take(n), r, widths)) == rc::wire_ohm(
            s,
            n,
            r,
            widths,
        ),
    decreases n,
{
    let runs = junction::net_runs(s);
    if n > 0 {
        lemma_runs(s, n - 1, r, widths);
        assert(run_caps(runs.take(n), r).drop_last() == run_caps(runs.take(n - 1), r));
        assert(run_ress(runs.take(n), r, widths).drop_last() == run_ress(
            runs.take(n - 1),
            r,
            widths,
        ));
        let seg = s[n - 1];
        assert(in_whole_nm(seg));
        lemma_nearest(seg.x0);
        lemma_nearest(seg.y0);
        lemma_nearest(seg.x1);
        lemma_nearest(seg.y1);
        assert(runs[n - 1].len() * 1000 == seg.len());
    }
}

proof fn lemma_lands<N: Real>(w: Wiring<N>, vias: Seq<ViaView>, n: int, r: RulesView<N>)
    requires
        balance::exact::<N>(),
        tree::sound(w),
    ensures
        tree::sound(tree::land_upto(w, vias, n, r)),
        number::total(tree::land_upto(w, vias, n, r).caps) == number::total(w.caps),
        tree::land_upto(w, vias, n, r).edges == w.edges,
    decreases n,
{
    if n > 0 {
        lemma_lands(w, vias, n - 1, r);
        let p = junction::via_places(vias)[n - 1];
        lemma_node(tree::land_upto(w, vias, n - 1, r), (p.0, p.1, vias[n - 1].layer));
    }
}

/// Whether a wiring is another one with resistors of `ohm` after its own.
spec fn only_vias<N: Real>(g: Wiring<N>, w: Wiring<N>, ohm: N) -> bool {
    &&& g.caps == w.caps
    &&& g.edges.len() >= w.edges.len()
    &&& g.edges.take(w.edges.len() as int) == w.edges
    &&& forall|i: int| w.edges.len() <= i < g.edges.len() ==> (#[trigger] g.edges[i]).res == ohm
}

proof fn lemma_join<N: Real>(
    g: Wiring<N>,
    w: Wiring<N>,
    p: (int, int),
    a: Seq<char>,
    b: Seq<char>,
    ohm: N,
)
    requires
        only_vias(g, w, ohm),
    ensures
        only_vias(tree::join(g, p, a, b, ohm), w, ohm),
{
    let h = tree::join(g, p, a, b, ohm);
    assert(h.edges.take(w.edges.len() as int) == g.edges.take(w.edges.len() as int));
    assert forall|i: int| w.edges.len() <= i < h.edges.len() implies (#[trigger] h.edges[i]).res
        == ohm by {
        if i < g.edges.len() {
            assert(h.edges[i] == g.edges[i]);
        }
    }
}

proof fn lemma_stack<N: Real>(
    g: Wiring<N>,
    w: Wiring<N>,
    p: (int, int),
    layers: Seq<Seq<char>>,
    n: int,
    ohm: N,
)
    requires
        only_vias(g, w, ohm),
    ensures
        only_vias(tree::stack(g, p, layers, n, ohm), w, ohm),
    decreases n,
{
    if n > 0 {
        lemma_stack(g, w, p, layers, n - 1, ohm);
        lemma_join(
            tree::stack(g, p, layers, n - 1, ohm),
            w,
            p,
            layers[n - 1],
            layers[n],
            ohm,
        );
    }
}

proof fn lemma_stacks<N: Real>(w: Wiring<N>, places: Seq<(int, int)>, n: int, ohm: N)
    ensures
        only_vias(tree::stack_upto(w, places, n, ohm), w, ohm),
    decreases n,
{
    if n <= 0 {
        assert(w.edges.take(w.edges.len() as int) == w.edges);
    } else {
        lemma_stacks(w, places, n - 1, ohm);
        let layers = tree::layers_at(w.keys, places[n - 1]);
        lemma_stack(
            tree::stack_upto(w, places, n - 1, ohm),
            w,
            places[n - 1],
            layers,
            layers.len() - 1,
            ohm,
        );
    }
}

proof fn lemma_drop<N: Real>(
    g: Wiring<N>,
    w: Wiring<N>,
    p: (int, int),
    vias: Seq<ViaView>,
    n: int,
    via_layers: Map<Seq<char>, Seq<Seq<char>>>,
    ohm: N,
)
    requires
        only_vias(g, w, ohm),
    ensures
        only_vias(tree::drop_at(g, p, vias, n, via_layers, ohm), w, ohm),
    decreases n,
{
    if n > 0 {
        lemma_drop(g, w, p, vias, n - 1, via_layers, ohm);
        let h = tree::drop_at(g, p, vias, n - 1, via_layers, ohm);
        if let Some((a, b)) = tree::via_pair(g.keys, p, vias[n - 1], via_layers) {
            lemma_join(h, w, p, a, b, ohm);
        }
    }
}

proof fn lemma_drops<N: Real>(
    w: Wiring<N>,
    places: Seq<(int, int)>,
    n: int,
    vias: Seq<ViaView>,
    via_layers: Map<Seq<char>, Seq<Seq<char>>>,
    ohm: N,
)
    ensures
        only_vias(tree::drop_upto(w, places, n, vias, via_layers, ohm), w, ohm),
    decreases n,
{
    if n <= 0 {
        assert(w.edges.take(w.edges.len() as int) == w.edges);
    } else {
        lemma_drops(w, places, n - 1, vias, via_layers, ohm);
        lemma_drop(
            tree::drop_upto(w, places, n - 1, vias, via_layers, ohm),
            w,
            places[n - 1],
            vias,
            vias.len() as int,
            via_layers,
            ohm,
        );
    }
}

/// Whether all segments are on one layer.
pub open spec fn on_one_layer(s: Seq<SegmentView>) -> bool {
    forall|i: int, j: int|
        0 <= i < s.len() && 0 <= j < s.len() ==> (#[trigger] s[i]).layer == (
        #[trigger] s[j]).layer
}

/// Whether all nodes are on a layer.
spec fn keys_on(keys: Seq<(int, int, Seq<char>)>, layer: Seq<char>) -> bool {
    forall|i: int| 0 <= i < keys.len() ==> (#[trigger] keys[i]).2 == layer
}

proof fn lemma_keys_on<N: Real>(
    ps: Seq<RunView>,
    n: int,
    r: RulesView<N>,
    widths: Map<Seq<char>, N>,
    layer: Seq<char>,
)
    requires
        0 <= n <= ps.len(),
        forall|i: int| 0 <= i < ps.len() ==> (#[trigger] ps[i]).layer == layer,
    ensures
        tree::lay_upto(ps, n, r, widths) matches Some(w) ==> keys_on(w.keys, layer),
    decreases n,
{
    if n > 0 {
        lemma_keys_on(ps, n - 1, r, widths, layer);
        assert(ps[n - 1].layer == layer);
    }
}

proof fn lemma_split_on(
    s: Seq<RunView>,
    vias: Seq<(int, int)>,
    n: int,
    layer: Seq<char>,
)
    requires
        0 <= n <= s.len(),
        forall|i: int| 0 <= i < s.len() ==> (#[trigger] s[i]).layer == layer,
    ensures
        forall|i: int|
            0 <= i < junction::split_upto(s, vias, n).len() ==> (#[trigger] junction::split_upto(
                s,
                vias,
                n,
            )[i]).layer == layer,
    decreases n,
{
    if n > 0 {
        lemma_split_on(s, vias, n - 1, layer);
        assert(s[n - 1].layer == layer);
        let before = junction::split_upto(s, vias, n - 1);
        let all = junction::split_upto(s, vias, n);
        assert forall|i: int| 0 <= i < all.len() implies (#[trigger] all[i]).layer == layer by {
            if i < before.len() {
                assert(all[i] == before[i]);
            }
        }
    }
}

proof fn lemma_one_layer_at(
    keys: Seq<(int, int, Seq<char>)>,
    p: (int, int),
    n: int,
    layer: Seq<char>,
)
    requires
        0 <= n <= keys.len(),
        keys_on(keys, layer),
    ensures
        tree::layers_upto(keys, p, n).len() <= 1,
        tree::layers_upto(keys, p, n).len() == 1 ==> tree::layers_upto(keys, p, n)[0] == layer,
    decreases n,
{
    if n > 0 {
        lemma_one_layer_at(keys, p, n - 1, layer);
        text::lemma_text_lt_irreflexive(layer);
        assert(keys[n - 1].2 == layer);
    }
}

proof fn lemma_nothing_stacked<N: Real>(
    w: Wiring<N>,
    places: Seq<(int, int)>,
    n: int,
    ohm: N,
    layer: Seq<char>,
)
    requires
        keys_on(w.keys, layer),
    ensures
        tree::stack_upto(w, places, n, ohm) == w,
    decreases n,
{
    if n > 0 {
        lemma_nothing_stacked(w, places, n - 1, ohm, layer);
        lemma_one_layer_at(w.keys, places[n - 1], w.keys.len() as int, layer);
    }
}

/// Equal values, as many as `n`.
pub open spec fn copies<N: Real>(v: N, n: nat) -> Seq<N> {
    Seq::new(n, |i: int| v)
}

pub(crate) proof fn lemma_unruled<N: Real>(s: Seq<SegmentView>, i: int, r: RulesView<N>)
    requires
        0 <= i <= s.len(),
        ruled(junction::net_runs(s), r),
    ensures
        rc::unruled(s, i, r) is None,
    decreases s.len() - i,
{
    if i < s.len() {
        assert(junction::net_runs(s)[i].layer == s[i].layer);
        lemma_unruled(s, i + 1, r);
    }
}

/// The resistors that join layers follow those of the wire, and add no capacitance.
pub(crate) proof fn lemma_joined<N: Real>(
    net: NetView,
    r: RulesView<N>,
    widths: Map<Seq<char>, N>,
    via_layers: Map<Seq<char>, Seq<Seq<char>>>,
    laid: Wiring<N>,
) -> (vias: nat)
    requires
        ({
            let ps = junction::split(
                junction::net_runs(net.segments),
                junction::via_places(net.via_points),
            );
            tree::lay_upto(ps, ps.len() as int, r, widths) == Some(laid)
        }),
    ensures
        ({
            let landed = tree::land_upto(laid, net.via_points, net.via_points.len() as int, r);
            let w = tree::with_vias(landed, net.via_points, via_layers, tree::via_ohm(r));
            &&& w.caps == landed.caps
            &&& tree::ohms(w.edges) == tree::ohms(landed.edges) + copies(tree::via_ohm(r), vias)
            &&& net.via_points.len() == 0 && on_one_layer(net.segments) ==> vias == 0
        }),
{
    let places = junction::via_places(net.via_points);
    let runs = junction::net_runs(net.segments);
    let ps = junction::split(runs, places);
    let n = ps.len() as int;
    let count = runs.len() as int;
    let ohm = tree::via_ohm(r);
    let landed = tree::land_upto(laid, net.via_points, net.via_points.len() as int, r);
    let w = tree::with_vias(landed, net.via_points, via_layers, ohm);
    if net.via_points.len() == 0 {
        let at = tree::ranked_upto(tree::spots(landed.keys), landed.keys.len() as int);
        lemma_stacks(landed, at, at.len() as int, ohm);
        if on_one_layer(net.segments) {
            let layer = if count > 0 {
                net.segments[0].layer
            } else {
                Seq::empty()
            };
            assert forall|i: int| 0 <= i < runs.len() implies (#[trigger] runs[i]).layer
                == layer by {
                assert(net.segments[i].layer == net.segments[0].layer);
            }
            lemma_split_on(runs, places, count, layer);
            lemma_keys_on(ps, n, r, widths, layer);
            lemma_nothing_stacked(landed, at, at.len() as int, ohm, layer);
        }
    } else {
        let at = tree::ranked_upto(places, net.via_points.len() as int);
        lemma_drops(landed, at, at.len() as int, net.via_points, via_layers, ohm);
    }
    let k = landed.edges.len() as int;
    let vias = (w.edges.len() - k) as nat;
    assert(tree::ohms(w.edges) == tree::ohms(landed.edges) + copies(ohm, vias)) by {
        assert forall|i: int| 0 <= i < w.edges.len() implies #[trigger] tree::ohms(w.edges)[i] == (
        tree::ohms(landed.edges) + copies(ohm, vias))[i] by {
            if i < k {
                assert(w.edges.take(k)[i] == w.edges[i]);
            }
        }
    }
    vias
}

/// The network of a net, before it is scaled, is the net: its capacitances sum to
/// the lumped capacitance, and its resistances to the resistance of the wire and
/// of as many vias as it joins layers by. So cutting wire at taps and vias neither
/// adds to a net nor takes from it. This holds where arithmetic is exact and the
/// wire lies on whole nanometres, as the network does.
pub proof fn a_network_carries_its_net<N: Real>(
    net: NetView,
    r: RulesView<N>,
    widths: Map<Seq<char>, N>,
    via_layers: Map<Seq<char>, Seq<Seq<char>>>,
) -> (vias: nat)
    requires
        balance::exact::<N>(),
        forall|i: int| 0 <= i < net.segments.len() ==> in_whole_nm(#[trigger] net.segments[i]),
    ensures
        tree::outcome(net, r, widths, via_layers) matches OutcomeView::Built(t) ==> {
            &&& rc::lumped(net, r, widths) matches Ok(p) && t.raw_cap == p.cap
            &&& t.raw_res == rc::wire_ohm(
                net.segments,
                net.segments.len() as int,
                r,
                widths,
            ).spec_plus(number::total(copies(tree::via_ohm(r), vias)))
            &&& net.via_points.len() == 0 && on_one_layer(net.segments) ==> vias == 0
        },
{
    match tree::outcome(net, r, widths, via_layers) {
        OutcomeView::Built(t) => {
            let places = junction::via_places(net.via_points);
            let runs = junction::net_runs(net.segments);
            let ps = junction::split(runs, places);
            let n = ps.len() as int;
            let count = runs.len() as int;
            let ohm = tree::via_ohm(r);
            lemma_lays(ps, n, r, widths);
            assert(ps.take(n) == ps);
            lemma_split(runs, places, count, r, widths);
            assert(runs.take(count) == runs);
            lemma_runs(net.segments, count, r, widths);
            lemma_unruled(net.segments, 0, r);
            let laid = tree::lay_upto(ps, n, r, widths)->0;
            lemma_lands(laid, net.via_points, net.via_points.len() as int, r);
            let vias = lemma_joined(net, r, widths, via_layers, laid);
            let landed = tree::land_upto(laid, net.via_points, net.via_points.len() as int, r);
            balance::lemma_total_append(tree::ohms(landed.edges), copies(ohm, vias));
            vias
        },
        _ => 0,
    }
}

/// A stub that taps the wire of a net adds its own capacitance and its own
/// resistance to the network, and nothing else.
pub proof fn a_stub_adds_its_own<N: Real>(
    net: NetView,
    stub: SegmentView,
    r: RulesView<N>,
    widths: Map<Seq<char>, N>,
    via_layers: Map<Seq<char>, Seq<Seq<char>>>,
)
    requires
        balance::exact::<N>(),
        forall|i: int| 0 <= i < net.segments.len() ==> in_whole_nm(#[trigger] net.segments[i]),
        in_whole_nm(stub),
        net.via_points.len() == 0,
        on_one_layer(net.segments.push(stub)),
        tree::outcome(net, r, widths, via_layers) is Built,
        tree::outcome(
            NetView { segments: net.segments.push(stub), ..net },
            r,
            widths,
            via_layers,
        ) is Built,
    ensures
        ({
            let tapped = NetView { segments: net.segments.push(stub), ..net };
            let t = tree::outcome(net, r, widths, via_layers)->Built_0;
            let u = tree::outcome(tapped, r, widths, via_layers)->Built_0;
            let len = N::spec_micro(stub.len());
            &&& u.raw_cap == t.raw_cap.spec_plus(
                len.spec_times(r.layers[stub.layer].cap_per_um),
            )
            &&& u.raw_res == t.raw_res.spec_plus(
                rules::wire_res(r, stub.layer, len, rc::segment_width(stub, widths))->0,
            )
        }),
{
    let s = net.segments;
    let more = s.push(stub);
    let tapped = NetView { segments: more, ..net };
    assert forall|i: int| 0 <= i < more.len() implies in_whole_nm(#[trigger] more[i]) by {
        if i < s.len() {
            assert(more[i] == s[i]);
        }
    }
    assert(on_one_layer(s)) by {
        assert forall|i: int, j: int| 0 <= i < s.len() && 0 <= j < s.len() implies (
        #[trigger] s[i]).layer == (#[trigger] s[j]).layer by {
            assert(more[i] == s[i] && more[j] == s[j]);
        }
    }
    let _ = a_network_carries_its_net(net, r, widths, via_layers);
    let _ = a_network_carries_its_net(tapped, r, widths, via_layers);
    lemma_wire_prefix(s, more, s.len() as int, r, widths);
    let none = copies(tree::via_ohm(r), 0);
    assert(none == Seq::<N>::empty());
    balance::lemma_zero(rc::wire_ohm(s, s.len() as int, r, widths));
    balance::lemma_zero(rc::wire_ohm(more, more.len() as int, r, widths));
}

pub(crate) proof fn lemma_wire_prefix<N: Real>(
    s: Seq<SegmentView>,
    t: Seq<SegmentView>,
    n: int,
    r: RulesView<N>,
    widths: Map<Seq<char>, N>,
)
    requires
        0 <= n <= s.len() <= t.len(),
        forall|i: int| 0 <= i < s.len() ==> s[i] == t[i],
    ensures
        rc::wire_ohm(s, n, r, widths) == rc::wire_ohm(t, n, r, widths),
        rc::wire_cap(s, n, r) == rc::wire_cap(t, n, r),
    decreases n,
{
    if n > 0 {
        lemma_wire_prefix(s, t, n - 1, r, widths);
    }
}

} // verus!

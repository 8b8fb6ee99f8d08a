//! What is said of inputs: which layers are in use, and when a notice asks for attention.
use crate::coverage;
use crate::engine;
use crate::engine::Inputs;
use crate::geom;
use crate::geom::{NetView, SegmentView};
use crate::guard;
use crate::notice;
use crate::number::Real;
use crate::rc::ParasiticsView;
use crate::rules::RulesView;
use crate::strmap;
use crate::tech;
use crate::tree::OutcomeView;
use vstd::prelude::*;

verus! {

/// Whether a net is routed on a layer.
pub open spec fn routed_on(nets: Seq<NetView>, layer: Seq<char>) -> bool {
    exists|i: int, j: int|
        0 <= i < nets.len() && 0 <= j < nets[i].segments.len() && (#[trigger] nets[i].segments[j]).layer
            == layer
}

proof fn lemma_with_layers(m: Map<Seq<char>, ()>, s: Seq<SegmentView>, n: int, layer: Seq<char>)
    requires
        0 <= n <= s.len(),
    ensures
        coverage::with_layers(m, s, n).contains_key(layer) <==> m.contains_key(layer) || exists|j: int|
            0 <= j < n && (#[trigger] s[j]).layer == layer,
    decreases n,
{
    if n > 0 {
        lemma_with_layers(m, s, n - 1, layer);
        if exists|j: int| 0 <= j < n && (#[trigger] s[j]).layer == layer {
            let j = choose|j: int| 0 <= j < n && (#[trigger] s[j]).layer == layer;
            if j < n - 1 {
                assert(s[j].layer == layer);
            }
        }
        if s[n - 1].layer == layer {
            assert(0 <= n - 1 < n);
        }
    }
}

proof fn lemma_used(nets: Seq<NetView>, n: int, layer: Seq<char>)
    requires
        0 <= n <= nets.len(),
    ensures
        coverage::used_upto(nets, n).contains_key(layer) <==> routed_on(nets.take(n), layer),
    decreases n,
{
    if n > 0 {
        lemma_used(nets, n - 1, layer);
        let s = nets[n - 1].segments;
        let before = coverage::used_upto(nets, n - 1);
        lemma_with_layers(before, s, s.len() as int, layer);
        if routed_on(nets.take(n - 1), layer) {
            let (i, j) = choose|i: int, j: int|
                0 <= i < nets.take(n - 1).len() && 0 <= j < nets.take(n - 1)[i].segments.len() && (
                #[trigger] nets.take(n - 1)[i].segments[j]).layer == layer;
            assert(nets.take(n)[i].segments[j].layer == layer);
        }
        if exists|j: int| 0 <= j < s.len() && (#[trigger] s[j]).layer == layer {
            let j = choose|j: int| 0 <= j < s.len() && (#[trigger] s[j]).layer == layer;
            assert(nets.take(n)[n - 1].segments[j].layer == layer);
        }
        if routed_on(nets.take(n), layer) {
            let (i, j) = choose|i: int, j: int|
                0 <= i < nets.take(n).len() && 0 <= j < nets.take(n)[i].segments.len() && (
                #[trigger] nets.take(n)[i].segments[j]).layer == layer;
            if i < n - 1 {
                assert(nets.take(n - 1)[i].segments[j].layer == layer);
            } else {
                assert(s[j].layer == layer);
            }
        }
    }
}

proof fn lemma_unknown<T>(names: Seq<Seq<char>>, m: Map<Seq<char>, T>, n: int, name: Seq<char>)
    requires
        0 <= n <= names.len(),
    ensures
        coverage::unknown_upto(names, m, n).contains(name) <==> !m.contains_key(name)
            && names.take(n).contains(name),
    decreases n,
{
    if n > 0 {
        lemma_unknown(names, m, n - 1, name);
        let before = coverage::unknown_upto(names, m, n - 1);
        let all = coverage::unknown_upto(names, m, n);
        assert(names.take(n) == names.take(n - 1).push(names[n - 1]));
        if before.contains(name) {
            assert(all[before.index_of(name)] == name);
        }
        if names.take(n - 1).contains(name) {
            assert(names.take(n)[names.take(n - 1).index_of(name)] == name);
        }
        if names.take(n).contains(name) {
            let i = names.take(n).index_of(name);
            if i < n - 1 {
                assert(names.take(n - 1)[i] == name);
            }
        }
        if names[n - 1] == name {
            assert(names.take(n)[n - 1] == name);
            if !m.contains_key(name) {
                assert(all[before.len() as int] == name);
            }
        }
        if all.contains(name) {
            let i = all.index_of(name);
            if i < before.len() {
                assert(before[i] == name);
            }
        }
    }
}

/// The layers in use are those that nets are routed on, and those that a table lacks
/// are the ones among them that are not in it.
pub proof fn the_layers_in_use_are_routed_on<T>(
    nets: Seq<NetView>,
    m: Map<Seq<char>, T>,
    layer: Seq<char>,
)
    requires
        strmap::walks(coverage::used(nets), coverage::used_upto(nets, nets.len() as int)),
    ensures
        coverage::used(nets).contains(layer) <==> routed_on(nets, layer),
        coverage::unknown(coverage::used(nets), m).contains(layer) <==> routed_on(nets, layer)
            && !m.contains_key(layer),
{
    let n = nets.len() as int;
    lemma_used(nets, n, layer);
    assert(nets.take(n) == nets);
    let names = coverage::used(nets);
    lemma_unknown(names, m, names.len() as int, layer);
    assert(names.take(names.len() as int) == names);
}

proof fn lemma_routed(nets: Seq<NetView>, n: int)
    requires
        0 <= n <= nets.len(),
    ensures
        coverage::routed_upto(nets, n) <= n,
        coverage::routed_upto(nets, n) == n <==> forall|i: int|
            0 <= i < n ==> (#[trigger] nets[i]).segments.len() > 0,
    decreases n,
{
    if n > 0 {
        lemma_routed(nets, n - 1);
        if nets[n - 1].segments.len() == 0 {
            assert(0 <= n - 1 < n);
        }
    }
}

/// Inputs ask for attention where there is no net, where a net has no routing, and where
/// a net is routed on a layer that the deck has no rule for.
pub proof fn gaps_in_the_inputs_ask_for_attention<N: Real>(i: Inputs<N>)
    requires
        ({
            let nets = geom::nets_view(i.def.nets@);
            strmap::walks(coverage::used(nets), coverage::used_upto(nets, nets.len() as int))
        }),
    ensures
        ({
            let nets = geom::nets_view(i.def.nets@);
            let notices = coverage::input_notices(i);
            &&& notices.len() == 2
            &&& notices[0].attention <==> nets.len() == 0 || exists|k: int|
                0 <= k < nets.len() && (#[trigger] nets[k]).segments.len() == 0
            &&& notices[1].attention <==> exists|layer: Seq<char>| #[trigger]
                routed_on(nets, layer) && !i.rules@.layers.contains_key(layer)
        }),
{
    let nets = geom::nets_view(i.def.nets@);
    let n = nets.len() as int;
    lemma_routed(nets, n);
    let names = coverage::used(nets);
    let gaps = coverage::unknown(names, i.rules@.layers);
    if gaps.len() > 0 {
        the_layers_in_use_are_routed_on(nets, i.rules@.layers, gaps[0]);
        assert(gaps.contains(gaps[0]));
        assert(routed_on(nets, gaps[0]));
    }
    if exists|layer: Seq<char>| #[trigger]
        routed_on(nets, layer) && !i.rules@.layers.contains_key(layer) {
        let layer = choose|layer: Seq<char>| #[trigger]
            routed_on(nets, layer) && !i.rules@.layers.contains_key(layer);
        the_layers_in_use_are_routed_on(nets, i.rules@.layers, layer);
        assert(gaps.contains(layer));
    }
}

/// A deck is run over without a word just where each of its layers has a capacitance
/// and a resistance, be it by length or by the square; otherwise it is refused, unless
/// that is allowed.
pub proof fn a_deck_is_refused_for_its_gaps<N: Real>(
    path: Seq<char>,
    r: RulesView<N>,
    allowed: bool,
)
    requires
        strmap::walks(strmap::walk(r.layers), r.layers),
    ensures
        ({
            let zero = N::spec_micro(0);
            let full = forall|name: Seq<char>| #[trigger]
                r.layers.contains_key(name) ==> !r.layers[name].cap_per_um.spec_same(zero) && (
                !r.layers[name].res_per_um.spec_same(zero) || r.rsheet.contains_key(name)
                    && !r.rsheet[name].spec_same(zero));
            let g = guard::guarded(path, r, allowed);
            &&& g.refusal is Some <==> !full && !allowed
            &&& g.note is Some <==> !full
            &&& g.warnings.len() > 0 <==> !full
        }),
{
    let (a, b) = (tech::no_res(r), tech::no_cap(r));
    let zero = N::spec_micro(0);
    if a.len() > 0 {
        tech::every_gap_is_named(r, a[0]);
        assert(a.contains(a[0]));
    }
    if b.len() > 0 {
        tech::every_gap_is_named(r, b[0]);
        assert(b.contains(b[0]));
    }
    if a.len() == 0 && b.len() == 0 {
        assert forall|name: Seq<char>| #[trigger] r.layers.contains_key(name) implies {
            let l = r.layers[name];
            !l.cap_per_um.spec_same(zero) && (!l.res_per_um.spec_same(zero)
                || r.rsheet.contains_key(name) && !r.rsheet[name].spec_same(zero))
        } by {
            tech::every_gap_is_named(r, name);
            assert(!a.contains(name) && !b.contains(name));
        }
    }
}

/// The nets that are named as disconnected are those whose geometry is in pieces, and
/// there is a notice of them just where there are any.
pub proof fn every_net_in_pieces_is_named<N: Real>(
    nets: Seq<NetView>,
    o: Seq<OutcomeView<N>>,
    total: nat,
)
    requires
        nets.len() == o.len(),
    ensures
        ({
            let names = engine::disconnected_upto(nets, o, nets.len() as int);
            &&& forall|i: int|
                0 <= i < nets.len() && (#[trigger] o[i]) is Disconnected ==> names.contains(
                    nets[i].name,
                )
            &&& forall|k: int|
                0 <= k < names.len() ==> is_disconnected(nets, o, nets.len() as int, #[trigger] names[k])
            &&& engine::pieces_notice(names, total) is Some <==> exists|i: int|
                0 <= i < nets.len() && (#[trigger] o[i]) is Disconnected
        }),
{
    lemma_disconnected(nets, o, nets.len() as int);
    let names = engine::disconnected_upto(nets, o, nets.len() as int);
    if names.len() > 0 {
        assert(is_disconnected(nets, o, nets.len() as int, names[0]));
    }
}

/// Whether a name is that of one of the first `n` nets whose geometry is in pieces.
pub open spec fn is_disconnected<N: Real>(
    nets: Seq<NetView>,
    o: Seq<OutcomeView<N>>,
    n: int,
    name: Seq<char>,
) -> bool {
    exists|i: int| 0 <= i < n && (#[trigger] o[i]) is Disconnected && nets[i].name == name
}

proof fn lemma_disconnected<N: Real>(nets: Seq<NetView>, o: Seq<OutcomeView<N>>, n: int)
    requires
        0 <= n <= nets.len(),
        nets.len() == o.len(),
    ensures
        ({
            let names = engine::disconnected_upto(nets, o, n);
            &&& forall|i: int|
                0 <= i < n && (#[trigger] o[i]) is Disconnected ==> names.contains(nets[i].name)
            &&& forall|k: int|
                0 <= k < names.len() ==> is_disconnected(nets, o, n, #[trigger] names[k])
        }),
    decreases n,
{
    if n > 0 {
        lemma_disconnected(nets, o, n - 1);
        let before = engine::disconnected_upto(nets, o, n - 1);
        let names = engine::disconnected_upto(nets, o, n);
        assert forall|i: int| 0 <= i < n && (#[trigger] o[i]) is Disconnected implies names.contains(
            nets[i].name,
        ) by {
            if i < n - 1 {
                assert(before.contains(nets[i].name));
                assert(names[before.index_of(nets[i].name)] == nets[i].name);
            } else {
                assert(names[before.len() as int] == nets[i].name);
            }
        }
        assert forall|k: int| 0 <= k < names.len() implies is_disconnected(
            nets,
            o,
            n,
            #[trigger] names[k],
        ) by {
            if k < before.len() {
                assert(names[k] == before[k]);
                assert(is_disconnected(nets, o, n - 1, before[k]));
                let i = choose|i: int|
                    0 <= i < n - 1 && (#[trigger] o[i]) is Disconnected && nets[i].name == before[k];
                assert(o[i] is Disconnected);
            } else {
                assert(o[n - 1] is Disconnected);
            }
        }
    }
}

/// A net that connects fewer than two pins is said to be unconnected, under its name, and
/// no other.
pub proof fn every_unconnected_net_is_named<N: Real>(
    nets: Seq<ParasiticsView<N>>,
    n: int,
    i: int,
)
    requires
        0 <= i < n <= nets.len(),
    ensures
        ({
            let list = coverage::unconnected_upto(nets, n);
            &&& nets[i].pins.len() < 2 ==> exists|k: int|
                0 <= k < list.len() && (#[trigger] list[k]).attention && list[k].objects == seq![
                    notice::net_object(nets[i].name),
                ]
            &&& (forall|j: int| 0 <= j < n ==> (#[trigger] nets[j]).pins.len() >= 2) ==> list.len()
                == 0
        }),
    decreases n,
{
    let list = coverage::unconnected_upto(nets, n);
    let before = coverage::unconnected_upto(nets, n - 1);
    if i < n - 1 {
        every_unconnected_net_is_named(nets, n - 1, i);
        if nets[i].pins.len() < 2 {
            let k = choose|k: int|
                0 <= k < before.len() && (#[trigger] before[k]).attention && before[k].objects
                    == seq![notice::net_object(nets[i].name)];
            assert(list[k] == before[k]);
        }
    } else {
        if nets[i].pins.len() < 2 {
            assert(list[before.len() as int].attention);
        }
        lemma_all_connected(nets, n - 1);
    }
}

proof fn lemma_all_connected<N: Real>(nets: Seq<ParasiticsView<N>>, n: int)
    requires
        0 <= n <= nets.len(),
    ensures
        (forall|j: int| 0 <= j < n ==> (#[trigger] nets[j]).pins.len() >= 2)
            ==> coverage::unconnected_upto(nets, n).len() == 0,
    decreases n,
{
    if n > 0 {
        lemma_all_connected(nets, n - 1);
        if forall|j: int| 0 <= j < n ==> (#[trigger] nets[j]).pins.len() >= 2 {
            assert(nets[n - 1].pins.len() >= 2);
        }
    }
}

} // verus!

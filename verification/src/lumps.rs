//! What the lumped values of a net are made of: its wire, segment by segment, and
//! its vias, one by one.
use crate::balance;
use crate::conserve;
use crate::coupling;
use crate::def::{NetView, SegmentView};
use crate::engine;
use crate::engine::{Extraction, Inputs};
use crate::geom;
use crate::number;
use crate::number::{Fixed, Real};
use crate::rc;
use crate::records;
use crate::rules::RulesView;
use crate::spef;
use crate::text;
use vstd::prelude::*;

verus! {

/// Whether counts add up: one more is one more, none is nothing, and one of a value
/// is the value.
pub open spec fn counts_add_up<N: Real>() -> bool {
    &&& N::spec_count(0) == number::zero::<N>()
    &&& forall|n: nat|
        (#[trigger] N::spec_count(n + 1)) == N::spec_count(n).spec_plus(N::spec_count(1))
    &&& forall|a: N| (#[trigger] N::spec_count(1).spec_times(a)) == a
}

/// The resistance of a net without vias is that of its wire, and each via adds one
/// via resistance of the deck, whatever the number of vias: two nets of the same wire
/// that differ by one via differ by one via resistance. Capacitance, name and pins do
/// not depend on the vias. This holds where arithmetic is exact.
pub proof fn each_via_adds_one_via_resistance<N: Real>(
    net: NetView,
    r: RulesView<N>,
    widths: Map<Seq<char>, N>,
    n: nat,
)
    requires
        balance::exact::<N>(),
        counts_add_up::<N>(),
    ensures
        ({
            let few = rc::lumped(NetView { vias: n, ..net }, r, widths);
            let more = rc::lumped(NetView { vias: n + 1, ..net }, r, widths);
            let none = rc::lumped(NetView { vias: 0, ..net }, r, widths);
            &&& few is Ok <==> more is Ok
            &&& few is Ok ==> {
                &&& (more->Ok_0).res == (few->Ok_0).res.spec_plus(r.via_res)
                &&& (more->Ok_0).cap == (few->Ok_0).cap
                &&& (more->Ok_0).pins == net.pins && (more->Ok_0).name == net.name
                &&& (none->Ok_0).res == rc::wire_ohm(
                    net.segments,
                    net.segments.len() as int,
                    r,
                    widths,
                )
            }
        }),
{
    let wire = rc::wire_ohm(net.segments, net.segments.len() as int, r, widths);
    let (c, one) = (N::spec_count(n), N::spec_count(1));
    assert(N::spec_count(n + 1) == c.spec_plus(one));
    assert(one.spec_times(r.via_res) == r.via_res);
    balance::lemma_spread(c, one, r.via_res);
    balance::lemma_regroup(wire, c.spec_times(r.via_res), r.via_res);
    balance::lemma_zero(r.via_res);
    balance::lemma_zero(wire);
}

/// In decimal fixed point, the resistance of a net is that of its wire and as many via
/// resistances of the deck as the net has vias, as long as none of these is too great
/// to be held.
pub proof fn fixed_vias_add_up(net: NetView, r: RulesView<Fixed>, widths: Map<Seq<char>, Fixed>)
    requires
        net.vias * 1_000_000_000 <= i64::MAX,
        i64::MIN <= net.vias * r.via_res.nano <= i64::MAX,
    ensures
        rc::lumped(net, r, widths) matches Ok(p) ==> p.res == number::clamp(
            rc::wire_ohm(net.segments, net.segments.len() as int, r, widths).nano + net.vias
                * r.via_res.nano,
        ),
{
    let (n, v) = (net.vias as int, r.via_res.nano as int);
    assert(((n * 1_000_000_000) * v) / 1_000_000_000 == n * v) by {
        assert((n * 1_000_000_000) * v == (n * v) * 1_000_000_000) by (nonlinear_arith);
    }
}

/// The wire of a net counts segment by segment. A net without wire has neither
/// resistance nor capacitance. One more segment adds its length times the grounded
/// capacitance that the deck has for its layer, and its length times the resistance of
/// the layer, or, where the layer has a sheet resistance and the wire a width, the
/// sheet resistance times the length over the width; its own width comes before that
/// of the layer.
#[verifier::rlimit(50)]
pub proof fn each_segment_adds_its_own<N: Real>(
    net: NetView,
    s: SegmentView,
    r: RulesView<N>,
    widths: Map<Seq<char>, N>,
)
    ensures
        ({
            let n = net.segments.len() as int;
            let more = net.segments.push(s);
            let len = N::spec_micro(
                (if s.x0 <= s.x1 {
                    s.x1 - s.x0
                } else {
                    s.x0 - s.x1
                }) + (if s.y0 <= s.y1 {
                    s.y1 - s.y0
                } else {
                    s.y0 - s.y1
                }),
            );
            let ohm = rc::wire_ohm(net.segments, n, r, widths);
            let ohms = rc::wire_ohm(more, n + 1, r, widths);
            &&& rc::wire_ohm(Seq::empty(), 0, r, widths) == number::zero::<N>()
            &&& rc::wire_cap(Seq::empty(), 0, r) == number::zero::<N>()
            &&& rc::wire_cap(more, n + 1, r) == rc::wire_cap(net.segments, n, r).spec_plus(
                len.spec_times(r.layers[s.layer].cap_per_um),
            )
            &&& r.layers.contains_key(s.layer) && !r.rsheet.contains_key(s.layer) ==> ohms
                == ohm.spec_plus(len.spec_times(r.layers[s.layer].res_per_um))
            &&& r.layers.contains_key(s.layer) && r.rsheet.contains_key(s.layer) && s.width > 0
                && number::zero::<N>().spec_below(N::spec_micro(s.width)) ==> ohms
                == ohm.spec_plus(
                r.rsheet[s.layer].spec_times(len).spec_over(N::spec_micro(s.width)),
            )
            &&& r.layers.contains_key(s.layer) && r.rsheet.contains_key(s.layer) && s.width <= 0
                && widths.contains_key(s.layer) && number::zero::<N>().spec_below(widths[s.layer])
                ==> ohms == ohm.spec_plus(
                r.rsheet[s.layer].spec_times(len).spec_over(widths[s.layer]),
            )
            &&& r.layers.contains_key(s.layer) && s.width <= 0 && widths.contains_key(s.layer)
                && !number::zero::<N>().spec_below(widths[s.layer]) ==> ohms == ohm.spec_plus(
                len.spec_times(r.layers[s.layer].res_per_um),
            )
            &&& r.layers.contains_key(s.layer) && s.width <= 0 && !widths.contains_key(s.layer)
                && !number::zero::<N>().spec_below(number::zero::<N>()) ==> ohms
                == ohm.spec_plus(len.spec_times(r.layers[s.layer].res_per_um))
        }),
{
    let n = net.segments.len() as int;
    let more = net.segments.push(s);
    conserve::lemma_wire_prefix(net.segments, more, n, r, widths);
    assert(more[n] == s);
}

/// The lumped capacitance of a net is that of all its wire, and a net fails just where
/// a segment is on a layer that the deck has no rule for.
pub proof fn all_wire_is_lumped<N: Real>(
    net: NetView,
    r: RulesView<N>,
    widths: Map<Seq<char>, N>,
)
    ensures
        rc::lumped(net, r, widths) is Ok <==> forall|i: int|
            0 <= i < net.segments.len() ==> r.layers.contains_key(
                (#[trigger] net.segments[i]).layer,
            ),
        rc::lumped(net, r, widths) matches Ok(p) ==> p.cap == rc::wire_cap(
            net.segments,
            net.segments.len() as int,
            r,
        ) && p.name == net.name && p.pins == net.pins,
{
    lemma_unruled(net.segments, 0, r);
}

proof fn lemma_unruled<N: Real>(s: Seq<SegmentView>, i: int, r: RulesView<N>)
    requires
        0 <= i <= s.len(),
    ensures
        rc::unruled(s, i, r) is None <==> forall|k: int|
            i <= k < s.len() ==> r.layers.contains_key((#[trigger] s[k]).layer),
    decreases s.len() - i,
{
    if i < s.len() {
        lemma_unruled(s, i + 1, r);
        if !r.layers.contains_key(s[i].layer) {
            assert(i <= i < s.len() && !r.layers.contains_key(s[i].layer));
        }
    }
}

/// An extraction has every net of its layout, in order: its name, its pins and its lumped
/// resistance, and its lumped grounded capacitance, of which shielding takes the part
/// `shield_k` of the coupling of the net, where the deck shields and the net couples.
#[verifier::rlimit(50)]
pub proof fn an_extraction_lumps_every_net<N: Real>(x: Extraction<N>, i: Inputs<N>, n: int)
    requires
        engine::is_extraction(x, i),
        0 <= n < i.def.nets@.len(),
    ensures
        ({
            let got = rc::parasitics_view(x.nets@)[n];
            let want = rc::lumped(i.def.nets@[n]@, i.rules@, i.lef.widths@);
            let caps = coupling::caps_view(x.couplings@);
            let k = i.rules@.shield_k;
            let couples = exists|c: int|
                0 <= c < caps.len() && ((#[trigger] caps[c]).a == got.name || caps[c].b
                    == got.name);
            &&& x.nets@.len() == i.def.nets@.len()
            &&& want is Ok
            &&& got.name == i.def.nets@[n]@.name && got.pins == i.def.nets@[n]@.pins
            &&& got.res == (want->Ok_0).res
            &&& !number::zero::<N>().spec_below(k) || !couples ==> got.cap == (want->Ok_0).cap
            &&& number::zero::<N>().spec_below(k) && couples ==> {
                let left = (want->Ok_0).cap.spec_minus(
                    k.spec_times(spef::coupling_sum(got.name, caps)),
                );
                got.cap == (if number::zero::<N>().spec_below(left) {
                    left
                } else {
                    number::zero::<N>()
                })
            }
        }),
{
    let list = geom::nets_view(i.def.nets@);
    lemma_each_lumped(list, i.rules@, i.lef.widths@, list.len() as int, n);
    let all = engine::lumped_all(list, i.rules@, i.lef.widths@)->Ok_0;
    assert(list[n] == i.def.nets@[n]@);
    assert(rc::lumped(list[n], i.rules@, i.lef.widths@) == Ok::<rc::ParasiticsView<N>, Seq<char>>(
        all[n],
    ));
    assert(rc::parasitics_view(x.nets@).len() == x.nets@.len());
    assert(all.len() == list.len());
    let caps = coupling::caps_view(x.couplings@);
    let got = rc::parasitics_view(x.nets@)[n];
    records::a_net_counts_each_coupling_once(got.name, caps, caps.len() as int);
    let sides = spef::sides(got.name, caps, caps.len() as int);
    if sides.len() > 0 {
        assert(sides.contains(sides[0]));
        assert(sides.contains((sides[0].0, sides[0].1)));
        let c = sides[0].0;
        assert(caps[c].a == got.name || caps[c].b == got.name);
    }
    if exists|c: int|
        0 <= c < caps.len() && ((#[trigger] caps[c]).a == got.name || caps[c].b == got.name) {
        let c = choose|c: int|
            0 <= c < caps.len() && ((#[trigger] caps[c]).a == got.name || caps[c].b == got.name);
        assert(sides.contains((c, caps[c].a == got.name)));
    }
}

proof fn lemma_each_lumped<N: Real>(
    nets: Seq<NetView>,
    r: RulesView<N>,
    widths: Map<Seq<char>, N>,
    m: int,
    n: int,
)
    requires
        0 <= m <= nets.len(),
        0 <= n < nets.len(),
    ensures
        engine::lumped_upto(nets, r, widths, m) matches Ok(s) ==> s.len() == m && (n < m
            ==> rc::lumped(nets[n], r, widths) == Ok::<rc::ParasiticsView<N>, Seq<char>>(s[n])),
    decreases m,
{
    if m > 0 {
        lemma_each_lumped(nets, r, widths, m - 1, n);
    }
}

/// A net that is not extracted names the first of its segments' layers that has no rule.
pub proof fn the_first_layer_without_a_rule_is_named<N: Real>(
    net: NetView,
    r: RulesView<N>,
    widths: Map<Seq<char>, N>,
    k: int,
)
    requires
        0 <= k < net.segments.len(),
        !r.layers.contains_key(net.segments[k].layer),
        forall|i: int| 0 <= i < k ==> r.layers.contains_key((#[trigger] net.segments[i]).layer),
    ensures
        rc::lumped(net, r, widths) == Err::<rc::ParasiticsView<N>, Seq<char>>(
            "net "@ + net.name + ": no rule for layer "@ + text::debug_text(net.segments[k].layer),
        ),
{
    lemma_first_unruled(net.segments, 0, k, r);
}

proof fn lemma_first_unruled<N: Real>(s: Seq<SegmentView>, i: int, k: int, r: RulesView<N>)
    requires
        0 <= i <= k < s.len(),
        !r.layers.contains_key(s[k].layer),
        forall|j: int| 0 <= j < k ==> r.layers.contains_key((#[trigger] s[j]).layer),
    ensures
        rc::unruled(s, i, r) == Some(s[k].layer),
    decreases k - i,
{
    if i < k {
        assert(r.layers.contains_key(s[i].layer));
        lemma_first_unruled(s, i + 1, k, r);
    }
}

/// An extraction that fails says so of the first net that is not extracted.
pub proof fn the_first_net_that_fails_is_named<N: Real>(
    nets: Seq<NetView>,
    r: RulesView<N>,
    widths: Map<Seq<char>, N>,
    n: int,
    k: int,
)
    requires
        0 <= k < n <= nets.len(),
        rc::lumped(nets[k], r, widths) is Err,
        forall|i: int| 0 <= i < k ==> rc::lumped(#[trigger] nets[i], r, widths) is Ok,
    ensures
        engine::lumped_upto(nets, r, widths, n) == Err::<Seq<rc::ParasiticsView<N>>, Seq<char>>(
            "rc error: "@ + rc::lumped(nets[k], r, widths)->Err_0,
        ),
    decreases n,
{
    if k < n - 1 {
        the_first_net_that_fails_is_named(nets, r, widths, n - 1, k);
    } else {
        lemma_all_ok(nets, r, widths, k);
    }
}

proof fn lemma_all_ok<N: Real>(
    nets: Seq<NetView>,
    r: RulesView<N>,
    widths: Map<Seq<char>, N>,
    n: int,
)
    requires
        0 <= n <= nets.len(),
        forall|i: int| 0 <= i < n ==> rc::lumped(#[trigger] nets[i], r, widths) is Ok,
    ensures
        engine::lumped_upto(nets, r, widths, n) is Ok,
    decreases n,
{
    if n > 0 {
        lemma_all_ok(nets, r, widths, n - 1);
        assert(rc::lumped(nets[n - 1], r, widths) is Ok);
    }
}

} // verus!

//! What shielding leaves alone: two extractions that differ in `shield_k` only.
use crate::coupling;
use crate::coupling::TechView;
use crate::def::{NetView, SegmentView, ViaView};
use crate::engine;
use crate::engine::{Extraction, Inputs};
use crate::geom;
use crate::junction;
use crate::junction::RunView;
use crate::number;
use crate::number::Real;
use crate::rc;
use crate::rules::RulesView;
use crate::spef;
use crate::tree;
use crate::tree::Wiring;
use vstd::prelude::*;

verus! {

/// The deck with another part of the coupling taken from ground.
pub open spec fn reshielded<N: Real>(r: RulesView<N>, k: N) -> RulesView<N> {
    RulesView { shield_k: k, ..r }
}

/// Whether inputs are alike but for the part of the coupling that ground loses.
pub open spec fn alike<N: Real>(a: Inputs<N>, b: Inputs<N>) -> bool {
    &&& geom::nets_view(a.def.nets@) == geom::nets_view(b.def.nets@)
    &&& geom::segments_view(a.def.rails@) == geom::segments_view(b.def.rails@)
    &&& b.rules@ == reshielded(a.rules@, b.rules@.shield_k)
    &&& a.lef.widths@ == b.lef.widths@
    &&& a.lef.thicknesses@ == b.lef.thicknesses@
    &&& tree::named_layers(a.lef.vias@) == tree::named_layers(b.lef.vias@)
    &&& a.max_pairs == b.max_pairs
}

proof fn lemma_unruled<N: Real>(s: Seq<SegmentView>, i: int, r: RulesView<N>, k: N)
    requires
        0 <= i <= s.len(),
    ensures
        rc::unruled(s, i, reshielded(r, k)) == rc::unruled(s, i, r),
    decreases s.len() - i,
{
    if i < s.len() {
        lemma_unruled(s, i + 1, r, k);
    }
}

proof fn lemma_wire<N: Real>(
    s: Seq<SegmentView>,
    n: int,
    r: RulesView<N>,
    widths: Map<Seq<char>, N>,
    k: N,
)
    ensures
        rc::wire_ohm(s, n, reshielded(r, k), widths) == rc::wire_ohm(s, n, r, widths),
        rc::wire_cap(s, n, reshielded(r, k)) == rc::wire_cap(s, n, r),
    decreases n,
{
    if n > 0 {
        lemma_wire(s, n - 1, r, widths, k);
    }
}

proof fn lemma_lumped<N: Real>(
    nets: Seq<NetView>,
    r: RulesView<N>,
    widths: Map<Seq<char>, N>,
    k: N,
    n: int,
)
    requires
        n <= nets.len(),
    ensures
        engine::lumped_upto(nets, reshielded(r, k), widths, n) == engine::lumped_upto(
            nets,
            r,
            widths,
            n,
        ),
    decreases n,
{
    if n > 0 {
        lemma_lumped(nets, r, widths, k, n - 1);
        let s = nets[n - 1].segments;
        lemma_unruled(s, 0, r, k);
        lemma_wire(s, s.len() as int, r, widths, k);
    }
}

proof fn lemma_lay<N: Real>(
    ps: Seq<RunView>,
    n: int,
    r: RulesView<N>,
    widths: Map<Seq<char>, N>,
    k: N,
)
    ensures
        tree::lay_upto(ps, n, reshielded(r, k), widths) == tree::lay_upto(ps, n, r, widths),
    decreases n,
{
    if n > 0 {
        lemma_lay(ps, n - 1, r, widths, k);
    }
}

proof fn lemma_land<N: Real>(w: Wiring<N>, vias: Seq<ViaView>, n: int, r: RulesView<N>, k: N)
    ensures
        tree::land_upto(w, vias, n, reshielded(r, k)) == tree::land_upto(w, vias, n, r),
    decreases n,
{
    if n > 0 {
        lemma_land(w, vias, n - 1, r, k);
    }
}

proof fn lemma_outcome<N: Real>(
    net: NetView,
    r: RulesView<N>,
    widths: Map<Seq<char>, N>,
    via_layers: Map<Seq<char>, Seq<Seq<char>>>,
    k: N,
)
    ensures
        tree::outcome(net, reshielded(r, k), widths, via_layers) == tree::outcome(
            net,
            r,
            widths,
            via_layers,
        ),
{
    let places = junction::via_places(net.via_points);
    let ps = junction::split(junction::net_runs(net.segments), places);
    lemma_lay(ps, ps.len() as int, r, widths, k);
    if let Some(laid) = tree::lay_upto(ps, ps.len() as int, r, widths) {
        lemma_land(laid, net.via_points, net.via_points.len() as int, r, k);
    }
}

/// Of two extractions that differ in `shield_k` only, where the first does not
/// shield, the couplings and the networks are the same, and so are the nets in
/// number, order, name, pins and resistance. The second takes `shield_k` times its
/// coupling from the grounded capacitance of each net that couples, down to zero,
/// and leaves that of the others.
pub proof fn shielding_takes_from_ground_alone<N: Real>(
    x: Extraction<N>,
    i: Inputs<N>,
    y: Extraction<N>,
    j: Inputs<N>,
)
    requires
        engine::is_extraction(x, i),
        engine::is_extraction(y, j),
        alike(i, j),
        !number::positive(i.rules@.shield_k),
        number::positive(j.rules@.shield_k),
    ensures
        ({
            let caps = coupling::caps_view(x.couplings@);
            let (bare, shielded) = (rc::parasitics_view(x.nets@), rc::parasitics_view(y.nets@));
            let k = j.rules@.shield_k;
            &&& coupling::caps_view(y.couplings@) == caps
            &&& spef::trees_view(y.trees@) == spef::trees_view(x.trees@)
            &&& bare.len() == i.def.nets@.len()
            &&& shielded.len() == bare.len()
            &&& spef::trees_view(x.trees@).len() == bare.len()
            &&& forall|n: int|
                0 <= n < bare.len() ==> {
                    let (p, q) = (bare[n], #[trigger] shielded[n]);
                    &&& p.name == i.def.nets@[n].name@
                    &&& q.name == p.name
                    &&& q.pins == p.pins
                    &&& q.res == p.res
                    &&& if spef::sides(p.name, caps, caps.len() as int).len() > 0 {
                        q.cap == number::greater(
                            number::zero(),
                            p.cap.spec_minus(k.spec_times(spef::coupling_sum(p.name, caps))),
                        )
                    } else {
                        q.cap == p.cap
                    }
                }
        }),
{
    let nets = geom::nets_view(i.def.nets@);
    let (r, k) = (i.rules@, j.rules@.shield_k);
    let widths = i.lef.widths@;
    let via_layers = tree::named_layers(i.lef.vias@);
    let rails = geom::segments_view(i.def.rails@);
    let tech = TechView { rules: r, widths, thicknesses: i.lef.thicknesses@ };
    let max = i.max_pairs as int;
    coupling::shielding_leaves_coupling(tech, k, nets, rails, max);
    let list = coupling::named(coupling::coupling_table(tech, nets, rails, max), nets);
    coupling::one_ordered_form(
        coupling::caps_view(x.couplings@),
        coupling::caps_view(y.couplings@),
        list,
    );
    lemma_lumped(nets, r, widths, k, nets.len() as int);
    lemma_lumped_names(nets, r, widths, nets.len() as int);
    let o = engine::outcomes(nets, r, widths, via_layers);
    assert(engine::outcomes(nets, reshielded(r, k), widths, via_layers) == o) by {
        assert forall|n: int| 0 <= n < nets.len() implies #[trigger] tree::outcome(
            nets[n],
            reshielded(r, k),
            widths,
            via_layers,
        ) == o[n] by {
            lemma_outcome(nets[n], r, widths, via_layers, k);
        }
    }
}

proof fn lemma_lumped_names<N: Real>(
    nets: Seq<NetView>,
    r: RulesView<N>,
    widths: Map<Seq<char>, N>,
    n: int,
)
    requires
        0 <= n <= nets.len(),
    ensures
        engine::lumped_upto(nets, r, widths, n) matches Ok(s) ==> s.len() == n && forall|i: int|
            0 <= i < n ==> (#[trigger] s[i]).name == nets[i].name,
    decreases n,
{
    if n > 0 {
        lemma_lumped_names(nets, r, widths, n - 1);
    }
}

} // verus!

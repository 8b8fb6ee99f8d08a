//! What a record says of nodes and pins: a coupling joins nodes that the records of
//! its nets have, and a connection states the direction of its pin.
use crate::coupling;
use crate::coupling::CapView;
use crate::drawn;
use crate::engine;
use crate::engine::{Extraction, Inputs};
use crate::geom;
use crate::hookup;
use crate::hookup::{CellDirs, PinDir, PinResolver};
use crate::limit;
use crate::number;
use crate::number::Real;
use crate::rc;
use crate::rc::ParasiticsView;
use crate::spef;
use crate::text;
use crate::tree;
use crate::tree::NetworkView;
use vstd::prelude::*;

verus! {

/// Whether a label is a node of the record of net `m`, from which its resistors lead
/// to every node with a grounded capacitance. Where the net has a network, the label
/// is that of one of its own grounded nodes, and where it has pins too, of the node of
/// its driver. Otherwise it is a grounded node or an end of a resistor of the star.
pub open spec fn on_record<N: Real>(
    nets: Seq<ParasiticsView<N>>,
    trees: Seq<Option<NetworkView<N>>>,
    m: int,
    label: Seq<char>,
) -> bool {
    let grounded = spef::grounded_lines(spef::name_map(nets), nets, trees, m);
    let series = spef::res_lines(spef::name_map(nets), nets, trees, m);
    &&& if spef::has_tree(trees, m) {
        exists|k: int|
            0 <= k < grounded.len() && (#[trigger] grounded[k]).0 == label && (nets[m].pins.len() > 0
                ==> (trees[m]->0).nodes[k].pin == Some(nets[m].pins[0]))
    } else {
        (exists|k: int| 0 <= k < grounded.len() && (#[trigger] grounded[k]).0 == label) || (exists|
            k: int,
        |
            0 <= k < grounded.len() && spef::joined(series, label, (#[trigger] grounded[k]).0))
    }
    &&& forall|k: int|
        0 <= k < grounded.len() ==> spef::hangs(series, label, (#[trigger] grounded[k]).0)
}

/// Whether the networks of nets are in one piece and seat the driver of each net that
/// has pins.
pub open spec fn seated_networks<N: Real>(
    nets: Seq<ParasiticsView<N>>,
    trees: Seq<Option<NetworkView<N>>>,
) -> bool {
    forall|m: int| 0 <= m < nets.len() && #[trigger] spef::has_tree(trees, m) ==> {
        let t = trees[m]->0;
        &&& spef::in_one_piece(t)
        &&& t.nodes.len() > 0
        &&& nets[m].pins.len() == 0 ==> t.nodes[0].pin is None
        &&& nets[m].pins.len() > 0 ==> exists|k: int|
            0 <= k < t.nodes.len() && (#[trigger] t.nodes[k]).pin == Some(nets[m].pins[0])
    }
}

/// Whether a name is that of one of the nets.
pub open spec fn names_net<N: Real>(nets: Seq<ParasiticsView<N>>, name: Seq<char>) -> bool {
    exists|j: int| 0 <= j < nets.len() && (#[trigger] nets[j]).name == name
}

/// Whether every coupling is one between two of the nets.
pub open spec fn between_nets<N: Real>(
    nets: Seq<ParasiticsView<N>>,
    caps: Seq<CapView<N>>,
) -> bool {
    forall|c: int|
        0 <= c < caps.len() ==> names_net(nets, (#[trigger] caps[c]).a) && names_net(
            nets,
            caps[c].b,
        )
}

proof fn lemma_face<N: Real>(
    nets: Seq<ParasiticsView<N>>,
    trees: Seq<Option<NetworkView<N>>>,
    m: int,
)
    requires
        0 <= m < nets.len(),
        seated_networks(nets, trees),
    ensures
        on_record(nets, trees, m, spef::face(spef::name_map(nets), nets, trees, m)),
{
    let names = spef::name_map(nets);
    let nid = spef::id(names, nets[m].name);
    let label = spef::face(names, nets, trees, m);
    let grounded = spef::grounded_lines(names, nets, trees, m);
    let series = spef::res_lines(names, nets, trees, m);
    if spef::has_tree(trees, m) {
        let t = trees[m]->0;
        let at = if nets[m].pins.len() > 0 {
            choose|k: int|
                0 <= k < t.nodes.len() && (#[trigger] t.nodes[k]).pin == Some(nets[m].pins[0])
        } else {
            0
        };
        assert(grounded[at].0 == label);
        assert forall|k: int| 0 <= k < grounded.len() implies spef::hangs(
            series,
            label,
            (#[trigger] grounded[k]).0,
        ) by {
            spef::every_net_is_one_network(nets, trees, m, at, k);
        }
    } else {
        let root = spef::root_label(nid);
        assert(label == root);
        if grounded.len() == 1 {
            assert(grounded[0].0 == root);
        } else {
            assert forall|k: int| 0 <= k < grounded.len() && (#[trigger] grounded[k]).0
                != root implies spef::joined(series, root, grounded[k].0) by {
                spef::lemma_star_joined(names, nets, trees, m, k);
            }
            assert(grounded[0].0 == root || spef::joined(series, root, grounded[0].0));
        }
        assert forall|k: int| 0 <= k < grounded.len() implies spef::hangs(
            series,
            label,
            (#[trigger] grounded[k]).0,
        ) by {
            if grounded[k].0 == root {
                let walk = seq![root];
                assert(spef::is_path(series, walk));
                assert(walk[0] == label && walk.last() == grounded[k].0);
            } else {
                let walk = seq![root, grounded[k].0];
                assert(spef::is_path(series, walk));
                assert(walk[0] == label && walk.last() == grounded[k].0);
            }
        }
    }
}

proof fn lemma_named_net<N: Real>(
    nets: Seq<ParasiticsView<N>>,
    name: Seq<char>,
    n: int,
    j: int,
)
    requires
        0 <= j < n <= nets.len(),
        nets[j].name == name,
    ensures
        spef::last_net(nets, name, n) matches Some(k) && 0 <= k < n && nets[k].name == name,
    decreases n,
{
    if nets[n - 1].name != name {
        lemma_named_net(nets, name, n - 1, j);
    }
}

/// The sides of a net are those of its couplings.
proof fn lemma_sides<N: Real>(name: Seq<char>, caps: Seq<CapView<N>>, n: int, i: int)
    requires
        0 <= n <= caps.len(),
        0 <= i < spef::sides(name, caps, n).len(),
    ensures
        ({
            let side = spef::sides(name, caps, n)[i];
            &&& 0 <= side.0 < n
            &&& side.1 ==> caps[side.0].a == name
            &&& !side.1 ==> caps[side.0].b == name
        }),
    decreases n,
{
    if n > 0 {
        if i < spef::sides(name, caps, n - 1).len() {
            lemma_sides(name, caps, n - 1, i);
        }
    }
}

/// Each coupling line of a net joins two nodes that are written: one of the record of
/// the net itself, and one of the record of its neighbour, each reached from all of its
/// record by resistors. The value of the line is that of a coupling between the two
/// nets.
pub proof fn a_coupling_joins_nodes_of_its_nets<N: Real>(
    nets: Seq<ParasiticsView<N>>,
    trees: Seq<Option<NetworkView<N>>>,
    caps: Seq<CapView<N>>,
    n: int,
    i: int,
)
    requires
        0 <= n < nets.len(),
        0 <= i < spef::coupling_lines(spef::name_map(nets), nets, trees, caps, n).len(),
        seated_networks(nets, trees),
        between_nets(nets, caps),
    ensures
        ({
            let line = spef::coupling_lines(spef::name_map(nets), nets, trees, caps, n)[i];
            exists|c: int, j: int, p: Seq<char>, q: Seq<char>|
                {
                    &&& 0 <= c < caps.len()
                    &&& 0 <= j < nets.len()
                    &&& (#[trigger] caps[c]).a == nets[n].name && caps[c].b == (
                    #[trigger] nets[j]).name || caps[c].b == nets[n].name && caps[c].a
                        == nets[j].name
                    &&& line.1 == caps[c].cap
                    &&& line.0 == p + " "@ + q
                    &&& #[trigger] on_record(nets, trees, n, p)
                    &&& #[trigger] on_record(nets, trees, j, q)
                }
        }),
{
    let names = spef::name_map(nets);
    let all = spef::sides(nets[n].name, caps, caps.len() as int);
    lemma_sides(nets[n].name, caps, caps.len() as int, i);
    let c = all[i].0;
    let other = if all[i].1 {
        caps[c].b
    } else {
        caps[c].a
    };
    assert(names_net(nets, caps[c].a) && names_net(nets, caps[c].b));
    let k = choose|k: int| 0 <= k < nets.len() && (#[trigger] nets[k]).name == other;
    lemma_named_net(nets, other, nets.len() as int, k);
    let j = spef::last_net(nets, other, nets.len() as int)->0;
    lemma_face(nets, trees, n);
    lemma_face(nets, trees, j);
    let (p, q) = (spef::face(names, nets, trees, n), spef::face(names, nets, trees, j));
    let line = spef::coupling_lines(names, nets, trees, caps, n)[i];
    assert(line.0 == p + " "@ + q);
    assert(on_record(nets, trees, n, p) && on_record(nets, trees, j, q));
    assert(nets[j].name == other);
}

/// Each coupling of an extraction is written between two nodes that are written: those
/// of the drivers where the nets have networks, else the roots of their stars.
pub proof fn extracted_couplings_join_written_nodes<N: Real>(
    x: Extraction<N>,
    inputs: Inputs<N>,
    n: int,
    i: int,
)
    requires
        engine::is_extraction(x, inputs),
        0 <= n < x.nets@.len(),
        ({
            let nets = rc::parasitics_view(x.nets@);
            let trees = spef::trees_view(x.trees@);
            let caps = coupling::caps_view(x.couplings@);
            0 <= i < spef::coupling_lines(spef::name_map(nets), nets, trees, caps, n).len()
        }),
    ensures
        ({
            let nets = rc::parasitics_view(x.nets@);
            let trees = spef::trees_view(x.trees@);
            let caps = coupling::caps_view(x.couplings@);
            let line = spef::coupling_lines(spef::name_map(nets), nets, trees, caps, n)[i];
            exists|c: int, j: int, p: Seq<char>, q: Seq<char>|
                {
                    &&& 0 <= c < caps.len()
                    &&& 0 <= j < nets.len()
                    &&& (#[trigger] caps[c]).a == nets[n].name && caps[c].b == (
                    #[trigger] nets[j]).name || caps[c].b == nets[n].name && caps[c].a
                        == nets[j].name
                    &&& line.1 == caps[c].cap
                    &&& line.0 == p + " "@ + q
                    &&& #[trigger] on_record(nets, trees, n, p)
                    &&& #[trigger] on_record(nets, trees, j, q)
                }
        }),
{
    let nets = rc::parasitics_view(x.nets@);
    let trees = spef::trees_view(x.trees@);
    let caps = coupling::caps_view(x.couplings@);
    lemma_extracted_seats(x, inputs);
    lemma_extracted_couplings(x, inputs);
    a_coupling_joins_nodes_of_its_nets(nets, trees, caps, n, i);
}

pub(crate) proof fn lemma_lumped_names<N: Real>(i: Inputs<N>, n: int)
    requires
        0 <= n <= i.def.nets@.len(),
    ensures
        engine::lumped_upto(
            geom::nets_view(i.def.nets@),
            i.rules@,
            i.lef.widths@,
            n,
        ) matches Ok(s) ==> s.len() == n && forall|k: int|
            0 <= k < n ==> (#[trigger] s[k]).name == i.def.nets@[k]@.name && s[k].pins
                == i.def.nets@[k]@.pins,
    decreases n,
{
    if n > 0 {
        lemma_lumped_names(i, n - 1);
    }
}

proof fn lemma_extracted_seats<N: Real>(x: Extraction<N>, inputs: Inputs<N>)
    requires
        engine::is_extraction(x, inputs),
    ensures
        seated_networks(rc::parasitics_view(x.nets@), spef::trees_view(x.trees@)),
{
    let nets = geom::nets_view(inputs.def.nets@);
    let (r, widths) = (inputs.rules@, inputs.lef.widths@);
    let via_layers = tree::named_layers(inputs.lef.vias@);
    let o = engine::outcomes(nets, r, widths, via_layers);
    let (list, trees) = (rc::parasitics_view(x.nets@), spef::trees_view(x.trees@));
    lemma_lumped_names(inputs, nets.len() as int);
    assert forall|m: int| 0 <= m < list.len() && #[trigger] spef::has_tree(trees, m) implies {
        let t = trees[m]->0;
        &&& spef::in_one_piece(t)
        &&& t.nodes.len() > 0
        &&& list[m].pins.len() == 0 ==> t.nodes[0].pin is None
        &&& list[m].pins.len() > 0 ==> exists|k: int|
            0 <= k < t.nodes.len() && (#[trigger] t.nodes[k]).pin == Some(list[m].pins[0])
    } by {
        assert(trees[m] == engine::networks(o)[m]);
        let at = drawn::each_pin_has_its_own_node(nets[m], r, widths, via_layers);
        drawn::a_network_hangs_together(nets[m], r, widths, via_layers);
        let t = trees[m]->0;
        assert(list[m].pins == nets[m].pins);
        if list[m].pins.len() > 0 {
            assert(t.nodes[at[0]].pin == Some(list[m].pins[0]));
        } else {
            assert(!at.contains(0));
        }
    }
}

proof fn lemma_extracted_couplings<N: Real>(x: Extraction<N>, inputs: Inputs<N>)
    requires
        engine::is_extraction(x, inputs),
    ensures
        between_nets(rc::parasitics_view(x.nets@), coupling::caps_view(x.couplings@)),
{
    let nets = geom::nets_view(inputs.def.nets@);
    let list = rc::parasitics_view(x.nets@);
    let caps = coupling::caps_view(x.couplings@);
    let tech = coupling::TechView {
        rules: inputs.rules@,
        widths: inputs.lef.widths@,
        thicknesses: inputs.lef.thicknesses@,
    };
    let rails = geom::segments_view(inputs.def.rails@);
    let max = inputs.max_pairs as int;
    let t = coupling::coupling_table(tech, nets, rails, max);
    coupling::each_pair_occurs_once(tech, nets, rails, max);
    lemma_lumped_names(inputs, nets.len() as int);
    assert forall|c: int| 0 <= c < caps.len() implies names_net(list, (#[trigger] caps[c]).a)
        && names_net(list, caps[c].b) by {
        let k = limit::lemma_ordered_entry(caps, coupling::named(t, nets), c);
        let m = limit::lemma_named_entry(t, nets, t.pairs.len() as int, k);
        let (a, b) = t.pairs[m];
        assert(0 <= t.pairs[m].0 < t.pairs[m].1 < nets.len());
        assert(list[a].name == nets[a].name && list[b].name == nets[b].name);
    }
}

/// A connection states the direction of its pin: a pin of a placed instance is
/// written with `O` where it is known to be an output, with `B` where it goes both
/// ways, and with `I` otherwise; a port likewise, under its own name.
pub proof fn a_connection_states_its_direction<N: Real>(
    s: Seq<char>,
    names: Seq<Seq<char>>,
    pins: Seq<(Seq<char>, Seq<char>)>,
    r: PinResolver<N>,
    k: int,
)
    requires
        0 <= k < pins.len(),
        !number::positive(number::zero::<N>()),
    ensures
        ({
            let (inst, pin) = pins[k];
            let before = spef::with_conns(s, names, pins, Some(&r), k);
            let after = spef::with_conns(s, names, pins, Some(&r), k + 1);
            let d = r.hookup(inst, pin).0;
            let letter = if d == PinDir::Output {
                "O"@
            } else if d == PinDir::Inout {
                "B"@
            } else {
                "I"@
            };
            let c = r.hookup(inst, pin).1;
            let load = if number::positive(c) {
                " *L "@ + c.spec_numeral()
            } else {
                ""@
            };
            &&& inst == "PIN"@ ==> after == before + ("*P "@ + pin + " "@ + letter + "\n"@)
            &&& inst != "PIN"@ && names.contains(inst) ==> exists|at: int|
                0 <= at < names.len() && #[trigger] names[at] == inst && after == before + ("*I *"@
                    + text::nat_text((at + 1) as nat) + ":"@ + pin + " "@ + letter + load
                    + "\n"@)
        }),
{
    let (inst, pin) = pins[k];
    let before = spef::with_conns(s, names, pins, Some(&r), k);
    let after = spef::with_conns(s, names, pins, Some(&r), k + 1);
    let (d, c) = r.hookup(inst, pin);
    let letter = spef::dir_letter(d);
    if inst == "PIN"@ {
        assert(after == before + ("*P "@ + pin + " "@ + letter + "\n"@));
    } else if names.contains(inst) {
        let at = names.index_of(inst);
        let id = text::nat_text((at + 1) as nat);
        reveal_strlit("*I *");
        reveal_strlit("*I ");
        reveal_strlit("*");
        reveal_strlit("");
        assert("*I *"@ =~= "*I "@ + "*"@);
        if number::positive(c) {
            assert(after =~= before + ("*I *"@ + id + ":"@ + pin + " "@ + letter + (" *L "@
                + c.spec_numeral()) + "\n"@));
        } else {
            assert(after =~= before + ("*I *"@ + id + ":"@ + pin + " "@ + letter + ""@ + "\n"@));
        }
        assert(names[at] == inst);
    }
}

/// With cell layouts alone, and no library, a pin of a placed cell is written with the
/// direction that its layout gives it: an output with `O`, an input with `I`.
pub proof fn cell_layouts_alone_direct_connections<N: Real>(
    s: Seq<char>,
    names: Seq<Seq<char>>,
    pins: Seq<(Seq<char>, Seq<char>)>,
    r: PinResolver<N>,
    layouts: CellDirs,
    k: int,
)
    requires
        0 <= k < pins.len(),
        !number::positive(number::zero::<N>()),
        r.lib is None,
        r.lef == Some(layouts),
        pins[k].0 != "PIN"@,
        names.contains(pins[k].0),
        r.inst_cell@.contains_key(pins[k].0),
        layouts@.contains_key(r.inst_cell@[pins[k].0]@),
        layouts@[r.inst_cell@[pins[k].0]@]@.contains_key(pins[k].1),
    ensures
        ({
            let (inst, pin) = pins[k];
            let d = layouts@[r.inst_cell@[inst]@]@[pin];
            let before = spef::with_conns(s, names, pins, Some(&r), k);
            let after = spef::with_conns(s, names, pins, Some(&r), k + 1);
            &&& d == PinDir::Output ==> exists|at: int|
                0 <= at < names.len() && #[trigger] names[at] == inst && after == before + ("*I *"@
                    + text::nat_text((at + 1) as nat) + ":"@ + pin + " "@ + "O"@ + "\n"@)
            &&& d == PinDir::Input ==> exists|at: int|
                0 <= at < names.len() && #[trigger] names[at] == inst && after == before + ("*I *"@
                    + text::nat_text((at + 1) as nat) + ":"@ + pin + " "@ + "I"@ + "\n"@)
        }),
{
    let (inst, pin) = pins[k];
    let d = layouts@[r.inst_cell@[inst]@]@[pin];
    if d == PinDir::Output || d == PinDir::Input {
        hookup::the_cell_layout_decides(r, inst, pin, layouts);
        hookup::inputs_load_by_the_library(r, inst, pin);
        a_connection_states_its_direction(s, names, pins, r, k);
        let letter = if d == PinDir::Output {
            "O"@
        } else {
            "I"@
        };
        let before = spef::with_conns(s, names, pins, Some(&r), k);
        let after = spef::with_conns(s, names, pins, Some(&r), k + 1);
        reveal_strlit("");
        let at = choose|at: int|
            0 <= at < names.len() && #[trigger] names[at] == inst && after == before + ("*I *"@
                + text::nat_text((at + 1) as nat) + ":"@ + pin + " "@ + letter + ""@
                + "\n"@);
        let line = "*I *"@ + text::nat_text((at + 1) as nat) + ":"@ + pin + " "@ + letter;
        assert(line + ""@ =~= line);
        assert(names[at] == inst && after == before + (line + "\n"@));
    }
}

} // verus!

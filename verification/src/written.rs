//! What a netlist and a summary hold in writing: a line for every name, port, capacitance
//! and resistor; an object for every net and coupling.
use crate::coupling;
use crate::coupling::CapView;
use crate::drawn;
use crate::engine;
use crate::engine::Inputs;
use crate::faces;
use crate::geom;
use crate::hookup::{PinDir, PinResolver};
use crate::number;
use crate::number::Real;
use crate::rc;
use crate::rc::ParasiticsView;
use crate::records;
use crate::spef;
use crate::spef::UnitsView;
use crate::text;
use crate::tree;
use crate::tree::{NetworkView, OutcomeView};
use vstd::prelude::*;

verus! {

/// Whether a text holds a part.
pub open spec fn holds(s: Seq<char>, part: Seq<char>) -> bool {
    exists|a: Seq<char>, b: Seq<char>| s == #[trigger] (a + part + b)
}

/// Whether a text starts with another.
spec fn begins(s: Seq<char>, t: Seq<char>) -> bool {
    exists|b: Seq<char>| s == #[trigger] (t + b)
}

proof fn lemma_begins_self(s: Seq<char>)
    ensures
        begins(s, s),
{
    assert(s + Seq::<char>::empty() =~= s);
}

proof fn lemma_begins_more(s: Seq<char>, t: Seq<char>, x: Seq<char>)
    requires
        begins(s, t),
    ensures
        begins(s + x, t),
{
    let b = choose|b: Seq<char>| s == #[trigger] (t + b);
    assert(s + x =~= t + (b + x));
}

proof fn lemma_begins_trans(s: Seq<char>, t: Seq<char>, u: Seq<char>)
    requires
        begins(s, t),
        begins(t, u),
    ensures
        begins(s, u),
{
    let b = choose|b: Seq<char>| s == #[trigger] (t + b);
    lemma_begins_more(t, u, b);
}

proof fn lemma_holds_on(s: Seq<char>, t: Seq<char>, part: Seq<char>)
    requires
        begins(s, t),
        holds(t, part),
    ensures
        holds(s, part),
{
    let x = choose|b: Seq<char>| s == #[trigger] (t + b);
    let (a, b) = choose|a: Seq<char>, b: Seq<char>| t == #[trigger] (a + part + b);
    assert(s =~= a + part + (b + x));
}

proof fn lemma_holds_end(s: Seq<char>, part: Seq<char>)
    ensures
        holds(s + part, part),
{
    assert(s + part =~= s + part + Seq::<char>::empty());
}

/// A numbered line.
pub open spec fn numbered<N: Real>(k: int, label: Seq<char>, v: N) -> Seq<char> {
    text::nat_text((k + 1) as nat) + " "@ + label + " "@ + v.spec_numeral() + "\n"@
}

proof fn lemma_lines<N: Real>(s: Seq<char>, lines: Seq<(Seq<char>, N)>, n: int, k: int)
    requires
        0 <= n <= lines.len(),
    ensures
        begins(spef::with_lines(s, lines, n), s),
        0 <= k < n ==> holds(
            spef::with_lines(s, lines, n),
            numbered(k, lines[k].0, lines[k].1),
        ),
    decreases n,
{
    if n <= 0 {
        lemma_begins_self(s);
    } else {
        lemma_lines(s, lines, n - 1, k);
        let before = spef::with_lines(s, lines, n - 1);
        let line = numbered(n - 1, lines[n - 1].0, lines[n - 1].1);
        let all = spef::with_lines(s, lines, n);
        assert(all =~= before + line);
        lemma_begins_self(before);
        lemma_begins_more(before, before, line);
        lemma_begins_trans(all, before, s);
        if 0 <= k < n {
            if k < n - 1 {
                lemma_holds_on(all, before, numbered(k, lines[k].0, lines[k].1));
            } else {
                lemma_holds_end(before, line);
            }
        }
    }
}

proof fn lemma_conns<N: Real>(
    s: Seq<char>,
    names: Seq<Seq<char>>,
    pins: Seq<(Seq<char>, Seq<char>)>,
    resolver: Option<&PinResolver<N>>,
    k: int,
)
    requires
        0 <= k <= pins.len(),
    ensures
        begins(spef::with_conns(s, names, pins, resolver, k), s),
    decreases k,
{
    if k <= 0 {
        lemma_begins_self(s);
    } else {
        lemma_conns(s, names, pins, resolver, k - 1);
        let before = spef::with_conns(s, names, pins, resolver, k - 1);
        let p = pins[k - 1];
        let (d, c) = spef::hookup(resolver, p);
        let l = spef::pin_label(names, p.0, p.1);
        if spef::is_port(p.0) {
            lemma_begins_more(before, s, "*P "@);
            lemma_begins_more(before + "*P "@, s, p.1);
            lemma_begins_more(before + "*P "@ + p.1, s, " "@);
            lemma_begins_more(before + "*P "@ + p.1 + " "@, s, spef::dir_letter(d));
            lemma_begins_more(before + "*P "@ + p.1 + " "@ + spef::dir_letter(d), s, "\n"@);
        } else {
            let a = before + "*I "@ + l + " "@ + spef::dir_letter(d);
            lemma_begins_more(before, s, "*I "@);
            lemma_begins_more(before + "*I "@, s, l);
            lemma_begins_more(before + "*I "@ + l, s, " "@);
            lemma_begins_more(before + "*I "@ + l + " "@, s, spef::dir_letter(d));
            lemma_begins_more(a, s, "\n"@);
            lemma_begins_more(a, s, " *L "@);
            lemma_begins_more(a + " *L "@, s, c.spec_numeral());
            lemma_begins_more(a + " *L "@ + c.spec_numeral(), s, "\n"@);
        }
    }
}

/// The line that opens the record of a net.
pub open spec fn opening<N: Real>(id: nat, total: N) -> Seq<char> {
    "*D_NET *"@ + text::nat_text(id) + " "@ + total.spec_numeral() + "\n"@
}

/// Whether a text holds the record of net `n`: the line that opens it, and its numbered
/// lines of capacitance and resistance.
pub open spec fn holds_record<N: Real>(
    s: Seq<char>,
    nets: Seq<ParasiticsView<N>>,
    trees: Seq<Option<NetworkView<N>>>,
    caps: Seq<CapView<N>>,
    resolver: Option<&PinResolver<N>>,
    n: int,
) -> bool {
    let names = spef::name_map(nets);
    let cl = spef::cap_lines(names, nets, trees, caps, resolver, n);
    let rl = spef::res_lines(names, nets, trees, n);
    &&& holds(s, opening(spef::id(names, nets[n].name), spef::stated_total(nets[n], caps, resolver)))
    &&& forall|k: int|
        0 <= k < cl.len() ==> holds(s, numbered(k, (#[trigger] cl[k]).0, cl[k].1))
    &&& forall|k: int|
        0 <= k < rl.len() ==> holds(s, numbered(k, (#[trigger] rl[k]).0, rl[k].1))
}

#[verifier::rlimit(50)]
proof fn lemma_record<N: Real>(
    s: Seq<char>,
    nets: Seq<ParasiticsView<N>>,
    trees: Seq<Option<NetworkView<N>>>,
    caps: Seq<CapView<N>>,
    resolver: Option<&PinResolver<N>>,
    n: int,
)
    requires
        0 <= n < nets.len(),
    ensures
        ({
            let out = spef::with_net(s, spef::name_map(nets), nets, trees, caps, resolver, n);
            begins(out, s) && holds_record(out, nets, trees, caps, resolver, n)
        }),
{
    let names = spef::name_map(nets);
    let net = nets[n];
    let total = spef::stated_total(net, caps, resolver);
    let open = opening(spef::id(names, net.name), total);
    let out = spef::with_net(s, names, nets, trees, caps, resolver, n);
    let head = s + "*D_NET *"@ + text::nat_text(spef::id(names, net.name)) + " "@
        + total.spec_numeral() + "\n"@ + "*CONN\n"@;
    assert(head =~= s + open + "*CONN\n"@);
    lemma_begins_self(s);
    lemma_begins_more(s, s, open);
    lemma_begins_more(s + open, s, "*CONN\n"@);
    lemma_holds_end(s, open);
    lemma_begins_self(s + open);
    lemma_begins_more(s + open, s + open, "*CONN\n"@);
    lemma_holds_on(head, s + open, open);
    let conns = spef::with_conns(head, names, net.pins, resolver, net.pins.len() as int);
    lemma_conns(head, names, net.pins, resolver, net.pins.len() as int);
    let cl = spef::cap_lines(names, nets, trees, caps, resolver, n);
    let start = conns + "*CAP\n"@;
    lemma_begins_more(conns, head, "*CAP\n"@);
    let capped = spef::with_lines(start, cl, cl.len() as int);
    lemma_lines(start, cl, cl.len() as int, 0);
    lemma_begins_trans(capped, start, head);
    let rl = spef::res_lines(names, nets, trees, n);
    let mid = capped + "*RES\n"@;
    let series = spef::with_lines(mid, rl, rl.len() as int);
    lemma_lines(mid, rl, rl.len() as int, 0);
    lemma_begins_self(capped);
    lemma_begins_more(capped, capped, "*RES\n"@);
    lemma_begins_trans(series, mid, capped);
    lemma_begins_more(series, capped, "*END\n\n"@);
    lemma_begins_more(capped, capped, "*END\n\n"@);
    assert(begins(out, capped));
    lemma_begins_trans(out, capped, head);
    lemma_begins_trans(out, head, s);
    lemma_holds_on(out, head, open);
    assert forall|k: int| 0 <= k < cl.len() implies holds(
        out,
        numbered(k, (#[trigger] cl[k]).0, cl[k].1),
    ) by {
        lemma_lines(start, cl, cl.len() as int, k);
        lemma_holds_on(out, capped, numbered(k, cl[k].0, cl[k].1));
    }
    assert forall|k: int| 0 <= k < rl.len() implies holds(
        out,
        numbered(k, (#[trigger] rl[k]).0, rl[k].1),
    ) by {
        lemma_lines(mid, rl, rl.len() as int, k);
        lemma_begins_self(series);
        lemma_begins_more(series, series, "*END\n\n"@);
        lemma_holds_on(out, series, numbered(k, rl[k].0, rl[k].1));
    }
}

proof fn lemma_records<N: Real>(
    s: Seq<char>,
    nets: Seq<ParasiticsView<N>>,
    trees: Seq<Option<NetworkView<N>>>,
    caps: Seq<CapView<N>>,
    resolver: Option<&PinResolver<N>>,
    m: int,
    n: int,
)
    requires
        0 <= m <= nets.len(),
        0 <= n < nets.len(),
    ensures
        ({
            let out = spef::with_nets(s, spef::name_map(nets), nets, trees, caps, resolver, m);
            begins(out, s) && (n < m ==> holds_record(out, nets, trees, caps, resolver, n))
        }),
    decreases m,
{
    let names = spef::name_map(nets);
    if m <= 0 {
        lemma_begins_self(s);
    } else {
        lemma_records(s, nets, trees, caps, resolver, m - 1, n);
        let before = spef::with_nets(s, names, nets, trees, caps, resolver, m - 1);
        let out = spef::with_nets(s, names, nets, trees, caps, resolver, m);
        lemma_record(before, nets, trees, caps, resolver, m - 1);
        lemma_begins_trans(out, before, s);
        if n < m - 1 {
            lemma_record_on(out, before, nets, trees, caps, resolver, n);
        }
    }
}

proof fn lemma_record_on<N: Real>(
    s: Seq<char>,
    t: Seq<char>,
    nets: Seq<ParasiticsView<N>>,
    trees: Seq<Option<NetworkView<N>>>,
    caps: Seq<CapView<N>>,
    resolver: Option<&PinResolver<N>>,
    n: int,
)
    requires
        begins(s, t),
        holds_record(t, nets, trees, caps, resolver, n),
    ensures
        holds_record(s, nets, trees, caps, resolver, n),
{
    let names = spef::name_map(nets);
    let cl = spef::cap_lines(names, nets, trees, caps, resolver, n);
    let rl = spef::res_lines(names, nets, trees, n);
    lemma_holds_on(
        s,
        t,
        opening(spef::id(names, nets[n].name), spef::stated_total(nets[n], caps, resolver)),
    );
    assert forall|k: int| 0 <= k < cl.len() implies holds(
        s,
        numbered(k, (#[trigger] cl[k]).0, cl[k].1),
    ) by {
        lemma_holds_on(s, t, numbered(k, cl[k].0, cl[k].1));
    }
    assert forall|k: int| 0 <= k < rl.len() implies holds(
        s,
        numbered(k, (#[trigger] rl[k]).0, rl[k].1),
    ) by {
        lemma_holds_on(s, t, numbered(k, rl[k].0, rl[k].1));
    }
}

proof fn lemma_names(s: Seq<char>, names: Seq<Seq<char>>, n: int, k: int)
    requires
        0 <= n <= names.len(),
    ensures
        begins(spef::with_names(s, names, n), s),
        0 <= k < n ==> holds(
            spef::with_names(s, names, n),
            "*"@ + text::nat_text((k + 1) as nat) + " "@ + names[k] + "\n"@,
        ),
    decreases n,
{
    if n <= 0 {
        lemma_begins_self(s);
    } else {
        lemma_names(s, names, n - 1, k);
        let before = spef::with_names(s, names, n - 1);
        let all = spef::with_names(s, names, n);
        let line = "*"@ + text::nat_text(n as nat) + " "@ + names[n - 1] + "\n"@;
        assert(all =~= before + line);
        lemma_begins_self(before);
        lemma_begins_more(before, before, line);
        lemma_begins_trans(all, before, s);
        if 0 <= k < n - 1 {
            lemma_holds_on(
                all,
                before,
                "*"@ + text::nat_text((k + 1) as nat) + " "@ + names[k] + "\n"@,
            );
        } else if k == n - 1 {
            lemma_holds_end(before, line);
        }
    }
}

proof fn lemma_ports(s: Seq<char>, ports: Seq<(Seq<char>, PinDir)>, n: int, k: int)
    requires
        0 <= n <= ports.len(),
    ensures
        begins(spef::with_ports(s, ports, n), s),
        0 <= k < n ==> holds(
            spef::with_ports(s, ports, n),
            ports[k].0 + " "@ + spef::dir_letter(ports[k].1) + "\n"@,
        ),
    decreases n,
{
    if n <= 0 {
        lemma_begins_self(s);
    } else {
        lemma_ports(s, ports, n - 1, k);
        let before = spef::with_ports(s, ports, n - 1);
        let all = spef::with_ports(s, ports, n);
        let line = ports[n - 1].0 + " "@ + spef::dir_letter(ports[n - 1].1) + "\n"@;
        assert(all =~= before + line);
        lemma_begins_self(before);
        lemma_begins_more(before, before, line);
        lemma_begins_trans(all, before, s);
        if 0 <= k < n - 1 {
            lemma_holds_on(all, before, ports[k].0 + " "@ + spef::dir_letter(ports[k].1) + "\n"@);
        } else if k == n - 1 {
            lemma_holds_end(before, line);
        }
    }
}

/// A netlist holds all of its nets: the record of each one, a line of the name map for
/// each name, and a line for each port.
#[verifier::rlimit(50)]
pub proof fn a_netlist_holds_every_net<N: Real>(
    design: Seq<char>,
    units: UnitsView,
    date: Option<Seq<char>>,
    nets: Seq<ParasiticsView<N>>,
    trees: Seq<Option<NetworkView<N>>>,
    caps: Seq<CapView<N>>,
    resolver: Option<&PinResolver<N>>,
    n: int,
    k: int,
    p: int,
)
    ensures
        ({
            let s = spef::document(design, units, date, nets, trees, caps, resolver);
            let names = spef::name_map(nets);
            let ports = spef::ports(nets, resolver, nets.len() as int);
            &&& 0 <= n < nets.len() ==> holds_record(s, nets, trees, caps, resolver, n)
            &&& 0 <= k < names.len() ==> holds(
                s,
                "*"@ + text::nat_text((k + 1) as nat) + " "@ + names[k] + "\n"@,
            )
            &&& 0 <= p < ports.len() ==> holds(
                s,
                ports[p].0 + " "@ + spef::dir_letter(ports[p].1) + "\n"@,
            )
        }),
{
    let s = spef::document(design, units, date, nets, trees, caps, resolver);
    let names = spef::name_map(nets);
    let top = spef::header(
        design,
        units,
        match date {
            Some(d) => d,
            None => spef::fixed_date(),
        },
    );
    let listed = spef::with_names(top + "*NAME_MAP\n"@, names, names.len() as int);
    lemma_names(top + "*NAME_MAP\n"@, names, names.len() as int, k);
    let mapped = listed + "\n"@;
    lemma_begins_self(listed);
    lemma_begins_more(listed, listed, "\n"@);
    let ports = spef::ports(nets, resolver, nets.len() as int);
    let row = spef::with_ports(mapped + "*PORTS\n"@, ports, ports.len() as int);
    lemma_ports(mapped + "*PORTS\n"@, ports, ports.len() as int, p);
    let ported = if ports.len() > 0 {
        row + "\n"@
    } else {
        mapped
    };
    lemma_begins_more(mapped, listed, "*PORTS\n"@);
    lemma_begins_trans(row, mapped + "*PORTS\n"@, listed);
    lemma_begins_more(row, listed, "\n"@);
    assert(begins(ported, listed));
    lemma_begins_self(row);
    lemma_begins_more(row, row, "\n"@);
    let m = nets.len() as int;
    let out = spef::with_nets(ported, names, nets, trees, caps, resolver, m);
    assert(s == out);
    if 0 <= n < m {
        lemma_records(ported, nets, trees, caps, resolver, m, n);
    }
    lemma_all_records(ported, nets, trees, caps, resolver, m);
    lemma_begins_trans(out, ported, listed);
    if 0 <= k < names.len() {
        lemma_holds_on(
            s,
            listed,
            "*"@ + text::nat_text((k + 1) as nat) + " "@ + names[k] + "\n"@,
        );
    }
    if 0 <= p < ports.len() {
        lemma_begins_trans(out, ported, row);
        lemma_holds_on(s, row, ports[p].0 + " "@ + spef::dir_letter(ports[p].1) + "\n"@);
    }
}

proof fn lemma_all_records<N: Real>(
    s: Seq<char>,
    nets: Seq<ParasiticsView<N>>,
    trees: Seq<Option<NetworkView<N>>>,
    caps: Seq<CapView<N>>,
    resolver: Option<&PinResolver<N>>,
    m: int,
)
    requires
        0 <= m <= nets.len(),
    ensures
        begins(spef::with_nets(s, spef::name_map(nets), nets, trees, caps, resolver, m), s),
    decreases m,
{
    if m <= 0 {
        lemma_begins_self(s);
    } else {
        lemma_records(s, nets, trees, caps, resolver, m, 0);
    }
}

/// Whether names are listed in a text by their numbers, that of a net and those of the
/// instances that it connects among them.
pub open spec fn is_named(s: Seq<char>, names: Seq<Seq<char>>, net: geom::NetView) -> bool {
    &&& names.contains(net.name)
    &&& forall|k: int|
        0 <= k < net.pins.len() && (#[trigger] net.pins[k]).0 != "PIN"@ ==> names.contains(
            net.pins[k].0,
        )
    &&& forall|k: int|
        0 <= k < names.len() ==> holds(
            s,
            "*"@ + text::nat_text((k + 1) as nat) + " "@ + #[trigger] names[k] + "\n"@,
        )
}

/// What is written of a layout holds a line for every resistor of each net whose geometry
/// supports a network, between its two nodes and with its part of the resistance of the
/// net, and a line for each of its nodes: no net with a network is written as a star.
#[verifier::rlimit(50)]
pub proof fn a_run_writes_every_resistor<N: Real>(
    s: Seq<char>,
    design: Seq<char>,
    inputs: Inputs<N>,
    n: int,
    e: int,
)
    requires
        engine::is_run(s, design, inputs),
        0 <= n < inputs.def.nets@.len(),
        ({
            let o = tree::outcome(
                inputs.def.nets@[n]@,
                inputs.rules@,
                inputs.lef.widths@,
                tree::named_layers(inputs.lef.vias@),
            );
            o matches OutcomeView::Built(t) && 0 <= e < t.edges.len()
        }),
    ensures
        ({
            let o = tree::outcome(
                inputs.def.nets@[n]@,
                inputs.rules@,
                inputs.lef.widths@,
                tree::named_layers(inputs.lef.vias@),
            );
            let t = o->Built_0;
            exists|names: Seq<Seq<char>>, a: Seq<char>, b: Seq<char>, v: N|
                {
                    &&& is_named(s, names, inputs.def.nets@[n]@)
                    &&& #[trigger] holds(s, numbered(e, a + " "@ + b, v))
                    &&& #[trigger] records::is_label(
                        names,
                        inputs.def.nets@[n]@.name,
                        t,
                        t.edges[e].a,
                        a,
                    )
                    &&& #[trigger] records::is_label(
                        names,
                        inputs.def.nets@[n]@.name,
                        t,
                        t.edges[e].b,
                        b,
                    )
                }
        }),
{
    let x = choose|x: engine::Extraction<N>| #[trigger]
        engine::is_extraction(x, inputs) && s == spef::document(
            design,
            spef::default_units(),
            None,
            rc::parasitics_view(x.nets@),
            spef::trees_view(x.trees@),
            coupling::caps_view(x.couplings@),
            None,
        );
    let nets = rc::parasitics_view(x.nets@);
    let trees = spef::trees_view(x.trees@);
    let caps = coupling::caps_view(x.couplings@);
    let list = geom::nets_view(inputs.def.nets@);
    let via_layers = tree::named_layers(inputs.lef.vias@);
    let o = engine::outcomes(list, inputs.rules@, inputs.lef.widths@, via_layers);
    assert(trees[n] == engine::networks(o)[n]);
    let t = trees[n]->0;
    faces::lemma_lumped_names(inputs, list.len() as int);
    assert(nets[n].name == list[n].name);
    a_netlist_holds_every_net(
        design,
        spef::default_units(),
        None,
        nets,
        trees,
        caps,
        None::<&PinResolver<N>>,
        n,
        -1,
        -1,
    );
    drawn::a_network_hangs_together(
        list[n],
        inputs.rules@,
        inputs.lef.widths@,
        via_layers,
    );
    records::a_network_is_spread_by_its_parts(nets, trees, n, 0, e);
    let names = spef::name_map(nets);
    let rl = spef::res_lines(names, nets, trees, n);
    assert(holds(s, numbered(e, rl[e].0, rl[e].1)));
    let (a, b) = choose|a: Seq<char>, b: Seq<char>|
        rl[e].0 == a + " "@ + b && #[trigger] records::is_label(
            names,
            nets[n].name,
            t,
            t.edges[e].a,
            a,
        ) && #[trigger] records::is_label(names, nets[n].name, t, t.edges[e].b, b);
    assert(is_named(s, names, list[n])) by {
        spef::nets_are_mapped(nets, n);
        assert forall|k: int| 0 <= k < list[n].pins.len() && (#[trigger] list[n].pins[k]).0
            != "PIN"@ implies names.contains(list[n].pins[k].0) by {
            spef::instances_are_mapped(nets, n, k);
        }
        assert forall|k: int| 0 <= k < names.len() implies holds(
            s,
            "*"@ + text::nat_text((k + 1) as nat) + " "@ + #[trigger] names[k] + "\n"@,
        ) by {
            a_netlist_holds_every_net(
                design,
                spef::default_units(),
                None,
                nets,
                trees,
                caps,
                None::<&PinResolver<N>>,
                -1,
                k,
                -1,
            );
        }
    }
    assert(holds(s, numbered(e, a + " "@ + b, rl[e].1)));
}

/// The object of a net in a summary.
pub open spec fn net_entry<N: Real>(net: ParasiticsView<N>) -> Seq<char> {
    "{\"name\":"@ + text::debug_text(net.name) + ",\"pins\":"@ + text::nat_text(net.pins.len())
        + ",\"ground_cap_ff\":"@ + net.cap.spec_places(6) + ",\"res_ohm\":"@ + net.res.spec_places(6)
        + "}"@
}

/// The object of a coupling in a summary.
pub open spec fn coupling_entry<N: Real>(c: CapView<N>) -> Seq<char> {
    "{\"a\":"@ + text::debug_text(c.a) + ",\"b\":"@ + text::debug_text(c.b) + ",\"cap_ff\":"@
        + c.cap.spec_places(6) + "}"@
}

/// The totals of a summary.
pub open spec fn totals<N: Real>(ground: N, coupled: N, ohm: N) -> Seq<char> {
    ",\"ground_cap_ff\":"@ + ground.spec_places(6) + ",\"coupling_cap_ff\":"@ + coupled.spec_places(6)
        + ",\"total_cap_ff\":"@ + ground.spec_plus(coupled).spec_places(6) + ",\"total_res_ohm\":"@
        + ohm.spec_places(6)
}

proof fn lemma_json_nets<N: Real>(s: Seq<char>, nets: Seq<ParasiticsView<N>>, n: int, k: int)
    requires
        0 <= n <= nets.len(),
    ensures
        begins(spef::with_json_nets(s, nets, n), s),
        0 <= k < n ==> holds(spef::with_json_nets(s, nets, n), net_entry(nets[k])),
    decreases n,
{
    if n <= 0 {
        lemma_begins_self(s);
    } else {
        lemma_json_nets(s, nets, n - 1, k);
        let before = spef::with_json_nets(s, nets, n - 1);
        let comma = if n > 1 {
            before + ","@
        } else {
            before
        };
        let all = spef::with_json_nets(s, nets, n);
        let entry = net_entry(nets[n - 1]);
        assert(all =~= comma + entry);
        lemma_begins_self(before);
        lemma_begins_more(before, before, ","@);
        assert(begins(comma, before));
        lemma_begins_more(comma, before, entry);
        lemma_begins_trans(all, before, s);
        if 0 <= k < n - 1 {
            lemma_holds_on(all, before, net_entry(nets[k]));
        } else if k == n - 1 {
            lemma_holds_end(comma, entry);
        }
    }
}

proof fn lemma_json_caps<N: Real>(s: Seq<char>, caps: Seq<CapView<N>>, n: int, k: int)
    requires
        0 <= n <= caps.len(),
    ensures
        begins(spef::with_json_caps(s, caps, n), s),
        0 <= k < n ==> holds(spef::with_json_caps(s, caps, n), coupling_entry(caps[k])),
    decreases n,
{
    if n <= 0 {
        lemma_begins_self(s);
    } else {
        lemma_json_caps(s, caps, n - 1, k);
        let before = spef::with_json_caps(s, caps, n - 1);
        let comma = if n > 1 {
            before + ","@
        } else {
            before
        };
        let all = spef::with_json_caps(s, caps, n);
        let entry = coupling_entry(caps[n - 1]);
        assert(all =~= comma + entry);
        lemma_begins_self(before);
        lemma_begins_more(before, before, ","@);
        assert(begins(comma, before));
        lemma_begins_more(comma, before, entry);
        lemma_begins_trans(all, before, s);
        if 0 <= k < n - 1 {
            lemma_holds_on(all, before, coupling_entry(caps[k]));
        } else if k == n - 1 {
            lemma_holds_end(comma, entry);
        }
    }
}

/// A summary holds an object for every net and for every coupling, and states as totals
/// the sums of the grounded capacitances, of the couplings, of the two together, and of
/// the resistances of all nets.
#[verifier::rlimit(50)]
pub proof fn a_summary_holds_every_net_and_coupling<N: Real>(
    design: Seq<char>,
    nets: Seq<ParasiticsView<N>>,
    caps: Seq<CapView<N>>,
    n: int,
    c: int,
)
    ensures
        ({
            let s = spef::summary(design, nets, caps);
            let ground = number::total(Seq::new(nets.len(), |i: int| nets[i].cap));
            let ohm = number::total(Seq::new(nets.len(), |i: int| nets[i].res));
            let coupled = number::total(Seq::new(caps.len(), |i: int| caps[i].cap));
            &&& 0 <= n < nets.len() ==> holds(s, net_entry(nets[n]))
            &&& 0 <= c < caps.len() ==> holds(s, coupling_entry(caps[c]))
            &&& holds(s, totals(ground, coupled.spec_plus(number::zero()), ohm))
        }),
{
    let s = spef::summary(design, nets, caps);
    let ground = number::total(spef::net_caps(nets));
    let ohm = number::total(spef::net_ohms(nets));
    let coupled = number::total(spef::cap_values(caps)).spec_plus(number::zero());
    assert(spef::net_caps(nets) =~= Seq::new(nets.len(), |i: int| nets[i].cap));
    assert(spef::net_ohms(nets) =~= Seq::new(nets.len(), |i: int| nets[i].res));
    assert(spef::cap_values(caps) =~= Seq::new(caps.len(), |i: int| caps[i].cap));
    let top = "{\"design\":"@ + text::debug_text(design) + ",\"nets\":"@ + text::nat_text(nets.len());
    let sums = totals(ground, coupled, ohm);
    let head = "{\"design\":"@ + text::debug_text(design) + ",\"nets\":"@ + text::nat_text(
        nets.len(),
    ) + ",\"ground_cap_ff\":"@ + ground.spec_places(6) + ",\"coupling_cap_ff\":"@ + coupled.spec_places(6)
        + ",\"total_cap_ff\":"@ + ground.spec_plus(coupled).spec_places(6) + ",\"total_res_ohm\":"@
        + ohm.spec_places(6) + ",\"per_net\":["@;
    assert(head =~= top + sums + ",\"per_net\":["@);
    let m = nets.len() as int;
    let body = spef::with_json_nets(head, nets, m);
    lemma_json_nets(head, nets, m, n);
    let listed = body + "],\"couplings\":["@;
    let all = spef::with_json_caps(listed, caps, caps.len() as int);
    lemma_json_caps(listed, caps, caps.len() as int, c);
    lemma_begins_self(body);
    lemma_begins_more(body, body, "],\"couplings\":["@);
    lemma_begins_trans(all, listed, body);
    lemma_begins_more(all, body, "]}\n"@);
    lemma_begins_self(all);
    lemma_begins_more(all, all, "]}\n"@);
    lemma_begins_trans(s, body, head);
    assert(holds(head, sums));
    lemma_holds_on(s, head, sums);
    if 0 <= n < m {
        lemma_holds_on(s, body, net_entry(nets[n]));
    }
    if 0 <= c < caps.len() {
        lemma_holds_on(s, all, coupling_entry(caps[c]));
    }
}

} // verus!

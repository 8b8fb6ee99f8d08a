//! How a net is spread over its record: what stands at each node, and what lies between
//! which two.
use crate::coupling::CapView;
use crate::hookup::{PinDir, PinResolver};
use crate::number;
use crate::number::Real;
use crate::rc::ParasiticsView;
use crate::spef;
use crate::text;
use crate::tree::NetworkView;
use vstd::prelude::*;

verus! {

/// How a node of a network is written: as its pin, by the number of the instance in the
/// name map or, for a port, by name; else by the number of the net and its own.
pub open spec fn is_label<N: Real>(
    names: Seq<Seq<char>>,
    net: Seq<char>,
    t: NetworkView<N>,
    i: int,
    label: Seq<char>,
) -> bool {
    match t.nodes[i].pin {
        Some((inst, pin)) => {
            &&& inst == "PIN"@ ==> label == pin
            &&& inst != "PIN"@ && names.contains(inst) ==> exists|k: int|
                0 <= k < names.len() && #[trigger] names[k] == inst && label == "*"@
                    + text::nat_text((k + 1) as nat) + ":"@ + pin
        },
        None => names.contains(net) ==> exists|k: int|
            0 <= k < names.len() && #[trigger] names[k] == net && label == "*"@ + text::nat_text(
                (k + 1) as nat,
            ) + ":"@ + text::nat_text(i as nat),
    }
}

proof fn lemma_label<N: Real>(
    names: Seq<Seq<char>>,
    net: Seq<char>,
    t: NetworkView<N>,
    i: int,
)
    ensures
        is_label(names, net, t, i, spef::node_label(names, spef::id(names, net), t, i)),
{
    match t.nodes[i].pin {
        Some((inst, pin)) => {
            if names.contains(inst) {
                assert(names[names.index_of(inst)] == inst);
            }
        },
        None => {
            if names.contains(net) {
                assert(names[names.index_of(net)] == net);
            }
        },
    }
}

/// The record of a net with a network has a line for each node, with its part of the
/// net's capacitance: its own capacitance times the net's over that of the network. It
/// has a line for each resistor, between its two nodes, with its part of the net's
/// resistance.
pub proof fn a_network_is_spread_by_its_parts<N: Real>(
    nets: Seq<ParasiticsView<N>>,
    trees: Seq<Option<NetworkView<N>>>,
    n: int,
    i: int,
    e: int,
)
    requires
        0 <= n < nets.len(),
        0 <= n < trees.len(),
        trees[n] is Some,
        0 <= i < (trees[n]->0).nodes.len(),
    ensures
        ({
            let (net, t, names) = (nets[n], trees[n]->0, spef::name_map(nets));
            let grounded = spef::grounded_lines(names, nets, trees, n);
            let series = spef::res_lines(names, nets, trees, n);
            let zero = number::zero::<N>();
            &&& grounded.len() == t.nodes.len() && series.len() == t.edges.len()
            &&& is_label(names, net.name, t, i, grounded[i].0)
            &&& zero.spec_below(t.raw_cap) ==> grounded[i].1 == t.nodes[i].cap.spec_times(
                net.cap.spec_over(t.raw_cap),
            )
            &&& !zero.spec_below(t.raw_cap) ==> grounded[0].1 == net.cap
            &&& 0 <= e < t.edges.len() ==> exists|a: Seq<char>, b: Seq<char>|
                series[e].0 == a + " "@ + b && #[trigger] is_label(
                    names,
                    net.name,
                    t,
                    t.edges[e].a,
                    a,
                ) && #[trigger] is_label(names, net.name, t, t.edges[e].b, b)
            &&& 0 <= e < t.edges.len() && zero.spec_below(t.raw_res) ==> series[e].1
                == t.edges[e].res.spec_times(net.res.spec_over(t.raw_res))
        }),
{
    let (net, t, names) = (nets[n], trees[n]->0, spef::name_map(nets));
    let nid = spef::id(names, net.name);
    lemma_label(names, net.name, t, i);
    if 0 <= e < t.edges.len() {
        let (x, y) = (t.edges[e].a, t.edges[e].b);
        lemma_label(names, net.name, t, x);
        lemma_label(names, net.name, t, y);
        let (a, b) = (spef::node_label(names, nid, t, x), spef::node_label(names, nid, t, y));
        assert(is_label(names, net.name, t, x, a) && is_label(names, net.name, t, y, b));
        assert(spef::res_lines(names, nets, trees, n)[e].0 == a + " "@ + b);
    }
}

/// How a pin is written.
pub open spec fn is_pin_label(
    names: Seq<Seq<char>>,
    p: (Seq<char>, Seq<char>),
    label: Seq<char>,
) -> bool {
    &&& p.0 == "PIN"@ ==> label == p.1
    &&& p.0 != "PIN"@ && names.contains(p.0) ==> exists|k: int|
        0 <= k < names.len() && #[trigger] names[k] == p.0 && label == "*"@ + text::nat_text(
            (k + 1) as nat,
        ) + ":"@ + p.1
}

proof fn lemma_pin_label(names: Seq<Seq<char>>, p: (Seq<char>, Seq<char>))
    ensures
        is_pin_label(names, p, spef::pin_label(names, p.0, p.1)),
{
    if names.contains(p.0) {
        assert(names[names.index_of(p.0)] == p.0);
    }
}

/// The star of a net with resistance and two or more pins has half of the capacitance at
/// the driver, the first pin, and the other half in equal shares at the others; each pin
/// hangs at the root by a resistor, the driver by half of the resistance and the others
/// by equal shares of the other half. A net without resistance has all of its capacitance
/// at its root.
pub proof fn a_star_is_spread_over_its_pins<N: Real>(
    nets: Seq<ParasiticsView<N>>,
    trees: Seq<Option<NetworkView<N>>>,
    n: int,
    k: int,
)
    requires
        0 <= n < nets.len(),
        !spef::has_tree(trees, n),
    ensures
        ({
            let (net, names) = (nets[n], spef::name_map(nets));
            let grounded = spef::grounded_lines(names, nets, trees, n);
            let series = spef::res_lines(names, nets, trees, n);
            let (c, r) = (
                net.cap.spec_over(N::spec_count(2)),
                net.res.spec_over(N::spec_count(2)),
            );
            let others = N::spec_count((net.pins.len() - 1) as nat);
            let resists = number::zero::<N>().spec_below(net.res);
            &&& !resists ==> grounded.len() == 1 && grounded[0].1 == net.cap && series.len() == 0
            &&& resists && net.pins.len() <= 1 ==> grounded.len() == 2 && grounded[0].1 == c
                && grounded[1].1 == c && series.len() == 1 && series[0].1 == net.res
            &&& resists && net.pins.len() >= 2 && 0 <= k < net.pins.len() ==> {
                &&& grounded.len() == net.pins.len() && series.len() == net.pins.len()
                &&& is_pin_label(names, net.pins[k], grounded[k].0)
                &&& exists|root: Seq<char>|
                    series[k].0 == #[trigger] spef::between(root, grounded[k].0) && (
                    names.contains(net.name) ==> exists|m: int|
                        0 <= m < names.len() && #[trigger] names[m] == net.name && root == "*"@
                            + text::nat_text((m + 1) as nat) + ":"@ + text::nat_text(0))
                &&& k == 0 ==> grounded[k].1 == c && series[k].1 == r
                &&& k > 0 ==> grounded[k].1 == c.spec_over(others) && series[k].1 == r.spec_over(
                    others,
                )
            }
        }),
{
    let (net, names) = (nets[n], spef::name_map(nets));
    let root = spef::root_label(spef::id(names, net.name));
    if number::positive(net.res) && net.pins.len() >= 2 && 0 <= k < net.pins.len() {
        lemma_pin_label(names, net.pins[k]);
        let grounded = spef::grounded_lines(names, nets, trees, n);
        let series = spef::res_lines(names, nets, trees, n);
        assert(series[k].0 == spef::between(root, grounded[k].0));
        if names.contains(net.name) {
            assert(names[names.index_of(net.name)] == net.name);
        }
    }
}

/// Each pin that loads its net has a line of its own in the record, with its load.
pub proof fn every_load_is_listed<N: Real>(
    names: Seq<Seq<char>>,
    pins: Seq<(Seq<char>, Seq<char>)>,
    r: PinResolver<N>,
    k: int,
)
    requires
        0 <= k < pins.len(),
        number::zero::<N>().spec_below(r.hookup(pins[k].0, pins[k].1).1),
    ensures
        ({
            let lines = spef::load_lines(names, pins, Some(&r), pins.len() as int);
            exists|i: int|
                0 <= i < lines.len() && is_pin_label(names, pins[k], (#[trigger] lines[i]).0)
                    && lines[i].1 == r.hookup(pins[k].0, pins[k].1).1
        }),
{
    lemma_load(names, pins, r, k, pins.len() as int);
    lemma_pin_label(names, pins[k]);
    let lines = spef::load_lines(names, pins, Some(&r), pins.len() as int);
    let x = (spef::pin_label(names, pins[k].0, pins[k].1), r.hookup(pins[k].0, pins[k].1).1);
    let i = lines.index_of(x);
    assert(lines[i] == x);
}

proof fn lemma_load<N: Real>(
    names: Seq<Seq<char>>,
    pins: Seq<(Seq<char>, Seq<char>)>,
    r: PinResolver<N>,
    k: int,
    n: int,
)
    requires
        0 <= k < n <= pins.len(),
        number::positive(r.hookup(pins[k].0, pins[k].1).1),
    ensures
        spef::load_lines(names, pins, Some(&r), n).contains(
            (spef::pin_label(names, pins[k].0, pins[k].1), r.hookup(pins[k].0, pins[k].1).1),
        ),
    decreases n,
{
    let x = (spef::pin_label(names, pins[k].0, pins[k].1), r.hookup(pins[k].0, pins[k].1).1);
    let all = spef::load_lines(names, pins, Some(&r), n);
    if k == n - 1 {
        assert(all[all.len() - 1] == x);
    } else {
        lemma_load(names, pins, r, k, n - 1);
        let before = spef::load_lines(names, pins, Some(&r), n - 1);
        assert(all[before.index_of(x)] == x);
    }
}

/// The couplings of a net are all those of which it is a side, each once: the total of
/// its record counts none twice and leaves none out.
pub proof fn a_net_counts_each_coupling_once<N: Real>(name: Seq<char>, caps: Seq<CapView<N>>, n: int)
    requires
        0 <= n <= caps.len(),
    ensures
        ({
            let s = spef::sides(name, caps, n);
            &&& s.no_duplicates()
            &&& forall|c: int, first: bool| #[trigger]
                s.contains((c, first)) <==> 0 <= c < n && (if first {
                    caps[c].a == name
                } else {
                    caps[c].b == name
                })
        }),
    decreases n,
{
    let s = spef::sides(name, caps, n);
    if n > 0 {
        a_net_counts_each_coupling_once(name, caps, n - 1);
        let before = spef::sides(name, caps, n - 1);
        let x = (n - 1, true);
        let y = (n - 1, false);
        assert(!before.contains(x) && !before.contains(y));
        assert forall|c: int, first: bool| #[trigger]
            s.contains((c, first)) <==> 0 <= c < n && (if first {
                caps[c].a == name
            } else {
                caps[c].b == name
            }) by {
            let z = (c, first);
            if before.contains(z) {
                assert(s[before.index_of(z)] == z);
            }
            if caps[n - 1].a == name {
                assert(s[before.len() as int] == x);
            }
            if caps[n - 1].b == name {
                assert(s[s.len() - 1] == y);
            }
            if s.contains(z) {
                let i = s.index_of(z);
                if i < before.len() {
                    assert(before[i] == z);
                }
            }
        }
        assert forall|i: int, j: int|
            0 <= i < s.len() && 0 <= j < s.len() && i != j implies s[i] != s[j] by {
            if i < before.len() {
                assert(s[i] == before[i]);
                assert(before.contains(before[i]));
            }
            if j < before.len() {
                assert(s[j] == before[j]);
                assert(before.contains(before[j]));
            }
        }
    } else {
        assert(s.len() == 0);
    }
}

/// Whether a port is among ports.
pub open spec fn is_listed(s: Seq<(Seq<char>, PinDir)>, name: Seq<char>) -> bool {
    exists|i: int| 0 <= i < s.len() && (#[trigger] s[i]).0 == name
}

proof fn lemma_insert_port(s: Seq<(Seq<char>, PinDir)>, p: (Seq<char>, PinDir), name: Seq<char>)
    ensures
        spef::insert_port(s, p).contains(p),
        is_listed(spef::insert_port(s, p), name) <==> is_listed(s, name) || name == p.0,
    decreases s.len(),
{
    let out = spef::insert_port(s, p);
    let d = s.drop_last();
    if s.len() == 0 || text::text_lt(s.last().0, p.0) {
        assert(out[s.len() as int] == p);
        if is_listed(s, name) {
            let i = choose|i: int| 0 <= i < s.len() && (#[trigger] s[i]).0 == name;
            assert(out[i] == s[i]);
        }
        if is_listed(out, name) {
            let i = choose|i: int| 0 <= i < out.len() && (#[trigger] out[i]).0 == name;
            if i < s.len() {
                assert(s[i].0 == name);
            }
        }
    } else if s.last().0 == p.0 {
        let z = s.len() - 1;
        assert(out[z] == p);
        if is_listed(s, name) {
            let i = choose|i: int| 0 <= i < s.len() && (#[trigger] s[i]).0 == name;
            if i < z {
                assert(out[i] == s[i]);
            } else {
                assert(out[z].0 == name);
            }
        }
        if is_listed(out, name) {
            let i = choose|i: int| 0 <= i < out.len() && (#[trigger] out[i]).0 == name;
            if i < z {
                assert(s[i].0 == name);
            } else {
                assert(s[z].0 == name);
            }
        }
    } else {
        lemma_insert_port(d, p, name);
        let e = spef::insert_port(d, p);
        assert(out == e.push(s.last()));
        assert(out[e.index_of(p)] == p);
        if is_listed(s, name) {
            let i = choose|i: int| 0 <= i < s.len() && (#[trigger] s[i]).0 == name;
            if i < d.len() {
                assert(d[i].0 == name);
                let j = choose|j: int| 0 <= j < e.len() && (#[trigger] e[j]).0 == name;
                assert(out[j].0 == name);
            } else {
                assert(out[e.len() as int].0 == name);
            }
        }
        if name == p.0 {
            assert(e[e.index_of(p)].0 == name);
            assert(out[e.index_of(p)].0 == name);
        }
        if is_listed(out, name) {
            let i = choose|i: int| 0 <= i < out.len() && (#[trigger] out[i]).0 == name;
            if i < e.len() {
                assert(e[i].0 == name);
                if is_listed(d, name) {
                    let j = choose|j: int| 0 <= j < d.len() && (#[trigger] d[j]).0 == name;
                    assert(s[j].0 == name);
                }
            } else {
                assert(s[s.len() - 1].0 == name);
            }
        }
    }
}

/// Whether a pin of the first `n` nets, the last of them up to pin `k`, is a port.
pub open spec fn has_port<N: Real>(nets: Seq<ParasiticsView<N>>, n: int, name: Seq<char>) -> bool {
    exists|i: int, k: int|
        0 <= i < n && 0 <= k < nets[i].pins.len() && (#[trigger] nets[i].pins[k]).0 == "PIN"@
            && nets[i].pins[k].1 == name
}

proof fn lemma_pin_ports<N: Real>(
    s: Seq<(Seq<char>, PinDir)>,
    pins: Seq<(Seq<char>, Seq<char>)>,
    resolver: Option<&PinResolver<N>>,
    k: int,
    name: Seq<char>,
)
    requires
        0 <= k <= pins.len(),
    ensures
        is_listed(spef::with_pin_ports(s, pins, resolver, k), name) <==> is_listed(s, name) || exists|
            j: int,
        |
            0 <= j < k && (#[trigger] pins[j]).0 == "PIN"@ && pins[j].1 == name,
    decreases k,
{
    if k > 0 {
        lemma_pin_ports(s, pins, resolver, k - 1, name);
        let before = spef::with_pin_ports(s, pins, resolver, k - 1);
        let p = (pins[k - 1].1, spef::hookup(resolver, pins[k - 1]).0);
        lemma_insert_port(before, p, name);
        if exists|j: int| 0 <= j < k && (#[trigger] pins[j]).0 == "PIN"@ && pins[j].1 == name {
            let j = choose|j: int|
                0 <= j < k && (#[trigger] pins[j]).0 == "PIN"@ && pins[j].1 == name;
            if j < k - 1 {
                assert(pins[j].0 == "PIN"@);
            }
        }
        if pins[k - 1].0 == "PIN"@ && pins[k - 1].1 == name {
            assert(0 <= k - 1 < k);
        }
    }
}

/// The ports that a netlist lists are those that its nets connect.
pub proof fn the_ports_are_those_connected<N: Real>(
    nets: Seq<ParasiticsView<N>>,
    resolver: Option<&PinResolver<N>>,
    n: int,
    name: Seq<char>,
)
    requires
        0 <= n <= nets.len(),
    ensures
        is_listed(spef::ports(nets, resolver, n), name) <==> has_port(nets, n, name),
    decreases n,
{
    if n > 0 {
        the_ports_are_those_connected(nets, resolver, n - 1, name);
        let before = spef::ports(nets, resolver, n - 1);
        let pins = nets[n - 1].pins;
        lemma_pin_ports(before, pins, resolver, pins.len() as int, name);
        if has_port(nets, n - 1, name) {
            let (i, k) = choose|i: int, k: int|
                0 <= i < n - 1 && 0 <= k < nets[i].pins.len() && (#[trigger] nets[i].pins[k]).0
                    == "PIN"@ && nets[i].pins[k].1 == name;
            assert(nets[i].pins[k].0 == "PIN"@);
        }
        if exists|j: int| 0 <= j < pins.len() && (#[trigger] pins[j]).0 == "PIN"@ && pins[j].1 == name {
            let j = choose|j: int|
                0 <= j < pins.len() && (#[trigger] pins[j]).0 == "PIN"@ && pins[j].1 == name;
            assert(nets[n - 1].pins[j].0 == "PIN"@);
        }
        if has_port(nets, n, name) {
            let (i, k) = choose|i: int, k: int|
                0 <= i < n && 0 <= k < nets[i].pins.len() && (#[trigger] nets[i].pins[k]).0
                    == "PIN"@ && nets[i].pins[k].1 == name;
            if i < n - 1 {
                assert(nets[i].pins[k].0 == "PIN"@);
            } else {
                assert(pins[k].0 == "PIN"@);
            }
        }
    }
}

/// A port is listed with the direction that is known of it where a net last connects it.
pub proof fn a_port_is_listed_with_its_direction<N: Real>(
    nets: Seq<ParasiticsView<N>>,
    resolver: Option<&PinResolver<N>>,
    n: int,
)
    requires
        0 < n <= nets.len(),
        nets[n - 1].pins.len() > 0,
        nets[n - 1].pins.last().0 == "PIN"@,
    ensures
        ({
            let p = nets[n - 1].pins.last();
            let d = match resolver {
                Some(r) => r.hookup(p.0, p.1).0,
                None => PinDir::Unknown,
            };
            spef::ports(nets, resolver, n).contains((p.1, d))
        }),
{
    let pins = nets[n - 1].pins;
    let k = pins.len() as int;
    let before = spef::with_pin_ports(
        spef::ports(nets, resolver, n - 1),
        pins,
        resolver,
        k - 1,
    );
    let p = (pins[k - 1].1, spef::hookup(resolver, pins[k - 1]).0);
    lemma_insert_port(before, p, p.0);
}

} // verus!

//! The SPEF writer, and a summary in JSON.
//!
//! A net with a distributed network is written with its real nodes and
//! resistors, scaled to the net's lumped totals; any other net is written as a
//! star: a trunk from the root to the driver, and a branch to each sink.
//!
//! A leading `*` before a number promises the reader an entry of the name map.
//! Every such number that the writer makes is the place of a name in the map; a
//! port is no instance, has no entry, and is written by its own name.
use crate::coupling;
use crate::coupling::{CapView, CouplingCap};
use crate::hookup::{PinDir, PinResolver};
use crate::number;
use crate::number::Real;
use crate::rc;
use crate::rc::{NetParasitics, ParasiticsView};
use crate::text;
use crate::geom;
use crate::graph;
use crate::tree;
use crate::tree::{NetworkView, RcNetwork};
use vstd::hash_map::StringHashMap;
use vstd::prelude::*;

verus! {

/// The units in which a file states its values.
#[derive(Clone, Debug)]
pub struct Units {
    pub time: String,
    pub cap: String,
    pub res: String,
}

/// What [`Units`] are.
#[verifier::ext_equal]
pub struct UnitsView {
    pub time: Seq<char>,
    pub cap: Seq<char>,
    pub res: Seq<char>,
}

impl View for Units {
    type V = UnitsView;

    open spec fn view(&self) -> UnitsView {
        UnitsView { time: self.time@, cap: self.cap@, res: self.res@ }
    }
}

/// Picoseconds, femtofarads and ohms.
pub open spec fn default_units() -> UnitsView {
    UnitsView { time: "1 PS"@, cap: "1 FF"@, res: "1 OHM"@ }
}

impl Default for Units {
    fn default() -> (r: Self)
        ensures
            r@ == default_units(),
    {
        Units { time: "1 PS".to_owned(), cap: "1 FF".to_owned(), res: "1 OHM".to_owned() }
    }
}

/// The date of a file that is given none: a fixed one, so that a file depends
/// on its inputs alone.
pub open spec fn fixed_date() -> Seq<char> {
    "00:00:00 Thursday January 01, 1970"@
}

/// Whether a connection is one to a port of the design, which DEF spells with
/// the pseudo-instance `PIN`.
pub open spec fn is_port(inst: Seq<char>) -> bool {
    inst == "PIN"@
}

/// The names with one more, if it is new.
pub open spec fn intern(names: Seq<Seq<char>>, s: Seq<char>) -> Seq<Seq<char>> {
    if names.contains(s) {
        names
    } else {
        names.push(s)
    }
}

/// The names of the first `n` nets.
pub open spec fn net_names<N: Real>(nets: Seq<ParasiticsView<N>>, n: int) -> Seq<Seq<char>>
    decreases n,
{
    if n <= 0 {
        Seq::empty()
    } else {
        intern(net_names(nets, n - 1), nets[n - 1].name)
    }
}

/// The names with the instances of the first `k` pins.
pub open spec fn with_insts(
    names: Seq<Seq<char>>,
    pins: Seq<(Seq<char>, Seq<char>)>,
    k: int,
) -> Seq<Seq<char>>
    decreases k,
{
    if k <= 0 {
        names
    } else {
        let before = with_insts(names, pins, k - 1);
        if is_port(pins[k - 1].0) {
            before
        } else {
            intern(before, pins[k - 1].0)
        }
    }
}

/// The names with the instances of the first `n` nets.
pub open spec fn with_net_insts<N: Real>(
    names: Seq<Seq<char>>,
    nets: Seq<ParasiticsView<N>>,
    n: int,
) -> Seq<Seq<char>>
    decreases n,
{
    if n <= 0 {
        names
    } else {
        with_insts(
            with_net_insts(names, nets, n - 1),
            nets[n - 1].pins,
            nets[n - 1].pins.len() as int,
        )
    }
}

/// The name map: the nets, then the instances, each once, as they come up.
pub open spec fn name_map<N: Real>(nets: Seq<ParasiticsView<N>>) -> Seq<Seq<char>> {
    with_net_insts(net_names(nets, nets.len() as int), nets, nets.len() as int)
}

/// The number of a name in the map.
pub open spec fn id(names: Seq<Seq<char>>, s: Seq<char>) -> nat {
    (names.index_of(s) + 1) as nat
}

/// Node `i` of the net with a number.
pub open spec fn inner_label(nid: nat, i: nat) -> Seq<char> {
    "*"@ + text::nat_text(nid) + ":"@ + text::nat_text(i)
}

/// The root of the net with a number.
pub open spec fn root_label(nid: nat) -> Seq<char> {
    inner_label(nid, 0)
}

/// The far end of a net without pins.
pub open spec fn far_label(nid: nat) -> Seq<char> {
    "*"@ + text::nat_text(nid) + ":far"@
}

/// The pin of the instance with a number.
pub open spec fn inst_label(iid: nat, pin: Seq<char>) -> Seq<char> {
    "*"@ + text::nat_text(iid) + ":"@ + pin
}

/// A pin: a port by its name, any other by the number of its instance.
pub open spec fn pin_label(names: Seq<Seq<char>>, inst: Seq<char>, pin: Seq<char>) -> Seq<char> {
    if is_port(inst) {
        pin
    } else if names.contains(inst) {
        inst_label(id(names, inst), pin)
    } else {
        inst + ":"@ + pin
    }
}

/// Two nodes between which something lies.
pub open spec fn between(a: Seq<char>, b: Seq<char>) -> Seq<char> {
    a + " "@ + b
}

/// Whether net `n` has a distributed network.
pub open spec fn has_tree<N: Real>(trees: Seq<Option<NetworkView<N>>>, n: int) -> bool {
    0 <= n < trees.len() && trees[n] is Some
}

/// The node that a net presents to its neighbours: its driver where it has a
/// network and pins, else its root.
pub open spec fn face<N: Real>(
    names: Seq<Seq<char>>,
    nets: Seq<ParasiticsView<N>>,
    trees: Seq<Option<NetworkView<N>>>,
    n: int,
) -> Seq<char> {
    if has_tree(trees, n) && nets[n].pins.len() > 0 {
        pin_label(names, nets[n].pins[0].0, nets[n].pins[0].1)
    } else {
        root_label(id(names, nets[n].name))
    }
}

/// The last of the first `n` nets with a name.
pub open spec fn last_net<N: Real>(nets: Seq<ParasiticsView<N>>, name: Seq<char>, n: int) -> Option<
    int,
>
    decreases n,
{
    if n <= 0 {
        None
    } else if nets[n - 1].name == name {
        Some(n - 1)
    } else {
        last_net(nets, name, n - 1)
    }
}

/// The node of a neighbour: the face of its net; for a name that is no net's,
/// its root, or the root of the net itself.
pub open spec fn neighbour<N: Real>(
    names: Seq<Seq<char>>,
    nets: Seq<ParasiticsView<N>>,
    trees: Seq<Option<NetworkView<N>>>,
    nid: nat,
    other: Seq<char>,
) -> Seq<char> {
    match last_net(nets, other, nets.len() as int) {
        Some(j) => face(names, nets, trees, j),
        None => if names.contains(other) {
            root_label(id(names, other))
        } else {
            root_label(nid)
        },
    }
}

/// Where a net occurs in the first `n` couplings: the coupling, and whether the
/// net is its first side.
pub open spec fn sides<N: Real>(name: Seq<char>, caps: Seq<CapView<N>>, n: int) -> Seq<(int, bool)>
    decreases n,
{
    if n <= 0 {
        Seq::empty()
    } else {
        let before = sides(name, caps, n - 1);
        let first = if caps[n - 1].a == name {
            before.push((n - 1, true))
        } else {
            before
        };
        if caps[n - 1].b == name {
            first.push((n - 1, false))
        } else {
            first
        }
    }
}

/// The coupling of a net to all its neighbours.
pub open spec fn coupling_sum<N: Real>(name: Seq<char>, caps: Seq<CapView<N>>) -> N {
    let s = sides(name, caps, caps.len() as int);
    number::total(Seq::new(s.len(), |i: int| caps[s[i].0].cap))
}

/// What is known of a pin.
pub open spec fn hookup<N: Real>(
    resolver: Option<&PinResolver<N>>,
    p: (Seq<char>, Seq<char>),
) -> (PinDir, N) {
    match resolver {
        Some(r) => r.hookup(p.0, p.1),
        None => (PinDir::Unknown, number::zero()),
    }
}

/// The letter of a direction.
pub open spec fn dir_letter(d: PinDir) -> Seq<char> {
    match d {
        PinDir::Output => "O"@,
        PinDir::Inout => "B"@,
        _ => "I"@,
    }
}

/// The ports, in the order of their names, with one more or with another
/// direction for it.
pub open spec fn insert_port(s: Seq<(Seq<char>, PinDir)>, p: (Seq<char>, PinDir)) -> Seq<
    (Seq<char>, PinDir),
>
    decreases s.len(),
{
    if s.len() == 0 || text::text_lt(s.last().0, p.0) {
        s.push(p)
    } else if s.last().0 == p.0 {
        s.drop_last().push(p)
    } else {
        insert_port(s.drop_last(), p).push(s.last())
    }
}

/// The ports with those among the first `k` pins.
pub open spec fn with_pin_ports<N: Real>(
    s: Seq<(Seq<char>, PinDir)>,
    pins: Seq<(Seq<char>, Seq<char>)>,
    resolver: Option<&PinResolver<N>>,
    k: int,
) -> Seq<(Seq<char>, PinDir)>
    decreases k,
{
    if k <= 0 {
        s
    } else {
        let before = with_pin_ports(s, pins, resolver, k - 1);
        if is_port(pins[k - 1].0) {
            insert_port(before, (pins[k - 1].1, hookup(resolver, pins[k - 1]).0))
        } else {
            before
        }
    }
}

/// The ports of the first `n` nets, in the order of their names.
pub open spec fn ports<N: Real>(
    nets: Seq<ParasiticsView<N>>,
    resolver: Option<&PinResolver<N>>,
    n: int,
) -> Seq<(Seq<char>, PinDir)>
    decreases n,
{
    if n <= 0 {
        Seq::empty()
    } else {
        with_pin_ports(
            ports(nets, resolver, n - 1),
            nets[n - 1].pins,
            resolver,
            nets[n - 1].pins.len() as int,
        )
    }
}

/// The loads (fF) of a net's pins.
pub open spec fn loads<N: Real>(
    pins: Seq<(Seq<char>, Seq<char>)>,
    resolver: Option<&PinResolver<N>>,
) -> Seq<N> {
    Seq::new(pins.len(), |k: int| hookup(resolver, pins[k]).1)
}

/// The capacitances of the star of a net, each at its node.
pub open spec fn star_caps<N: Real>(
    names: Seq<Seq<char>>,
    nid: nat,
    pins: Seq<(Seq<char>, Seq<char>)>,
    g: N,
    r: N,
) -> Seq<(Seq<char>, N)> {
    let half = g.spec_over(N::spec_count(2));
    if !number::positive(r) {
        seq![(root_label(nid), g)]
    } else if pins.len() == 0 {
        seq![(root_label(nid), half), (far_label(nid), half)]
    } else if pins.len() == 1 {
        seq![(pin_label(names, pins[0].0, pins[0].1), half), (root_label(nid), half)]
    } else {
        Seq::new(
            pins.len(),
            |k: int|
                (
                    pin_label(names, pins[k].0, pins[k].1),
                    if k == 0 {
                        half
                    } else {
                        half.spec_over(N::spec_count((pins.len() - 1) as nat))
                    },
                ),
        )
    }
}

/// The resistors of the star of a net, each between two nodes.
pub open spec fn star_res<N: Real>(
    names: Seq<Seq<char>>,
    nid: nat,
    pins: Seq<(Seq<char>, Seq<char>)>,
    r: N,
) -> Seq<(Seq<char>, N)> {
    let half = r.spec_over(N::spec_count(2));
    if !number::positive(r) {
        Seq::empty()
    } else if pins.len() == 0 {
        seq![(between(root_label(nid), far_label(nid)), r)]
    } else if pins.len() == 1 {
        seq![(between(root_label(nid), pin_label(names, pins[0].0, pins[0].1)), r)]
    } else {
        Seq::new(
            pins.len(),
            |k: int|
                (
                    between(root_label(nid), pin_label(names, pins[k].0, pins[k].1)),
                    if k == 0 {
                        half
                    } else {
                        half.spec_over(N::spec_count((pins.len() - 1) as nat))
                    },
                ),
        )
    }
}

/// Node `i` of a network.
pub open spec fn node_label<N: Real>(
    names: Seq<Seq<char>>,
    nid: nat,
    t: NetworkView<N>,
    i: int,
) -> Seq<char> {
    match t.nodes[i].pin {
        Some((inst, pin)) => pin_label(names, inst, pin),
        None => inner_label(nid, i as nat),
    }
}

/// The factor that brings a sum to a total, or zero where the sum is none.
pub open spec fn scale<N: Real>(total: N, raw: N) -> N {
    if number::positive(raw) {
        total.spec_over(raw)
    } else {
        number::zero()
    }
}

/// The capacitances of the network of a net, scaled to the net's total. Where
/// the network has none to scale, the total stands at the first node.
pub open spec fn tree_caps<N: Real>(
    names: Seq<Seq<char>>,
    nid: nat,
    t: NetworkView<N>,
    cap: N,
) -> Seq<(Seq<char>, N)> {
    Seq::new(
        t.nodes.len(),
        |i: int|
            (
                node_label(names, nid, t, i),
                if !number::positive(t.raw_cap) && i == 0 {
                    cap
                } else {
                    t.nodes[i].cap.spec_times(scale(cap, t.raw_cap))
                },
            ),
    )
}

/// The resistors of the network of a net, scaled to the net's total.
pub open spec fn tree_res<N: Real>(
    names: Seq<Seq<char>>,
    nid: nat,
    t: NetworkView<N>,
    res: N,
) -> Seq<(Seq<char>, N)> {
    Seq::new(
        t.edges.len(),
        |i: int|
            (
                between(
                    node_label(names, nid, t, t.edges[i].a),
                    node_label(names, nid, t, t.edges[i].b),
                ),
                t.edges[i].res.spec_times(scale(res, t.raw_res)),
            ),
    )
}

/// The lines for those of the first `k` pins that load the net.
pub open spec fn load_lines<N: Real>(
    names: Seq<Seq<char>>,
    pins: Seq<(Seq<char>, Seq<char>)>,
    resolver: Option<&PinResolver<N>>,
    k: int,
) -> Seq<(Seq<char>, N)>
    decreases k,
{
    if k <= 0 {
        Seq::empty()
    } else {
        let before = load_lines(names, pins, resolver, k - 1);
        let c = hookup(resolver, pins[k - 1]).1;
        if number::positive(c) {
            before.push((pin_label(names, pins[k - 1].0, pins[k - 1].1), c))
        } else {
            before
        }
    }
}

/// The lines for the couplings of net `n`, one for each of its sides.
pub open spec fn coupling_lines<N: Real>(
    names: Seq<Seq<char>>,
    nets: Seq<ParasiticsView<N>>,
    trees: Seq<Option<NetworkView<N>>>,
    caps: Seq<CapView<N>>,
    n: int,
) -> Seq<(Seq<char>, N)> {
    let s = sides(nets[n].name, caps, caps.len() as int);
    let nid = id(names, nets[n].name);
    Seq::new(
        s.len(),
        |i: int|
            {
                let c = caps[s[i].0];
                let other = if s[i].1 {
                    c.b
                } else {
                    c.a
                };
                (
                    between(
                        face(names, nets, trees, n),
                        neighbour(names, nets, trees, nid, other),
                    ),
                    c.cap,
                )
            },
    )
}

/// The lines for the grounded capacitances of net `n`.
pub open spec fn grounded_lines<N: Real>(
    names: Seq<Seq<char>>,
    nets: Seq<ParasiticsView<N>>,
    trees: Seq<Option<NetworkView<N>>>,
    n: int,
) -> Seq<(Seq<char>, N)> {
    let net = nets[n];
    let nid = id(names, net.name);
    if has_tree(trees, n) {
        tree_caps(names, nid, trees[n]->0, net.cap)
    } else {
        star_caps(names, nid, net.pins, net.cap, net.res)
    }
}

/// The `*CAP` lines of net `n`: its grounded capacitances, the loads of its
/// pins, and its couplings.
pub open spec fn cap_lines<N: Real>(
    names: Seq<Seq<char>>,
    nets: Seq<ParasiticsView<N>>,
    trees: Seq<Option<NetworkView<N>>>,
    caps: Seq<CapView<N>>,
    resolver: Option<&PinResolver<N>>,
    n: int,
) -> Seq<(Seq<char>, N)> {
    let pins = nets[n].pins;
    grounded_lines(names, nets, trees, n) + load_lines(names, pins, resolver, pins.len() as int)
        + coupling_lines(names, nets, trees, caps, n)
}

/// The `*RES` lines of net `n`.
pub open spec fn res_lines<N: Real>(
    names: Seq<Seq<char>>,
    nets: Seq<ParasiticsView<N>>,
    trees: Seq<Option<NetworkView<N>>>,
    n: int,
) -> Seq<(Seq<char>, N)> {
    let net = nets[n];
    let nid = id(names, net.name);
    if has_tree(trees, n) {
        tree_res(names, nid, trees[n]->0, net.res)
    } else {
        star_res(names, nid, net.pins, net.res)
    }
}

/// The text with the first `n` of a list of numbered lines.
pub open spec fn with_lines<N: Real>(s: Seq<char>, lines: Seq<(Seq<char>, N)>, n: int) -> Seq<char>
    decreases n,
{
    if n <= 0 {
        s
    } else {
        with_lines(s, lines, n - 1) + text::nat_text(n as nat) + " "@ + lines[n - 1].0 + " "@
            + lines[n - 1].1.spec_numeral() + "\n"@
    }
}

/// The text with the connections of the first `k` pins.
pub open spec fn with_conns<N: Real>(
    s: Seq<char>,
    names: Seq<Seq<char>>,
    pins: Seq<(Seq<char>, Seq<char>)>,
    resolver: Option<&PinResolver<N>>,
    k: int,
) -> Seq<char>
    decreases k,
{
    if k <= 0 {
        s
    } else {
        let before = with_conns(s, names, pins, resolver, k - 1);
        let p = pins[k - 1];
        let (d, c) = hookup(resolver, p);
        if is_port(p.0) {
            before + "*P "@ + p.1 + " "@ + dir_letter(d) + "\n"@
        } else if number::positive(c) {
            before + "*I "@ + pin_label(names, p.0, p.1) + " "@ + dir_letter(d) + " *L "@
                + c.spec_numeral() + "\n"@
        } else {
            before + "*I "@ + pin_label(names, p.0, p.1) + " "@ + dir_letter(d) + "\n"@
        }
    }
}

/// The total capacitance that the record of a net states: to ground, to its
/// neighbours, and of its loads.
pub open spec fn stated_total<N: Real>(
    net: ParasiticsView<N>,
    caps: Seq<CapView<N>>,
    resolver: Option<&PinResolver<N>>,
) -> N {
    net.cap.spec_plus(coupling_sum(net.name, caps)).spec_plus(
        number::total(loads(net.pins, resolver)),
    )
}

/// The text with the record of net `n`.
pub open spec fn with_net<N: Real>(
    s: Seq<char>,
    names: Seq<Seq<char>>,
    nets: Seq<ParasiticsView<N>>,
    trees: Seq<Option<NetworkView<N>>>,
    caps: Seq<CapView<N>>,
    resolver: Option<&PinResolver<N>>,
    n: int,
) -> Seq<char> {
    let net = nets[n];
    let total = stated_total(net, caps, resolver);
    let head = s + "*D_NET *"@ + text::nat_text(id(names, net.name)) + " "@ + total.spec_numeral()
        + "\n"@ + "*CONN\n"@;
    let conns = with_conns(head, names, net.pins, resolver, net.pins.len() as int);
    let cl = cap_lines(names, nets, trees, caps, resolver, n);
    let capped = with_lines(conns + "*CAP\n"@, cl, cl.len() as int);
    let rl = res_lines(names, nets, trees, n);
    if rl.len() > 0 {
        with_lines(capped + "*RES\n"@, rl, rl.len() as int) + "*END\n\n"@
    } else {
        capped + "*END\n\n"@
    }
}

/// The text with the records of the first `n` nets.
pub open spec fn with_nets<N: Real>(
    s: Seq<char>,
    names: Seq<Seq<char>>,
    nets: Seq<ParasiticsView<N>>,
    trees: Seq<Option<NetworkView<N>>>,
    caps: Seq<CapView<N>>,
    resolver: Option<&PinResolver<N>>,
    n: int,
) -> Seq<char>
    decreases n,
{
    if n <= 0 {
        s
    } else {
        with_net(
            with_nets(s, names, nets, trees, caps, resolver, n - 1),
            names,
            nets,
            trees,
            caps,
            resolver,
            n - 1,
        )
    }
}

/// The text with the first `n` entries of the name map.
pub open spec fn with_names(s: Seq<char>, names: Seq<Seq<char>>, n: int) -> Seq<char>
    decreases n,
{
    if n <= 0 {
        s
    } else {
        with_names(s, names, n - 1) + "*"@ + text::nat_text(n as nat) + " "@ + names[n - 1] + "\n"@
    }
}

/// The text with the first `n` of the ports.
pub open spec fn with_ports(s: Seq<char>, ports: Seq<(Seq<char>, PinDir)>, n: int) -> Seq<char>
    decreases n,
{
    if n <= 0 {
        s
    } else {
        with_ports(s, ports, n - 1) + ports[n - 1].0 + " "@ + dir_letter(ports[n - 1].1) + "\n"@
    }
}

/// The header of a file.
pub open spec fn header(design: Seq<char>, units: UnitsView, date: Seq<char>) -> Seq<char> {
    "*SPEF \"IEEE 1481-1999\"\n"@ + "*DESIGN \""@ + design + "\"\n*DATE \""@ + date
        + "\"\n*VENDOR \"Vyges\"\n"@ + "*PROGRAM \"vyges-extract\"\n"@ + "*VERSION \""@
        + crate::version::VERSION@ + "\"\n"@
        + "*DESIGN_FLOW \"NAME_SCOPE LOCAL\" \"PIN_CAP NONE\"\n"@ + "*DIVIDER /\n"@
        + "*DELIMITER :\n"@ + "*BUS_DELIMITER [ ]\n"@ + "*T_UNIT "@ + units.time + "\n*C_UNIT "@
        + units.cap + "\n*R_UNIT "@ + units.res + "\n*L_UNIT 1 HENRY\n\n"@
}

/// The whole file: the header, the name map, the ports if there are any, and a
/// record for each net.
pub open spec fn document<N: Real>(
    design: Seq<char>,
    units: UnitsView,
    date: Option<Seq<char>>,
    nets: Seq<ParasiticsView<N>>,
    trees: Seq<Option<NetworkView<N>>>,
    caps: Seq<CapView<N>>,
    resolver: Option<&PinResolver<N>>,
) -> Seq<char> {
    let names = name_map(nets);
    let top = header(
        design,
        units,
        match date {
            Some(d) => d,
            None => fixed_date(),
        },
    );
    let mapped = with_names(top + "*NAME_MAP\n"@, names, names.len() as int) + "\n"@;
    let p = ports(nets, resolver, nets.len() as int);
    let ported = if p.len() > 0 {
        with_ports(mapped + "*PORTS\n"@, p, p.len() as int) + "\n"@
    } else {
        mapped
    };
    with_nets(ported, names, nets, trees, caps, resolver, nets.len() as int)
}

/// The views of a list of networks.
pub open spec fn trees_view<N: Real>(v: Seq<Option<RcNetwork<N>>>) -> Seq<Option<NetworkView<N>>> {
    Seq::new(
        v.len(),
        |i: int|
            match v[i] {
                Some(t) => Some(t@),
                None => None,
            },
    )
}

/// Whether the edges of every network join nodes of it.
pub open spec fn sound_networks<N: Real>(trees: Seq<Option<NetworkView<N>>>) -> bool {
    forall|i: int|
        0 <= i < trees.len() ==> ((#[trigger] trees[i]) matches Some(t) ==> graph::within(
            tree::ends(t.edges),
            t.nodes.len() as int,
        ))
}

/// Names with their numbers, which count from one in the order in which the
/// names came up.
struct NameMap {
    places: StringHashMap<usize>,
    order: Vec<String>,
}

impl NameMap {
    spec fn names(self) -> Seq<Seq<char>> {
        text::texts(self.order@)
    }

    spec fn wf(self) -> bool {
        &&& self.names().no_duplicates()
        &&& forall|k: Seq<char>| #[trigger]
            self.places@.contains_key(k) ==> self.places@[k] < self.order@.len()
                && self.names()[self.places@[k] as int] == k
        &&& forall|i: int|
            0 <= i < self.names().len() ==> self.places@.contains_key(#[trigger] self.names()[i])
    }

    fn new() -> (r: Self)
        ensures
            r.wf(),
            r.names() == Seq::<Seq<char>>::empty(),
    {
        let r = NameMap { places: StringHashMap::new(), order: Vec::new() };
        assert(r.names() == Seq::<Seq<char>>::empty());
        r
    }

    /// The place of a name.
    fn place(&self, name: &str) -> (r: Option<usize>)
        requires
            self.wf(),
        ensures
            match r {
                Some(i) => i < self.names().len() && self.names()[i as int] == name@
                    && self.names().contains(name@) && self.names().index_of(name@) == i,
                None => !self.names().contains(name@),
            },
    {
        match self.places.get(name) {
            Some(i) => {
                assert(self.names()[*i as int] == name@);
                Some(*i)
            },
            None => {
                assert(!self.names().contains(name@)) by {
                    if self.names().contains(name@) {
                        let i = self.names().index_of(name@);
                        assert(self.places@.contains_key(self.names()[i]));
                    }
                }
                None
            },
        }
    }

    fn intern(&mut self, name: &str)
        requires
            old(self).wf(),
        ensures
            final(self).wf(),
            final(self).names() == intern(old(self).names(), name@),
    {
        if self.place(name).is_some() {
            return;
        }
        let ghost before = *self;
        let i: usize = self.order.len();
        self.places.insert(name.to_owned(), i);
        self.order.push(name.to_owned());
        assert(self.names() == before.names().push(name@));
        assert(self.names()[i as int] == name@);
        assert forall|k: Seq<char>| #[trigger] self.places@.contains_key(k) implies self.places@[k]
            < self.order@.len() && self.names()[self.places@[k] as int] == k by {
            if k != name@ {
                assert(before.places@.contains_key(k));
            }
        }
        assert forall|j: int| 0 <= j < self.names().len() implies self.places@.contains_key(
            #[trigger] self.names()[j],
        ) by {
            if j < i {
                assert(before.places@.contains_key(before.names()[j]));
            }
        }
    }
}

fn number_text(place: usize) -> (r: String)
    ensures
        r@ == text::nat_text((place + 1) as nat),
{
    text::nat_string(place as u128 + 1)
}

fn inner_label_of(place: usize, i: usize) -> (r: String)
    ensures
        r@ == inner_label((place + 1) as nat, i as nat),
{
    let mut s = "*".to_owned();
    s.append(number_text(place).as_str());
    s.append(":");
    s.append(text::nat_string(i as u128).as_str());
    s
}

fn far_label_of(place: usize) -> (r: String)
    ensures
        r@ == far_label((place + 1) as nat),
{
    let mut s = "*".to_owned();
    s.append(number_text(place).as_str());
    s.append(":far");
    s
}

fn is_port_inst(inst: &str) -> (r: bool)
    ensures
        r == is_port(inst@),
{
    text::same_text(inst, "PIN")
}

fn pin_label_of(nm: &NameMap, inst: &str, pin: &str) -> (r: String)
    requires
        nm.wf(),
    ensures
        r@ == pin_label(nm.names(), inst@, pin@),
{
    if is_port_inst(inst) {
        return pin.to_owned();
    }
    match nm.place(inst) {
        Some(i) => {
            let mut s = "*".to_owned();
            s.append(number_text(i).as_str());
            s.append(":");
            s.append(pin);
            s
        },
        None => {
            let mut s = inst.to_owned();
            s.append(":");
            s.append(pin);
            s
        },
    }
}

fn between_of(a: &String, b: &String) -> (r: String)
    ensures
        r@ == between(a@, b@),
{
    let mut s = a.clone();
    s.append(" ");
    s.append(b.as_str());
    s
}

fn dir_letter_of(d: PinDir) -> (r: &'static str)
    ensures
        r@ == dir_letter(d),
{
    match d {
        PinDir::Output => "O",
        PinDir::Inout => "B",
        _ => "I",
    }
}

fn hookup_of<N: Real>(resolver: Option<&PinResolver<N>>, p: &(String, String)) -> (r: (PinDir, N))
    ensures
        r == hookup(resolver, (p.0@, p.1@)),
{
    match resolver {
        Some(r) => r.resolve(p.0.as_str(), p.1.as_str()),
        None => (PinDir::Unknown, number::zero_of()),
    }
}

fn tree_at<'a, N: Real>(trees: &'a Vec<Option<RcNetwork<N>>>, n: usize) -> (r: Option<
    &'a RcNetwork<N>,
>)
    ensures
        r is Some <==> has_tree(trees_view(trees@), n as int),
        r is Some ==> r->0@ == trees_view(trees@)[n as int]->0,
{
    if n < trees.len() {
        match &trees[n] {
            Some(t) => Some(t),
            None => None,
        }
    } else {
        None
    }
}

/// The views of a list of labelled values.
spec fn labelled<N: Real>(v: Seq<(String, N)>) -> Seq<(Seq<char>, N)> {
    Seq::new(v.len(), |i: int| (v[i].0@, v[i].1))
}

fn push_line<N: Real>(v: &mut Vec<(String, N)>, label: String, value: N)
    ensures
        labelled(final(v)@) == labelled(old(v)@).push((label@, value)),
{
    v.push((label, value));
    assert(labelled(v@) == labelled(old(v)@).push((label@, value)));
}

/// The capacitances and resistors of the star of a net.
fn emit_star<N: Real>(
    nm: &NameMap,
    place: usize,
    pins: &Vec<(String, String)>,
    g: N,
    r: N,
) -> (out: (Vec<(String, N)>, Vec<(String, N)>))
    requires
        nm.wf(),
    ensures
        labelled(out.0@) == star_caps(
            nm.names(),
            (place + 1) as nat,
            geom::pins_view(pins@),
            g,
            r,
        ),
        labelled(out.1@) == star_res(nm.names(), (place + 1) as nat, geom::pins_view(pins@), r),
{
    let ghost names = nm.names();
    let ghost pv = geom::pins_view(pins@);
    let ghost nid = (place + 1) as nat;
    let mut caps: Vec<(String, N)> = Vec::new();
    let mut res: Vec<(String, N)> = Vec::new();
    assert(labelled(caps@) == Seq::<(Seq<char>, N)>::empty());
    assert(labelled(res@) == Seq::<(Seq<char>, N)>::empty());
    let root = inner_label_of(place, 0);
    let two: N = N::count(2);
    let half_g: N = g.over(two);
    let half_r: N = r.over(two);
    if !number::is_positive(r) {
        push_line(&mut caps, root, g);
        assert(labelled(caps@) == star_caps(names, nid, pv, g, r));
        return (caps, res);
    }
    let n: usize = pins.len();
    if n == 0 {
        let far = far_label_of(place);
        push_line(&mut res, between_of(&root, &far), r);
        push_line(&mut caps, root, half_g);
        push_line(&mut caps, far, half_g);
        assert(labelled(caps@) == star_caps(names, nid, pv, g, r));
        assert(labelled(res@) == star_res(names, nid, pv, r));
        return (caps, res);
    }
    if n == 1 {
        let d = pin_label_of(nm, pins[0].0.as_str(), pins[0].1.as_str());
        assert(pv[0] == (pins@[0].0@, pins@[0].1@));
        push_line(&mut res, between_of(&root, &d), r);
        push_line(&mut caps, d, half_g);
        push_line(&mut caps, root, half_g);
        assert(labelled(caps@) == star_caps(names, nid, pv, g, r));
        assert(labelled(res@) == star_res(names, nid, pv, r));
        return (caps, res);
    }
    let sinks: N = N::count(n - 1);
    let ghost all_caps = star_caps(names, nid, pv, g, r);
    let ghost all_res = star_res(names, nid, pv, r);
    for k in 0..n
        invariant
            nm.wf(),
            names == nm.names(),
            pv == geom::pins_view(pins@),
            n == pins@.len(),
            n >= 2,
            nid == place + 1,
            root@ == root_label(nid),
            number::positive(r),
            half_g == g.spec_over(N::spec_count(2)),
            half_r == r.spec_over(N::spec_count(2)),
            sinks == N::spec_count((n - 1) as nat),
            all_caps == star_caps(names, nid, pv, g, r),
            all_res == star_res(names, nid, pv, r),
            labelled(caps@) == all_caps.take(k as int),
            labelled(res@) == all_res.take(k as int),
    {
        assert(pv[k as int] == (pins@[k as int].0@, pins@[k as int].1@));
        let p = pin_label_of(nm, pins[k].0.as_str(), pins[k].1.as_str());
        let (c, o) = if k == 0 {
            (half_g, half_r)
        } else {
            (half_g.over(sinks), half_r.over(sinks))
        };
        push_line(&mut res, between_of(&root, &p), o);
        push_line(&mut caps, p, c);
        assert(all_caps.take(k + 1) == all_caps.take(k as int).push(all_caps[k as int]));
        assert(all_res.take(k + 1) == all_res.take(k as int).push(all_res[k as int]));
    }
    assert(all_caps.take(n as int) == all_caps);
    assert(all_res.take(n as int) == all_res);
    (caps, res)
}

fn node_label_of<N: Real>(nm: &NameMap, place: usize, t: &RcNetwork<N>, i: usize) -> (r: String)
    requires
        nm.wf(),
        i < t.nodes@.len(),
    ensures
        r@ == node_label(nm.names(), (place + 1) as nat, t@, i as int),
{
    assert(t@.nodes[i as int] == t.nodes@[i as int]@);
    match &t.nodes[i].pin {
        Some(p) => pin_label_of(nm, p.0.as_str(), p.1.as_str()),
        None => inner_label_of(place, i),
    }
}

fn scale_of<N: Real>(total: N, raw: N) -> (r: N)
    ensures
        r == scale(total, raw),
{
    if number::is_positive(raw) {
        total.over(raw)
    } else {
        number::zero_of()
    }
}

/// The capacitances and resistors of the network of a net, scaled to the net's
/// totals.
fn emit_tree<N: Real>(nm: &NameMap, place: usize, t: &RcNetwork<N>, cap: N, res: N) -> (out: (
    Vec<(String, N)>,
    Vec<(String, N)>,
))
    requires
        nm.wf(),
        graph::within(tree::ends(t@.edges), t@.nodes.len() as int),
    ensures
        labelled(out.0@) == tree_caps(nm.names(), (place + 1) as nat, t@, cap),
        labelled(out.1@) == tree_res(nm.names(), (place + 1) as nat, t@, res),
{
    let ghost names = nm.names();
    let ghost tv = t@;
    let ghost nid = (place + 1) as nat;
    let scale_c: N = scale_of(cap, t.raw_cap);
    let scale_r: N = scale_of(res, t.raw_res);
    let lump: bool = !number::is_positive(t.raw_cap);
    let mut caps: Vec<(String, N)> = Vec::new();
    let mut lines: Vec<(String, N)> = Vec::new();
    let ghost all_caps = tree_caps(names, nid, tv, cap);
    let ghost all_res = tree_res(names, nid, tv, res);
    assert(labelled(caps@) == all_caps.take(0));
    assert(labelled(lines@) == all_res.take(0));
    for i in 0..t.nodes.len()
        invariant
            nm.wf(),
            names == nm.names(),
            tv == t@,
            nid == place + 1,
            scale_c == scale(cap, tv.raw_cap),
            lump == !number::positive(tv.raw_cap),
            all_caps == tree_caps(names, nid, tv, cap),
            labelled(caps@) == all_caps.take(i as int),
    {
        assert(tv.nodes[i as int] == t.nodes@[i as int]@);
        let c: N = if lump && i == 0 {
            cap
        } else {
            t.nodes[i].cap_ff.times(scale_c)
        };
        push_line(&mut caps, node_label_of(nm, place, t, i), c);
        assert(all_caps.take(i + 1) == all_caps.take(i as int).push(all_caps[i as int]));
    }
    for i in 0..t.edges.len()
        invariant
            nm.wf(),
            names == nm.names(),
            tv == t@,
            nid == place + 1,
            graph::within(tree::ends(tv.edges), tv.nodes.len() as int),
            scale_r == scale(res, tv.raw_res),
            all_res == tree_res(names, nid, tv, res),
            labelled(lines@) == all_res.take(i as int),
    {
        assert(tv.edges[i as int] == t.edges@[i as int]@);
        assert(tree::ends(tv.edges)[i as int] == (tv.edges[i as int].a, tv.edges[i as int].b));
        let a = node_label_of(nm, place, t, t.edges[i].a);
        let b = node_label_of(nm, place, t, t.edges[i].b);
        push_line(&mut lines, between_of(&a, &b), t.edges[i].res_ohm.times(scale_r));
        assert(all_res.take(i + 1) == all_res.take(i as int).push(all_res[i as int]));
    }
    assert(all_caps.take(t.nodes@.len() as int) == all_caps);
    assert(all_res.take(t.edges@.len() as int) == all_res);
    (caps, lines)
}

/// The numbered names of the nets, and those of the nets and instances.
fn name_maps<N: Real>(nets: &Vec<NetParasitics<N>>) -> (r: (NameMap, NameMap))
    ensures
        r.0.wf(),
        r.1.wf(),
        r.0.names() == net_names(rc::parasitics_view(nets@), nets@.len() as int),
        r.1.names() == name_map(rc::parasitics_view(nets@)),
{
    let ghost nv = rc::parasitics_view(nets@);
    let mut only = NameMap::new();
    let mut all = NameMap::new();
    for i in 0..nets.len()
        invariant
            nv == rc::parasitics_view(nets@),
            only.wf(),
            all.wf(),
            only.names() == net_names(nv, i as int),
            all.names() == net_names(nv, i as int),
    {
        assert(nv[i as int] == nets@[i as int]@);
        only.intern(nets[i].name.as_str());
        all.intern(nets[i].name.as_str());
    }
    let ghost base = all.names();
    for i in 0..nets.len()
        invariant
            nv == rc::parasitics_view(nets@),
            all.wf(),
            all.names() == with_net_insts(base, nv, i as int),
    {
        let pins = &nets[i].pins;
        let ghost pv = nv[i as int].pins;
        assert(pv == geom::pins_view(pins@));
        let ghost before = all.names();
        for k in 0..pins.len()
            invariant
                all.wf(),
                pv == geom::pins_view(pins@),
                all.names() == with_insts(before, pv, k as int),
        {
            assert(pv[k as int] == (pins@[k as int].0@, pins@[k as int].1@));
            if !is_port_inst(pins[k].0.as_str()) {
                all.intern(pins[k].0.as_str());
            }
        }
    }
    (only, all)
}

/// For each name of a net, the last net that bears it.
fn last_nets<N: Real>(nets: &Vec<NetParasitics<N>>) -> (r: StringHashMap<usize>)
    ensures
        forall|k: Seq<char>| #[trigger]
            r@.contains_key(k) <==> last_net(
                rc::parasitics_view(nets@),
                k,
                nets@.len() as int,
            ) is Some,
        forall|k: Seq<char>| #[trigger]
            r@.contains_key(k) ==> r@[k] < nets@.len() && last_net(
                rc::parasitics_view(nets@),
                k,
                nets@.len() as int,
            ) == Some(r@[k] as int),
{
    let ghost nv = rc::parasitics_view(nets@);
    let mut m: StringHashMap<usize> = StringHashMap::new();
    for i in 0..nets.len()
        invariant
            nv == rc::parasitics_view(nets@),
            forall|k: Seq<char>| #[trigger]
                m@.contains_key(k) <==> last_net(nv, k, i as int) is Some,
            forall|k: Seq<char>| #[trigger]
                m@.contains_key(k) ==> m@[k] < i && last_net(nv, k, i as int) == Some(
                    m@[k] as int,
                ),
    {
        assert(nv[i as int] == nets@[i as int]@);
        let ghost before = m@;
        m.insert(nets[i].name.clone(), i);
        assert forall|k: Seq<char>| #[trigger]
            m@.contains_key(k) <==> last_net(nv, k, i + 1) is Some by {
            assert(before.contains_key(k) <==> last_net(nv, k, i as int) is Some);
        }
        assert forall|k: Seq<char>| #[trigger] m@.contains_key(k) implies m@[k] < i + 1
            && last_net(nv, k, i + 1) == Some(m@[k] as int) by {
            if k != nets@[i as int].name@ {
                assert(before.contains_key(k));
            }
        }
    }
    m
}

spec fn side_list(v: Seq<(usize, bool)>) -> Seq<(int, bool)> {
    Seq::new(v.len(), |i: int| (v[i].0 as int, v[i].1))
}

fn push_side(lists: &mut Vec<Vec<(usize, bool)>>, s: usize, c: usize, first: bool)
    requires
        s < old(lists)@.len(),
    ensures
        final(lists)@.len() == old(lists)@.len(),
        forall|j: int|
            0 <= j < old(lists)@.len() && j != s ==> final(lists)@[j] == old(lists)@[j],
        side_list(final(lists)@[s as int]@) == side_list(old(lists)@[s as int]@).push(
            (c as int, first),
        ),
{
    let ghost before = lists@[s as int]@;
    lists[s].push((c, first));
    assert(lists@[s as int]@ == before.push((c, first)));
    assert(side_list(before.push((c, first))) == side_list(before).push((c as int, first)));
}

/// For each name of a net, where it occurs in the couplings.
fn sides_of<N: Real>(nn: &NameMap, caps: &Vec<CouplingCap<N>>) -> (r: Vec<Vec<(usize, bool)>>)
    requires
        nn.wf(),
    ensures
        r@.len() == nn.names().len(),
        forall|s: int|
            0 <= s < r@.len() ==> side_list((#[trigger] r@[s])@) == sides(
                nn.names()[s],
                coupling::caps_view(caps@),
                caps@.len() as int,
            ),
{
    let ghost cv = coupling::caps_view(caps@);
    let ghost names = nn.names();
    let mut lists: Vec<Vec<(usize, bool)>> = Vec::new();
    for i in 0..nn.order.len()
        invariant
            lists@.len() == i,
            forall|s: int|
                0 <= s < i ==> side_list((#[trigger] lists@[s])@) == Seq::<(int, bool)>::empty(),
    {
        let empty: Vec<(usize, bool)> = Vec::new();
        assert(side_list(empty@) == Seq::<(int, bool)>::empty());
        lists.push(empty);
    }
    for k in 0..caps.len()
        invariant
            nn.wf(),
            names == nn.names(),
            cv == coupling::caps_view(caps@),
            lists@.len() == names.len(),
            forall|s: int|
                0 <= s < lists@.len() ==> side_list((#[trigger] lists@[s])@) == sides(
                    names[s],
                    cv,
                    k as int,
                ),
    {
        assert(cv[k as int] == caps@[k as int]@);
        let ghost l0 = lists@;
        let pa: Option<usize> = nn.place(caps[k].a.as_str());
        if let Some(p) = pa {
            push_side(&mut lists, p, k, true);
        }
        let ghost l1 = lists@;
        assert forall|s: int| 0 <= s < lists@.len() implies side_list((#[trigger] l1[s])@) == (if cv[k
            as int].a == names[s] {
            sides(names[s], cv, k as int).push((k as int, true))
        } else {
            sides(names[s], cv, k as int)
        }) by {
            assert(side_list(l0[s]@) == sides(names[s], cv, k as int));
            if cv[k as int].a == names[s] {
                assert(names.contains(names[s]));
            }
        }
        let pb: Option<usize> = nn.place(caps[k].b.as_str());
        if let Some(p) = pb {
            push_side(&mut lists, p, k, false);
        }
        assert forall|s: int| 0 <= s < lists@.len() implies side_list((#[trigger] lists@[s])@)
            == sides(names[s], cv, k + 1) by {
            assert(side_list(l1[s]@) == (if cv[k as int].a == names[s] {
                sides(names[s], cv, k as int).push((k as int, true))
            } else {
                sides(names[s], cv, k as int)
            }));
            if cv[k as int].b == names[s] {
                assert(names.contains(names[s]));
            }
        }
    }
    lists
}

proof fn lemma_insert_port_at(
    s: Seq<(Seq<char>, PinDir)>,
    p: (Seq<char>, PinDir),
    k: int,
)
    requires
        0 <= k <= s.len(),
        forall|i: int| k <= i < s.len() ==> !text::text_lt((#[trigger] s[i]).0, p.0) && s[i].0 != p.0,
        k > 0 ==> text::text_lt(s[k - 1].0, p.0),
    ensures
        insert_port(s, p) == s.insert(k, p),
    decreases s.len(),
{
    if k < s.len() {
        lemma_insert_port_at(s.drop_last(), p, k);
        assert(s.drop_last().insert(k, p).push(s.last()) == s.insert(k, p));
    } else {
        assert(s.push(p) == s.insert(k, p));
    }
}

proof fn lemma_insert_port_found(
    s: Seq<(Seq<char>, PinDir)>,
    p: (Seq<char>, PinDir),
    k: int,
)
    requires
        0 <= k < s.len(),
        forall|i: int| k < i < s.len() ==> !text::text_lt((#[trigger] s[i]).0, p.0) && s[i].0 != p.0,
        s[k].0 == p.0,
    ensures
        insert_port(s, p) == s.update(k, p),
    decreases s.len(),
{
    text::lemma_text_lt_irreflexive(p.0);
    if k < s.len() - 1 {
        lemma_insert_port_found(s.drop_last(), p, k);
        assert(s.drop_last().update(k, p).push(s.last()) == s.update(k, p));
    } else {
        assert(s.drop_last().push(p) == s.update(k, p));
    }
}

spec fn port_list(v: Seq<(String, PinDir)>) -> Seq<(Seq<char>, PinDir)> {
    Seq::new(v.len(), |i: int| (v[i].0@, v[i].1))
}

/// Puts a port in its place among ports in the order of their names.
fn place_port(v: &mut Vec<(String, PinDir)>, name: &String, d: PinDir)
    ensures
        port_list(final(v)@) == insert_port(port_list(old(v)@), (name@, d)),
{
    let ghost s = port_list(v@);
    let ghost p = (name@, d);
    let key = text::chars_of(name.as_str());
    let mut k: usize = v.len();
    while k > 0
        invariant
            k <= v@.len(),
            v@ == old(v)@,
            s == port_list(v@),
            p == (name@, d),
            key@ == name@,
            forall|i: int|
                k <= i < s.len() ==> !text::text_lt((#[trigger] s[i]).0, name@) && s[i].0 != name@,
        ensures
            k <= v@.len(),
            v@ == old(v)@,
            s == port_list(v@),
            forall|i: int|
                k <= i < s.len() ==> !text::text_lt((#[trigger] s[i]).0, name@) && s[i].0 != name@,
            k > 0 ==> text::text_lt(s[k - 1].0, name@),
        decreases k,
    {
        assert(s[k - 1].0 == v@[k - 1].0@);
        if v[k - 1].0 == *name {
            proof {
                lemma_insert_port_found(s, p, k - 1);
            }
            v[k - 1] = (name.clone(), d);
            assert(port_list(v@) == s.update(k - 1, p));
            return;
        }
        if text::comes_before(&text::chars_of(v[k - 1].0.as_str()), &key) {
            break;
        }
        k = k - 1;
    }
    proof {
        lemma_insert_port_at(s, p, k as int);
    }
    v.insert(k, (name.clone(), d));
    assert(port_list(v@) == s.insert(k as int, p));
}

fn ports_of<N: Real>(nets: &Vec<NetParasitics<N>>, resolver: Option<&PinResolver<N>>) -> (r: Vec<
    (String, PinDir),
>)
    ensures
        port_list(r@) == ports(rc::parasitics_view(nets@), resolver, nets@.len() as int),
{
    let ghost nv = rc::parasitics_view(nets@);
    let mut out: Vec<(String, PinDir)> = Vec::new();
    assert(port_list(out@) == Seq::<(Seq<char>, PinDir)>::empty());
    for i in 0..nets.len()
        invariant
            nv == rc::parasitics_view(nets@),
            port_list(out@) == ports(nv, resolver, i as int),
    {
        let pins = &nets[i].pins;
        let ghost pv = nv[i as int].pins;
        assert(pv == geom::pins_view(pins@));
        let ghost before = port_list(out@);
        for k in 0..pins.len()
            invariant
                pv == geom::pins_view(pins@),
                port_list(out@) == with_pin_ports(before, pv, resolver, k as int),
        {
            assert(pv[k as int] == (pins@[k as int].0@, pins@[k as int].1@));
            if is_port_inst(pins[k].0.as_str()) {
                let (d, _) = hookup_of(resolver, &pins[k]);
                place_port(&mut out, &pins[k].1, d);
            }
        }
    }
    out
}

/// What the writer knows of a design.
#[verifier::reject_recursive_types(N)]
struct Writer<'a, N: Real> {
    nets: &'a Vec<NetParasitics<N>>,
    trees: &'a Vec<Option<RcNetwork<N>>>,
    caps: &'a Vec<CouplingCap<N>>,
    resolver: Option<&'a PinResolver<N>>,
    net_names: NameMap,
    names: NameMap,
    last: StringHashMap<usize>,
    sides: Vec<Vec<(usize, bool)>>,
}

impl<'a, N: Real> Writer<'a, N> {
    spec fn nv(self) -> Seq<ParasiticsView<N>> {
        rc::parasitics_view(self.nets@)
    }

    spec fn tv(self) -> Seq<Option<NetworkView<N>>> {
        trees_view(self.trees@)
    }

    spec fn cv(self) -> Seq<CapView<N>> {
        coupling::caps_view(self.caps@)
    }

    spec fn wf(self) -> bool {
        &&& self.net_names.wf()
        &&& self.names.wf()
        &&& self.net_names.names() == net_names(self.nv(), self.nets@.len() as int)
        &&& self.names.names() == name_map(self.nv())
        &&& forall|k: Seq<char>| #[trigger]
            self.last@.contains_key(k) <==> last_net(self.nv(), k, self.nets@.len() as int) is Some
        &&& forall|k: Seq<char>| #[trigger]
            self.last@.contains_key(k) ==> self.last@[k] < self.nets@.len() && last_net(
                self.nv(),
                k,
                self.nets@.len() as int,
            ) == Some(self.last@[k] as int)
        &&& self.sides@.len() == self.net_names.names().len()
        &&& forall|s: int|
            0 <= s < self.sides@.len() ==> side_list((#[trigger] self.sides@[s])@) == sides(
                self.net_names.names()[s],
                self.cv(),
                self.caps@.len() as int,
            )
        &&& sound_networks(self.tv())
    }
}

proof fn lemma_net_named<N: Real>(nets: Seq<ParasiticsView<N>>, i: int, n: int)
    requires
        0 <= i < n <= nets.len(),
    ensures
        net_names(nets, n).contains(nets[i].name),
    decreases n,
{
    if i < n - 1 {
        lemma_net_named(nets, i, n - 1);
        let b = net_names(nets, n - 1);
        let k = b.index_of(nets[i].name);
        assert(net_names(nets, n)[k] == nets[i].name);
    } else {
        let b = net_names(nets, n - 1);
        if !b.contains(nets[i].name) {
            assert(net_names(nets, n)[b.len() as int] == nets[i].name);
        }
    }
}

proof fn lemma_insts_keep(
    names: Seq<Seq<char>>,
    pins: Seq<(Seq<char>, Seq<char>)>,
    k: int,
    s: Seq<char>,
)
    requires
        names.contains(s),
        0 <= k <= pins.len(),
    ensures
        with_insts(names, pins, k).contains(s),
    decreases k,
{
    if k > 0 {
        lemma_insts_keep(names, pins, k - 1, s);
        let b = with_insts(names, pins, k - 1);
        let i = b.index_of(s);
        assert(with_insts(names, pins, k)[i] == s);
    }
}

proof fn lemma_net_insts_keep<N: Real>(
    names: Seq<Seq<char>>,
    nets: Seq<ParasiticsView<N>>,
    n: int,
    s: Seq<char>,
)
    requires
        names.contains(s),
        0 <= n <= nets.len(),
    ensures
        with_net_insts(names, nets, n).contains(s),
    decreases n,
{
    if n > 0 {
        lemma_net_insts_keep(names, nets, n - 1, s);
        lemma_insts_keep(
            with_net_insts(names, nets, n - 1),
            nets[n - 1].pins,
            nets[n - 1].pins.len() as int,
            s,
        );
    }
}

proof fn lemma_inst_named(
    names: Seq<Seq<char>>,
    pins: Seq<(Seq<char>, Seq<char>)>,
    j: int,
    k: int,
)
    requires
        0 <= j < k <= pins.len(),
        !is_port(pins[j].0),
    ensures
        with_insts(names, pins, k).contains(pins[j].0),
    decreases k,
{
    let b = with_insts(names, pins, k - 1);
    if j < k - 1 {
        lemma_inst_named(names, pins, j, k - 1);
        let i = b.index_of(pins[j].0);
        assert(with_insts(names, pins, k)[i] == pins[j].0);
    } else if !b.contains(pins[j].0) {
        assert(with_insts(names, pins, k)[b.len() as int] == pins[j].0);
    }
}

proof fn lemma_net_inst_named<N: Real>(
    names: Seq<Seq<char>>,
    nets: Seq<ParasiticsView<N>>,
    i: int,
    k: int,
    n: int,
)
    requires
        0 <= i < n <= nets.len(),
        0 <= k < nets[i].pins.len(),
        !is_port(nets[i].pins[k].0),
    ensures
        with_net_insts(names, nets, n).contains(nets[i].pins[k].0),
    decreases n,
{
    let b = with_net_insts(names, nets, n - 1);
    let pins = nets[n - 1].pins;
    if i < n - 1 {
        lemma_net_inst_named(names, nets, i, k, n - 1);
        lemma_insts_keep(b, pins, pins.len() as int, nets[i].pins[k].0);
    } else {
        lemma_inst_named(b, pins, k, pins.len() as int);
    }
}

/// Every net is in the name map.
pub proof fn nets_are_mapped<N: Real>(nets: Seq<ParasiticsView<N>>, i: int)
    requires
        0 <= i < nets.len(),
    ensures
        name_map(nets).contains(nets[i].name),
        1 <= id(name_map(nets), nets[i].name) <= name_map(nets).len(),
        name_map(nets)[id(name_map(nets), nets[i].name) - 1] == nets[i].name,
{
    lemma_net_named(nets, i, nets.len() as int);
    lemma_net_insts_keep(
        net_names(nets, nets.len() as int),
        nets,
        nets.len() as int,
        nets[i].name,
    );
}

/// Every instance that a net connects is in the name map.
pub proof fn instances_are_mapped<N: Real>(nets: Seq<ParasiticsView<N>>, i: int, k: int)
    requires
        0 <= i < nets.len(),
        0 <= k < nets[i].pins.len(),
        !is_port(nets[i].pins[k].0),
    ensures
        name_map(nets).contains(nets[i].pins[k].0),
        1 <= id(name_map(nets), nets[i].pins[k].0) <= name_map(nets).len(),
        name_map(nets)[id(name_map(nets), nets[i].pins[k].0) - 1] == nets[i].pins[k].0,
        pin_label(name_map(nets), nets[i].pins[k].0, nets[i].pins[k].1) == inst_label(
            id(name_map(nets), nets[i].pins[k].0),
            nets[i].pins[k].1,
        ),
{
    lemma_net_inst_named(
        net_names(nets, nets.len() as int),
        nets,
        i,
        k,
        nets.len() as int,
    );
}

fn write_lines<N: Real>(out: &mut String, lines: &Vec<(String, N)>)
    ensures
        final(out)@ == with_lines(old(out)@, labelled(lines@), lines@.len() as int),
{
    let ghost s = out@;
    let ghost lv = labelled(lines@);
    for i in 0..lines.len()
        invariant
            lv == labelled(lines@),
            out@ == with_lines(s, lv, i as int),
    {
        assert(lv[i as int] == (lines@[i as int].0@, lines@[i as int].1));
        out.append(number_text(i).as_str());
        out.append(" ");
        out.append(lines[i].0.as_str());
        out.append(" ");
        out.append(lines[i].1.numeral().as_str());
        out.append("\n");
    }
}

fn append_lines<N: Real>(out: &mut Vec<(String, N)>, more: Vec<(String, N)>)
    ensures
        labelled(final(out)@) == labelled(old(out)@) + labelled(more@),
{
    let mut tail = more;
    out.append(&mut tail);
    assert(labelled(out@) == labelled(old(out)@) + labelled(more@));
}

impl<'a, N: Real> Writer<'a, N> {
    /// The place of a net in the name map.
    fn net_place(&self, n: usize) -> (r: usize)
        requires
            self.wf(),
            n < self.nets@.len(),
        ensures
            r + 1 == id(self.names.names(), self.nv()[n as int].name),
    {
        proof {
            nets_are_mapped(self.nv(), n as int);
            assert(self.nv()[n as int] == self.nets@[n as int]@);
        }
        match self.names.place(self.nets[n].name.as_str()) {
            Some(i) => i,
            None => 0,
        }
    }

    fn face(&self, n: usize) -> (r: String)
        requires
            self.wf(),
            n < self.nets@.len(),
        ensures
            r@ == face(self.names.names(), self.nv(), self.tv(), n as int),
    {
        let net = &self.nets[n];
        assert(self.nv()[n as int] == net@);
        if tree_at(self.trees, n).is_some() && net.pins.len() > 0 {
            assert(net@.pins[0] == (net.pins@[0].0@, net.pins@[0].1@));
            return pin_label_of(&self.names, net.pins[0].0.as_str(), net.pins[0].1.as_str());
        }
        inner_label_of(self.net_place(n), 0)
    }

    fn neighbour(&self, place: usize, other: &str) -> (r: String)
        requires
            self.wf(),
        ensures
            r@ == neighbour(
                self.names.names(),
                self.nv(),
                self.tv(),
                (place + 1) as nat,
                other@,
            ),
    {
        assert(self.nv().len() == self.nets@.len());
        assert(self.last@.contains_key(other@) <==> last_net(
            self.nv(),
            other@,
            self.nets@.len() as int,
        ) is Some);
        match self.last.get(other) {
            Some(j) => self.face(*j),
            None => match self.names.place(other) {
                Some(i) => inner_label_of(i, 0),
                None => inner_label_of(place, 0),
            },
        }
    }

    /// Where a net occurs in the couplings.
    fn sides_at(&self, n: usize) -> (r: &Vec<(usize, bool)>)
        requires
            self.wf(),
            n < self.nets@.len(),
        ensures
            side_list(r@) == sides(
                self.nv()[n as int].name,
                self.cv(),
                self.cv().len() as int,
            ),
    {
        proof {
            lemma_net_named(self.nv(), n as int, self.nets@.len() as int);
            assert(self.nv()[n as int] == self.nets@[n as int]@);
            assert(self.cv().len() == self.caps@.len());
        }
        let i: usize = match self.net_names.place(self.nets[n].name.as_str()) {
            Some(i) => i,
            None => 0,
        };
        &self.sides[i]
    }

    fn coupling_lines(&self, n: usize, place: usize) -> (r: Vec<(String, N)>)
        requires
            self.wf(),
            n < self.nets@.len(),
            place + 1 == id(self.names.names(), self.nv()[n as int].name),
        ensures
            labelled(r@) == coupling_lines(
                self.names.names(),
                self.nv(),
                self.tv(),
                self.cv(),
                n as int,
            ),
    {
        let ghost all = coupling_lines(
            self.names.names(),
            self.nv(),
            self.tv(),
            self.cv(),
            n as int,
        );
        let list = self.sides_at(n);
        let ghost sv = side_list(list@);
        proof {
            lemma_sides_valid(self.nv()[n as int].name, self.cv(), self.cv().len() as int);
        }
        let mine = self.face(n);
        let mut out: Vec<(String, N)> = Vec::new();
        assert(labelled(out@) == all.take(0));
        for i in 0..list.len()
            invariant
                self.wf(),
                n < self.nets@.len(),
                place + 1 == id(self.names.names(), self.nv()[n as int].name),
                mine@ == face(self.names.names(), self.nv(), self.tv(), n as int),
                sv == side_list(list@),
                sv == sides(self.nv()[n as int].name, self.cv(), self.cv().len() as int),
                forall|j: int| 0 <= j < sv.len() ==> 0 <= (#[trigger] sv[j]).0 < self.cv().len(),
                all == coupling_lines(
                    self.names.names(),
                    self.nv(),
                    self.tv(),
                    self.cv(),
                    n as int,
                ),
                labelled(out@) == all.take(i as int),
        {
            let (k, first) = list[i];
            assert(sv[i as int] == (k as int, first));
            let c = &self.caps[k];
            assert(self.cv()[k as int] == c@);
            let other = if first {
                self.neighbour(place, c.b.as_str())
            } else {
                self.neighbour(place, c.a.as_str())
            };
            push_line(&mut out, between_of(&mine, &other), c.cap_ff);
            assert(all.take(i + 1) == all.take(i as int).push(all[i as int]));
        }
        assert(sv.len() == list@.len());
        assert(all.take(list@.len() as int) == all);
        out
    }

    fn load_lines(&self, n: usize) -> (r: Vec<(String, N)>)
        requires
            self.wf(),
            n < self.nets@.len(),
        ensures
            labelled(r@) == load_lines(
                self.names.names(),
                self.nv()[n as int].pins,
                self.resolver,
                self.nv()[n as int].pins.len() as int,
            ),
    {
        let pins = &self.nets[n].pins;
        let ghost pv = self.nv()[n as int].pins;
        assert(pv == geom::pins_view(pins@));
        let mut out: Vec<(String, N)> = Vec::new();
        assert(labelled(out@) == Seq::<(Seq<char>, N)>::empty());
        for k in 0..pins.len()
            invariant
                self.wf(),
                pv == geom::pins_view(pins@),
                labelled(out@) == load_lines(self.names.names(), pv, self.resolver, k as int),
        {
            assert(pv[k as int] == (pins@[k as int].0@, pins@[k as int].1@));
            let (_, c) = hookup_of(self.resolver, &pins[k]);
            if number::is_positive(c) {
                let l = pin_label_of(&self.names, pins[k].0.as_str(), pins[k].1.as_str());
                push_line(&mut out, l, c);
            }
        }
        out
    }

    fn coupling_sum(&self, n: usize) -> (r: N)
        requires
            self.wf(),
            n < self.nets@.len(),
        ensures
            r == coupling_sum(self.nv()[n as int].name, self.cv()),
    {
        let list = self.sides_at(n);
        let ghost sv = side_list(list@);
        proof {
            lemma_sides_valid(self.nv()[n as int].name, self.cv(), self.cv().len() as int);
        }
        let mut values: Vec<N> = Vec::new();
        for i in 0..list.len()
            invariant
                sv == side_list(list@),
                forall|j: int| 0 <= j < sv.len() ==> 0 <= (#[trigger] sv[j]).0 < self.cv().len(),
                values@.len() == i,
                forall|j: int| 0 <= j < i ==> values@[j] == self.cv()[(#[trigger] sv[j]).0].cap,
        {
            let (k, first) = list[i];
            assert(sv[i as int] == (k as int, first));
            assert(self.cv()[k as int] == self.caps@[k as int]@);
            values.push(self.caps[k].cap_ff);
        }
        assert(values@ == Seq::new(sv.len(), |i: int| self.cv()[sv[i].0].cap));
        number::total_of(&values)
    }

    fn load_sum(&self, n: usize) -> (r: N)
        requires
            self.wf(),
            n < self.nets@.len(),
        ensures
            r == number::total(loads(self.nv()[n as int].pins, self.resolver)),
    {
        let pins = &self.nets[n].pins;
        let ghost pv = self.nv()[n as int].pins;
        assert(pv == geom::pins_view(pins@));
        let mut values: Vec<N> = Vec::new();
        for k in 0..pins.len()
            invariant
                pv == geom::pins_view(pins@),
                values@.len() == k,
                forall|j: int| 0 <= j < k ==> values@[j] == hookup(self.resolver, #[trigger] pv[j]).1,
        {
            assert(pv[k as int] == (pins@[k as int].0@, pins@[k as int].1@));
            let (_, c) = hookup_of(self.resolver, &pins[k]);
            values.push(c);
        }
        assert(values@ == loads(pv, self.resolver));
        number::total_of(&values)
    }

    fn write_conns(&self, out: &mut String, n: usize)
        requires
            self.wf(),
            n < self.nets@.len(),
        ensures
            final(out)@ == with_conns(
                old(out)@,
                self.names.names(),
                self.nv()[n as int].pins,
                self.resolver,
                self.nv()[n as int].pins.len() as int,
            ),
    {
        let ghost s = out@;
        let pins = &self.nets[n].pins;
        let ghost pv = self.nv()[n as int].pins;
        assert(pv == geom::pins_view(pins@));
        for k in 0..pins.len()
            invariant
                self.wf(),
                pv == geom::pins_view(pins@),
                out@ == with_conns(s, self.names.names(), pv, self.resolver, k as int),
        {
            let p = &pins[k];
            assert(pv[k as int] == (p.0@, p.1@));
            let (d, c) = hookup_of(self.resolver, p);
            if is_port_inst(p.0.as_str()) {
                out.append("*P ");
                out.append(p.1.as_str());
                out.append(" ");
                out.append(dir_letter_of(d));
                out.append("\n");
            } else {
                out.append("*I ");
                out.append(pin_label_of(&self.names, p.0.as_str(), p.1.as_str()).as_str());
                out.append(" ");
                out.append(dir_letter_of(d));
                if number::is_positive(c) {
                    out.append(" *L ");
                    out.append(c.numeral().as_str());
                }
                out.append("\n");
            }
        }
    }

    fn write_net(&self, out: &mut String, n: usize)
        requires
            self.wf(),
            n < self.nets@.len(),
        ensures
            final(out)@ == with_net(
                old(out)@,
                self.names.names(),
                self.nv(),
                self.tv(),
                self.cv(),
                self.resolver,
                n as int,
            ),
    {
        let net = &self.nets[n];
        assert(self.nv()[n as int] == net@);
        let place: usize = self.net_place(n);
        let total: N = net.cap_ff.plus(self.coupling_sum(n)).plus(self.load_sum(n));
        out.append("*D_NET *");
        out.append(number_text(place).as_str());
        out.append(" ");
        out.append(total.numeral().as_str());
        out.append("\n");
        out.append("*CONN\n");
        self.write_conns(out, n);
        let (mut caps, res) = match tree_at(self.trees, n) {
            Some(t) => {
                assert(self.tv()[n as int] == Some(t@));
                emit_tree(&self.names, place, t, net.cap_ff, net.res_ohm)
            },
            None => emit_star(&self.names, place, &net.pins, net.cap_ff, net.res_ohm),
        };
        append_lines(&mut caps, self.load_lines(n));
        append_lines(&mut caps, self.coupling_lines(n, place));
        assert(labelled(caps@) == cap_lines(
            self.names.names(),
            self.nv(),
            self.tv(),
            self.cv(),
            self.resolver,
            n as int,
        ));
        assert(labelled(caps@).len() == caps@.len());
        assert(labelled(res@).len() == res@.len());
        out.append("*CAP\n");
        write_lines(out, &caps);
        if res.len() > 0 {
            out.append("*RES\n");
            write_lines(out, &res);
        }
        out.append("*END\n\n");
    }
}

proof fn lemma_sides_valid<N: Real>(name: Seq<char>, caps: Seq<CapView<N>>, n: int)
    requires
        0 <= n <= caps.len(),
    ensures
        forall|j: int|
            0 <= j < sides(name, caps, n).len() ==> 0 <= (#[trigger] sides(name, caps, n)[j]).0 < n,
    decreases n,
{
    if n > 0 {
        lemma_sides_valid(name, caps, n - 1);
        let b = sides(name, caps, n - 1);
        let s = sides(name, caps, n);
        assert forall|j: int| 0 <= j < s.len() implies 0 <= (#[trigger] s[j]).0 < n by {
            if j < b.len() {
                assert(s[j] == b[j]);
            }
        }
    }
}

fn write_header(out: &mut String, design: &str, units: &Units, date: Option<&str>)
    requires
        old(out)@ == Seq::<char>::empty(),
    ensures
        final(out)@ == header(
            design@,
            units@,
            match date {
                Some(d) => d@,
                None => fixed_date(),
            },
        ),
{
    out.append("*SPEF \"IEEE 1481-1999\"\n");
    assert(out@ == "*SPEF \"IEEE 1481-1999\"\n"@);
    out.append("*DESIGN \"");
    out.append(design);
    out.append("\"\n*DATE \"");
    match date {
        Some(d) => {
            out.append(d);
        },
        None => {
            out.append("00:00:00 Thursday January 01, 1970");
        },
    }
    out.append("\"\n*VENDOR \"Vyges\"\n");
    out.append("*PROGRAM \"vyges-extract\"\n");
    out.append("*VERSION \"");
    out.append(crate::version::VERSION);
    out.append("\"\n");
    out.append("*DESIGN_FLOW \"NAME_SCOPE LOCAL\" \"PIN_CAP NONE\"\n");
    out.append("*DIVIDER /\n");
    out.append("*DELIMITER :\n");
    out.append("*BUS_DELIMITER [ ]\n");
    out.append("*T_UNIT ");
    out.append(units.time.as_str());
    out.append("\n*C_UNIT ");
    out.append(units.cap.as_str());
    out.append("\n*R_UNIT ");
    out.append(units.res.as_str());
    out.append("\n*L_UNIT 1 HENRY\n\n");
}

/// Writes a design: each net by its distributed network where it has one, and
/// as a star otherwise.
pub fn render_distributed<N: Real>(
    design: &str,
    units: &Units,
    date: Option<&str>,
    nets: &Vec<NetParasitics<N>>,
    trees: &Vec<Option<RcNetwork<N>>>,
    couplings: &Vec<CouplingCap<N>>,
    resolver: Option<&PinResolver<N>>,
) -> (r: String)
    requires
        sound_networks(trees_view(trees@)),
    ensures
        r@ == document(
            design@,
            units@,
            match date {
                Some(d) => Some(d@),
                None => None,
            },
            rc::parasitics_view(nets@),
            trees_view(trees@),
            coupling::caps_view(couplings@),
            resolver,
        ),
{
    let ghost nv = rc::parasitics_view(nets@);
    let (only, all) = name_maps(nets);
    let last = last_nets(nets);
    let lists = sides_of(&only, couplings);
    let w = Writer {
        nets,
        trees,
        caps: couplings,
        resolver,
        net_names: only,
        names: all,
        last,
        sides: lists,
    };
    assert(w.wf());
    let ghost names = w.names.names();
    let mut out = String::new();
    write_header(&mut out, design, units, date);
    out.append("*NAME_MAP\n");
    let ghost s = out@;
    for i in 0..w.names.order.len()
        invariant
            names == text::texts(w.names.order@),
            out@ == with_names(s, names, i as int),
    {
        assert(names[i as int] == w.names.order@[i as int]@);
        out.append("*");
        out.append(number_text(i).as_str());
        out.append(" ");
        out.append(w.names.order[i].as_str());
        out.append("\n");
    }
    out.append("\n");
    let ports = ports_of(nets, resolver);
    let ghost pv = port_list(ports@);
    if ports.len() > 0 {
        out.append("*PORTS\n");
        let ghost s = out@;
        for i in 0..ports.len()
            invariant
                pv == port_list(ports@),
                out@ == with_ports(s, pv, i as int),
        {
            assert(pv[i as int] == (ports@[i as int].0@, ports@[i as int].1));
            out.append(ports[i].0.as_str());
            out.append(" ");
            out.append(dir_letter_of(ports[i].1));
            out.append("\n");
        }
        out.append("\n");
    }
    let ghost s = out@;
    for n in 0..nets.len()
        invariant
            w.wf(),
            w.nets == nets,
            nv == w.nv(),
            names == w.names.names(),
            out@ == with_nets(s, names, nv, w.tv(), w.cv(), w.resolver, n as int),
    {
        w.write_net(&mut out, n);
    }
    out
}

/// Writes a design with every net as a star.
pub fn render<N: Real>(
    design: &str,
    units: &Units,
    date: Option<&str>,
    nets: &Vec<NetParasitics<N>>,
    couplings: &Vec<CouplingCap<N>>,
) -> (r: String)
    ensures
        r@ == document(
            design@,
            units@,
            match date {
                Some(d) => Some(d@),
                None => None,
            },
            rc::parasitics_view(nets@),
            Seq::empty(),
            coupling::caps_view(couplings@),
            None,
        ),
{
    let none: Vec<Option<RcNetwork<N>>> = Vec::new();
    assert(trees_view(none@) == Seq::<Option<NetworkView<N>>>::empty());
    render_distributed(design, units, date, nets, &none, couplings, None)
}

/// The grounded capacitances of a list of nets.
pub open spec fn net_caps<N: Real>(nets: Seq<ParasiticsView<N>>) -> Seq<N> {
    Seq::new(nets.len(), |i: int| nets[i].cap)
}

/// The resistances of a list of nets.
pub open spec fn net_ohms<N: Real>(nets: Seq<ParasiticsView<N>>) -> Seq<N> {
    Seq::new(nets.len(), |i: int| nets[i].res)
}

/// The capacitances of a list of couplings.
pub open spec fn cap_values<N: Real>(caps: Seq<CapView<N>>) -> Seq<N> {
    Seq::new(caps.len(), |i: int| caps[i].cap)
}

/// The text with the first `n` nets of a summary.
pub open spec fn with_json_nets<N: Real>(s: Seq<char>, nets: Seq<ParasiticsView<N>>, n: int) -> Seq<
    char,
>
    decreases n,
{
    if n <= 0 {
        s
    } else {
        let before = with_json_nets(s, nets, n - 1);
        let comma = if n > 1 {
            before + ","@
        } else {
            before
        };
        let net = nets[n - 1];
        comma + "{\"name\":"@ + text::debug_text(net.name) + ",\"pins\":"@ + text::nat_text(
            net.pins.len(),
        ) + ",\"ground_cap_ff\":"@ + net.cap.spec_places(6) + ",\"res_ohm\":"@ + net.res.spec_places(6)
            + "}"@
    }
}

/// The text with the first `n` couplings of a summary.
pub open spec fn with_json_caps<N: Real>(s: Seq<char>, caps: Seq<CapView<N>>, n: int) -> Seq<char>
    decreases n,
{
    if n <= 0 {
        s
    } else {
        let before = with_json_caps(s, caps, n - 1);
        let comma = if n > 1 {
            before + ","@
        } else {
            before
        };
        let c = caps[n - 1];
        comma + "{\"a\":"@ + text::debug_text(c.a) + ",\"b\":"@ + text::debug_text(c.b)
            + ",\"cap_ff\":"@ + c.cap.spec_places(6) + "}"@
    }
}

/// The summary of a design in JSON: the totals, the nets and the couplings.
pub open spec fn summary<N: Real>(
    design: Seq<char>,
    nets: Seq<ParasiticsView<N>>,
    caps: Seq<CapView<N>>,
) -> Seq<char> {
    let ground = number::total(net_caps(nets));
    let res = number::total(net_ohms(nets));
    let coupled = number::total(cap_values(caps)).spec_plus(number::zero());
    let head = "{\"design\":"@ + text::debug_text(design) + ",\"nets\":"@ + text::nat_text(
        nets.len(),
    ) + ",\"ground_cap_ff\":"@ + ground.spec_places(6) + ",\"coupling_cap_ff\":"@ + coupled.spec_places(6)
        + ",\"total_cap_ff\":"@ + ground.spec_plus(coupled).spec_places(6) + ",\"total_res_ohm\":"@
        + res.spec_places(6) + ",\"per_net\":["@;
    let listed = with_json_nets(head, nets, nets.len() as int) + "],\"couplings\":["@;
    with_json_caps(listed, caps, caps.len() as int) + "]}\n"@
}

/// Writes the summary of a design in JSON.
pub fn render_json<N: Real>(
    design: &str,
    nets: &Vec<NetParasitics<N>>,
    couplings: &Vec<CouplingCap<N>>,
) -> (r: String)
    ensures
        r@ == summary(design@, rc::parasitics_view(nets@), coupling::caps_view(couplings@)),
{
    let ghost nv = rc::parasitics_view(nets@);
    let ghost cv = coupling::caps_view(couplings@);
    let mut grounds: Vec<N> = Vec::new();
    let mut ohms: Vec<N> = Vec::new();
    for i in 0..nets.len()
        invariant
            grounds@.len() == i,
            ohms@.len() == i,
            forall|j: int| 0 <= j < i ==> grounds@[j] == nets@[j].cap_ff,
            forall|j: int| 0 <= j < i ==> ohms@[j] == nets@[j].res_ohm,
    {
        grounds.push(nets[i].cap_ff);
        ohms.push(nets[i].res_ohm);
    }
    let mut values: Vec<N> = Vec::new();
    for i in 0..couplings.len()
        invariant
            values@.len() == i,
            forall|j: int| 0 <= j < i ==> values@[j] == couplings@[j].cap_ff,
    {
        values.push(couplings[i].cap_ff);
    }
    assert(grounds@ == net_caps(nv));
    assert(ohms@ == net_ohms(nv));
    assert(values@ == cap_values(cv));
    let ground: N = number::total_of(&grounds);
    let res: N = number::total_of(&ohms);
    let coupled: N = number::total_of(&values).plus(number::zero_of());
    let mut out = "{\"design\":".to_owned();
    out.append(text::debug_string(design).as_str());
    out.append(",\"nets\":");
    out.append(text::nat_string(nets.len() as u128).as_str());
    out.append(",\"ground_cap_ff\":");
    out.append(ground.places(6).as_str());
    out.append(",\"coupling_cap_ff\":");
    out.append(coupled.places(6).as_str());
    out.append(",\"total_cap_ff\":");
    out.append(ground.plus(coupled).places(6).as_str());
    out.append(",\"total_res_ohm\":");
    out.append(res.places(6).as_str());
    out.append(",\"per_net\":[");
    let ghost s = out@;
    for i in 0..nets.len()
        invariant
            nv == rc::parasitics_view(nets@),
            out@ == with_json_nets(s, nv, i as int),
    {
        let net = &nets[i];
        assert(nv[i as int] == net@);
        if i > 0 {
            out.append(",");
        }
        out.append("{\"name\":");
        out.append(text::debug_string(net.name.as_str()).as_str());
        out.append(",\"pins\":");
        out.append(text::nat_string(net.pins.len() as u128).as_str());
        out.append(",\"ground_cap_ff\":");
        out.append(net.cap_ff.places(6).as_str());
        out.append(",\"res_ohm\":");
        out.append(net.res_ohm.places(6).as_str());
        out.append("}");
    }
    out.append("],\"couplings\":[");
    let ghost s = out@;
    for i in 0..couplings.len()
        invariant
            cv == coupling::caps_view(couplings@),
            out@ == with_json_caps(s, cv, i as int),
    {
        let c = &couplings[i];
        assert(cv[i as int] == c@);
        if i > 0 {
            out.append(",");
        }
        out.append("{\"a\":");
        out.append(text::debug_string(c.a.as_str()).as_str());
        out.append(",\"b\":");
        out.append(text::debug_string(c.b.as_str()).as_str());
        out.append(",\"cap_ff\":");
        out.append(c.cap_ff.places(6).as_str());
        out.append("}");
    }
    out.append("]}\n");
    out
}

/// Whether a label leads with the number of an entry of the name map.
pub open spec fn refers(names: Seq<Seq<char>>, label: Seq<char>) -> bool {
    exists|k: nat, tail: Seq<char>| 1 <= k <= names.len() && label == #[trigger] inst_label(k, tail)
}

/// Whether a label is the name of a port that some net connects.
pub open spec fn names_port<N: Real>(nets: Seq<ParasiticsView<N>>, label: Seq<char>) -> bool {
    exists|i: int, k: int|
        0 <= i < nets.len() && 0 <= k < nets[i].pins.len() && is_port(
            (#[trigger] nets[i].pins[k]).0,
        ) && label == nets[i].pins[k].1
}

/// Whether a label is a reference that the name map resolves, or a port.
pub open spec fn resolves<N: Real>(nets: Seq<ParasiticsView<N>>, label: Seq<char>) -> bool {
    refers(name_map(nets), label) || names_port(nets, label)
}

proof fn lemma_pin_resolves<N: Real>(nets: Seq<ParasiticsView<N>>, i: int, k: int)
    requires
        0 <= i < nets.len(),
        0 <= k < nets[i].pins.len(),
    ensures
        resolves(nets, pin_label(name_map(nets), nets[i].pins[k].0, nets[i].pins[k].1)),
{
    let p = nets[i].pins[k];
    if !is_port(p.0) {
        instances_are_mapped(nets, i, k);
        assert(refers(name_map(nets), inst_label(id(name_map(nets), p.0), p.1)));
    }
}

proof fn lemma_inner_resolves<N: Real>(nets: Seq<ParasiticsView<N>>, i: int, m: nat)
    requires
        0 <= i < nets.len(),
    ensures
        resolves(nets, inner_label(id(name_map(nets), nets[i].name), m)),
{
    nets_are_mapped(nets, i);
    assert(inner_label(id(name_map(nets), nets[i].name), m) == inst_label(
        id(name_map(nets), nets[i].name),
        text::nat_text(m),
    ));
}

proof fn lemma_face_resolves<N: Real>(
    nets: Seq<ParasiticsView<N>>,
    trees: Seq<Option<NetworkView<N>>>,
    n: int,
)
    requires
        0 <= n < nets.len(),
    ensures
        resolves(nets, face(name_map(nets), nets, trees, n)),
{
    if has_tree(trees, n) && nets[n].pins.len() > 0 {
        lemma_pin_resolves(nets, n, 0);
    } else {
        lemma_inner_resolves(nets, n, 0);
    }
}

pub(crate) proof fn lemma_last_net<N: Real>(nets: Seq<ParasiticsView<N>>, name: Seq<char>, n: int)
    requires
        0 <= n <= nets.len(),
    ensures
        last_net(nets, name, n) matches Some(j) ==> 0 <= j < n,
    decreases n,
{
    if n > 0 {
        lemma_last_net(nets, name, n - 1);
    }
}

/// Every node that the record of a net names is one that a reader resolves: an
/// entry of the name map with a suffix, or a port. So for the face of the net,
/// its neighbours, its pins, and the nodes of its network, whose pins are pins
/// of the net.
pub proof fn every_reference_resolves<N: Real>(
    nets: Seq<ParasiticsView<N>>,
    trees: Seq<Option<NetworkView<N>>>,
    n: int,
    other: Seq<char>,
)
    requires
        0 <= n < nets.len(),
        has_tree(trees, n) ==> forall|i: int|
            0 <= i < (trees[n]->0).nodes.len() ==> ((#[trigger] (trees[n]->0).nodes[i]).pin matches Some(p)
                ==> nets[n].pins.contains(p)),
    ensures
        resolves(nets, face(name_map(nets), nets, trees, n)),
        resolves(
            nets,
            neighbour(name_map(nets), nets, trees, id(name_map(nets), nets[n].name), other),
        ),
        resolves(nets, root_label(id(name_map(nets), nets[n].name))),
        resolves(nets, far_label(id(name_map(nets), nets[n].name))),
        forall|k: int|
            0 <= k < nets[n].pins.len() ==> resolves(
                nets,
                pin_label(
                    name_map(nets),
                    (#[trigger] nets[n].pins[k]).0,
                    nets[n].pins[k].1,
                ),
            ),
        has_tree(trees, n) ==> forall|i: int|
            0 <= i < (trees[n]->0).nodes.len() ==> resolves(
                nets,
                #[trigger] node_label(
                    name_map(nets),
                    id(name_map(nets), nets[n].name),
                    trees[n]->0,
                    i,
                ),
            ),
{
    let names = name_map(nets);
    let nid = id(names, nets[n].name);
    lemma_face_resolves(nets, trees, n);
    lemma_inner_resolves(nets, n, 0);
    nets_are_mapped(nets, n);
    assert(far_label(nid) == inst_label(nid, "far"@)) by {
        reveal_strlit(":far");
        reveal_strlit(":");
        reveal_strlit("far");
        assert(":far"@ == ":"@ + "far"@);
        assert("*"@ + text::nat_text(nid) + (":"@ + "far"@) == "*"@ + text::nat_text(nid) + ":"@
            + "far"@);
    }
    lemma_last_net(nets, other, nets.len() as int);
    match last_net(nets, other, nets.len() as int) {
        Some(j) => {
            lemma_face_resolves(nets, trees, j);
        },
        None => {
            if names.contains(other) {
                assert(root_label(id(names, other)) == inst_label(
                    id(names, other),
                    text::nat_text(0),
                ));
            }
        },
    }
    assert forall|k: int| 0 <= k < nets[n].pins.len() implies resolves(
        nets,
        pin_label(names, (#[trigger] nets[n].pins[k]).0, nets[n].pins[k].1),
    ) by {
        lemma_pin_resolves(nets, n, k);
    }
    if has_tree(trees, n) {
        let t = trees[n]->0;
        assert forall|i: int| 0 <= i < t.nodes.len() implies resolves(
            nets,
            #[trigger] node_label(names, nid, t, i),
        ) by {
            match t.nodes[i].pin {
                Some(p) => {
                    assert(nets[n].pins.contains(p));
                    lemma_pin_resolves(nets, n, nets[n].pins.index_of(p));
                },
                None => {
                    lemma_inner_resolves(nets, n, i as nat);
                },
            }
        }
    }
}

/// A port is never in the name map by being connected: where no net bears the
/// name `PIN`, the map does not hold it.
pub proof fn ports_are_not_mapped<N: Real>(nets: Seq<ParasiticsView<N>>)
    requires
        forall|i: int| 0 <= i < nets.len() ==> !is_port((#[trigger] nets[i]).name),
    ensures
        !name_map(nets).contains("PIN"@),
{
    lemma_no_port_nets(nets, nets.len() as int);
    lemma_no_port_insts(net_names(nets, nets.len() as int), nets, nets.len() as int);
}

proof fn lemma_intern_contains(names: Seq<Seq<char>>, s: Seq<char>, t: Seq<char>)
    requires
        intern(names, s).contains(t),
    ensures
        names.contains(t) || t == s,
{
    let i = intern(names, s).index_of(t);
    if i < names.len() {
        assert(names[i] == t);
    }
}

proof fn lemma_no_port_nets<N: Real>(nets: Seq<ParasiticsView<N>>, n: int)
    requires
        0 <= n <= nets.len(),
        forall|i: int| 0 <= i < nets.len() ==> !is_port((#[trigger] nets[i]).name),
    ensures
        !net_names(nets, n).contains("PIN"@),
    decreases n,
{
    if n > 0 {
        lemma_no_port_nets(nets, n - 1);
        if net_names(nets, n).contains("PIN"@) {
            lemma_intern_contains(net_names(nets, n - 1), nets[n - 1].name, "PIN"@);
        }
    }
}

proof fn lemma_no_port_pins(names: Seq<Seq<char>>, pins: Seq<(Seq<char>, Seq<char>)>, k: int)
    requires
        0 <= k <= pins.len(),
        !names.contains("PIN"@),
    ensures
        !with_insts(names, pins, k).contains("PIN"@),
    decreases k,
{
    if k > 0 {
        lemma_no_port_pins(names, pins, k - 1);
        if with_insts(names, pins, k).contains("PIN"@) && !is_port(pins[k - 1].0) {
            lemma_intern_contains(with_insts(names, pins, k - 1), pins[k - 1].0, "PIN"@);
        }
    }
}

proof fn lemma_no_port_insts<N: Real>(
    names: Seq<Seq<char>>,
    nets: Seq<ParasiticsView<N>>,
    n: int,
)
    requires
        0 <= n <= nets.len(),
        !names.contains("PIN"@),
    ensures
        !with_net_insts(names, nets, n).contains("PIN"@),
    decreases n,
{
    if n > 0 {
        lemma_no_port_insts(names, nets, n - 1);
        lemma_no_port_pins(
            with_net_insts(names, nets, n - 1),
            nets[n - 1].pins,
            nets[n - 1].pins.len() as int,
        );
    }
}

/// A coupling stands in the records of both of its nets: for each of its two
/// sides, the net of that side lists it.
pub proof fn a_coupling_is_listed_under_both_nets<N: Real>(caps: Seq<CapView<N>>, c: int)
    requires
        0 <= c < caps.len(),
    ensures
        sides(caps[c].a, caps, caps.len() as int).contains((c, true)),
        sides(caps[c].b, caps, caps.len() as int).contains((c, false)),
{
    lemma_side_listed(caps, c, caps.len() as int);
}

proof fn lemma_side_listed<N: Real>(caps: Seq<CapView<N>>, c: int, n: int)
    requires
        0 <= c < n <= caps.len(),
    ensures
        sides(caps[c].a, caps, n).contains((c, true)),
        sides(caps[c].b, caps, n).contains((c, false)),
    decreases n,
{
    let (sa, sb) = (sides(caps[c].a, caps, n), sides(caps[c].b, caps, n));
    let (ba, bb) = (sides(caps[c].a, caps, n - 1), sides(caps[c].b, caps, n - 1));
    if c < n - 1 {
        lemma_side_listed(caps, c, n - 1);
        assert(sa[ba.index_of((c, true))] == (c, true));
        assert(sb[bb.index_of((c, false))] == (c, false));
    } else {
        assert(sa[ba.len() as int] == (c, true));
        assert(sb[sb.len() - 1] == (c, false));
    }
}

/// Whether a resistor among lines joins two nodes.
pub open spec fn joined<N: Real>(lines: Seq<(Seq<char>, N)>, a: Seq<char>, b: Seq<char>) -> bool {
    exists|k: int|
        0 <= k < lines.len() && ((#[trigger] lines[k]).0 == between(a, b) || lines[k].0 == between(
            b,
            a,
        ))
}

/// Whether resistors among lines join each node of a walk to the next.
pub open spec fn is_path<N: Real>(lines: Seq<(Seq<char>, N)>, walk: Seq<Seq<char>>) -> bool {
    forall|k: int|
        0 <= k < walk.len() - 1 ==> joined(lines, #[trigger] walk[k], walk[k + 1])
}

/// Whether resistors among lines lead from one node to another.
pub open spec fn hangs<N: Real>(lines: Seq<(Seq<char>, N)>, a: Seq<char>, b: Seq<char>) -> bool {
    exists|walk: Seq<Seq<char>>|
        walk.len() > 0 && walk[0] == a && walk.last() == b && #[trigger] is_path(lines, walk)
}

/// Whether every two nodes of the network of a net are joined by resistors.
pub open spec fn in_one_piece<N: Real>(t: NetworkView<N>) -> bool {
    forall|i: int, j: int|
        0 <= i < t.nodes.len() && 0 <= j < t.nodes.len() ==> #[trigger] graph::connected(
            tree::ends(t.edges),
            i,
            j,
        )
}

/// Every net is written as one network: resistors of its record lead from any
/// node with a grounded capacitance to any other, by its own network where that
/// is in one piece, and by the star otherwise.
pub proof fn every_net_is_one_network<N: Real>(
    nets: Seq<ParasiticsView<N>>,
    trees: Seq<Option<NetworkView<N>>>,
    n: int,
    i: int,
    j: int,
)
    requires
        0 <= n < nets.len(),
        has_tree(trees, n) ==> in_one_piece(trees[n]->0),
        0 <= i < grounded_lines(name_map(nets), nets, trees, n).len(),
        0 <= j < grounded_lines(name_map(nets), nets, trees, n).len(),
    ensures
        hangs(
            res_lines(name_map(nets), nets, trees, n),
            grounded_lines(name_map(nets), nets, trees, n)[i].0,
            grounded_lines(name_map(nets), nets, trees, n)[j].0,
        ),
{
    let names = name_map(nets);
    let net = nets[n];
    let nid = id(names, net.name);
    let lines = res_lines(names, nets, trees, n);
    let g = grounded_lines(names, nets, trees, n);
    if has_tree(trees, n) {
        let t = trees[n]->0;
        let e = tree::ends(t.edges);
        assert(graph::connected(e, i, j));
        let walk = choose|walk: Seq<int>| graph::leads(e, walk, i, j);
        let path = Seq::new(walk.len(), |k: int| node_label(names, nid, t, walk[k]));
        assert forall|k: int| 0 <= k < path.len() - 1 implies joined(
            lines,
            #[trigger] path[k],
            path[k + 1],
        ) by {
            let (a, b) = (walk[k], walk[k + 1]);
            assert(graph::adjacent(e, a, b));
            if e.contains((a, b)) {
                let m = e.index_of((a, b));
                assert(lines[m].0 == between(path[k], path[k + 1]));
            } else {
                let m = e.index_of((b, a));
                assert(lines[m].0 == between(path[k + 1], path[k]));
            }
        }
        assert(is_path(lines, path));
        assert(path[0] == g[i].0 && path.last() == g[j].0);
    } else if i == j {
        let path = seq![g[i].0];
        assert(is_path(lines, path));
    } else {
        let root = root_label(nid);
        lemma_star_joined(names, nets, trees, n, i);
        lemma_star_joined(names, nets, trees, n, j);
        if g[i].0 == root {
            let path = seq![root, g[j].0];
            assert(g[j].0 != root ==> joined(lines, root, g[j].0));
            if g[j].0 == root {
                let short = seq![root];
                assert(is_path(lines, short));
            } else {
                assert(is_path(lines, path));
            }
        } else if g[j].0 == root {
            let path = seq![g[i].0, root];
            assert(is_path(lines, path));
        } else {
            let path = seq![g[i].0, root, g[j].0];
            assert(is_path(lines, path));
        }
    }
}

pub(crate) proof fn lemma_star_joined<N: Real>(
    names: Seq<Seq<char>>,
    nets: Seq<ParasiticsView<N>>,
    trees: Seq<Option<NetworkView<N>>>,
    n: int,
    i: int,
)
    requires
        0 <= n < nets.len(),
        !has_tree(trees, n),
        grounded_lines(names, nets, trees, n).len() > 1,
        0 <= i < grounded_lines(names, nets, trees, n).len(),
    ensures
        ({
            let root = root_label(id(names, nets[n].name));
            let lines = res_lines(names, nets, trees, n);
            let node = grounded_lines(names, nets, trees, n)[i].0;
            node != root ==> joined(lines, root, node) && joined(lines, node, root)
        }),
{
    let net = nets[n];
    let root = root_label(id(names, net.name));
    let lines = res_lines(names, nets, trees, n);
    let node = grounded_lines(names, nets, trees, n)[i].0;
    if node != root {
        if net.pins.len() < 2 {
            assert(lines[0].0 == between(root, node));
        } else {
            assert(lines[i].0 == between(root, node));
        }
    }
}

} // verus!

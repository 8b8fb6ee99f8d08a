//! Extraction: a layout, a deck and the widths of the technology in, the
//! parasitics of every net and the coupling between nets out.
use crate::balance;
use crate::coupling;
use crate::coupling::{CapView, CouplingCap, TechView};
use crate::cutting;
use crate::def::{Def, DefNet, NetView, SegmentView};
use crate::drawn;
use crate::geom;
use crate::graph;
use crate::lef::Lef;
use crate::notice;
use crate::notice::{Notice, NoticeView};
use crate::number;
use crate::number::{Fixed, Real};
use crate::rc;
use crate::rc::{NetParasitics, ParasiticsView};
use crate::rounding;
use crate::rules::{RcRules, RulesView};
use crate::spef;
use crate::spef::Units;
use crate::strmap::StrMap;
use crate::text;
use crate::tree;
use crate::tree::{NetworkView, Outcome, OutcomeView, RcNetwork};
use vstd::prelude::*;

verus! {

/// What is extracted from: the layout and the number of its placed instances,
/// the deck, what the technology says of layers and vias and whether it was
/// given, and how many pairs of nets may couple.
#[derive(Debug)]
pub struct Inputs<N: Real> {
    pub def: Def<N>,
    pub placed: usize,
    pub rules: RcRules<N>,
    pub lef: Lef<N>,
    pub lef_given: bool,
    pub max_pairs: usize,
}

/// The parasitics of every net, its network where its geometry supports one,
/// and the coupling between nets.
#[derive(Debug)]
pub struct Extraction<N: Real> {
    pub nets: Vec<NetParasitics<N>>,
    pub trees: Vec<Option<RcNetwork<N>>>,
    pub couplings: Vec<CouplingCap<N>>,
}

/// Why nothing was extracted.
#[derive(Debug)]
pub enum ExtractError {
    Parse(String),
    Io(String),
    /// Extraction by field solution needs a solver.
    FieldSolverNotFound,
}

/// The text of an error.
pub open spec fn error_text(e: ExtractError) -> Seq<char> {
    match e {
        ExtractError::Parse(m) => "parse error: "@ + m@,
        ExtractError::Io(m) => "io error: "@ + m@,
        ExtractError::FieldSolverNotFound =>
            "field solver not found on PATH. Correlated extraction needs the EDA environment (VyBox / build host); the rule-based path runs without it."@,
    }
}

impl ExtractError {
    /// The error as a message.
    pub fn message(&self) -> (r: String)
        ensures
            r@ == error_text(*self),
    {
        match self {
            ExtractError::Parse(m) => {
                let mut out = "parse error: ".to_owned();
                out.append(m.as_str());
                out
            },
            ExtractError::Io(m) => {
                let mut out = "io error: ".to_owned();
                out.append(m.as_str());
                out
            },
            ExtractError::FieldSolverNotFound => "field solver not found on PATH. Correlated extraction needs the EDA environment (VyBox / build host); the rule-based path runs without it.".to_owned(),
        }
    }
}

/// The lumped parasitics of the first `n` nets, or the message of the first
/// that has none.
pub open spec fn lumped_upto<N: Real>(
    nets: Seq<NetView>,
    rules: RulesView<N>,
    widths: Map<Seq<char>, N>,
    n: int,
) -> Result<Seq<ParasiticsView<N>>, Seq<char>>
    decreases n,
{
    if n <= 0 {
        Ok(Seq::empty())
    } else {
        match lumped_upto(nets, rules, widths, n - 1) {
            Err(m) => Err(m),
            Ok(s) => match rc::lumped(nets[n - 1], rules, widths) {
                Ok(p) => Ok(s.push(p)),
                Err(m) => Err("rc error: "@ + m),
            },
        }
    }
}

/// The lumped parasitics of all nets.
pub open spec fn lumped_all<N: Real>(
    nets: Seq<NetView>,
    rules: RulesView<N>,
    widths: Map<Seq<char>, N>,
) -> Result<Seq<ParasiticsView<N>>, Seq<char>> {
    lumped_upto(nets, rules, widths, nets.len() as int)
}

/// What comes of building the network of each net.
pub open spec fn outcomes<N: Real>(
    nets: Seq<NetView>,
    rules: RulesView<N>,
    widths: Map<Seq<char>, N>,
    via_layers: Map<Seq<char>, Seq<Seq<char>>>,
) -> Seq<OutcomeView<N>> {
    Seq::new(nets.len(), |i: int| tree::outcome(nets[i], rules, widths, via_layers))
}

/// The networks among outcomes.
pub open spec fn networks<N: Real>(o: Seq<OutcomeView<N>>) -> Seq<Option<NetworkView<N>>> {
    Seq::new(
        o.len(),
        |i: int|
            match o[i] {
                OutcomeView::Built(t) => Some(t),
                _ => None,
            },
    )
}

/// The views of a list of outcomes.
pub open spec fn outcomes_view<N: Real>(v: Seq<Outcome<N>>) -> Seq<OutcomeView<N>> {
    Seq::new(v.len(), |i: int| v[i]@)
}

/// A net's parasitics with the part `k` of its coupling taken from its grounded
/// capacitance, which does not fall below zero.
pub open spec fn shielded<N: Real>(
    p: ParasiticsView<N>,
    caps: Seq<CapView<N>>,
    k: N,
) -> ParasiticsView<N> {
    if spef::sides(p.name, caps, caps.len() as int).len() == 0 {
        p
    } else {
        ParasiticsView {
            cap: number::greater(
                number::zero(),
                p.cap.spec_minus(k.spec_times(spef::coupling_sum(p.name, caps))),
            ),
            ..p
        }
    }
}

/// The nets' parasitics with their coupling taken from their grounded
/// capacitance, where the deck shields.
pub open spec fn shielded_all<N: Real>(
    nets: Seq<ParasiticsView<N>>,
    caps: Seq<CapView<N>>,
    k: N,
) -> Seq<ParasiticsView<N>> {
    if number::positive(k) {
        Seq::new(nets.len(), |i: int| shielded(nets[i], caps, k))
    } else {
        nets
    }
}

/// Whether an extraction is that of the inputs: the lumped parasitics, shielded
/// by the coupling; the networks; and the coupling of the nets among the power
/// rails, in the order of the names of the nets.
pub open spec fn is_extraction<N: Real>(x: Extraction<N>, i: Inputs<N>) -> bool {
    let nets = geom::nets_view(i.def.nets@);
    let tech = TechView {
        rules: i.rules@,
        widths: i.lef.widths@,
        thicknesses: i.lef.thicknesses@,
    };
    let caps = coupling::caps_view(x.couplings@);
    &&& lumped_all(nets, i.rules@, i.lef.widths@) is Ok
    &&& coupling::is_ordered_form(
        caps,
        coupling::named(
            coupling::coupling_table(
                tech,
                nets,
                geom::segments_view(i.def.rails@),
                i.max_pairs as int,
            ),
            nets,
        ),
    )
    &&& rc::parasitics_view(x.nets@) == shielded_all(
        lumped_all(nets, i.rules@, i.lef.widths@)->Ok_0,
        caps,
        i.rules@.shield_k,
    )
    &&& spef::trees_view(x.trees@) == networks(
        outcomes(nets, i.rules@, i.lef.widths@, tree::named_layers(i.lef.vias@)),
    )
}

proof fn lemma_lumped_stuck<N: Real>(
    nets: Seq<NetView>,
    rules: RulesView<N>,
    widths: Map<Seq<char>, N>,
    i: int,
    n: int,
)
    requires
        0 < i <= n,
        lumped_upto(nets, rules, widths, i) is Err,
    ensures
        lumped_upto(nets, rules, widths, n) == lumped_upto(nets, rules, widths, i),
    decreases n - i,
{
    if i < n {
        lemma_lumped_stuck(nets, rules, widths, i, n - 1);
    }
}

/// The lumped parasitics of all nets, or the error of the first that has none.
pub fn lump_all<N: Real>(nets: &Vec<DefNet>, rules: &RcRules<N>, widths: &StrMap<N>) -> (r: Result<
    Vec<NetParasitics<N>>,
    ExtractError,
>)
    ensures
        match (r, lumped_all(geom::nets_view(nets@), rules@, widths@)) {
            (Ok(v), Ok(s)) => rc::parasitics_view(v@) == s,
            (Err(ExtractError::Parse(e)), Err(m)) => e@ == m,
            _ => false,
        },
{
    let ghost nv = geom::nets_view(nets@);
    let mut out: Vec<NetParasitics<N>> = Vec::new();
    assert(rc::parasitics_view(out@) == Seq::<ParasiticsView<N>>::empty());
    for i in 0..nets.len()
        invariant
            nv == geom::nets_view(nets@),
            lumped_upto(nv, rules@, widths@, i as int) == Ok::<
                Seq<ParasiticsView<N>>,
                Seq<char>,
            >(rc::parasitics_view(out@)),
    {
        assert(nv[i as int] == nets@[i as int]@);
        match rc::extract_net(&nets[i], rules, widths) {
            Ok(p) => {
                let ghost before = rc::parasitics_view(out@);
                let ghost v = p@;
                out.push(p);
                assert(rc::parasitics_view(out@) == before.push(v));
            },
            Err(e) => {
                proof {
                    lemma_lumped_stuck(nv, rules@, widths@, i + 1, nv.len() as int);
                }
                return Err(ExtractError::Parse(e.message()));
            },
        }
    }
    Ok(out)
}

/// What comes of building the network of each net.
pub fn network_all<N: Real>(
    nets: &Vec<DefNet>,
    rules: &RcRules<N>,
    widths: &StrMap<N>,
    via_layers: &StrMap<Vec<String>>,
) -> (r: Vec<Outcome<N>>)
    ensures
        outcomes_view(r@) == outcomes(
            geom::nets_view(nets@),
            rules@,
            widths@,
            tree::named_layers(via_layers@),
        ),
{
    let mut out: Vec<Outcome<N>> = Vec::new();
    for i in 0..nets.len()
        invariant
            out@.len() == i,
            forall|j: int|
                0 <= j < i ==> (#[trigger] out@[j])@ == tree::outcome(
                    nets@[j]@,
                    rules@,
                    widths@,
                    tree::named_layers(via_layers@),
                ),
    {
        out.push(tree::build_network(&nets[i], rules, widths, via_layers));
    }
    assert(outcomes_view(out@) == outcomes(
        geom::nets_view(nets@),
        rules@,
        widths@,
        tree::named_layers(via_layers@),
    ));
    out
}

/// The names of those of the first `n` nets whose geometry is in pieces.
pub open spec fn disconnected_upto<N: Real>(
    nets: Seq<NetView>,
    o: Seq<OutcomeView<N>>,
    n: int,
) -> Seq<Seq<char>>
    decreases n,
{
    if n <= 0 {
        Seq::empty()
    } else if o[n - 1] is Disconnected {
        disconnected_upto(nets, o, n - 1).push(nets[n - 1].name)
    } else {
        disconnected_upto(nets, o, n - 1)
    }
}

/// The first `k` of a list, or all of it.
pub open spec fn at_most<T>(s: Seq<T>, k: int) -> Seq<T> {
    if s.len() <= k {
        s
    } else {
        s.take(k)
    }
}

/// The notice that nets are in pieces, if there are any: how many, the first
/// few by name, and up to twenty as objects.
pub open spec fn pieces_notice(names: Seq<Seq<char>>, total: nat) -> Option<NoticeView> {
    if names.len() == 0 {
        None
    } else {
        let some = at_most(names, 20);
        Some(
            NoticeView {
                attention: true,
                code: "EXTRACT-RC-DISCONNECTED"@,
                message: text::nat_text(names.len()) + " of "@ + text::nat_text(total)
                    + " net(s) had routing that would not resolve into a single RC network — emitted as a lumped star instead (e.g. "@
                    + text::join(at_most(names, 3), ", "@) + ")"@,
                objects: Seq::new(some.len(), |i: int| notice::net_object(some[i])),
            },
        )
    }
}

/// Says which nets are in pieces.
pub fn notice_pieces<N: Real>(nets: &Vec<DefNet>, outcomes: &Vec<Outcome<N>>) -> (r: Option<Notice>)
    requires
        nets@.len() == outcomes@.len(),
    ensures
        match r {
            Some(n) => Some(n@),
            None => None,
        } == pieces_notice(
            disconnected_upto(
                geom::nets_view(nets@),
                outcomes_view(outcomes@),
                nets@.len() as int,
            ),
            nets@.len(),
        ),
{
    let ghost nv = geom::nets_view(nets@);
    let ghost ov = outcomes_view(outcomes@);
    let mut names: Vec<String> = Vec::new();
    assert(text::texts(names@) == Seq::<Seq<char>>::empty());
    for i in 0..nets.len()
        invariant
            nets@.len() == outcomes@.len(),
            nv == geom::nets_view(nets@),
            ov == outcomes_view(outcomes@),
            text::texts(names@) == disconnected_upto(nv, ov, i as int),
    {
        assert(ov[i as int] == outcomes@[i as int]@);
        assert(nv[i as int].name == nets@[i as int].name@);
        if let Outcome::Disconnected { .. } = &outcomes[i] {
            let ghost before = text::texts(names@);
            names.push(nets[i].name.clone());
            assert(text::texts(names@) == before.push(nv[i as int].name));
        }
    }
    let ghost all = text::texts(names@);
    assert(all.len() == names@.len());
    if names.len() == 0 {
        return None;
    }
    let mut few: Vec<String> = Vec::new();
    let mut objects: Vec<String> = Vec::new();
    for i in 0..names.len()
        invariant
            all == text::texts(names@),
            few@.len() == geom::min(i as int, 3),
            objects@.len() == geom::min(i as int, 20),
            forall|j: int| 0 <= j < few@.len() ==> (#[trigger] few@[j])@ == all[j],
            forall|j: int|
                0 <= j < objects@.len() ==> (#[trigger] objects@[j])@ == notice::net_object(all[j]),
    {
        assert(all[i as int] == names@[i as int]@);
        if i < 3 {
            few.push(names[i].clone());
        }
        if i < 20 {
            objects.push(notice::net_object_of(names[i].as_str()));
        }
    }
    assert(text::texts(few@) == at_most(all, 3));
    let mut message = text::nat_string(names.len() as u128);
    message.append(" of ");
    message.append(text::nat_string(nets.len() as u128).as_str());
    message.append(
        " net(s) had routing that would not resolve into a single RC network — emitted as a lumped star instead (e.g. ",
    );
    message.append(text::join_strings(&few, ", ").as_str());
    message.append(")");
    let n = Notice { attention: true, code: "EXTRACT-RC-DISCONNECTED".to_owned(), message, objects };
    assert(n@.objects == pieces_notice(all, nets@.len())->0.objects);
    Some(n)
}

spec fn side_values<N: Real>(name: Seq<char>, caps: Seq<CapView<N>>, n: int) -> Seq<N> {
    let s = spef::sides(name, caps, n);
    Seq::new(s.len(), |i: int| caps[s[i].0].cap)
}

spec fn sums_are<N: Real>(m: Map<Seq<char>, N>, caps: Seq<CapView<N>>, n: int) -> bool {
    forall|name: Seq<char>|
        #![trigger m.contains_key(name)]
        (m.contains_key(name) <==> side_values(name, caps, n).len() > 0) && (m.contains_key(name)
            ==> m[name] == number::total(side_values(name, caps, n)))
}

fn charge<N: Real>(sums: &mut StrMap<N>, name: &String, cap: N)
    ensures
        final(sums)@ == old(sums)@.insert(
            name@,
            (if old(sums)@.contains_key(name@) {
                old(sums)@[name@]
            } else {
                number::zero()
            }).spec_plus(cap),
        ),
{
    let before: N = match sums.get(name.as_str()) {
        Some(v) => *v,
        None => number::zero_of(),
    };
    sums.insert(name.as_str(), before.plus(cap));
}

/// The coupling of each net that couples.
fn coupling_sums<N: Real>(caps: &Vec<CouplingCap<N>>) -> (r: StrMap<N>)
    ensures
        sums_are(r@, coupling::caps_view(caps@), caps@.len() as int),
{
    let ghost cv = coupling::caps_view(caps@);
    let mut sums: StrMap<N> = StrMap::new();
    for i in 0..caps.len()
        invariant
            cv == coupling::caps_view(caps@),
            sums_are(sums@, cv, i as int),
    {
        let c = &caps[i];
        let ghost before = sums@;
        assert(cv[i as int] == c@);
        charge(&mut sums, &c.a, c.cap_ff);
        charge(&mut sums, &c.b, c.cap_ff);
        proof {
            assert forall|name: Seq<char>| #![trigger sums@.contains_key(name)]
                (sums@.contains_key(name) <==> side_values(name, cv, i + 1).len() > 0) && (
                sums@.contains_key(name) ==> sums@[name] == number::total(
                    side_values(name, cv, i + 1),
                )) by {
                lemma_side_values(name, cv, i + 1);
                let old_values = side_values(name, cv, i as int);
                assert(before.contains_key(name) <==> old_values.len() > 0);
                if !before.contains_key(name) {
                    assert(number::total(old_values) == number::zero::<N>());
                }
                lemma_total_push(old_values, cv[i as int].cap);
                lemma_total_push(old_values.push(cv[i as int].cap), cv[i as int].cap);
            }
        }
    }
    sums
}

proof fn lemma_total_push<N: Real>(s: Seq<N>, v: N)
    ensures
        number::total(s.push(v)) == number::total(s).spec_plus(v),
{
    assert(s.push(v).drop_last() == s);
}

proof fn lemma_side_values<N: Real>(name: Seq<char>, caps: Seq<CapView<N>>, n: int)
    requires
        0 < n <= caps.len(),
    ensures
        ({
            let before = side_values(name, caps, n - 1);
            let v = caps[n - 1].cap;
            let first = if caps[n - 1].a == name {
                before.push(v)
            } else {
                before
            };
            side_values(name, caps, n) == (if caps[n - 1].b == name {
                first.push(v)
            } else {
                first
            })
        }),
{
    let before = side_values(name, caps, n - 1);
    let v = caps[n - 1].cap;
    let first = if caps[n - 1].a == name {
        before.push(v)
    } else {
        before
    };
    assert(side_values(name, caps, n) == (if caps[n - 1].b == name {
        first.push(v)
    } else {
        first
    }));
}

/// Takes the part `k` of each net's coupling from its grounded capacitance.
pub fn shield<N: Real>(
    nets: Vec<NetParasitics<N>>,
    couplings: &Vec<CouplingCap<N>>,
    k: N,
) -> (r: Vec<NetParasitics<N>>)
    ensures
        rc::parasitics_view(r@) == shielded_all(
            rc::parasitics_view(nets@),
            coupling::caps_view(couplings@),
            k,
        ),
{
    let ghost all = rc::parasitics_view(nets@);
    let ghost cv = coupling::caps_view(couplings@);
    let mut nets = nets;
    if !number::is_positive(k) {
        return nets;
    }
    let sums = coupling_sums(couplings);
    let n: usize = nets.len();
    for i in 0..n
        invariant
            n == nets@.len(),
            n == all.len(),
            cv == coupling::caps_view(couplings@),
            sums_are(sums@, cv, couplings@.len() as int),
            forall|j: int| i <= j < n ==> (#[trigger] nets@[j])@ == all[j],
            forall|j: int| 0 <= j < i ==> (#[trigger] nets@[j])@ == shielded(all[j], cv, k),
    {
        let ghost v = nets@[i as int]@;
        assert(v == all[i as int]);
        let found: Option<N> = match sums.get(nets[i].name.as_str()) {
            Some(cc) => Some(*cc),
            None => None,
        };
        proof {
            let name = v.name;
            assert(sums@.contains_key(name) <==> side_values(name, cv, cv.len() as int).len() > 0);
            assert(side_values(name, cv, cv.len() as int).len() == spef::sides(
                name,
                cv,
                cv.len() as int,
            ).len());
        }
        if let Some(cc) = found {
            let left: N = nets[i].cap_ff.minus(k.times(cc));
            let cap: N = number::greater_of(number::zero_of(), left);
            nets[i].cap_ff = cap;
        }
        assert(nets@[i as int]@ == shielded(all[i as int], cv, k));
    }
    assert(rc::parasitics_view(nets@) == shielded_all(all, cv, k));
    nets
}

/// The networks among outcomes.
pub fn built_all<N: Real>(outcomes: Vec<Outcome<N>>) -> (r: Vec<Option<RcNetwork<N>>>)
    ensures
        spef::trees_view(r@) == networks(outcomes_view(outcomes@)),
{
    let ghost ov = outcomes_view(outcomes@);
    let mut out: Vec<Option<RcNetwork<N>>> = Vec::new();
    assert(spef::trees_view(out@) == networks(ov).take(0));
    for o in it: outcomes
        invariant
            it.seq() == outcomes@,
            ov == outcomes_view(outcomes@),
            spef::trees_view(out@) == networks(ov).take(it.index()),
    {
        let ghost before = spef::trees_view(out@);
        assert(o@ == ov[it.index()]);
        out.push(o.built());
        assert(spef::trees_view(out@) == before.push(networks(ov)[it.index()]));
    }
    assert(networks(ov).take(ov.len() as int) == networks(ov));
    out
}

/// Extracts the parasitics of a layout.
pub fn extract<N: Real>(inputs: &Inputs<N>) -> (r: Result<Extraction<N>, ExtractError>)
    ensures
        match r {
            Ok(x) => is_extraction(x, *inputs),
            Err(e) => match lumped_all(
                geom::nets_view(inputs.def.nets@),
                inputs.rules@,
                inputs.lef.widths@,
            ) {
                Err(m) => e matches ExtractError::Parse(t) && t@ == m,
                Ok(_) => false,
            },
        },
{
    let nets = &inputs.def.nets;
    let rules = &inputs.rules;
    let widths = &inputs.lef.widths;
    match lump_all(nets, rules, widths) {
        Err(e) => Err(e),
        Ok(lumped) => {
            let trees = built_all(network_all(nets, rules, widths, &inputs.lef.vias));
            let couplings = coupling::couple(
                nets,
                rules,
                widths,
                &inputs.lef.thicknesses,
                &inputs.def.rails,
                inputs.max_pairs,
            ).caps;
            let nets = shield(lumped, &couplings, rules.shield_k);
            Ok(Extraction { nets, trees, couplings })
        },
    }
}

/// Whether a text is the SPEF of an extraction of the inputs: its nets, its networks and
/// its couplings, with nothing known of the pins.
pub open spec fn is_run<N: Real>(s: Seq<char>, design: Seq<char>, inputs: Inputs<N>) -> bool {
    exists|x: Extraction<N>| #[trigger]
        is_extraction(x, inputs) && s == spef::document(
            design,
            spef::default_units(),
            None,
            rc::parasitics_view(x.nets@),
            spef::trees_view(x.trees@),
            coupling::caps_view(x.couplings@),
            None,
        )
}

/// Extracts a layout and writes it as SPEF.
pub fn run_to_spef<N: Real>(design: &str, inputs: &Inputs<N>) -> (r: Result<String, ExtractError>)
    ensures
        match r {
            Ok(s) => is_run(s@, design@, *inputs),
            Err(e) => match lumped_all(
                geom::nets_view(inputs.def.nets@),
                inputs.rules@,
                inputs.lef.widths@,
            ) {
                Err(m) => e matches ExtractError::Parse(t) && t@ == m,
                Ok(_) => false,
            },
        },
{
    match extract(inputs) {
        Err(e) => Err(e),
        Ok(x) => {
            proof {
                extracted_networks_are_sound(x, *inputs);
            }
            let units = Units::default();
            let s = spef::render_distributed(
                design,
                &units,
                None,
                &x.nets,
                &x.trees,
                &x.couplings,
                None,
            );
            assert(is_extraction(x, *inputs));
            Ok(s)
        },
    }
}

/// The networks of an extraction can be written.
pub proof fn extracted_networks_are_sound<N: Real>(x: Extraction<N>, i: Inputs<N>)
    requires
        is_extraction(x, i),
    ensures
        spef::sound_networks(spef::trees_view(x.trees@)),
{
    let nets = geom::nets_view(i.def.nets@);
    let via_layers = tree::named_layers(i.lef.vias@);
    let o = outcomes(nets, i.rules@, i.lef.widths@, via_layers);
    let trees = spef::trees_view(x.trees@);
    assert forall|k: int| 0 <= k < trees.len() implies ((#[trigger] trees[k]) matches Some(t)
        ==> graph::within(tree::ends(t.edges), t.nodes.len() as int)) by {
        assert(trees[k] == networks(o)[k]);
        drawn::a_network_hangs_together(nets[k], i.rules@, i.lef.widths@, via_layers);
    }
}

/// Every net of an extraction is written as one network: resistors of its
/// record lead from any node with a grounded capacitance to any other.
pub proof fn every_extracted_net_is_one_network<N: Real>(
    x: Extraction<N>,
    inputs: Inputs<N>,
    n: int,
    i: int,
    j: int,
)
    requires
        is_extraction(x, inputs),
        ({
            let nets = rc::parasitics_view(x.nets@);
            let g = spef::grounded_lines(
                spef::name_map(nets),
                nets,
                spef::trees_view(x.trees@),
                n,
            );
            0 <= n < nets.len() && 0 <= i < g.len() && 0 <= j < g.len()
        }),
    ensures
        ({
            let nets = rc::parasitics_view(x.nets@);
            let trees = spef::trees_view(x.trees@);
            let g = spef::grounded_lines(spef::name_map(nets), nets, trees, n);
            spef::hangs(spef::res_lines(spef::name_map(nets), nets, trees, n), g[i].0, g[j].0)
        }),
{
    let nets = geom::nets_view(inputs.def.nets@);
    let via_layers = tree::named_layers(inputs.lef.vias@);
    let o = outcomes(nets, inputs.rules@, inputs.lef.widths@, via_layers);
    let trees = spef::trees_view(x.trees@);
    if spef::has_tree(trees, n) {
        assert(trees[n] == networks(o)[n]);
        drawn::a_network_hangs_together(nets[n], inputs.rules@, inputs.lef.widths@, via_layers);
    }
    spef::every_net_is_one_network(rc::parasitics_view(x.nets@), trees, n, i, j);
}

/// Every net of an extraction is written whole: where arithmetic is exact, the
/// grounded capacitances of its record sum to its capacitance, and the
/// resistances to its resistance where it has any to write.
pub proof fn every_extracted_net_is_written_whole<N: Real>(
    x: Extraction<N>,
    inputs: Inputs<N>,
    n: int,
)
    requires
        balance::exact::<N>(),
        is_extraction(x, inputs),
        0 <= n < rc::parasitics_view(x.nets@).len(),
    ensures
        ({
            let nets = rc::parasitics_view(x.nets@);
            let trees = spef::trees_view(x.trees@);
            let names = spef::name_map(nets);
            let grounded = balance::values(spef::grounded_lines(names, nets, trees, n));
            let series = balance::values(spef::res_lines(names, nets, trees, n));
            let resists = if spef::has_tree(trees, n) {
                number::positive((trees[n]->0).raw_res)
            } else {
                number::positive(nets[n].res)
            };
            &&& number::total(grounded) == nets[n].cap
            &&& resists ==> number::total(series) == nets[n].res
        }),
{
    let nets = geom::nets_view(inputs.def.nets@);
    let via_layers = tree::named_layers(inputs.lef.vias@);
    let o = outcomes(nets, inputs.rules@, inputs.lef.widths@, via_layers);
    let trees = spef::trees_view(x.trees@);
    if spef::has_tree(trees, n) {
        assert(trees[n] == networks(o)[n]);
        balance::a_built_network_is_tallied(
            nets[n],
            inputs.rules@,
            inputs.lef.widths@,
            via_layers,
        );
    }
    balance::a_record_makes_up_its_net(rc::parasitics_view(x.nets@), trees, n);
}

/// Every net of an extraction in decimal fixed point is written whole but for what
/// rounding leaves out: less than a billionth for each line, and a billionth of what
/// its network sums to by itself. This holds where the wire of the net and the
/// factors that bring its network to the net can be held, and no value is below zero.
pub proof fn every_fixed_net_is_written_whole(
    x: Extraction<Fixed>,
    inputs: Inputs<Fixed>,
    n: int,
)
    requires
        is_extraction(x, inputs),
        0 <= n < rc::parasitics_view(x.nets@).len(),
        ({
            let net = rc::parasitics_view(x.nets@)[n];
            let trees = spef::trees_view(x.trees@);
            &&& 0 <= net.cap.nano
            &&& 0 <= net.res.nano
            &&& spef::has_tree(trees, n) ==> {
                let t = trees[n]->0;
                &&& cutting::net_fits(
                    geom::nets_view(inputs.def.nets@)[n],
                    inputs.rules@,
                    inputs.lef.widths@,
                )
                &&& t.raw_res.nano < i64::MAX
                &&& spef::scale(net.cap, t.raw_cap).nano < i64::MAX
                &&& spef::scale(net.res, t.raw_res).nano < i64::MAX
            }
            &&& !spef::has_tree(trees, n) ==> net.pins.len() * 1_000_000_000 <= i64::MAX
        }),
    ensures
        ({
            let nets = rc::parasitics_view(x.nets@);
            let trees = spef::trees_view(x.trees@);
            let names = spef::name_map(nets);
            let grounded = balance::values(spef::grounded_lines(names, nets, trees, n));
            let series = balance::values(spef::res_lines(names, nets, trees, n));
            let resists = if spef::has_tree(trees, n) {
                number::positive((trees[n]->0).raw_res)
            } else {
                number::positive(nets[n].res)
            };
            &&& rounding::nearly(
                number::total(grounded),
                nets[n].cap,
                grounded.len() as int,
                rounding::own_cap(trees, n),
            )
            &&& resists ==> rounding::nearly(
                number::total(series),
                nets[n].res,
                series.len() as int,
                rounding::own_res(trees, n),
            )
        }),
{
    let nets = geom::nets_view(inputs.def.nets@);
    let via_layers = tree::named_layers(inputs.lef.vias@);
    let (rules, widths) = (inputs.rules@, inputs.lef.widths@);
    let o = outcomes(nets, rules, widths, via_layers);
    let trees = spef::trees_view(x.trees@);
    let net = rc::parasitics_view(x.nets@)[n];
    if spef::has_tree(trees, n) {
        assert(trees[n] == networks(o)[n]);
        let t = trees[n]->0;
        balance::a_built_network_is_tallied(nets[n], rules, widths, via_layers);
        let _ = cutting::a_fixed_network_carries_its_net(nets[n], rules, widths, via_layers);
        rounding::a_factor_that_is_held(balance::node_caps(t), net.cap);
        rounding::a_factor_that_is_held(tree::ohms(t.edges), net.res);
    }
    rounding::a_fixed_record_makes_up_its_net(rc::parasitics_view(x.nets@), trees, n);
}

/// Whether every segment of a net is on a layer that the deck has a rule for.
pub open spec fn is_ruled<N: Real>(net: NetView, rules: RulesView<N>) -> bool {
    forall|k: int|
        0 <= k < net.segments.len() ==> rules.layers.contains_key(
            (#[trigger] net.segments[k]).layer,
        )
}

/// A layer without a rule is never extracted in silence: extraction fails just
/// where a net is routed on such a layer.
pub proof fn a_layer_without_rule_is_an_error<N: Real>(
    nets: Seq<NetView>,
    rules: RulesView<N>,
    widths: Map<Seq<char>, N>,
)
    ensures
        lumped_all(nets, rules, widths) is Err <==> exists|i: int|
            0 <= i < nets.len() && !is_ruled(#[trigger] nets[i], rules),
{
    lemma_lumped_ruled(nets, rules, widths, nets.len() as int);
}

proof fn lemma_lumped_ruled<N: Real>(
    nets: Seq<NetView>,
    rules: RulesView<N>,
    widths: Map<Seq<char>, N>,
    n: int,
)
    requires
        0 <= n <= nets.len(),
    ensures
        lumped_upto(nets, rules, widths, n) is Err <==> exists|i: int|
            0 <= i < n && !is_ruled(#[trigger] nets[i], rules),
    decreases n,
{
    if n > 0 {
        lemma_lumped_ruled(nets, rules, widths, n - 1);
        lemma_unruled(nets[n - 1].segments, 0, rules);
        if !is_ruled(nets[n - 1], rules) {
            assert(0 <= n - 1 < n && !is_ruled(nets[n - 1], rules));
        }
        if exists|i: int| 0 <= i < n && !is_ruled(#[trigger] nets[i], rules) {
            let i = choose|i: int| 0 <= i < n && !is_ruled(#[trigger] nets[i], rules);
            if i < n - 1 {
                assert(0 <= i < n - 1 && !is_ruled(nets[i], rules));
            }
        }
    }
}

proof fn lemma_unruled<N: Real>(s: Seq<SegmentView>, i: int, rules: RulesView<N>)
    requires
        0 <= i <= s.len(),
    ensures
        rc::unruled(s, i, rules) is None <==> forall|k: int|
            i <= k < s.len() ==> rules.layers.contains_key((#[trigger] s[k]).layer),
    decreases s.len() - i,
{
    if i < s.len() {
        lemma_unruled(s, i + 1, rules);
        if !rules.layers.contains_key(s[i].layer) {
            assert(i <= i < s.len() && !rules.layers.contains_key(s[i].layer));
        }
    }
}

/// Shielding takes charge from ground only: the resistances, the pins and the
/// names of the nets stay, and a net without coupling keeps its capacitance.
pub proof fn shielding_moves_only_grounded_charge<N: Real>(
    nets: Seq<ParasiticsView<N>>,
    caps: Seq<CapView<N>>,
    k: N,
    i: int,
)
    requires
        0 <= i < nets.len(),
    ensures
        shielded_all(nets, caps, k).len() == nets.len(),
        shielded_all(nets, caps, k)[i] == (ParasiticsView {
            cap: shielded_all(nets, caps, k)[i].cap,
            ..nets[i]
        }),
        spef::sides(nets[i].name, caps, caps.len() as int).len() == 0 ==> shielded_all(
            nets,
            caps,
            k,
        )[i] == nets[i],
{
}

} // verus!

//! Decks that are derived from a technology, and what a deck lacks.
//!
//! A tech LEF describes the metal stack, often with the resistance and the
//! capacitance of each layer. Where it is geometry only, an OpenRCX capacitance
//! table has the numbers.
use crate::number;
use crate::number::Real;
use crate::rules;
use crate::rules::{LayerRc, RcRules, RulesView};
use crate::strmap;
use crate::strmap::StrMap;
use crate::text;
use std::collections::HashMap;
use vstd::prelude::*;

verus! {

broadcast use vstd::std_specs::hash::group_hash_axioms;

/// A layer of a tech LEF: whether wires run on it, its width (um), its sheet
/// resistance (ohm/square), its area (pF/um^2) and edge (pF/um) capacitance,
/// and the resistance (ohm) of one cut.
#[derive(Clone, Copy, Debug)]
pub struct TechLayer<N: Real> {
    pub routing: bool,
    pub width_um: N,
    pub rpersq: N,
    pub cpersqdist: N,
    pub edge_cap: N,
    pub cut_res: N,
}

/// A tech LEF: its layers, and the routing layers from the lowest up.
#[derive(Debug)]
pub struct TechLef<N: Real> {
    pub layers: StrMap<TechLayer<N>>,
    pub routing_order: Vec<String>,
}

/// Whether a layer has no resistance: neither per length nor by the square.
pub open spec fn lacks_res<N: Real>(r: RulesView<N>, layer: Seq<char>) -> bool {
    &&& r.layers[layer].res_per_um.spec_same(number::zero())
    &&& r.rsheet.contains_key(layer) ==> r.rsheet[layer].spec_same(number::zero())
}

/// Whether a layer has no grounded capacitance.
pub open spec fn lacks_cap<N: Real>(r: RulesView<N>, layer: Seq<char>) -> bool {
    r.layers[layer].cap_per_um.spec_same(number::zero())
}

/// Those of the first `n` names that lack resistance.
pub open spec fn without_res<N: Real>(r: RulesView<N>, names: Seq<Seq<char>>, n: int) -> Seq<
    Seq<char>,
>
    decreases n,
{
    if n <= 0 {
        Seq::empty()
    } else if lacks_res(r, names[n - 1]) {
        without_res(r, names, n - 1).push(names[n - 1])
    } else {
        without_res(r, names, n - 1)
    }
}

/// Those of the first `n` names that lack capacitance.
pub open spec fn without_cap<N: Real>(r: RulesView<N>, names: Seq<Seq<char>>, n: int) -> Seq<
    Seq<char>,
>
    decreases n,
{
    if n <= 0 {
        Seq::empty()
    } else if lacks_cap(r, names[n - 1]) {
        without_cap(r, names, n - 1).push(names[n - 1])
    } else {
        without_cap(r, names, n - 1)
    }
}

/// The layers of a deck that lack resistance, in the order of their names.
pub open spec fn no_res<N: Real>(r: RulesView<N>) -> Seq<Seq<char>> {
    without_res(r, strmap::walk(r.layers), strmap::walk(r.layers).len() as int)
}

/// The layers of a deck that lack capacitance, in the order of their names.
pub open spec fn no_cap<N: Real>(r: RulesView<N>) -> Seq<Seq<char>> {
    without_cap(r, strmap::walk(r.layers), strmap::walk(r.layers).len() as int)
}

/// The layers that are named for want of resistance or of capacitance are
/// those that lack it.
pub proof fn every_gap_is_named<N: Real>(r: RulesView<N>, name: Seq<char>)
    requires
        strmap::walks(strmap::walk(r.layers), r.layers),
    ensures
        no_res(r).contains(name) <==> r.layers.contains_key(name) && lacks_res(r, name),
        no_cap(r).contains(name) <==> r.layers.contains_key(name) && lacks_cap(r, name),
{
    let names = strmap::walk(r.layers);
    lemma_gaps(r, names, names.len() as int, name);
    if r.layers.contains_key(name) {
        assert(names.contains(name));
        assert(names[names.index_of(name)] == name);
    }
    if exists|i: int| 0 <= i < names.len() && #[trigger] names[i] == name {
        assert(names.contains(name));
    }
}

proof fn lemma_gaps<N: Real>(r: RulesView<N>, names: Seq<Seq<char>>, n: int, name: Seq<char>)
    requires
        0 <= n <= names.len(),
    ensures
        without_res(r, names, n).contains(name) <==> lacks_res(r, name) && exists|i: int|
            0 <= i < n && #[trigger] names[i] == name,
        without_cap(r, names, n).contains(name) <==> lacks_cap(r, name) && exists|i: int|
            0 <= i < n && #[trigger] names[i] == name,
    decreases n,
{
    if n > 0 {
        lemma_gaps(r, names, n - 1, name);
        lemma_pushed(without_res(r, names, n - 1), names[n - 1], name);
        lemma_pushed(without_cap(r, names, n - 1), names[n - 1], name);
        if names[n - 1] == name {
            assert(0 <= n - 1 < n && names[n - 1] == name);
        }
        if exists|i: int| 0 <= i < n && #[trigger] names[i] == name {
            let i = choose|i: int| 0 <= i < n && #[trigger] names[i] == name;
            if i < n - 1 {
                assert(0 <= i < n - 1 && names[i] == name);
            }
        }
    }
}

proof fn lemma_pushed(s: Seq<Seq<char>>, x: Seq<char>, k: Seq<char>)
    ensures
        s.push(x).contains(k) <==> s.contains(k) || k == x,
{
    if s.contains(k) {
        assert(s.push(x)[s.index_of(k)] == k);
    }
    assert(s.push(x)[s.len() as int] == x);
    if s.push(x).contains(k) && k != x {
        assert(s[s.push(x).index_of(k)] == k);
    }
}

/// The width (um) that a layer's capacitance is taken at.
pub open spec fn cap_width<N: Real>(l: TechLayer<N>) -> N {
    if number::positive(l.width_um) {
        l.width_um
    } else {
        N::spec_count(1)
    }
}

/// The grounded capacitance (fF/um) of a layer: that of its area at its width
/// and of its two edges, from picofarads.
pub open spec fn tech_cap<N: Real>(l: TechLayer<N>) -> N {
    l.cpersqdist.spec_times(cap_width(l)).spec_plus(
        N::spec_count(2).spec_times(l.edge_cap),
    ).spec_times(N::spec_count(1000))
}

/// The rule of a routing layer.
pub open spec fn tech_rule<N: Real>(l: TechLayer<N>) -> LayerRc<N> {
    LayerRc {
        res_per_um: l.rpersq,
        cap_per_um: tech_cap(l),
        coupling_per_um: number::zero(),
        s_ref: number::zero(),
    }
}

/// The positive cut resistances of those of the first `n` layers that carry no
/// wires, ascending.
pub open spec fn cuts<N: Real>(
    m: Map<Seq<char>, TechLayer<N>>,
    names: Seq<Seq<char>>,
    n: int,
) -> Seq<(N, ())>
    decreases n,
{
    if n <= 0 {
        Seq::empty()
    } else {
        let l = m[names[n - 1]];
        if !l.routing && number::positive(l.cut_res) {
            number::insert_ranked(cuts(m, names, n - 1), (l.cut_res, ()))
        } else {
            cuts(m, names, n - 1)
        }
    }
}

/// The middle one of ascending values, the upper of two.
pub open spec fn median<N: Real>(s: Seq<(N, ())>) -> N {
    if s.len() == 0 {
        number::zero()
    } else {
        s[s.len() as int / 2].0
    }
}

/// The rules of the routing layers among the first `n`.
pub open spec fn tech_layers<N: Real>(
    m: Map<Seq<char>, TechLayer<N>>,
    names: Seq<Seq<char>>,
    n: int,
) -> Map<Seq<char>, LayerRc<N>>
    decreases n,
{
    if n <= 0 {
        Map::empty()
    } else if m[names[n - 1]].routing {
        tech_layers(m, names, n - 1).insert(names[n - 1], tech_rule(m[names[n - 1]]))
    } else {
        tech_layers(m, names, n - 1)
    }
}

/// The sheet resistances of the routing layers among the first `n`.
pub open spec fn tech_sheets<N: Real>(
    m: Map<Seq<char>, TechLayer<N>>,
    names: Seq<Seq<char>>,
    n: int,
) -> Map<Seq<char>, N>
    decreases n,
{
    if n <= 0 {
        Map::empty()
    } else {
        let l = m[names[n - 1]];
        if l.routing && number::positive(l.rpersq) {
            tech_sheets(m, names, n - 1).insert(names[n - 1], l.rpersq)
        } else {
            tech_sheets(m, names, n - 1)
        }
    }
}

/// The deck of a tech LEF: a rule and a sheet resistance for every routing
/// layer, and the median of the cut resistances for a via.
pub open spec fn of_tech<N: Real>(m: Map<Seq<char>, TechLayer<N>>) -> RulesView<N> {
    let names = strmap::walk(m);
    let n = names.len() as int;
    RulesView {
        layers: tech_layers(m, names, n),
        rsheet: tech_sheets(m, names, n),
        via_res: median(cuts(m, names, n)),
        ..rules::no_rules()
    }
}

/// Every routing layer of a tech LEF has a rule in its deck, and nothing else
/// has.
pub proof fn the_stack_is_discovered<N: Real>(m: Map<Seq<char>, TechLayer<N>>, name: Seq<char>)
    requires
        strmap::walks(strmap::walk(m), m),
    ensures
        of_tech(m).layers.contains_key(name) <==> m.contains_key(name) && m[name].routing,
        m.contains_key(name) && m[name].routing ==> of_tech(m).layers[name] == tech_rule(m[name]),
        of_tech(m).rsheet.contains_key(name) <==> m.contains_key(name) && m[name].routing
            && number::positive(m[name].rpersq),
{
    let names = strmap::walk(m);
    lemma_stack(m, names, names.len() as int, name);
    if m.contains_key(name) {
        assert(names.contains(name));
        let i = names.index_of(name);
        assert(names[i] == name);
    }
    if exists|i: int| 0 <= i < names.len() && #[trigger] names[i] == name {
        assert(names.contains(name));
    }
}

proof fn lemma_stack<N: Real>(
    m: Map<Seq<char>, TechLayer<N>>,
    names: Seq<Seq<char>>,
    n: int,
    name: Seq<char>,
)
    requires
        0 <= n <= names.len(),
    ensures
        tech_layers(m, names, n).contains_key(name) <==> m[name].routing && exists|i: int|
            0 <= i < n && #[trigger] names[i] == name,
        tech_layers(m, names, n).contains_key(name) ==> tech_layers(m, names, n)[name]
            == tech_rule(m[name]),
        tech_sheets(m, names, n).contains_key(name) <==> m[name].routing && number::positive(
            m[name].rpersq,
        ) && exists|i: int| 0 <= i < n && #[trigger] names[i] == name,
    decreases n,
{
    if n > 0 {
        lemma_stack(m, names, n - 1, name);
        if names[n - 1] == name {
            assert(0 <= n - 1 < n && names[n - 1] == name);
        }
        if exists|i: int| 0 <= i < n && #[trigger] names[i] == name {
            let i = choose|i: int| 0 <= i < n && #[trigger] names[i] == name;
            if i < n - 1 {
                assert(0 <= i < n - 1 && names[i] == name);
            }
        }
    }
}

/// What a block of a capacitance table gives.
#[derive(Clone, Copy, Debug, PartialEq, Eq, Structural)]
pub enum Kind {
    Resistance,
    Over,
    Under,
}

/// What has been read of a capacitance table: per metal, counted from one at
/// the bottom of the stack, the first resistance and the first capacitances
/// over and under it; the block that is being read; whether its value was
/// taken.
#[verifier::ext_equal]
pub struct TableView<N: Real> {
    pub res: Map<usize, N>,
    pub over: Map<usize, N>,
    pub under: Map<usize, N>,
    pub block: Option<(usize, Kind)>,
    pub taken: bool,
}

/// The index that a word spells: decimal digits, after a plus sign or not.
pub open spec fn index_value(s: Seq<char>) -> Option<usize> {
    let d = if s.len() > 0 && s[0] == '+' {
        s.drop_first()
    } else {
        s
    };
    if text::is_digits(d) && text::digits_value(d) <= usize::MAX {
        Some(text::digits_value(d) as usize)
    } else {
        None
    }
}

/// The block that a header opens: of resistance or of capacitance over the
/// substrate, in the context `0` only; of capacitance under a metal, only the
/// first of the metal.
pub open spec fn opened<N: Real>(c: TableView<N>, t: Seq<Seq<char>>, k: usize) -> Option<
    (usize, Kind),
> {
    if t[2] == "RESOVER"@ && t[3] == "0"@ {
        Some((k, Kind::Resistance))
    } else if t[2] == "OVER"@ && t[3] == "0"@ {
        Some((k, Kind::Over))
    } else if t[2] == "UNDER"@ && !c.under.contains_key(k) {
        Some((k, Kind::Under))
    } else {
        None
    }
}

/// The map with a value for a key that has none yet.
pub open spec fn or_insert<N: Real>(m: Map<usize, N>, k: usize, v: N) -> Map<usize, N> {
    if m.contains_key(k) {
        m
    } else {
        m.insert(k, v)
    }
}

/// The table after a line with the words `t`: a header `Metal k KIND CONTEXT`
/// opens or closes a block; the first row of four words in an open block that
/// ends in a number gives the block's value.
pub open spec fn table_line<N: Real>(c: TableView<N>, t: Seq<Seq<char>>) -> TableView<N> {
    if t.len() >= 4 && t[0] == "Metal"@ && index_value(t[1]) is Some {
        TableView { block: opened(c, t, index_value(t[1])->0), taken: false, ..c }
    } else if c.block is Some && !c.taken && t.len() == 4 && N::spec_parse(t[3]) is Some {
        let (k, kind) = c.block->0;
        let v = N::spec_parse(t[3])->0;
        match kind {
            Kind::Resistance => TableView { res: or_insert(c.res, k, v), taken: true, ..c },
            Kind::Over => TableView { over: or_insert(c.over, k, v), taken: true, ..c },
            Kind::Under => TableView { under: or_insert(c.under, k, v), taken: true, ..c },
        }
    } else {
        c
    }
}

/// The table of the first `n` lines.
pub open spec fn table_upto<N: Real>(lines: Seq<Seq<char>>, n: int) -> TableView<N>
    decreases n,
{
    if n <= 0 {
        TableView {
            res: Map::empty(),
            over: Map::empty(),
            under: Map::empty(),
            block: None,
            taken: false,
        }
    } else {
        table_line(table_upto(lines, n - 1), text::words(lines[n - 1]))
    }
}

/// The value of a metal, or zero.
pub open spec fn or_zero<N: Real>(m: Map<usize, N>, k: usize) -> N {
    if m.contains_key(k) {
        m[k]
    } else {
        number::zero()
    }
}

/// The rule of a metal: ohm/um from ohm/nm, and the two capacitances together.
pub open spec fn metal_rule<N: Real>(c: TableView<N>, k: usize) -> LayerRc<N> {
    LayerRc {
        res_per_um: c.res[k].spec_times(N::spec_count(1000)),
        cap_per_um: or_zero(c.over, k).spec_plus(or_zero(c.under, k)),
        coupling_per_um: number::zero(),
        s_ref: number::zero(),
    }
}

/// The rules of the lowest `n` metals of a stack that have a resistance.
pub open spec fn metals<N: Real>(c: TableView<N>, order: Seq<Seq<char>>, n: int) -> Map<
    Seq<char>,
    LayerRc<N>,
>
    decreases n,
{
    if n <= 0 {
        Map::empty()
    } else if c.res.contains_key(n as usize) {
        metals(c, order, n - 1).insert(order[n - 1], metal_rule(c, n as usize))
    } else {
        metals(c, order, n - 1)
    }
}

/// The deck of a capacitance table over a stack of layers.
pub open spec fn of_table<N: Real>(order: Seq<Seq<char>>, source: Seq<char>) -> RulesView<N> {
    let lines = text::lines(source);
    RulesView {
        layers: metals(table_upto(lines, lines.len() as int), order, order.len() as int),
        ..rules::no_rules()
    }
}

/// Whether a layer of a deck lacks one of its two per-length coefficients.
pub open spec fn wants_table<N: Real>(r: RulesView<N>) -> bool {
    exists|k: Seq<char>| #[trigger]
        r.layers.contains_key(k) && (r.layers[k].res_per_um.spec_same(number::zero())
            || r.layers[k].cap_per_um.spec_same(number::zero()))
}

/// The value, or where it is zero another one.
pub open spec fn or_else<N: Real>(v: N, other: N) -> N {
    if v.spec_same(number::zero()) {
        other
    } else {
        v
    }
}

/// The coefficients of a layer with what they lack taken from another rule.
pub open spec fn filled<N: Real>(l: LayerRc<N>, c: LayerRc<N>) -> LayerRc<N> {
    LayerRc {
        res_per_um: or_else(l.res_per_um, c.res_per_um),
        cap_per_um: or_else(l.cap_per_um, c.cap_per_um),
        ..l
    }
}

/// A deck with what it lacks taken from another one.
pub open spec fn completed<N: Real>(r: RulesView<N>, c: RulesView<N>) -> RulesView<N> {
    RulesView {
        layers: Map::new(
            |k: Seq<char>| r.layers.contains_key(k) || c.layers.contains_key(k),
            |k: Seq<char>|
                if !c.layers.contains_key(k) {
                    r.layers[k]
                } else if r.layers.contains_key(k) {
                    filled(r.layers[k], c.layers[k])
                } else {
                    filled(c.layers[k], c.layers[k])
                },
        ),
        rsheet: c.rsheet.union_prefer_right(r.rsheet),
        via_res: or_else(r.via_res, c.via_res),
        ..r
    }
}

/// A deck that another one completes keeps every coefficient that it had.
pub proof fn completing_keeps_what_is_there<N: Real>(
    r: RulesView<N>,
    c: RulesView<N>,
    name: Seq<char>,
)
    requires
        r.layers.contains_key(name),
    ensures
        completed(r, c).layers.contains_key(name),
        !r.layers[name].res_per_um.spec_same(number::zero()) ==> completed(
            r,
            c,
        ).layers[name].res_per_um == r.layers[name].res_per_um,
        !r.layers[name].cap_per_um.spec_same(number::zero()) ==> completed(
            r,
            c,
        ).layers[name].cap_per_um == r.layers[name].cap_per_um,
        r.rsheet.contains_key(name) ==> completed(r, c).rsheet[name] == r.rsheet[name],
{
}

fn is_zero<N: Real>(v: N) -> (r: bool)
    ensures
        r == v.spec_same(number::zero()),
{
    v.same(number::zero_of())
}

fn filled_of<N: Real>(l: LayerRc<N>, c: LayerRc<N>) -> (r: LayerRc<N>)
    ensures
        r == filled(l, c),
{
    let mut out = l;
    if is_zero(out.res_per_um) {
        out.res_per_um = c.res_per_um;
    }
    if is_zero(out.cap_per_um) {
        out.cap_per_um = c.cap_per_um;
    }
    out
}

pub fn index_of(v: &Vec<char>) -> (r: Option<usize>)
    ensures
        r == index_value(v@),
{
    let parsed: Option<u64> = if v.len() > 0 && v[0] == '+' {
        let rest = text::part(v, 1, v.len());
        assert(rest@ == v@.drop_first());
        text::parse_digits(&rest)
    } else {
        text::parse_digits(v)
    };
    match parsed {
        Some(n) => if n <= usize::MAX as u64 {
            Some(n as usize)
        } else {
            None
        },
        None => None,
    }
}

/// What has been read of a capacitance table.
struct Table<N: Real> {
    res: HashMap<usize, N>,
    over: HashMap<usize, N>,
    under: HashMap<usize, N>,
    block: Option<(usize, Kind)>,
    taken: bool,
}

impl<N: Real> View for Table<N> {
    type V = TableView<N>;

    closed spec fn view(&self) -> TableView<N> {
        TableView {
            res: self.res@,
            over: self.over@,
            under: self.under@,
            block: self.block,
            taken: self.taken,
        }
    }
}

fn insert_first<N: Real>(m: &mut HashMap<usize, N>, k: usize, v: N)
    ensures
        final(m)@ == or_insert(old(m)@, k, v),
{
    if !m.contains_key(&k) {
        m.insert(k, v);
    }
}

fn value_or_zero<N: Real>(m: &HashMap<usize, N>, k: usize) -> (r: N)
    ensures
        r == or_zero(m@, k),
{
    match m.get(&k) {
        Some(v) => *v,
        None => number::zero_of(),
    }
}

impl<N: Real> Table<N> {
    fn line(&mut self, t: &Vec<Vec<char>>)
        ensures
            final(self)@ == table_line(old(self)@, text::seqs(t@)),
    {
        let ghost tv = text::seqs(t@);
        if t.len() >= 4 && text::is_text(&t[0], "Metal") {
            assert(tv[0] == t@[0]@ && tv[1] == t@[1]@ && tv[2] == t@[2]@ && tv[3] == t@[3]@);
            if let Some(k) = index_of(&t[1]) {
                let base: bool = text::is_text(&t[3], "0");
                self.block = if text::is_text(&t[2], "RESOVER") && base {
                    Some((k, Kind::Resistance))
                } else if text::is_text(&t[2], "OVER") && base {
                    Some((k, Kind::Over))
                } else if text::is_text(&t[2], "UNDER") && !self.under.contains_key(&k) {
                    Some((k, Kind::Under))
                } else {
                    None
                };
                self.taken = false;
                return;
            }
        }
        if let Some((k, kind)) = self.block {
            if !self.taken && t.len() == 4 {
                assert(tv[0] == t@[0]@ && tv[1] == t@[1]@ && tv[2] == t@[2]@ && tv[3] == t@[3]@);
                if let Some(v) = N::parse(&t[3]) {
                    match kind {
                        Kind::Resistance => insert_first(&mut self.res, k, v),
                        Kind::Over => insert_first(&mut self.over, k, v),
                        Kind::Under => insert_first(&mut self.under, k, v),
                    }
                    self.taken = true;
                }
            }
        }
    }

    fn read(source: &str) -> (r: Self)
        ensures
            r@ == table_upto::<N>(text::lines(source@), text::lines(source@).len() as int),
    {
        let lines = text::split_lines(&text::chars_of(source));
        let ghost lv = text::seqs(lines@);
        let mut out = Table {
            res: HashMap::new(),
            over: HashMap::new(),
            under: HashMap::new(),
            block: None,
            taken: false,
        };
        assert(out@ == table_upto::<N>(lv, 0));
        for i in 0..lines.len()
            invariant
                lv == text::seqs(lines@),
                lv == text::lines(source@),
                out@ == table_upto::<N>(lv, i as int),
        {
            assert(lv[i as int] == lines@[i as int]@);
            out.line(&text::split_words(&lines[i]));
        }
        out
    }
}

impl<N: Real> RcRules<N> {
    /// The layers without resistance and the layers without capacitance, each
    /// in the order of their names. A layer with a sheet resistance that is not
    /// zero has resistance.
    pub fn incomplete(&self) -> (r: (Vec<String>, Vec<String>))
        ensures
            text::texts(r.0@) == no_res(self@),
            text::texts(r.1@) == no_cap(self@),
    {
        let ghost v = self@;
        let ghost names = strmap::walk(v.layers);
        let mut no_r: Vec<String> = Vec::new();
        let mut no_c: Vec<String> = Vec::new();
        let n: usize = self.layers.len();
        assert(text::texts(no_r@) == Seq::<Seq<char>>::empty());
        assert(text::texts(no_c@) == Seq::<Seq<char>>::empty());
        for i in 0..n
            invariant
                v == self@,
                names == strmap::walk(v.layers),
                names == self.layers.keys(),
                n == names.len(),
                text::texts(no_r@) == without_res(v, names, i as int),
                text::texts(no_c@) == without_cap(v, names, i as int),
        {
            let name = self.layers.key_at(i);
            let l = self.layers.value_at(i);
            let sheet: bool = match self.rsheet.get_chars(name) {
                Some(rs) => !is_zero(*rs),
                None => false,
            };
            if is_zero(l.res_per_um) && !sheet {
                let ghost before = text::texts(no_r@);
                no_r.push(text::string_of(name));
                assert(text::texts(no_r@) == before.push(name@));
            }
            if is_zero(l.cap_per_um) {
                let ghost before = text::texts(no_c@);
                no_c.push(text::string_of(name));
                assert(text::texts(no_c@) == before.push(name@));
            }
        }
        (no_r, no_c)
    }

    /// Whether a layer is without resistance or without capacitance.
    pub fn is_incomplete(&self) -> (r: bool)
        ensures
            r == (no_res(self@).len() > 0 || no_cap(self@).len() > 0),
    {
        let (no_r, no_c) = self.incomplete();
        assert(text::texts(no_r@).len() == no_r@.len());
        assert(text::texts(no_c@).len() == no_c@.len());
        no_r.len() > 0 || no_c.len() > 0
    }

    /// The deck of a tech LEF.
    pub fn from_lef(lef: &TechLef<N>) -> (r: Self)
        ensures
            r@ == of_tech(lef.layers@),
            strmap::walks(strmap::walk(lef.layers@), lef.layers@),
    {
        let ghost m = lef.layers@;
        let ghost names = strmap::walk(m);
        let mut out = RcRules::<N>::empty();
        let mut cut: Vec<(N, ())> = Vec::new();
        let n: usize = lef.layers.len();
        assert(cut@ == Seq::<(N, ())>::empty());
        for i in 0..n
            invariant
                m == lef.layers@,
                names == strmap::walk(m),
                names == lef.layers.keys(),
                n == names.len(),
                cut@ == cuts(m, names, i as int),
                out@ == (RulesView {
                    layers: tech_layers(m, names, i as int),
                    rsheet: tech_sheets(m, names, i as int),
                    ..rules::no_rules()
                }),
        {
            let name = lef.layers.key_at(i);
            let l = lef.layers.value_at(i);
            if l.routing {
                let w: N = if number::is_positive(l.width_um) {
                    l.width_um
                } else {
                    N::count(1)
                };
                if number::is_positive(l.rpersq) {
                    out.rsheet.insert_chars(name, l.rpersq);
                }
                let cap_per_um: N = l.cpersqdist.times(w).plus(
                    N::count(2).times(l.edge_cap),
                ).times(N::count(1000));
                out.layers.insert_chars(
                    name,
                    LayerRc {
                        res_per_um: l.rpersq,
                        cap_per_um,
                        coupling_per_um: number::zero_of(),
                        s_ref: number::zero_of(),
                    },
                );
            } else if number::is_positive(l.cut_res) {
                number::place_ranked(&mut cut, (l.cut_res, ()));
            }
        }
        if cut.len() > 0 {
            out.via_res = cut[cut.len() / 2].0;
        }
        out
    }

    /// The deck of an OpenRCX capacitance table, whose metals are numbered from
    /// the bottom of the stack `routing_order`. Only what a lumped deck needs is
    /// read: a resistance, the capacitance over the substrate and that under
    /// the nearest upper metal.
    pub fn from_captable(routing_order: &Vec<String>, rcx: &str) -> (r: Self)
        ensures
            r@ == of_table::<N>(text::texts(routing_order@), rcx@),
    {
        let ghost order = text::texts(routing_order@);
        let c = Table::<N>::read(rcx);
        let mut out = RcRules::<N>::empty();
        for i in 0..routing_order.len()
            invariant
                order == text::texts(routing_order@),
                out@ == (RulesView {
                    layers: metals(c@, order, i as int),
                    ..rules::no_rules()
                }),
        {
            let k: usize = i + 1;
            if let Some(res) = c.res.get(&k) {
                let cap_per_um: N = value_or_zero(&c.over, k).plus(value_or_zero(&c.under, k));
                out.layers.insert(
                    routing_order[i].as_str(),
                    LayerRc {
                        res_per_um: res.times(N::count(1000)),
                        cap_per_um,
                        coupling_per_um: number::zero_of(),
                        s_ref: number::zero_of(),
                    },
                );
            }
        }
        out
    }

    /// Whether the deck wants a capacitance table: a layer has no resistance or
    /// no capacitance per length.
    pub fn wants_captable(&self) -> (r: bool)
        ensures
            r == wants_table(self@),
    {
        let n: usize = self.layers.len();
        for i in 0..n
            invariant
                n == self.layers.keys().len(),
                forall|j: int|
                    #![trigger self.layers.keys()[j]]
                    0 <= j < i ==> !self@.layers[self.layers.keys()[j]].res_per_um.spec_same(
                        number::zero(),
                    ) && !self@.layers[self.layers.keys()[j]].cap_per_um.spec_same(number::zero()),
        {
            let l = self.layers.value_at(i);
            if is_zero(l.res_per_um) || is_zero(l.cap_per_um) {
                assert(self@.layers.contains_key(self.layers.keys()[i as int]));
                return true;
            }
        }
        assert forall|k: Seq<char>| #[trigger] self@.layers.contains_key(k) implies !(
        self@.layers[k].res_per_um.spec_same(number::zero())
            || self@.layers[k].cap_per_um.spec_same(number::zero())) by {
            assert(self.layers.keys().contains(k));
            let j = self.layers.keys().index_of(k);
            assert(self.layers.keys()[j] == k);
        }
        false
    }

    /// Takes what the deck lacks from another one.
    pub fn complete_from(&mut self, other: &RcRules<N>)
        ensures
            final(self)@ == completed(old(self)@, other@),
    {
        let ghost before = self@;
        let ghost c = other@;
        let n: usize = other.layers.len();
        let ghost names = other.layers.keys();
        for i in 0..n
            invariant
                n == names.len(),
                names == other.layers.keys(),
                c == other@,
                strmap::ascending(names),
                self@ == (RulesView { layers: self@.layers, ..before }),
                forall|k: Seq<char>| #[trigger]
                    self@.layers.contains_key(k) <==> before.layers.contains_key(k)
                        || names.take(i as int).contains(k),
                forall|k: Seq<char>| #[trigger]
                    self@.layers.contains_key(k) ==> self@.layers[k] == (if names.take(
                        i as int,
                    ).contains(k) {
                        completed(before, c).layers[k]
                    } else {
                        before.layers[k]
                    }),
        {
            let name = other.layers.key_at(i);
            let l = *other.layers.value_at(i);
            let ghost now = self@.layers;
            proof {
                let t = names.take(i as int);
                if t.contains(name@) {
                    let j = t.index_of(name@);
                    assert(names[j] == name@);
                    text::lemma_text_lt_irreflexive(name@);
                }
                assert(names.take(i + 1) == t.push(name@));
                assert forall|k: Seq<char>| #[trigger]
                    names.take(i + 1).contains(k) <==> t.contains(k) || k == name@ by {
                    lemma_pushed(t, name@, k);
                }
            }
            let e: LayerRc<N> = match self.layers.get_chars(name) {
                Some(e) => *e,
                None => l,
            };
            self.layers.insert_chars(name, filled_of(e, l));
        }
        assert(names.take(n as int) == names);
        assert(self@.layers == completed(before, c).layers);
        let m: usize = other.rsheet.len();
        let ghost sheets = other.rsheet.keys();
        let ghost layers = self@.layers;
        for i in 0..m
            invariant
                m == sheets.len(),
                sheets == other.rsheet.keys(),
                c == other@,
                self@ == (RulesView { layers, rsheet: self@.rsheet, ..before }),
                forall|k: Seq<char>| #[trigger]
                    self@.rsheet.contains_key(k) <==> before.rsheet.contains_key(k) || sheets.take(
                        i as int,
                    ).contains(k),
                forall|k: Seq<char>| #[trigger]
                    self@.rsheet.contains_key(k) ==> self@.rsheet[k] == (
                    if before.rsheet.contains_key(k) {
                        before.rsheet[k]
                    } else {
                        c.rsheet[k]
                    }),
        {
            let name = other.rsheet.key_at(i);
            let v: N = *other.rsheet.value_at(i);
            proof {
                let t = sheets.take(i as int);
                assert(sheets.take(i + 1) == t.push(name@));
                assert forall|k: Seq<char>| #[trigger]
                    sheets.take(i + 1).contains(k) <==> t.contains(k) || k == name@ by {
                    lemma_pushed(t, name@, k);
                }
            }
            if self.rsheet.get_chars(name).is_none() {
                self.rsheet.insert_chars(name, v);
            }
        }
        assert(sheets.take(m as int) == sheets);
        assert(self@.rsheet == completed(before, c).rsheet);
        if is_zero(self.via_res) {
            self.via_res = other.via_res;
        }
    }
}

} // verus!

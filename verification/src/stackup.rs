//! What the decks that are derived from technology files say of a process.
use crate::number;
use crate::number::Real;
use crate::rules::RulesView;
use crate::strmap;
use crate::tech;
use crate::tech::TechLayer;
use crate::text;
use vstd::prelude::*;

verus! {

/// The deck of a tech LEF has for each routing layer its sheet resistance, where it is
/// above zero, and as capacitance of one micrometre that of its area over its width,
/// which is one where it has none, with twice that of its edge, in femtofarads. It says
/// nothing of coupling.
pub proof fn a_routing_layer_is_ruled_by_its_lef<N: Real>(
    m: Map<Seq<char>, TechLayer<N>>,
    name: Seq<char>,
)
    requires
        strmap::walks(strmap::walk(m), m),
        m.contains_key(name),
        m[name].routing,
    ensures
        ({
            let (r, l) = (tech::of_tech(m), m[name]);
            let wide = number::zero::<N>().spec_below(l.width_um);
            &&& r.layers.contains_key(name)
            &&& r.layers[name].res_per_um == l.rpersq
            &&& wide ==> r.layers[name].cap_per_um == l.cpersqdist.spec_times(
                l.width_um,
            ).spec_plus(N::spec_count(2).spec_times(l.edge_cap)).spec_times(N::spec_count(1000))
            &&& !wide ==> r.layers[name].cap_per_um == l.cpersqdist.spec_times(
                N::spec_count(1),
            ).spec_plus(N::spec_count(2).spec_times(l.edge_cap)).spec_times(N::spec_count(1000))
            &&& r.layers[name].coupling_per_um == N::spec_micro(0)
            &&& r.layers[name].s_ref == N::spec_micro(0)
            &&& number::zero::<N>().spec_below(l.rpersq) ==> r.rsheet.contains_key(name)
                && r.rsheet[name] == l.rpersq
            &&& r.couple_cutoff == N::spec_micro(2_000_000)
            &&& r.eps_r == N::spec_micro(0) && r.shield_k == N::spec_micro(0)
            &&& r.heights.dom().is_empty() && r.interlayer.dom().is_empty()
            &&& r.couple_shapes.dom().is_empty()
        }),
{
    tech::the_stack_is_discovered(m, name);
    let names = strmap::walk(m);
    lemma_sheets(m, names, names.len() as int, name);
}

proof fn lemma_sheets<N: Real>(
    m: Map<Seq<char>, TechLayer<N>>,
    names: Seq<Seq<char>>,
    n: int,
    name: Seq<char>,
)
    requires
        0 <= n <= names.len(),
    ensures
        tech::tech_sheets(m, names, n).contains_key(name) ==> tech::tech_sheets(m, names, n)[name]
            == m[name].rpersq,
    decreases n,
{
    if n > 0 {
        lemma_sheets(m, names, n - 1, name);
    }
}

/// The resistances above zero of the layers of cuts among the first `n` names.
pub open spec fn cut_values<N: Real>(
    m: Map<Seq<char>, TechLayer<N>>,
    names: Seq<Seq<char>>,
    n: int,
) -> Seq<(N, ())>
    decreases n,
{
    if n <= 0 {
        Seq::empty()
    } else if !m[names[n - 1]].routing && number::zero::<N>().spec_below(m[names[n - 1]].cut_res) {
        cut_values(m, names, n - 1).push((m[names[n - 1]].cut_res, ()))
    } else {
        cut_values(m, names, n - 1)
    }
}

/// The resistance of a via in the deck of a tech LEF is the middle one of the
/// resistances of its cuts in ascending order, the upper of two, and none where there
/// is none.
pub proof fn a_via_is_the_median_cut<N: Real>(m: Map<Seq<char>, TechLayer<N>>) -> (s: Seq<(N, ())>)
    requires
        number::asymmetric::<N>(),
    ensures
        ({
            let names = strmap::walk(m);
            let all = cut_values(m, names, names.len() as int);
            &&& s.to_multiset() == all.to_multiset()
            &&& s.len() == all.len()
            &&& number::ascends(s)
            &&& s.len() > 0 ==> tech::of_tech(m).via_res == s[s.len() as int / 2].0
            &&& s.len() == 0 ==> tech::of_tech(m).via_res == N::spec_micro(0)
        }),
{
    let names = strmap::walk(m);
    let n = names.len() as int;
    let all = cut_values(m, names, n);
    lemma_cuts(m, names, n);
    number::ranking_ascends(all);
    let s = number::ranked(all);
    broadcast use vstd::seq_lib::group_to_multiset_ensures;

    assert(s.to_multiset().len() == s.len());
    assert(all.to_multiset().len() == all.len());
    s
}

proof fn lemma_cuts<N: Real>(
    m: Map<Seq<char>, TechLayer<N>>,
    names: Seq<Seq<char>>,
    n: int,
)
    ensures
        tech::cuts(m, names, n) == number::ranked(cut_values(m, names, n)),
    decreases n,
{
    if n > 0 {
        lemma_cuts(m, names, n - 1);
        let before = cut_values(m, names, n - 1);
        let v = (m[names[n - 1]].cut_res, ());
        assert(before.push(v).drop_last() == before);
    }
}

/// Whether words are the header of a block of a capacitance table.
pub open spec fn is_header(t: Seq<Seq<char>>) -> bool {
    t.len() >= 4 && t[0] == "Metal"@ && tech::index_value(t[1]) is Some
}

/// Whether words are a row of a capacitance table that gives a value.
pub open spec fn is_value<N: Real>(t: Seq<Seq<char>>) -> bool {
    t.len() == 4 && N::spec_parse(t[3]) is Some
}

/// The value of a metal in a capacitance table is the first one of its first block: the
/// number that ends the first row of four words after the header. Resistance and
/// capacitance over count in the context `0` only, capacitance under in any. What comes
/// later does not change it.
pub proof fn the_first_value_of_a_block_counts<N: Real>(
    lines: Seq<Seq<char>>,
    h: int,
    v: int,
    n: int,
)
    requires
        0 <= h < v < n <= lines.len(),
        is_header(text::words(lines[h])),
        !is_header(text::words(lines[v])) && is_value::<N>(text::words(lines[v])),
        forall|j: int|
            h < j < v ==> !is_header(text::words(#[trigger] lines[j])) && !is_value::<N>(
                text::words(lines[j]),
            ),
    ensures
        ({
            let t = text::words(lines[h]);
            let k = tech::index_value(t[1])->0;
            let value = N::spec_parse(text::words(lines[v])[3])->0;
            let before = tech::table_upto::<N>(lines, h);
            let after = tech::table_upto::<N>(lines, n);
            &&& t[2] == "RESOVER"@ && t[3] == "0"@ && !before.res.contains_key(k)
                ==> after.res.contains_key(k) && after.res[k] == value
            &&& t[2] == "OVER"@ && t[3] == "0"@ && !before.over.contains_key(k)
                ==> after.over.contains_key(k) && after.over[k] == value
            &&& t[2] == "UNDER"@ && !before.under.contains_key(k) ==> after.under.contains_key(k)
                && after.under[k] == value
        }),
{
    let t = text::words(lines[h]);
    let k = tech::index_value(t[1])->0;
    reveal_strlit("RESOVER");
    reveal_strlit("OVER");
    reveal_strlit("UNDER");
    assert("RESOVER"@.len() == 7 && "OVER"@.len() == 4 && "UNDER"@.len() == 5);
    let b = tech::table_upto::<N>(lines, h);
    lemma_block::<N>(lines, h, v);
    let c = tech::table_upto::<N>(lines, v);
    assert(tech::table_upto::<N>(lines, v + 1) == tech::table_line(c, text::words(lines[v])));
    lemma_kept::<N>(lines, v + 1, n, k);
}

proof fn lemma_block<N: Real>(lines: Seq<Seq<char>>, h: int, v: int)
    requires
        0 <= h < v <= lines.len(),
        is_header(text::words(lines[h])),
        forall|j: int|
            h < j < v ==> !is_header(text::words(#[trigger] lines[j])) && !is_value::<N>(
                text::words(lines[j]),
            ),
    ensures
        tech::table_upto::<N>(lines, v) == tech::table_line(
            tech::table_upto::<N>(lines, h),
            text::words(lines[h]),
        ),
    decreases v,
{
    if v > h + 1 {
        lemma_block::<N>(lines, h, v - 1);
        assert(!is_header(text::words(lines[v - 1])) && !is_value::<N>(
            text::words(lines[v - 1]),
        ));
    }
}

proof fn lemma_kept<N: Real>(lines: Seq<Seq<char>>, m: int, n: int, k: usize)
    requires
        0 <= m <= n <= lines.len(),
    ensures
        ({
            let (a, b) = (tech::table_upto::<N>(lines, m), tech::table_upto::<N>(lines, n));
            &&& a.res.contains_key(k) ==> b.res.contains_key(k) && b.res[k] == a.res[k]
            &&& a.over.contains_key(k) ==> b.over.contains_key(k) && b.over[k] == a.over[k]
            &&& a.under.contains_key(k) ==> b.under.contains_key(k) && b.under[k] == a.under[k]
        }),
    decreases n - m,
{
    if m < n {
        lemma_kept::<N>(lines, m, n - 1, k);
    }
}

/// The deck of a capacitance table has a rule for each layer of the stack whose metal,
/// counted from one at the bottom, has a resistance: a thousand times that of one
/// nanometre, and the capacitance over the metal with that under it, where they are
/// given.
pub proof fn a_metal_is_ruled_by_its_table<N: Real>(
    order: Seq<Seq<char>>,
    source: Seq<char>,
    i: int,
)
    requires
        order.no_duplicates(),
        0 <= i < order.len(),
        order.len() <= usize::MAX,
    ensures
        ({
            let lines = text::lines(source);
            let c = tech::table_upto::<N>(lines, lines.len() as int);
            let r = tech::of_table::<N>(order, source);
            let k = (i + 1) as usize;
            let over = if c.over.contains_key(k) {
                c.over[k]
            } else {
                N::spec_micro(0)
            };
            let under = if c.under.contains_key(k) {
                c.under[k]
            } else {
                N::spec_micro(0)
            };
            &&& r.layers.contains_key(order[i]) <==> c.res.contains_key(k)
            &&& c.res.contains_key(k) ==> {
                &&& r.layers[order[i]].res_per_um == c.res[k].spec_times(N::spec_count(1000))
                &&& r.layers[order[i]].cap_per_um == over.spec_plus(under)
                &&& r.layers[order[i]].coupling_per_um == N::spec_micro(0)
            }
            &&& r.via_res == N::spec_micro(0) && r.rsheet.dom().is_empty()
            &&& r.couple_cutoff == N::spec_micro(2_000_000)
        }),
{
    let lines = text::lines(source);
    let c = tech::table_upto::<N>(lines, lines.len() as int);
    lemma_metals(c, order, order.len() as int, i);
}

proof fn lemma_metals<N: Real>(
    c: tech::TableView<N>,
    order: Seq<Seq<char>>,
    n: int,
    i: int,
)
    requires
        order.no_duplicates(),
        0 <= n <= order.len() <= usize::MAX,
        0 <= i < order.len(),
    ensures
        ({
            let m = tech::metals(c, order, n);
            let k = (i + 1) as usize;
            &&& m.contains_key(order[i]) <==> i < n && c.res.contains_key(k)
            &&& m.contains_key(order[i]) ==> m[order[i]] == tech::metal_rule(c, k)
        }),
    decreases n,
{
    if n > 0 {
        lemma_metals(c, order, n - 1, i);
        if i != n - 1 {
            assert(order[i] != order[n - 1]);
        }
    }
}

/// A deck that another one completes takes from it what it lacks: a coefficient that is
/// zero, a layer, a sheet resistance or a via resistance, and nothing else.
pub proof fn completing_takes_what_is_missing<N: Real>(
    r: RulesView<N>,
    c: RulesView<N>,
    name: Seq<char>,
)
    requires
        c.layers.contains_key(name),
    ensures
        ({
            let out = tech::completed(r, c);
            let zero = number::zero::<N>();
            &&& out.layers.contains_key(name)
            &&& r.layers.contains_key(name) && r.layers[name].res_per_um.spec_same(zero)
                ==> out.layers[name].res_per_um == c.layers[name].res_per_um
            &&& r.layers.contains_key(name) && r.layers[name].cap_per_um.spec_same(zero)
                ==> out.layers[name].cap_per_um == c.layers[name].cap_per_um
            &&& r.layers.contains_key(name) ==> out.layers[name].coupling_per_um
                == r.layers[name].coupling_per_um && out.layers[name].s_ref
                == r.layers[name].s_ref
            &&& !r.layers.contains_key(name) ==> out.layers[name] == c.layers[name]
            &&& !r.rsheet.contains_key(name) && c.rsheet.contains_key(name)
                ==> out.rsheet.contains_key(name) && out.rsheet[name] == c.rsheet[name]
            &&& !r.rsheet.contains_key(name) && !c.rsheet.contains_key(name)
                ==> !out.rsheet.contains_key(name)
            &&& r.via_res.spec_same(zero) ==> out.via_res == c.via_res
            &&& !r.via_res.spec_same(zero) ==> out.via_res == r.via_res
            &&& out.couple_cutoff == r.couple_cutoff && out.eps_r == r.eps_r && out.shield_k
                == r.shield_k && out.heights == r.heights && out.interlayer == r.interlayer
                && out.couple_shapes == r.couple_shapes
        }),
{
}

} // verus!

//! The coupling of two nets of one wire each, in closed form.
//!
//! Two such nets are the least layout that couples, and what is reported of them is
//! stated here by the numbers of the deck and the coordinates of the wires alone.
use crate::coupling;
use crate::coupling::{CapView, TechView};
use crate::def::{NetView, SegmentView};
use crate::engine;
use crate::engine::{Extraction, Inputs};
use crate::geom;
use crate::limit;
use crate::number;
use crate::number::Real;
use crate::rules;
use crate::rules::RulesView;
use crate::sight;
use crate::sight::Axis;
use crate::sort;
use crate::stated;
use crate::text;
use vstd::prelude::*;

verus! {

/// Whether a report is that of the coupling of nets with nothing else around, under a
/// limit that leaves room for a pair.
pub open spec fn reports<N: Real>(
    out: Seq<CapView<N>>,
    tech: TechView<N>,
    nets: Seq<NetView>,
) -> bool {
    exists|max: int|
        max >= 1 && #[trigger] coupling::is_ordered_form(
            out,
            coupling::named(coupling::coupling_table(tech, nets, Seq::empty(), max), nets),
        )
}

/// Whether zero is not above zero, and no millionths.
pub open spec fn zero_is_nothing<N: Real>() -> bool {
    !number::zero::<N>().spec_below(number::zero::<N>()) && number::zero::<N>().spec_millionths()
        == 0
}

/// A wire with its axes exchanged.
pub open spec fn turned(s: SegmentView) -> SegmentView {
    SegmentView { layer: s.layer, x0: s.y0, y0: s.x0, x1: s.y1, y1: s.x1, width: s.width }
}

/// A wire as it is, or with its axes exchanged.
pub open spec fn laid(s: SegmentView, turn: bool) -> SegmentView {
    if turn {
        turned(s)
    } else {
        s
    }
}

/// Two wires that run along the x axis on one layer, side by side over some length.
pub open spec fn side_by_side(s: SegmentView, u: SegmentView) -> bool {
    &&& s.layer == u.layer
    &&& s.y0 == s.y1
    &&& u.y0 == u.y1
    &&& run_length(s, u) > 0
}

/// The length over which two wires along the x axis run side by side.
pub open spec fn run_length(s: SegmentView, u: SegmentView) -> int {
    let (s0, s1) = if s.x0 <= s.x1 {
        (s.x0, s.x1)
    } else {
        (s.x1, s.x0)
    };
    let (u0, u1) = if u.x0 <= u.x1 {
        (u.x0, u.x1)
    } else {
        (u.x1, u.x0)
    };
    (if s1 <= u1 {
        s1
    } else {
        u1
    }) - (if s0 >= u0 {
        s0
    } else {
        u0
    })
}

/// The width of a wire: its own, else that of its layer, which is none where it is not
/// known or below zero.
pub open spec fn breadth<N: Real>(widths: Map<Seq<char>, N>, s: SegmentView) -> int {
    if s.width > 0 {
        s.width
    } else if widths.contains_key(s.layer) && widths[s.layer].spec_millionths() > 0 {
        widths[s.layer].spec_millionths()
    } else {
        0
    }
}

/// The distance from edge to edge of two wires along the x axis.
pub open spec fn spacing<N: Real>(
    widths: Map<Seq<char>, N>,
    s: SegmentView,
    u: SegmentView,
) -> int {
    (if s.y0 <= u.y0 {
        u.y0 - s.y0
    } else {
        s.y0 - u.y0
    }) - (breadth(widths, s) + breadth(widths, u)) / 2
}

/// What is reported of two nets that couple with a value.
pub open spec fn one_pair<N: Real>(a: NetView, b: NetView, c: N) -> Seq<CapView<N>> {
    let sum = number::zero::<N>().spec_plus(c);
    if number::zero::<N>().spec_below(c) && number::zero::<N>().spec_below(sum) {
        seq![CapView { a: a.name, b: b.name, cap: sum }]
    } else {
        Seq::empty()
    }
}

/// The value of a layer in a table where it is above zero.
pub open spec fn known<N: Real>(m: Map<Seq<char>, N>, layer: Seq<char>) -> bool {
    m.contains_key(layer) && number::zero::<N>().spec_below(m[layer])
}

/// The gap that counts: at least a fifth of a micrometre.
pub open spec fn far_enough<N: Real>(gap: N) -> N {
    if gap.spec_below(N::spec_micro(200_000)) {
        N::spec_micro(200_000)
    } else {
        gap
    }
}

/// The plates of one micrometre of two wires: permittivity times thickness over gap.
pub open spec fn plates<N: Real>(eps_r: N, thickness: N, gap: N) -> N {
    eps_r.spec_times(N::spec_micro(8_854)).spec_times(thickness).spec_over(far_enough(gap))
}

/// The part of the field that ground leaves: `exp(-4 gap / (gap + 8.01 H))`.
pub open spec fn left_by_ground<N: Real>(height: N, gap: N) -> N {
    let g = far_enough(gap);
    number::zero::<N>().spec_minus(
        N::spec_count(4).spec_times(g).spec_over(
            g.spec_plus(N::spec_micro(8_010_000).spec_times(height)),
        ),
    ).spec_exp()
}

proof fn lemma_wires(na: NetView, nb: NetView, s: SegmentView, u: SegmentView)
    requires
        na.segments == seq![s],
        nb.segments == seq![u],
    ensures
        coupling::owners(seq![na, nb]) == seq![0int, 1int],
        coupling::all_metal(seq![na, nb], Seq::empty()) == seq![s, u],
{
    let nets = seq![na, nb];
    reveal_with_fuel(coupling::owners_upto, 3);
    reveal_with_fuel(coupling::wires_upto, 3);
    assert(coupling::owners_upto(nets, 2) =~= seq![0int, 1int]);
    assert(coupling::all_metal(nets, Seq::empty()) =~= seq![s, u]);
}

/// What two nets of one wire each contribute.
proof fn lemma_contributions<N: Real>(
    tech: TechView<N>,
    na: NetView,
    nb: NetView,
    s: SegmentView,
    u: SegmentView,
)
    requires
        na.segments == seq![s],
        nb.segments == seq![u],
    ensures
        coupling::all_contributions(tech, seq![na, nb], Seq::empty()) == (
        match coupling::contribution(tech, seq![s, u], seq![0int, 1int], 0, 1) {
            Some(v) => seq![v],
            None => Seq::empty(),
        }),
{
    lemma_wires(na, nb, s, u);
    let metal = seq![s, u];
    let owners = seq![0int, 1int];
    let only = match coupling::contribution(tech, metal, owners, 0, 1) {
        Some(v) => seq![v],
        None => Seq::empty(),
    };
    reveal_with_fuel(coupling::band, 3);
    reveal_with_fuel(coupling::row_upto, 4);
    assert(coupling::row_upto(tech, metal, owners, 0, 2) =~= only);
    assert(coupling::row_upto(tech, metal, owners, 1, 2) =~= Seq::<(int, int, N)>::empty());
    assert(coupling::band(tech, metal, owners, 0, 2) =~= only);
}

/// A list of at most one entry is in order.
proof fn lemma_short<N: Real>(out: Seq<CapView<N>>, list: Seq<CapView<N>>)
    requires
        coupling::is_ordered_form(out, list),
        list.len() <= 1,
    ensures
        out == list,
{
    let order = choose|order: Seq<usize>| #[trigger]
        sort::orders(order, coupling::net_names(list)) && out == Seq::new(
            list.len(),
            |i: int| list[order[i] as int],
        );
    if list.len() == 1 {
        assert(order.contains(order[0]));
    }
    assert(out =~= list);
}

/// The table of one contribution between the first two nets.
proof fn lemma_one<N: Real>(na: NetView, nb: NetView, v: (int, int, N), max: int)
    requires
        v.0 == 0,
        v.1 == 1,
        max >= 1,
        number::positive(v.2),
    ensures
        coupling::named(
            coupling::take_all(coupling::no_pairs::<N>(), seq![v], max),
            seq![na, nb],
        ) == one_pair(na, nb, v.2),
{
    let none = coupling::no_pairs::<N>();
    let only = seq![v];
    assert(only.drop_last() =~= Seq::<(int, int, N)>::empty());
    assert(only.last() == v);
    assert(coupling::take_all(none, only.drop_last(), max) == none);
    let t = coupling::take_all(none, only, max);
    assert(t == coupling::take_up(none, v, max));
    assert(t.pairs =~= seq![(0int, 1int)]);
    assert(t.caps =~= seq![number::zero::<N>().spec_plus(v.2)]);
    reveal_with_fuel(coupling::named_upto, 3);
    assert(coupling::named(t, seq![na, nb]) =~= one_pair(na, nb, v.2));
}

/// What is reported of two nets of one wire each is what the two wires contribute.
proof fn lemma_two_nets<N: Real>(
    tech: TechView<N>,
    na: NetView,
    nb: NetView,
    s: SegmentView,
    u: SegmentView,
    out: Seq<CapView<N>>,
)
    requires
        na.segments == seq![s],
        nb.segments == seq![u],
        reports(out, tech, seq![na, nb]),
    ensures
        match coupling::pair_cap(tech, seq![s, u], s, u) {
            Some(c) => out == one_pair(na, nb, c),
            None => out == Seq::<CapView<N>>::empty(),
        },
{
    let nets = seq![na, nb];
    let max = choose|max: int|
        max >= 1 && #[trigger] coupling::is_ordered_form(
            out,
            coupling::named(coupling::coupling_table(tech, nets, Seq::empty(), max), nets),
        );
    lemma_contributions(tech, na, nb, s, u);
    let t = coupling::coupling_table(tech, nets, Seq::empty(), max);
    let list = coupling::named(t, nets);
    match coupling::contribution(tech, seq![s, u], seq![0int, 1int], 0, 1) {
        Some(v) => {
            lemma_one(na, nb, v, max);
        },
        None => {
            assert(t == coupling::no_pairs::<N>());
            assert(list =~= Seq::<CapView<N>>::empty());
        },
    }
    lemma_short(out, list);
}

/// Two wires that have nothing between them see all of their common run.
proof fn lemma_alone<N: Real>(tech: TechView<N>, s: SegmentView, u: SegmentView, turn: bool)
    requires
        zero_is_nothing::<N>(),
        side_by_side(s, u),
    ensures
        ({
            let (a, b) = (laid(s, turn), laid(u, turn));
            let axis = if turn {
                Axis::Vertical
            } else {
                Axis::Horizontal
            };
            &&& sight::side_by_side(a, b) == Some(axis)
            &&& sight::visible(seq![a, b], a, b, axis) == run_length(s, u)
            &&& coupling::edge_gap(tech.widths, a, b, axis) == spacing(tech.widths, s, u)
        }),
{
    let (a, b) = (laid(s, turn), laid(u, turn));
    let axis = if turn {
        Axis::Vertical
    } else {
        Axis::Horizontal
    };
    let metal = seq![a, b];
    assert forall|x: int| !sight::hidden(metal, a, b, axis, x) by {
        if sight::hidden(metal, a, b, axis, x) {
            let k = choose|k: int|
                0 <= k < metal.len() && sight::shadows(#[trigger] metal[k], a, b, axis, x);
            assert(metal[k] == a || metal[k] == b);
        }
    }
    sight::lemma_count_all(
        |x: int| !sight::hidden(metal, a, b, axis, x),
        sight::common_lo(a, b, axis),
        sight::common_hi(a, b, axis),
    );
}

/// Two nets of one wire each, side by side on a layer whose thickness and height are
/// known, in a deck with a permittivity, couple with the length of their common run
/// times permittivity times thickness over gap, times `exp(-4 gap / (gap + 8.01 H))`
/// with the height `H` that the deck gives the layer. The gap counts as at least a
/// fifth of a micrometre.
pub proof fn two_wires_at_a_height<N: Real>(
    tech: TechView<N>,
    na: NetView,
    nb: NetView,
    s: SegmentView,
    u: SegmentView,
    turn: bool,
    out: Seq<CapView<N>>,
)
    requires
        zero_is_nothing::<N>(),
        side_by_side(s, u),
        na.segments == seq![laid(s, turn)],
        nb.segments == seq![laid(u, turn)],
        tech.rules.layers.contains_key(s.layer),
        spacing(tech.widths, s, u) <= tech.rules.couple_cutoff.spec_millionths(),
        number::zero::<N>().spec_below(tech.rules.eps_r),
        known(tech.thicknesses, s.layer),
        known(tech.rules.heights, s.layer),
        reports(out, tech, seq![na, nb]),
    ensures
        ({
            let gap = N::spec_micro(spacing(tech.widths, s, u));
            let len = N::spec_micro(run_length(s, u));
            out == one_pair(
                na,
                nb,
                plates(tech.rules.eps_r, tech.thicknesses[s.layer], gap).spec_times(
                    left_by_ground(tech.rules.heights[s.layer], gap),
                ).spec_times(len),
            )
        }),
{
    lemma_alone(tech, s, u, turn);
    lemma_two_nets(tech, na, nb, laid(s, turn), laid(u, turn), out);
}

/// As [`two_wires_at_a_height`], with the deck as it is read: the height is the number of
/// the last `height` line of the deck for the layer of the wires.
pub proof fn the_height_line_of_a_deck_counts<N: Real>(
    source: Seq<char>,
    k: int,
    tech: TechView<N>,
    na: NetView,
    nb: NetView,
    s: SegmentView,
    u: SegmentView,
    turn: bool,
    out: Seq<CapView<N>>,
)
    requires
        rules::deck::<N>(source) == Ok::<RulesView<N>, Seq<char>>(tech.rules),
        ({
            let lines = text::lines(source);
            &&& 0 <= k < lines.len()
            &&& stated::leads(lines[k], "height"@)
            &&& stated::word(lines[k], 1) == s.layer
            &&& N::spec_parse(stated::word(lines[k], 2)) matches Some(h)
                && number::zero::<N>().spec_below(h)
            &&& forall|j: int|
                k < j < lines.len() && stated::leads(#[trigger] lines[j], "height"@)
                    ==> stated::word(lines[j], 1) != s.layer
        }),
        zero_is_nothing::<N>(),
        side_by_side(s, u),
        na.segments == seq![laid(s, turn)],
        nb.segments == seq![laid(u, turn)],
        tech.rules.layers.contains_key(s.layer),
        spacing(tech.widths, s, u) <= tech.rules.couple_cutoff.spec_millionths(),
        number::zero::<N>().spec_below(tech.rules.eps_r),
        known(tech.thicknesses, s.layer),
        reports(out, tech, seq![na, nb]),
    ensures
        ({
            let h = N::spec_parse(stated::word(text::lines(source)[k], 2))->0;
            let gap = N::spec_micro(spacing(tech.widths, s, u));
            let len = N::spec_micro(run_length(s, u));
            out == one_pair(
                na,
                nb,
                plates(tech.rules.eps_r, tech.thicknesses[s.layer], gap).spec_times(
                    left_by_ground(h, gap),
                ).spec_times(len),
            )
        }),
{
    let lines = text::lines(source);
    stated::a_deck_is_what_its_lines_state::<N>(source);
    assert(stated::table_stated(lines, lines.len() as int, "height"@, tech.rules.heights));
    assert(stated::leads(lines[k], "height"@));
    two_wires_at_a_height(tech, na, nb, s, u, turn, out);
}

/// As [`two_wires_at_a_height`], where the deck gives the layer no height: the plates
/// alone.
pub proof fn two_wires_without_a_height<N: Real>(
    tech: TechView<N>,
    na: NetView,
    nb: NetView,
    s: SegmentView,
    u: SegmentView,
    turn: bool,
    out: Seq<CapView<N>>,
)
    requires
        zero_is_nothing::<N>(),
        side_by_side(s, u),
        na.segments == seq![laid(s, turn)],
        nb.segments == seq![laid(u, turn)],
        tech.rules.layers.contains_key(s.layer),
        spacing(tech.widths, s, u) <= tech.rules.couple_cutoff.spec_millionths(),
        number::zero::<N>().spec_below(tech.rules.eps_r),
        known(tech.thicknesses, s.layer),
        !known(tech.rules.heights, s.layer),
        reports(out, tech, seq![na, nb]),
    ensures
        ({
            let gap = N::spec_micro(spacing(tech.widths, s, u));
            let len = N::spec_micro(run_length(s, u));
            out == one_pair(
                na,
                nb,
                plates(tech.rules.eps_r, tech.thicknesses[s.layer], gap).spec_times(len),
            )
        }),
{
    lemma_alone(tech, s, u, turn);
    lemma_two_nets(tech, na, nb, laid(s, turn), laid(u, turn), out);
}

/// Two nets of one wire each, side by side on a layer, in a deck without a permittivity
/// or without a thickness for the layer, couple with the coefficient of the layer times
/// the length of their common run, times what the deck's curve for the layer says of
/// the gap. Without a curve that is the reference spacing over the gap, and one where
/// the gap is less. Without a coefficient they do not couple.
pub proof fn two_wires_by_coefficient<N: Real>(
    tech: TechView<N>,
    na: NetView,
    nb: NetView,
    s: SegmentView,
    u: SegmentView,
    turn: bool,
    out: Seq<CapView<N>>,
)
    requires
        zero_is_nothing::<N>(),
        side_by_side(s, u),
        na.segments == seq![laid(s, turn)],
        nb.segments == seq![laid(u, turn)],
        tech.rules.layers.contains_key(s.layer),
        spacing(tech.widths, s, u) <= tech.rules.couple_cutoff.spec_millionths(),
        !number::zero::<N>().spec_below(tech.rules.eps_r) || !known(tech.thicknesses, s.layer),
        reports(out, tech, seq![na, nb]),
    ensures
        ({
            let l = tech.rules.layers[s.layer];
            let gap = N::spec_micro(spacing(tech.widths, s, u));
            let len = N::spec_micro(run_length(s, u));
            let factor = coupling::falloff(tech.rules, s.layer, l, gap);
            &&& number::zero::<N>().spec_below(l.coupling_per_um) ==> out == one_pair(
                na,
                nb,
                l.coupling_per_um.spec_times(len).spec_times(factor),
            )
            &&& !number::zero::<N>().spec_below(l.coupling_per_um) ==> out.len() == 0
            &&& !tech.rules.couple_shapes.contains_key(s.layer) && gap.spec_below(l.s_ref)
                ==> factor == l.s_ref.spec_over(l.s_ref)
            &&& !tech.rules.couple_shapes.contains_key(s.layer) && l.s_ref.spec_below(gap)
                && !gap.spec_below(l.s_ref) ==> factor == l.s_ref.spec_over(gap)
        }),
{
    lemma_alone(tech, s, u, turn);
    lemma_two_nets(tech, na, nb, laid(s, turn), laid(u, turn), out);
}

/// The curve of a layer is what its points say: flat before the first of them, a
/// straight line between each and the next, and falling as one over the gap after the
/// last.
pub proof fn a_curve_goes_through_its_points<N: Real>(
    rules: RulesView<N>,
    layer: Seq<char>,
    gap: N,
    i: int,
)
    requires
        rules.couple_shapes.contains_key(layer),
        rules.couple_shapes[layer].len() > 0,
    ensures
        ({
            let pts = rules.couple_shapes[layer];
            let factor = coupling::falloff(rules, layer, rules.layers[layer], gap);
            let n = pts.len() as int;
            let within = |k: int|
                0 <= k < n - 1 && !gap.spec_below(pts[k].0) && gap.spec_below(pts[k + 1].0);
            &&& !pts[0].0.spec_below(gap) ==> factor == pts[0].1
            &&& pts[0].0.spec_below(gap) && within(i) && (forall|k: int|
                0 <= k < i ==> !#[trigger] within(k)) && number::zero::<N>().spec_below(
                pts[i + 1].0.spec_minus(pts[i].0),
            ) ==> factor == pts[i].1.spec_plus(
                pts[i + 1].1.spec_minus(pts[i].1).spec_times(
                    gap.spec_minus(pts[i].0),
                ).spec_over(pts[i + 1].0.spec_minus(pts[i].0)),
            )
            &&& pts[0].0.spec_below(gap) && (forall|k: int| !#[trigger] within(k)) ==> factor
                == pts[n - 1].1.spec_times(pts[n - 1].0).spec_over(gap)
        }),
{
    let pts = rules.couple_shapes[layer];
    let n = pts.len() as int;
    let within = |k: int|
        0 <= k < n - 1 && !gap.spec_below(pts[k].0) && gap.spec_below(pts[k + 1].0);
    if within(i) && (forall|k: int| 0 <= k < i ==> !#[trigger] within(k)) {
        lemma_span(pts, gap, 0, i);
    }
    if forall|k: int| !#[trigger] within(k) {
        lemma_no_span(pts, gap, 0);
    }
}

proof fn lemma_span<N: Real>(pts: Seq<(N, N)>, gap: N, k: int, i: int)
    requires
        0 <= k <= i < pts.len() - 1,
        !gap.spec_below(pts[i].0),
        gap.spec_below(pts[i + 1].0),
        ({
            let n = pts.len() as int;
            let within = |k: int|
                0 <= k < n - 1 && !gap.spec_below(pts[k].0) && gap.spec_below(pts[k + 1].0);
            forall|j: int| 0 <= j < i ==> !#[trigger] within(j)
        }),
    ensures
        coupling::span_of(pts, gap, k) == Some(i),
    decreases i - k,
{
    let n = pts.len() as int;
    let within = |k: int|
        0 <= k < n - 1 && !gap.spec_below(pts[k].0) && gap.spec_below(pts[k + 1].0);
    if k < i {
        assert(!within(k));
        lemma_span(pts, gap, k + 1, i);
    }
}

proof fn lemma_no_span<N: Real>(pts: Seq<(N, N)>, gap: N, k: int)
    requires
        0 <= k,
        ({
            let n = pts.len() as int;
            let within = |k: int|
                0 <= k < n - 1 && !gap.spec_below(pts[k].0) && gap.spec_below(pts[k + 1].0);
            forall|j: int| !#[trigger] within(j)
        }),
    ensures
        coupling::span_of(pts, gap, k) is None,
    decreases pts.len() - k,
{
    let n = pts.len() as int;
    let within = |k: int|
        0 <= k < n - 1 && !gap.spec_below(pts[k].0) && gap.spec_below(pts[k + 1].0);
    if k + 1 < pts.len() {
        assert(!within(k));
        lemma_no_span(pts, gap, k + 1);
    }
}

/// Two nets whose wires are further apart than the cutoff of the deck, or on a layer
/// without a rule, do not couple.
pub proof fn two_wires_too_far_apart<N: Real>(
    tech: TechView<N>,
    na: NetView,
    nb: NetView,
    s: SegmentView,
    u: SegmentView,
    turn: bool,
    out: Seq<CapView<N>>,
)
    requires
        zero_is_nothing::<N>(),
        side_by_side(s, u),
        na.segments == seq![laid(s, turn)],
        nb.segments == seq![laid(u, turn)],
        spacing(tech.widths, s, u) > tech.rules.couple_cutoff.spec_millionths()
            || !tech.rules.layers.contains_key(s.layer),
        reports(out, tech, seq![na, nb]),
    ensures
        out.len() == 0,
{
    lemma_alone(tech, s, u, turn);
    lemma_two_nets(tech, na, nb, laid(s, turn), laid(u, turn), out);
}

/// Two nets of one wire each on different layers, one along the x axis and one along
/// the y axis, that cross well inside each other, couple with the coefficient that the
/// deck has for the two layers, in either order, times the area of the crossing: the
/// width of the one times the width of the other, each of an even number of picometres.
/// Without a coefficient they do not couple.
pub proof fn two_wires_that_cross<N: Real>(
    tech: TechView<N>,
    na: NetView,
    nb: NetView,
    s: SegmentView,
    u: SegmentView,
    out: Seq<CapView<N>>,
)
    requires
        zero_is_nothing::<N>(),
        s.layer != u.layer,
        s.y0 == s.y1,
        u.x0 == u.x1,
        s.x0 < s.x1,
        u.y0 < u.y1,
        breadth(tech.widths, s) > 0,
        breadth(tech.widths, u) > 0,
        breadth(tech.widths, s) % 2 == 0,
        breadth(tech.widths, u) % 2 == 0,
        s.x0 + breadth(tech.widths, u) < u.x0 < s.x1 - breadth(tech.widths, u),
        u.y0 + breadth(tech.widths, s) < s.y0 < u.y1 - breadth(tech.widths, s),
        na.segments == seq![s],
        nb.segments == seq![u],
        reports(out, tech, seq![na, nb]),
    ensures
        ({
            let (p, q) = ((s.layer, u.layer), (u.layer, s.layer));
            let area = N::spec_micro(breadth(tech.widths, u)).spec_times(
                N::spec_micro(breadth(tech.widths, s)),
            );
            let k = if text::text_lt(s.layer, u.layer) {
                p
            } else {
                q
            };
            &&& tech.rules.interlayer.contains_key(k) ==> out == one_pair(
                na,
                nb,
                tech.rules.interlayer[k].spec_times(area),
            )
            &&& !tech.rules.interlayer.contains_key(k) ==> out.len() == 0
        }),
{
    lemma_two_nets(tech, na, nb, s, u, out);
    text::lemma_text_lt_total(s.layer, u.layer);
    if text::text_lt(s.layer, u.layer) && text::text_lt(u.layer, s.layer) {
        text::lemma_text_lt_trans(s.layer, u.layer, s.layer);
        text::lemma_text_lt_irreflexive(s.layer);
    }
}

/// Whether arithmetic keeps order as that of the real numbers does: sums, products and
/// quotients of values above zero are above zero and move with what they are made of,
/// and the exponential grows, above zero, through one at zero.
#[verifier::opaque]
pub open spec fn keeps_order<N: Real>() -> bool {
    let zero = number::zero::<N>();
    &&& forall|a: N, b: N|
        zero.spec_below(a) && zero.spec_below(b) ==> zero.spec_below(#[trigger] a.spec_plus(b))
    &&& forall|a: N, b: N|
        zero.spec_below(a) && zero.spec_below(b) ==> zero.spec_below(#[trigger] a.spec_times(b))
    &&& forall|a: N, b: N|
        zero.spec_below(a) && zero.spec_below(b) ==> zero.spec_below(#[trigger] a.spec_over(b))
    &&& forall|a: N, b: N|
        zero.spec_below(b) && !(#[trigger] a.spec_below(b)) ==> zero.spec_below(a)
    &&& forall|n: int| n > 0 ==> zero.spec_below(#[trigger] N::spec_micro(n))
    &&& forall|n: nat| n > 0 ==> zero.spec_below(#[trigger] N::spec_count(n))
    &&& forall|a: N, b: N, c: N|
        b.spec_below(c) ==> (#[trigger] a.spec_plus(b)).spec_below(#[trigger] a.spec_plus(c))
    &&& forall|a: N, b: N, c: N|
        zero.spec_below(a) && b.spec_below(c) ==> (#[trigger] a.spec_times(b)).spec_below(
            #[trigger] a.spec_times(c),
        )
    &&& forall|a: N, b: N, c: N|
        zero.spec_below(c) && a.spec_below(b) ==> (#[trigger] a.spec_times(c)).spec_below(
            #[trigger] b.spec_times(c),
        )
    &&& forall|a: N, b: N, c: N|
        zero.spec_below(a) && zero.spec_below(b) && b.spec_below(c) ==> (#[trigger] a.spec_over(
            c,
        )).spec_below(#[trigger] a.spec_over(b))
    &&& forall|a: N, b: N|
        a.spec_below(b) ==> (#[trigger] zero.spec_minus(b)).spec_below(#[trigger] zero.spec_minus(a))
    &&& forall|a: N, b: N|
        a.spec_below(b) ==> (#[trigger] a.spec_exp()).spec_below(#[trigger] b.spec_exp())
    &&& forall|a: N| zero.spec_below(#[trigger] a.spec_exp())
    &&& forall|p: N, a: N|
        zero.spec_below(p) && zero.spec_below(a) ==> (#[trigger] p.spec_times(
            zero.spec_minus(a).spec_exp(),
        )).spec_below(p)
}

/// The signs of what a coupling at a height is made of, and how it lies to others.
proof fn lemma_heights<N: Real>(eps: N, t: N, low: N, high: N, gap: int, len: int)
    requires
        keeps_order::<N>(),
        number::zero::<N>().spec_below(eps),
        number::zero::<N>().spec_below(t),
        number::zero::<N>().spec_below(low),
        len > 0,
    ensures
        ({
            let (zero, g, l) = (number::zero::<N>(), N::spec_micro(gap), N::spec_micro(len));
            let bare = plates(eps, t, g).spec_times(l);
            let below = plates(eps, t, g).spec_times(left_by_ground(low, g)).spec_times(l);
            let above = plates(eps, t, g).spec_times(left_by_ground(high, g)).spec_times(l);
            &&& zero.spec_below(bare) && zero.spec_below(below)
            &&& zero.spec_plus(below).spec_below(zero.spec_plus(bare))
            &&& low.spec_below(high) && zero.spec_below(high) ==> zero.spec_below(above)
                && zero.spec_plus(below).spec_below(zero.spec_plus(above))
        }),
{
    reveal(keeps_order);
    let zero = number::zero::<N>();
    let (g0, l) = (N::spec_micro(gap), N::spec_micro(len));
    let least = N::spec_micro(200_000);
    let g = far_enough(g0);
    assert(zero.spec_below(least));
    assert(zero.spec_below(g));
    assert(zero.spec_below(N::spec_micro(8_854)));
    let top = eps.spec_times(N::spec_micro(8_854)).spec_times(t);
    assert(zero.spec_below(eps.spec_times(N::spec_micro(8_854))));
    assert(zero.spec_below(top));
    let p = plates(eps, t, g0);
    assert(zero.spec_below(p));
    let four = N::spec_count(4);
    assert(zero.spec_below(four));
    let w = N::spec_micro(8_010_000);
    assert(zero.spec_below(w));
    let fg = four.spec_times(g);
    assert(zero.spec_below(fg));
    let wl = w.spec_times(low);
    assert(zero.spec_below(wl));
    let dl = g.spec_plus(wl);
    assert(zero.spec_below(dl));
    let ql = fg.spec_over(dl);
    assert(zero.spec_below(ql));
    let el = left_by_ground(low, g0);
    assert(el == zero.spec_minus(ql).spec_exp());
    assert(zero.spec_below(el));
    assert(zero.spec_below(l));
    let pl = p.spec_times(el);
    assert(pl.spec_below(p));
    assert(zero.spec_below(pl));
    let (below, bare) = (pl.spec_times(l), p.spec_times(l));
    assert(zero.spec_below(below) && zero.spec_below(bare));
    assert(below.spec_below(bare));
    assert(zero.spec_plus(below).spec_below(zero.spec_plus(bare)));
    if low.spec_below(high) && zero.spec_below(high) {
        let wh = w.spec_times(high);
        assert(zero.spec_below(wh));
        assert(wl.spec_below(wh));
        let dh = g.spec_plus(wh);
        assert(dl.spec_below(dh));
        let qh = fg.spec_over(dh);
        assert(qh.spec_below(ql));
        let eh = left_by_ground(high, g0);
        assert(eh == zero.spec_minus(qh).spec_exp());
        assert(el.spec_below(eh));
        let ph = p.spec_times(eh);
        assert(pl.spec_below(ph));
        assert(zero.spec_below(ph));
        let above = ph.spec_times(l);
        assert(below.spec_below(above));
        assert(zero.spec_below(above));
        assert(zero.spec_plus(below).spec_below(zero.spec_plus(above)));
    }
}

/// The height of a layer lowers coupling, and the less the higher it is: of two nets of
/// one wire each, side by side on a layer with a thickness, in a deck with a
/// permittivity, less is reported with a height in the deck than without it, and more
/// with a greater height. This holds where arithmetic keeps order.
#[verifier::rlimit(50)]
pub proof fn a_height_lowers_coupling<N: Real>(
    tech: TechView<N>,
    low: N,
    high: N,
    na: NetView,
    nb: NetView,
    s: SegmentView,
    u: SegmentView,
    turn: bool,
    bare: Seq<CapView<N>>,
    below: Seq<CapView<N>>,
    above: Seq<CapView<N>>,
)
    requires
        keeps_order::<N>(),
        forall|a: N|
            number::zero::<N>().spec_below(a) ==> number::zero::<N>().spec_below(
                #[trigger] number::zero::<N>().spec_plus(a),
            ),
        zero_is_nothing::<N>(),
        side_by_side(s, u),
        na.segments == seq![laid(s, turn)],
        nb.segments == seq![laid(u, turn)],
        tech.rules.layers.contains_key(s.layer),
        spacing(tech.widths, s, u) <= tech.rules.couple_cutoff.spec_millionths(),
        number::zero::<N>().spec_below(tech.rules.eps_r),
        known(tech.thicknesses, s.layer),
        number::zero::<N>().spec_below(low),
        number::zero::<N>().spec_below(high),
        low.spec_below(high),
        !tech.rules.heights.contains_key(s.layer),
        reports(bare, tech, seq![na, nb]),
        reports(
            below,
            TechView {
                rules: RulesView {
                    heights: tech.rules.heights.insert(s.layer, low),
                    ..tech.rules
                },
                ..tech
            },
            seq![na, nb],
        ),
        reports(
            above,
            TechView {
                rules: RulesView {
                    heights: tech.rules.heights.insert(s.layer, high),
                    ..tech.rules
                },
                ..tech
            },
            seq![na, nb],
        ),
    ensures
        bare.len() == 1 && below.len() == 1 && above.len() == 1,
        below[0].cap.spec_below(bare[0].cap),
        below[0].cap.spec_below(above[0].cap),
        above[0].cap.spec_below(bare[0].cap),
        number::zero::<N>().spec_below(below[0].cap),
{
    let at = |h: N|
        TechView {
            rules: RulesView { heights: tech.rules.heights.insert(s.layer, h), ..tech.rules },
            ..tech
        };
    two_wires_without_a_height(tech, na, nb, s, u, turn, bare);
    two_wires_at_a_height(at(low), na, nb, s, u, turn, below);
    two_wires_at_a_height(at(high), na, nb, s, u, turn, above);
    let (eps, t) = (tech.rules.eps_r, tech.thicknesses[s.layer]);
    lemma_heights(eps, t, low, high, spacing(tech.widths, s, u), run_length(s, u));
    lemma_heights(eps, t, high, high, spacing(tech.widths, s, u), run_length(s, u));
}

/// Those of contributions that are of a pair.
pub open spec fn of_pair<N: Real>(cs: Seq<(int, int, N)>, pair: (int, int)) -> Seq<N>
    decreases cs.len(),
{
    if cs.len() == 0 {
        Seq::empty()
    } else if cs.last().0 == pair.0 && cs.last().1 == pair.1 {
        of_pair(cs.drop_last(), pair).push(cs.last().2)
    } else {
        of_pair(cs.drop_last(), pair)
    }
}

/// The coupling of a pair of nets is the sum of what its wires contribute, none left
/// out, and every pair with a contribution is kept, where the limit is not reached.
pub proof fn a_pair_sums_its_wires<N: Real>(
    cs: Seq<(int, int, N)>,
    max: int,
    k: int,
)
    requires
        cs.len() <= max,
        0 <= k < cs.len(),
    ensures
        ({
            let t = coupling::take_all(coupling::no_pairs::<N>(), cs, max);
            let pair = (cs[k].0, cs[k].1);
            exists|i: int|
                0 <= i < t.pairs.len() && i < t.caps.len() && #[trigger] t.pairs[i] == pair
                    && t.caps[i] == number::total(of_pair(cs, pair))
        }),
{
    lemma_sums(cs, max);
    let t = coupling::take_all(coupling::no_pairs::<N>(), cs, max);
    let i = t.pairs.index_of((cs[k].0, cs[k].1));
    assert(t.pairs.contains((cs[k].0, cs[k].1)));
    assert(t.pairs[i] == (cs[k].0, cs[k].1));
}

proof fn lemma_none_of<N: Real>(cs: Seq<(int, int, N)>, pair: (int, int))
    requires
        forall|k: int| 0 <= k < cs.len() ==> ((#[trigger] cs[k]).0, cs[k].1) != pair,
    ensures
        of_pair(cs, pair).len() == 0,
    decreases cs.len(),
{
    if cs.len() > 0 {
        let d = cs.drop_last();
        assert forall|k: int| 0 <= k < d.len() implies ((#[trigger] d[k]).0, d[k].1) != pair by {
            assert(d[k] == cs[k]);
        }
        lemma_none_of(d, pair);
        assert(cs.last() == cs[cs.len() - 1]);
    }
}

#[verifier::rlimit(50)]
proof fn lemma_sums<N: Real>(cs: Seq<(int, int, N)>, max: int)
    requires
        cs.len() <= max,
    ensures
        ({
            let t = coupling::take_all(coupling::no_pairs::<N>(), cs, max);
            &&& t.pairs.len() == t.caps.len() <= cs.len()
            &&& t.pairs.no_duplicates()
            &&& forall|i: int|
                0 <= i < t.pairs.len() ==> t.caps[i] == number::total(
                    of_pair(cs, #[trigger] t.pairs[i]),
                )
            &&& forall|k: int|
                0 <= k < cs.len() ==> t.pairs.contains(((#[trigger] cs[k]).0, cs[k].1))
            &&& forall|i: int|
                0 <= i < t.pairs.len() ==> exists|k: int|
                    0 <= k < cs.len() && ((#[trigger] cs[k]).0, cs[k].1) == #[trigger] t.pairs[i]
        }),
    decreases cs.len(),
{
    let t = coupling::take_all(coupling::no_pairs::<N>(), cs, max);
    if cs.len() > 0 {
        let d = cs.drop_last();
        lemma_sums(d, max);
        let b = coupling::take_all(coupling::no_pairs::<N>(), d, max);
        let c = cs.last();
        let key = (c.0, c.1);
        assert(cs[cs.len() - 1] == c);
        assert(t == coupling::take_up(b, c, max));
        assert(b.pairs.len() < max);
        if !b.pairs.contains(key) {
            assert forall|k: int| 0 <= k < d.len() implies ((#[trigger] d[k]).0, d[k].1) != key by {
                assert(b.pairs.contains((d[k].0, d[k].1)));
            }
            lemma_none_of(d, key);
            assert(of_pair(d, key) == Seq::<N>::empty());
        } else {
            assert(b.pairs[b.pairs.index_of(key)] == key);
        }
        assert forall|i: int| 0 <= i < t.pairs.len() implies t.caps[i] == number::total(
            of_pair(cs, #[trigger] t.pairs[i]),
        ) by {
            let p = t.pairs[i];
            if p == key {
                assert(of_pair(cs, p).drop_last() =~= of_pair(d, p));
                assert(of_pair(cs, p).last() == c.2);
                assert(number::total(of_pair(cs, p)) == number::total(of_pair(d, p)).spec_plus(
                    c.2,
                ));
                if b.pairs.contains(key) {
                    assert(i == b.pairs.index_of(key));
                    assert(b.caps[i] == number::total(of_pair(d, b.pairs[i])));
                } else {
                    assert(i == b.pairs.len()) by {
                        if i < b.pairs.len() {
                            assert(b.pairs[i] == key);
                        }
                    }
                    assert(number::total(of_pair(d, p)) == number::zero::<N>());
                    assert(t.caps[i] == number::zero::<N>().spec_plus(c.2));
                }
            } else {
                assert(i < b.pairs.len());
                assert(b.pairs[i] == p);
                assert(of_pair(cs, p) == of_pair(d, p));
                assert(t.caps[i] == b.caps[i]);
            }
        }
        assert forall|k: int| 0 <= k < cs.len() implies t.pairs.contains(
            ((#[trigger] cs[k]).0, cs[k].1),
        ) by {
            let q = (cs[k].0, cs[k].1);
            if k < d.len() {
                assert(d[k] == cs[k]);
                assert(b.pairs.contains((d[k].0, d[k].1)));
                let j = b.pairs.index_of(q);
                assert(t.pairs[j] == q);
            } else if !b.pairs.contains(key) {
                assert(t.pairs[b.pairs.len() as int] == key);
            }
        }
        assert forall|i: int| 0 <= i < t.pairs.len() implies exists|k: int|
            0 <= k < cs.len() && ((#[trigger] cs[k]).0, cs[k].1) == #[trigger] t.pairs[i] by {
            if i < b.pairs.len() {
                let k = choose|k: int|
                    0 <= k < d.len() && ((#[trigger] d[k]).0, d[k].1) == b.pairs[i];
                assert(d[k] == cs[k]);
                assert(t.pairs[i] == b.pairs[i]);
            } else {
                assert((cs[cs.len() - 1].0, cs[cs.len() - 1].1) == t.pairs[i]);
            }
        }
    }
}

/// Every two wires of different nets that couple contribute, once, to the pair of their
/// nets.
pub proof fn every_pair_of_wires_contributes<N: Real>(
    tech: TechView<N>,
    nets: Seq<NetView>,
    rails: Seq<SegmentView>,
    i: int,
    j: int,
    c: N,
)
    requires
        0 <= i < j < coupling::owners(nets).len(),
        coupling::owners(nets)[i] != coupling::owners(nets)[j],
        coupling::pair_cap(
            tech,
            coupling::all_metal(nets, rails),
            coupling::all_metal(nets, rails)[i],
            coupling::all_metal(nets, rails)[j],
        ) == Some(c),
        number::zero::<N>().spec_below(c),
    ensures
        ({
            let (a, b) = (coupling::owners(nets)[i], coupling::owners(nets)[j]);
            let p = if a <= b {
                (a, b, c)
            } else {
                (b, a, c)
            };
            coupling::all_contributions(tech, nets, rails).contains(p)
        }),
{
    let owners = coupling::owners(nets);
    let n = owners.len() as int;
    let metal = coupling::all_metal(nets, rails);
    let p = coupling::contribution(tech, metal, owners, i, j)->0;
    lemma_in_row(tech, metal, owners, i, j, n, p);
    lemma_in_band(tech, metal, owners, i, n, p);
}

proof fn lemma_in_row<N: Real>(
    tech: TechView<N>,
    metal: Seq<SegmentView>,
    owners: Seq<int>,
    i: int,
    j: int,
    n: int,
    p: (int, int, N),
)
    requires
        0 <= i < j < n <= owners.len(),
        coupling::contribution(tech, metal, owners, i, j) == Some(p),
    ensures
        coupling::row_upto(tech, metal, owners, i, n).contains(p),
    decreases n,
{
    let before = coupling::row_upto(tech, metal, owners, i, n - 1);
    let all = coupling::row_upto(tech, metal, owners, i, n);
    if j == n - 1 {
        assert(all[before.len() as int] == p);
    } else {
        lemma_in_row(tech, metal, owners, i, j, n - 1, p);
        assert(all[before.index_of(p)] == p);
    }
}

proof fn lemma_in_band<N: Real>(
    tech: TechView<N>,
    metal: Seq<SegmentView>,
    owners: Seq<int>,
    i: int,
    hi: int,
    p: (int, int, N),
)
    requires
        0 <= i < hi <= owners.len(),
        coupling::row_upto(tech, metal, owners, i, owners.len() as int).contains(p),
    ensures
        coupling::band(tech, metal, owners, 0, hi).contains(p),
    decreases hi,
{
    let before = coupling::band(tech, metal, owners, 0, hi - 1);
    let row = coupling::row_upto(tech, metal, owners, hi - 1, owners.len() as int);
    let all = coupling::band(tech, metal, owners, 0, hi);
    assert(all == before + row);
    if i == hi - 1 {
        assert(all[before.len() + row.index_of(p)] == p);
    } else {
        lemma_in_band(tech, metal, owners, i, hi - 1, p);
        assert(all[before.index_of(p)] == p);
    }
}

/// The length over which a wire runs beside the common run of two others, all along the x
/// axis.
pub open spec fn hides(s: SegmentView, u: SegmentView, c: SegmentView) -> int {
    let (lo, hi) = (
        greatest(least(s.x0, s.x1), least(u.x0, u.x1)),
        least(greatest(s.x0, s.x1), greatest(u.x0, u.x1)),
    );
    let (from, to) = (greatest(lo, least(c.x0, c.x1)), least(hi, greatest(c.x0, c.x1)));
    if from < to {
        to - from
    } else {
        0
    }
}

/// The lesser of two coordinates.
pub open spec fn least(a: int, b: int) -> int {
    if a <= b {
        a
    } else {
        b
    }
}

/// The greater of two coordinates.
pub open spec fn greatest(a: int, b: int) -> int {
    if a >= b {
        a
    } else {
        b
    }
}

/// A wire of the layer between two others, of any net or a power rail, hides just the
/// stretch that it spans: they see each other over the rest of their common run. One that
/// is not between them, on another layer, or across them hides nothing.
#[verifier::rlimit(50)]
pub proof fn a_wire_between_hides_what_it_spans(
    s: SegmentView,
    u: SegmentView,
    c: SegmentView,
    turn: bool,
)
    requires
        side_by_side(s, u),
    ensures
        ({
            let (a, b, d) = (laid(s, turn), laid(u, turn), laid(c, turn));
            let axis = if turn {
                Axis::Vertical
            } else {
                Axis::Horizontal
            };
            let blocks = c.layer == s.layer && c.y0 == c.y1 && (s.y0 < c.y0 < u.y0 || u.y0 < c.y0
                < s.y0);
            let seen = sight::visible(seq![a, b, d], a, b, axis);
            &&& blocks ==> seen == run_length(s, u) - hides(s, u, c)
            &&& !blocks ==> seen == run_length(s, u)
        }),
{
    let (a, b, d) = (laid(s, turn), laid(u, turn), laid(c, turn));
    let axis = if turn {
        Axis::Vertical
    } else {
        Axis::Horizontal
    };
    let metal = seq![a, b, d];
    let p = |x: int| !sight::hidden(metal, a, b, axis, x);
    let (lo, hi) = (sight::common_lo(a, b, axis), sight::common_hi(a, b, axis));
    let blocks = c.layer == s.layer && c.y0 == c.y1 && (s.y0 < c.y0 < u.y0 || u.y0 < c.y0 < s.y0);
    let (c0, c1) = (least(c.x0, c.x1), greatest(c.x0, c.x1));
    assert forall|x: int| #[trigger] p(x) <==> !(blocks && c0 <= x < c1) by {
        if sight::hidden(metal, a, b, axis, x) {
            let k = choose|k: int|
                0 <= k < metal.len() && sight::shadows(#[trigger] metal[k], a, b, axis, x);
            assert(metal[k] == a || metal[k] == b || metal[k] == d);
        }
        if blocks && c0 <= x < c1 {
            assert(sight::shadows(metal[2], a, b, axis, x));
        }
    }
    let from = greatest(lo, c0);
    let to = least(hi, c1);
    if blocks && from < to {
        sight::lemma_count_split(p, lo, from, hi);
        sight::lemma_count_split(p, from, to, hi);
        sight::lemma_count_all(p, lo, from);
        sight::lemma_count_none(p, from, to);
        sight::lemma_count_all(p, to, hi);
    } else {
        assert forall|x: int| lo <= x < hi implies #[trigger] p(x) by {}
        sight::lemma_count_all(p, lo, hi);
    }
}

/// The area that a wire covers: its run, widened to both sides by half its width.
pub open spec fn covers<N: Real>(widths: Map<Seq<char>, N>, s: SegmentView) -> (
    int,
    int,
    int,
    int,
) {
    let half = breadth(widths, s) / 2;
    let (x0, x1) = (least(s.x0, s.x1), greatest(s.x0, s.x1));
    let (y0, y1) = (least(s.y0, s.y1), greatest(s.y0, s.y1));
    if s.y0 == s.y1 {
        (x0, y0 - half, x1, y1 + half)
    } else if s.x0 == s.x1 {
        (x0 - half, y0, x1 + half, y1)
    } else {
        (x0, y0, x1, y1)
    }
}

/// Two nets of one wire each on different layers couple with the coefficient that the deck
/// has for the two layers times the area that both wires cover, and not at all where they
/// cover none together.
pub proof fn two_wires_that_overlap<N: Real>(
    tech: TechView<N>,
    na: NetView,
    nb: NetView,
    s: SegmentView,
    u: SegmentView,
    out: Seq<CapView<N>>,
)
    requires
        zero_is_nothing::<N>(),
        s.layer != u.layer,
        na.segments == seq![s],
        nb.segments == seq![u],
        reports(out, tech, seq![na, nb]),
    ensures
        ({
            let (p, q) = (covers(tech.widths, s), covers(tech.widths, u));
            let dx = least(p.2, q.2) - greatest(p.0, q.0);
            let dy = least(p.3, q.3) - greatest(p.1, q.1);
            let k = if text::text_lt(s.layer, u.layer) {
                (s.layer, u.layer)
            } else {
                (u.layer, s.layer)
            };
            let met = tech.rules.interlayer.contains_key(k) && dx > 0 && dy > 0;
            &&& met ==> out == one_pair(
                na,
                nb,
                tech.rules.interlayer[k].spec_times(N::spec_micro(dx).spec_times(N::spec_micro(dy))),
            )
            &&& !met ==> out.len() == 0
        }),
{
    lemma_two_nets(tech, na, nb, s, u, out);
    text::lemma_text_lt_total(s.layer, u.layer);
    if text::text_lt(s.layer, u.layer) && text::text_lt(u.layer, s.layer) {
        text::lemma_text_lt_trans(s.layer, u.layer, s.layer);
        text::lemma_text_lt_irreflexive(s.layer);
    }
}

/// The limit on pairs is what a setting says in decimal digits, with or without a plus
/// sign, where it is above zero and can be counted to; otherwise a hundred million.
pub proof fn the_limit_is_what_is_set(digits: Seq<char>)
    requires
        text::trim(digits) == digits,
        text::is_digits(digits),
    ensures
        0 < text::digits_value(digits) <= usize::MAX ==> coupling::pair_limit(Some(digits))
            == text::digits_value(digits),
        text::digits_value(digits) == 0 ==> coupling::pair_limit(Some(digits)) == 100_000_000,
        coupling::pair_limit(None) == 100_000_000,
{
    if digits.len() > 0 && digits[0] == '+' {
        assert(text::is_digit(digits[0]));
    }
}

/// An extraction couples by its deck and by the widths and thicknesses of its LEF: without
/// power rails its report of coupling is the one of its layout under these. It never
/// reports more pairs than the limit allows.
pub proof fn an_extraction_couples_by_its_inputs<N: Real>(x: Extraction<N>, i: Inputs<N>)
    requires
        engine::is_extraction(x, i),
    ensures
        i.def.rails@.len() == 0 && i.max_pairs >= 1 ==> reports(
            coupling::caps_view(x.couplings@),
            TechView {
                rules: i.rules@,
                widths: i.lef.widths@,
                thicknesses: i.lef.thicknesses@,
            },
            geom::nets_view(i.def.nets@),
        ),
        x.couplings@.len() <= i.max_pairs,
{
    let nets = geom::nets_view(i.def.nets@);
    let rails = geom::segments_view(i.def.rails@);
    let tech = TechView {
        rules: i.rules@,
        widths: i.lef.widths@,
        thicknesses: i.lef.thicknesses@,
    };
    let max = i.max_pairs as int;
    let out = coupling::caps_view(x.couplings@);
    let t = coupling::coupling_table(tech, nets, rails, max);
    if i.def.rails@.len() == 0 {
        assert(rails =~= Seq::<SegmentView>::empty());
        if max >= 1 {
            assert(coupling::is_ordered_form(out, coupling::named(t, nets)));
        }
    }
    let cs = coupling::all_contributions(tech, nets, rails);
    coupling::a_limit_only_drops_pairs(cs, max, max);
    limit::lemma_named_short(t, nets, t.pairs.len() as int);
    assert(out.len() == x.couplings@.len());
}

/// A report of couplings is in the order of the names of the nets: by the first name, and
/// by the second where the first is the same. It lists what it is made of, each once.
pub proof fn a_report_is_in_the_order_of_names<N: Real>(
    out: Seq<CapView<N>>,
    list: Seq<CapView<N>>,
    i: int,
    j: int,
)
    requires
        coupling::is_ordered_form(out, list),
        0 <= i < j < out.len(),
    ensures
        out.len() == list.len(),
        list.contains(out[i]),
        text::text_lt(out[i].a, out[j].a) || out[i].a == out[j].a && (text::text_lt(
            out[i].b,
            out[j].b,
        ) || out[i].b == out[j].b),
{
    let names = coupling::net_names(list);
    let order = choose|order: Seq<usize>| #[trigger]
        sort::orders(order, names) && out == Seq::new(list.len(), |i: int| list[order[i] as int]);
    assert(sort::name_comes(names, order[i], order[j]));
    assert(order.contains(order[i]) && order.contains(order[j]));
    assert(out[i] == list[order[i] as int] && out[j] == list[order[j] as int]);
}

} // verus!

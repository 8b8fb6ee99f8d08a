//! Coupling capacitance between nets.
//!
//! Parallel wires of one layer couple laterally over the length on which they
//! see each other, up to a cutoff; wires of different layers couple over the
//! area where they cross, if the deck has a coefficient for the two layers. A
//! grid over the plane finds the wires near a wire, so that the work grows with
//! the routed area; what comes out is what testing every pair would give.
use crate::def::{DefNet, NetView, Segment, SegmentView};
use crate::field;
use crate::geom;
use crate::geom::Rect;
use crate::grid;
use crate::grid::Grid;
use crate::number;
use crate::number::Real;
use crate::rules;
use crate::rules::{LayerRc, RcRules, RulesView};
use crate::sight;
use crate::sight::Axis;
use crate::sort;
use crate::sort::Ordered;
use crate::strmap::StrMap;
use crate::text;
use std::collections::HashMap;
use vstd::prelude::*;

verus! {

broadcast use vstd::std_specs::hash::group_hash_axioms;

/// The coupling (fF) of two nets.
#[derive(Clone, Debug)]
pub struct CouplingCap<N: Real> {
    pub a: String,
    pub b: String,
    pub cap_ff: N,
}

/// What a [`CouplingCap`] is.
#[verifier::ext_equal]
pub struct CapView<N: Real> {
    pub a: Seq<char>,
    pub b: Seq<char>,
    pub cap: N,
}

impl<N: Real> View for CouplingCap<N> {
    type V = CapView<N>;

    open spec fn view(&self) -> CapView<N> {
        CapView { a: self.a@, b: self.b@, cap: self.cap_ff }
    }
}

/// The views of a list of coupling capacitances.
pub open spec fn caps_view<N: Real>(v: Seq<CouplingCap<N>>) -> Seq<CapView<N>> {
    Seq::new(v.len(), |i: int| v[i]@)
}

/// The most distinct pairs of nets that are kept where the caller sets no
/// limit.
pub const DEFAULT_MAX_COUPLING_PAIRS: usize = 100_000_000;

/// The technology that coupling depends on: the deck, and the widths and
/// thicknesses (um) of the layers.
#[verifier::ext_equal]
pub struct TechView<N: Real> {
    pub rules: RulesView<N>,
    pub widths: Map<Seq<char>, N>,
    pub thicknesses: Map<Seq<char>, N>,
}

/// The value of a layer in a table, or zero.
pub open spec fn value_or_zero<N: Real>(m: Map<Seq<char>, N>, layer: Seq<char>) -> N {
    if m.contains_key(layer) {
        m[layer]
    } else {
        number::zero()
    }
}

/// The default width of a layer in picometres; a negative one counts as zero.
pub open spec fn layer_width<N: Real>(widths: Map<Seq<char>, N>, layer: Seq<char>) -> int {
    geom::max(value_or_zero(widths, layer).spec_millionths(), 0)
}

/// The width of a wire in picometres.
pub open spec fn wire_width<N: Real>(widths: Map<Seq<char>, N>, s: SegmentView) -> int {
    s.wide(layer_width(widths, s.layer))
}

/// The area that a wire covers.
pub open spec fn area<N: Real>(widths: Map<Seq<char>, N>, s: SegmentView) -> (int, int, int, int) {
    s.footprint(layer_width(widths, s.layer))
}

/// The gap from edge to edge between two parallel wires, in picometres: the
/// distance of their tracks less half of the two widths.
pub open spec fn edge_gap<N: Real>(
    widths: Map<Seq<char>, N>,
    a: SegmentView,
    b: SegmentView,
    axis: Axis,
) -> int {
    geom::dist(sight::track(a, axis), sight::track(b, axis)) - (wire_width(widths, a) + wire_width(
        widths,
        b,
    )) / 2
}

/// The gap beyond which lateral coupling is ignored, in picometres.
pub open spec fn reach<N: Real>(rules: RulesView<N>) -> int {
    rules.couple_cutoff.spec_millionths()
}

/// Where a gap lies in a fall-off curve: the first of the first `n` spans that
/// holds it.
pub open spec fn span_of<N: Real>(pts: Seq<(N, N)>, gap: N, i: int) -> Option<int>
    decreases pts.len() - i,
{
    if i < 0 || i + 1 >= pts.len() {
        None
    } else if !gap.spec_below(pts[i].0) && gap.spec_below(pts[i + 1].0) {
        Some(i)
    } else {
        span_of(pts, gap, i + 1)
    }
}

/// The factor by which coupling has fallen off at a gap (um): by the layer's
/// curve where the deck has one, else `s_ref / max(gap, s_ref)`. A curve is
/// constant before its first point, linear between its points, and falls as
/// one over the gap after its last.
pub open spec fn falloff<N: Real>(
    rules: RulesView<N>,
    layer: Seq<char>,
    l: LayerRc<N>,
    gap: N,
) -> N {
    if !rules.couple_shapes.contains_key(layer) || rules.couple_shapes[layer].len() == 0 {
        l.s_ref.spec_over(number::greater(gap, l.s_ref))
    } else {
        let pts = rules.couple_shapes[layer];
        if !pts[0].0.spec_below(gap) {
            pts[0].1
        } else {
            match span_of(pts, gap, 0) {
                Some(i) => {
                    let ((x0, y0), (x1, y1)) = (pts[i], pts[i + 1]);
                    let span = x1.spec_minus(x0);
                    if number::positive(span) {
                        y0.spec_plus(
                            y1.spec_minus(y0).spec_times(gap.spec_minus(x0)).spec_over(span),
                        )
                    } else {
                        y0
                    }
                },
                None => pts.last().1.spec_times(pts.last().0).spec_over(gap),
            }
        }
    }
}

/// The coupling of `len` picometres of parallel run at a gap of `gap`
/// picometres: by the field kernel where the deck has a permittivity and the
/// layer a thickness, else by the layer's coefficient, if it has one.
pub open spec fn run_coupling<N: Real>(
    tech: TechView<N>,
    layer: Seq<char>,
    len: int,
    gap: int,
) -> Option<N> {
    let (ov, g) = (N::spec_micro(len), N::spec_micro(gap));
    let l = tech.rules.layers[layer];
    let t = value_or_zero(tech.thicknesses, layer);
    if number::positive(tech.rules.eps_r) && number::positive(t) {
        Some(
            field::fringe(
                tech.rules.eps_r,
                t,
                value_or_zero(tech.rules.heights, layer),
                g,
            ).spec_times(ov),
        )
    } else if number::positive(l.coupling_per_um) {
        Some(l.coupling_per_um.spec_times(ov).spec_times(falloff(tech.rules, layer, l, g)))
    } else {
        None
    }
}

/// The lateral coupling of two wires among all metal.
pub open spec fn lateral<N: Real>(
    tech: TechView<N>,
    metal: Seq<SegmentView>,
    a: SegmentView,
    b: SegmentView,
) -> Option<N> {
    match sight::side_by_side(a, b) {
        None => None,
        Some(axis) => {
            let gap = edge_gap(tech.widths, a, b, axis);
            let len = sight::visible(metal, a, b, axis);
            if len > 0 && gap <= reach(tech.rules) && tech.rules.layers.contains_key(a.layer) {
                run_coupling(tech, a.layer, len, gap)
            } else {
                None
            }
        },
    }
}

/// How far two stretches overlap.
pub open spec fn overlap(alo: int, ahi: int, blo: int, bhi: int) -> int {
    geom::min(ahi, bhi) - geom::max(alo, blo)
}

/// The areal coupling of two wires on different layers.
pub open spec fn crossing<N: Real>(tech: TechView<N>, a: SegmentView, b: SegmentView) -> Option<N> {
    let key = rules::pair_key(a.layer, b.layer);
    let (ra, rb) = (area(tech.widths, a), area(tech.widths, b));
    let dx = overlap(ra.0, ra.2, rb.0, rb.2);
    let dy = overlap(ra.1, ra.3, rb.1, rb.3);
    if tech.rules.interlayer.contains_key(key) && dx > 0 && dy > 0 {
        Some(
            tech.rules.interlayer[key].spec_times(
                N::spec_micro(dx).spec_times(N::spec_micro(dy)),
            ),
        )
    } else {
        None
    }
}

/// The coupling of two wires among all metal, if they couple.
pub open spec fn pair_cap<N: Real>(
    tech: TechView<N>,
    metal: Seq<SegmentView>,
    a: SegmentView,
    b: SegmentView,
) -> Option<N> {
    if a.layer == b.layer {
        lateral(tech, metal, a, b)
    } else {
        crossing(tech, a, b)
    }
}

/// The layer's entry in a table, or zero.
fn lookup<N: Real>(m: &StrMap<N>, layer: &str) -> (r: N)
    ensures
        r == value_or_zero(m@, layer@),
{
    match m.get(layer) {
        Some(v) => *v,
        None => number::zero_of(),
    }
}

/// The factor by which coupling has fallen off at a gap (um).
pub fn couple_shape<N: Real>(rules: &RcRules<N>, layer: &str, l: &LayerRc<N>, gap: N) -> (r: N)
    ensures
        r == falloff(rules@, layer@, *l, gap),
{
    match rules.couple_shapes.get(layer) {
        None => l.s_ref.over(number::greater_of(gap, l.s_ref)),
        Some(pts) => {
            assert(rules@.couple_shapes[layer@] == pts@);
            if pts.len() == 0 {
                return l.s_ref.over(number::greater_of(gap, l.s_ref));
            }
            if !pts[0].0.below(gap) {
                return pts[0].1;
            }
            let last: usize = pts.len() - 1;
            let mut i: usize = 0;
            while i < last
                invariant
                    i <= last,
                    last == pts@.len() - 1,
                    rules@.couple_shapes.contains_key(layer@),
                    rules@.couple_shapes[layer@] == pts@,
                    pts@[0].0.spec_below(gap),
                    span_of(pts@, gap, i as int) == span_of(pts@, gap, 0),
                decreases last - i,
            {
                let (x0, y0) = pts[i];
                let (x1, y1) = pts[i + 1];
                if !gap.below(x0) && gap.below(x1) {
                    let span: N = x1.minus(x0);
                    return if number::is_positive(span) {
                        y0.plus(y1.minus(y0).times(gap.minus(x0)).over(span))
                    } else {
                        y0
                    };
                }
                i = i + 1;
            }
            let (sn, fnl) = pts[last];
            fnl.times(sn).over(gap)
        },
    }
}

fn run_coupling_of<N: Real>(
    rules: &RcRules<N>,
    thicknesses: &StrMap<N>,
    layer: &str,
    l: &LayerRc<N>,
    len: i128,
    gap: i128,
    Ghost(tech): Ghost<TechView<N>>,
) -> (r: Option<N>)
    requires
        tech.rules == rules@,
        tech.thicknesses == thicknesses@,
        *l == rules@.layers[layer@],
    ensures
        r == run_coupling(tech, layer@, len as int, gap as int),
{
    let ov: N = N::micro(len);
    let g: N = N::micro(gap);
    let t: N = lookup(thicknesses, layer);
    if number::is_positive(rules.eps_r) && number::is_positive(t) {
        let h: N = lookup(&rules.heights, layer);
        Some(field::coupling_per_um_fringe(rules.eps_r, t, h, g).times(ov))
    } else if number::is_positive(l.coupling_per_um) {
        Some(l.coupling_per_um.times(ov).times(couple_shape(rules, layer, l, g)))
    } else {
        None
    }
}

/// The wires of the first `n` nets, net by net.
pub open spec fn wires_upto(nets: Seq<NetView>, n: int) -> Seq<SegmentView>
    decreases n,
{
    if n <= 0 {
        Seq::empty()
    } else {
        wires_upto(nets, n - 1) + nets[n - 1].segments
    }
}

/// For each wire of the first `n` nets, the net that owns it.
pub open spec fn owners_upto(nets: Seq<NetView>, n: int) -> Seq<int>
    decreases n,
{
    if n <= 0 {
        Seq::empty()
    } else {
        owners_upto(nets, n - 1) + Seq::new(nets[n - 1].segments.len(), |j: int| n - 1)
    }
}

/// For each wire of the nets, the net that owns it.
pub open spec fn owners(nets: Seq<NetView>) -> Seq<int> {
    owners_upto(nets, nets.len() as int)
}

/// All metal: the wires of the nets, then the rails, which no net owns.
pub open spec fn all_metal(nets: Seq<NetView>, rails: Seq<SegmentView>) -> Seq<SegmentView> {
    wires_upto(nets, nets.len() as int) + rails
}

/// What wires `i` and `j` contribute: the two nets, the lesser first, and the
/// coupling between them. Wires of one net contribute nothing.
pub open spec fn contribution<N: Real>(
    tech: TechView<N>,
    metal: Seq<SegmentView>,
    owners: Seq<int>,
    i: int,
    j: int,
) -> Option<(int, int, N)> {
    if owners[i] == owners[j] {
        None
    } else {
        match pair_cap(tech, metal, metal[i], metal[j]) {
            Some(c) => if number::positive(c) {
                Some((geom::min(owners[i], owners[j]), geom::max(owners[i], owners[j]), c))
            } else {
                None
            },
            None => None,
        }
    }
}

/// What wire `i` contributes with the wires after it and before `n`.
pub open spec fn row_upto<N: Real>(
    tech: TechView<N>,
    metal: Seq<SegmentView>,
    owners: Seq<int>,
    i: int,
    n: int,
) -> Seq<(int, int, N)>
    decreases n,
{
    if n <= i + 1 || n <= 0 {
        Seq::empty()
    } else {
        let before = row_upto(tech, metal, owners, i, n - 1);
        match contribution(tech, metal, owners, i, n - 1) {
            Some(c) => before.push(c),
            None => before,
        }
    }
}

/// What the wires from `lo` up to `hi` contribute, each with the wires after
/// it: every pair once.
pub open spec fn band<N: Real>(
    tech: TechView<N>,
    metal: Seq<SegmentView>,
    owners: Seq<int>,
    lo: int,
    hi: int,
) -> Seq<(int, int, N)>
    decreases hi,
{
    if hi <= lo || hi <= 0 {
        Seq::empty()
    } else {
        band(tech, metal, owners, lo, hi - 1) + row_upto(
            tech,
            metal,
            owners,
            hi - 1,
            owners.len() as int,
        )
    }
}

/// Scanning in bands gives what one scan gives: the contributions of two
/// adjoining bands, one after the other, are those of the two as one band.
pub proof fn bands_join<N: Real>(
    tech: TechView<N>,
    metal: Seq<SegmentView>,
    owners: Seq<int>,
    lo: int,
    mid: int,
    hi: int,
)
    requires
        0 <= lo <= mid <= hi,
    ensures
        band(tech, metal, owners, lo, mid) + band(tech, metal, owners, mid, hi) == band(
            tech,
            metal,
            owners,
            lo,
            hi,
        ),
    decreases hi - mid,
{
    let left = band(tech, metal, owners, lo, mid);
    if mid == hi {
        assert(left + band(tech, metal, owners, mid, hi) == left);
    } else {
        bands_join(tech, metal, owners, lo, mid, hi - 1);
        let r = row_upto(tech, metal, owners, hi - 1, owners.len() as int);
        assert(left + (band(tech, metal, owners, mid, hi - 1) + r) == (left + band(
            tech,
            metal,
            owners,
            mid,
            hi - 1,
        )) + r);
    }
}

/// One contribution to the coupling of a pair of nets.
#[derive(Clone, Copy, Debug)]
pub struct Contribution<N: Real> {
    pub a: usize,
    pub b: usize,
    pub cap_ff: N,
}

/// The views of a list of contributions.
pub open spec fn contributions<N: Real>(v: Seq<Contribution<N>>) -> Seq<(int, int, N)> {
    Seq::new(v.len(), |i: int| (v[i].a as int, v[i].b as int, v[i].cap_ff))
}

/// The wires of a design in the plane, ready to be scanned for pairs that
/// couple.
#[derive(Debug)]
pub struct Scene {
    owner: Vec<usize>,
    metal: Vec<Segment>,
    wide: Vec<i64>,
    areas: Vec<Rect>,
    grid: Grid,
    pad: i128,
}

spec fn ints(v: Seq<usize>) -> Seq<int> {
    Seq::new(v.len(), |i: int| v[i] as int)
}

/// Whether two wires that couple come within `pad` of each other.
proof fn lemma_coupled_is_close<N: Real>(
    tech: TechView<N>,
    metal: Seq<SegmentView>,
    a: SegmentView,
    b: SegmentView,
    pad: int,
)
    requires
        pair_cap(tech, metal, a, b) is Some,
        pad >= 1 + geom::max(reach(tech.rules), 0),
    ensures
        grid::close(area(tech.widths, a), area(tech.widths, b), pad),
{
    if a.layer == b.layer {
        let axis = sight::side_by_side(a, b)->0;
        sight::visible_is_part_of_the_run(metal, a, b, axis);
        let (wa, wb) = (wire_width(tech.widths, a), wire_width(tech.widths, b));
        assert((wa + wb) / 2 <= wa / 2 + wb / 2 + 1);
    }
}

/// Whether a wire that hides part of one wire from another within reach comes
/// within `pad` of the first.
proof fn lemma_blocker_is_close<N: Real>(
    tech: TechView<N>,
    a: SegmentView,
    b: SegmentView,
    c: SegmentView,
    axis: Axis,
    x: int,
    pad: int,
)
    requires
        sight::side_by_side(a, b) == Some(axis),
        sight::common_lo(a, b, axis) <= x < sight::common_hi(a, b, axis),
        sight::shadows(c, a, b, axis, x),
        edge_gap(tech.widths, a, b, axis) <= reach(tech.rules),
        pad >= 1 + geom::max(reach(tech.rules), 0) + wire_width(tech.widths, b),
        wire_width(tech.widths, b) >= 0,
    ensures
        grid::close(area(tech.widths, a), area(tech.widths, c), pad),
{
    let (wa, wb) = (wire_width(tech.widths, a), wire_width(tech.widths, b));
    assert((wa + wb) / 2 <= wa / 2 + wb / 2 + 1);
}

/// Whether a width and a rectangle are those of a wire, and the width is within
/// a bound.
spec fn laid_out<N: Real>(
    widths: Map<Seq<char>, N>,
    s: SegmentView,
    wide: i64,
    r: Rect,
    widest: i64,
) -> bool {
    &&& wide == wire_width(widths, s)
    &&& 0 <= wide <= widest
    &&& r.corners() == area(widths, s)
    &&& grid::in_plane(area(widths, s))
}

impl Scene {
    /// Whether the scene holds these nets and rails, laid out for these widths
    /// and this reach.
    pub closed spec fn shows<N: Real>(
        self,
        nets: Seq<NetView>,
        rails: Seq<SegmentView>,
        rules: RulesView<N>,
        widths: Map<Seq<char>, N>,
    ) -> bool {
        let m = all_metal(nets, rails);
        &&& ints(self.owner@) == owners(nets)
        &&& geom::segments_view(self.metal@) == m
        &&& self.owner@.len() <= self.metal@.len()
        &&& self.wide@.len() == m.len()
        &&& self.areas@.len() == m.len()
        &&& self.grid.below(m.len() as int)
        &&& 0 <= self.pad <= 0x2_0000_0000_0000_0000
        &&& forall|i: int|
            0 <= i < m.len() ==> self.holds_wire(i, #[trigger] m[i], rules, widths)
    }

    /// Whether wire `i` is laid out.
    spec fn holds_wire<N: Real>(
        self,
        i: int,
        s: SegmentView,
        rules: RulesView<N>,
        widths: Map<Seq<char>, N>,
    ) -> bool {
        &&& self.wide@[i] == wire_width(widths, s)
        &&& self.wide@[i] >= 0
        &&& self.areas@[i].corners() == area(widths, s)
        &&& grid::in_plane(area(widths, s))
        &&& self.grid.holds(i as usize, area(widths, s))
        &&& self.pad >= 1 + geom::max(reach(rules), 0) + wire_width(widths, s)
    }

    /// The number of wires that nets own.
    pub fn len(&self) -> (n: usize)
        ensures
            n == self.count(),
    {
        self.owner.len()
    }

    /// The number of wires that nets own.
    pub closed spec fn count(self) -> nat {
        self.owner@.len()
    }
}

/// A copy of a wire.
fn copy_segment(s: &Segment) -> (r: Segment)
    ensures
        r@ == s@,
{
    Segment { layer: s.layer.clone(), x0: s.x0, y0: s.y0, x1: s.x1, y1: s.y1, width: s.width }
}

proof fn lemma_wires_len(nets: Seq<NetView>, n: int)
    requires
        0 <= n <= nets.len(),
    ensures
        wires_upto(nets, n).len() == owners_upto(nets, n).len(),
    decreases n,
{
    if n > 0 {
        lemma_wires_len(nets, n - 1);
    }
}

/// The wires of the nets and rails, and the owners of the former.
fn flatten(nets: &Vec<DefNet>, rails: &Vec<Segment>) -> (r: (Vec<usize>, Vec<Segment>))
    ensures
        ints(r.0@) == owners(geom::nets_view(nets@)),
        geom::segments_view(r.1@) == all_metal(
            geom::nets_view(nets@),
            geom::segments_view(rails@),
        ),
        r.0@.len() <= r.1@.len(),
{
    let ghost nv = geom::nets_view(nets@);
    let mut owner: Vec<usize> = Vec::new();
    let mut metal: Vec<Segment> = Vec::new();
    assert(ints(owner@) == Seq::<int>::empty());
    assert(geom::segments_view(metal@) == Seq::<SegmentView>::empty());
    for n in 0..nets.len()
        invariant
            nv == geom::nets_view(nets@),
            ints(owner@) == owners_upto(nv, n as int),
            geom::segments_view(metal@) == wires_upto(nv, n as int),
    {
        let net = &nets[n];
        let ghost sv = nv[n as int].segments;
        assert(sv == geom::segments_view(net.segments@));
        let ghost o0 = ints(owner@);
        let ghost m0 = geom::segments_view(metal@);
        for j in 0..net.segments.len()
            invariant
                sv == geom::segments_view(net.segments@),
                ints(owner@) == o0 + Seq::new(j as nat, |j: int| n as int),
                geom::segments_view(metal@) == m0 + sv.take(j as int),
        {
            let s = copy_segment(&net.segments[j]);
            let ghost v = s@;
            assert(v == sv[j as int]);
            let ghost o1 = ints(owner@);
            let ghost m1 = geom::segments_view(metal@);
            owner.push(n);
            metal.push(s);
            assert(ints(owner@) == o1.push(n as int));
            assert(geom::segments_view(metal@) == m1.push(v));
            assert(o0 + Seq::new((j + 1) as nat, |j: int| n as int) == o1.push(n as int));
            assert(m0 + sv.take(j + 1) == m1.push(v));
        }
        assert(sv.take(sv.len() as int) == sv);
        assert(ints(owner@) == owners_upto(nv, n + 1));
    }
    proof {
        lemma_wires_len(nv, nv.len() as int);
        assert(ints(owner@).len() == owner@.len());
        assert(geom::segments_view(metal@).len() == metal@.len());
    }
    let ghost m0 = geom::segments_view(metal@);
    let ghost rv = geom::segments_view(rails@);
    for j in 0..rails.len()
        invariant
            rv == geom::segments_view(rails@),
            owner@.len() <= metal@.len(),
            geom::segments_view(metal@) == m0 + rv.take(j as int),
    {
        let s = copy_segment(&rails[j]);
        let ghost v = s@;
        let ghost m1 = geom::segments_view(metal@);
        assert(v == rv[j as int]);
        metal.push(s);
        assert(geom::segments_view(metal@) == m1.push(v));
        assert(m0 + rv.take(j + 1) == m1.push(v));
    }
    assert(rv.take(rv.len() as int) == rv);
    (owner, metal)
}

/// The default width of a layer in picometres.
fn layer_width_of<N: Real>(widths: &StrMap<N>, layer: &str) -> (r: i64)
    ensures
        r == layer_width(widths@, layer@),
        r >= 0,
{
    let w: i64 = lookup(widths, layer).millionths();
    if w < 0 {
        0
    } else {
        w
    }
}

impl Scene {
    /// Lays out nets and rails.
    pub fn new<N: Real>(
        nets: &Vec<DefNet>,
        rails: &Vec<Segment>,
        rules: &RcRules<N>,
        widths: &StrMap<N>,
    ) -> (r: Scene)
        ensures
            r.shows(geom::nets_view(nets@), geom::segments_view(rails@), rules@, widths@),
            r.count() == owners(geom::nets_view(nets@)).len(),
    {
        let ghost nv = geom::nets_view(nets@);
        let ghost rv = geom::segments_view(rails@);
        let (owner, metal) = flatten(nets, rails);
        let ghost m = all_metal(nv, rv);
        let reach_pm: i64 = rules.couple_cutoff.millionths();
        let mut wide: Vec<i64> = Vec::new();
        let mut areas: Vec<Rect> = Vec::new();
        let mut widest: i64 = 0;
        for i in 0..metal.len()
            invariant
                geom::segments_view(metal@) == m,
                wide@.len() == i,
                areas@.len() == i,
                widest >= 0,
                forall|j: int|
                    #![trigger m[j]]
                    0 <= j < i ==> laid_out(widths@, m[j], wide@[j], areas@[j], widest),
        {
            let s = &metal[i];
            assert(m[i as int] == s@);
            let d: i64 = layer_width_of(widths, s.layer.as_str());
            let w: i64 = s.wide(d);
            let r = s.footprint(d);
            let ghost (wide0, areas0, widest0) = (wide@, areas@, widest);
            wide.push(w);
            areas.push(r);
            if w > widest {
                widest = w;
            }
            assert(laid_out(widths@, m[i as int], w, r, widest));
            assert forall|j: int|
                #![trigger m[j]]
                0 <= j < i + 1 implies laid_out(widths@, m[j], wide@[j], areas@[j], widest) by {
                if j < i {
                    assert(laid_out(widths@, m[j], wide0[j], areas0[j], widest0));
                }
            }
        }
        let ghost total = metal@.len() as int;
        let base: i128 = if reach_pm > 0 {
            reach_pm as i128
        } else {
            0
        };
        let pad: i128 = base + widest as i128 + 1;
        let mut g: Grid = Grid::new(base + widest as i128);
        proof {
            g.lemma_below_more(0, total);
        }
        for i in 0..metal.len()
            invariant
                geom::segments_view(metal@) == m,
                total == metal@.len(),
                wide@.len() == metal@.len(),
                areas@.len() == metal@.len(),
                g.below(total),
                forall|j: int|
                    #![trigger m[j]]
                    0 <= j < metal@.len() ==> laid_out(widths@, m[j], wide@[j], areas@[j], widest),
                forall|j: int|
                    #![trigger m[j]]
                    0 <= j < i ==> g.holds(j as usize, area(widths@, m[j])),
        {
            assert(laid_out(widths@, m[i as int], wide@[i as int], areas@[i as int], widest));
            g.insert(i, &areas[i], Ghost(total));
        }
        assert(ints(owner@).len() == owner@.len());
        assert(geom::segments_view(metal@).len() == metal@.len());
        let r = Scene { owner, metal, wide, areas, grid: g, pad };
        assert forall|i: int| 0 <= i < m.len() implies r.holds_wire(
            i,
            #[trigger] m[i],
            rules@,
            widths@,
        ) by {
            assert(laid_out(widths@, m[i], wide@[i], areas@[i], widest));
        }
        r
    }

    /// The coupling of wires `i` and `j`, where `near` holds the wires that may
    /// be near `i`.
    fn pair_cap<N: Real>(
        &self,
        i: usize,
        j: usize,
        near: &Vec<usize>,
        rules: &RcRules<N>,
        thicknesses: &StrMap<N>,
        Ghost(nets): Ghost<Seq<NetView>>,
        Ghost(rails): Ghost<Seq<SegmentView>>,
        Ghost(tech): Ghost<TechView<N>>,
    ) -> (r: Option<N>)
        requires
            self.shows(nets, rails, tech.rules, tech.widths),
            tech.rules == rules@,
            tech.thicknesses == thicknesses@,
            i < all_metal(nets, rails).len(),
            j < all_metal(nets, rails).len(),
            forall|t: int| 0 <= t < near@.len() ==> near@[t] < all_metal(nets, rails).len(),
            forall|k: int|
                #![trigger all_metal(nets, rails)[k]]
                0 <= k < all_metal(nets, rails).len() && grid::close(
                    area(tech.widths, all_metal(nets, rails)[i as int]),
                    area(tech.widths, all_metal(nets, rails)[k]),
                    self.pad as int,
                ) ==> near@.contains(k as usize),
        ensures
            r == pair_cap(
                tech,
                all_metal(nets, rails),
                all_metal(nets, rails)[i as int],
                all_metal(nets, rails)[j as int],
            ),
    {
        let ghost m = all_metal(nets, rails);
        let a = &self.metal[i];
        let b = &self.metal[j];
        let ghost (av, bv) = (m[i as int], m[j as int]);
        assert(av == a@ && bv == b@);
        assert(self.holds_wire(i as int, av, tech.rules, tech.widths));
        assert(self.holds_wire(j as int, bv, tech.rules, tech.widths));
        if a.layer == b.layer {
            let axis: Axis = match sight::axis_of(a, b) {
                None => {
                    return None;
                },
                Some(x) => x,
            };
            let ta: i64 = sight::track_of(a, axis);
            let tb: i64 = sight::track_of(b, axis);
            let half: i128 = ((self.wide[i] as u128 + self.wide[j] as u128) / 2) as i128;
            let gap: i128 = geom::gap(ta, tb) - half;
            assert(gap == edge_gap(tech.widths, av, bv, axis));
            if gap > rules.couple_cutoff.millionths() as i128 {
                return None;
            }
            proof {
                assert forall|k: int, x: int|
                    0 <= k < m.len() && sight::common_lo(av, bv, axis) <= x < sight::common_hi(
                        av,
                        bv,
                        axis,
                    ) && #[trigger] sight::shadows(m[k], av, bv, axis, x) implies near@.contains(
                    k as usize,
                ) by {
                    lemma_blocker_is_close(tech, av, bv, m[k], axis, x, self.pad as int);
                }
            }
            let len: i128 = sight::visible_length(&self.metal, near, a, b, axis);
            if len <= 0 {
                return None;
            }
            match rules.layer(a.layer.as_str()) {
                None => None,
                Some(l) => run_coupling_of(
                    rules,
                    thicknesses,
                    a.layer.as_str(),
                    l,
                    len,
                    gap,
                    Ghost(tech),
                ),
            }
        } else {
            match rules.interlayer(a.layer.as_str(), b.layer.as_str()) {
                None => None,
                Some(coeff) => {
                    let ra = &self.areas[i];
                    let rb = &self.areas[j];
                    assert(grid::in_plane(area(tech.widths, av)));
                    assert(grid::in_plane(area(tech.widths, bv)));
                    let dx: i128 = overlap_of(ra.x0, ra.x1, rb.x0, rb.x1);
                    let dy: i128 = overlap_of(ra.y0, ra.y1, rb.y0, rb.y1);
                    if dx > 0 && dy > 0 {
                        Some(coeff.times(N::micro(dx).times(N::micro(dy))))
                    } else {
                        None
                    }
                },
            }
        }
    }
}

fn overlap_of(alo: i128, ahi: i128, blo: i128, bhi: i128) -> (r: i128)
    requires
        -0x2_0000_0000_0000_0000 <= alo <= ahi <= 0x2_0000_0000_0000_0000,
        -0x2_0000_0000_0000_0000 <= blo <= bhi <= 0x2_0000_0000_0000_0000,
    ensures
        r == overlap(alo as int, ahi as int, blo as int, bhi as int),
{
    let hi: i128 = if ahi <= bhi {
        ahi
    } else {
        bhi
    };
    let lo: i128 = if alo >= blo {
        alo
    } else {
        blo
    };
    hi - lo
}

/// Where none of the wires from `j` up to `n` contributes with wire `i`, the
/// row has not grown.
proof fn lemma_row_skip<N: Real>(
    tech: TechView<N>,
    metal: Seq<SegmentView>,
    owners: Seq<int>,
    i: int,
    j: int,
    n: int,
)
    requires
        0 <= i < j <= n,
        forall|k: int|
            j <= k < n ==> (#[trigger] contribution(tech, metal, owners, i, k)) is None,
    ensures
        row_upto(tech, metal, owners, i, n) == row_upto(tech, metal, owners, i, j),
    decreases n - j,
{
    if j < n {
        lemma_row_skip(tech, metal, owners, i, j, n - 1);
        assert(contribution(tech, metal, owners, i, n - 1) is None);
    }
}

impl Scene {
    /// Appends what wire `i` contributes with the wires after it.
    fn scan_row<N: Real>(
        &self,
        i: usize,
        out: &mut Vec<Contribution<N>>,
        rules: &RcRules<N>,
        thicknesses: &StrMap<N>,
        Ghost(nets): Ghost<Seq<NetView>>,
        Ghost(rails): Ghost<Seq<SegmentView>>,
        Ghost(tech): Ghost<TechView<N>>,
    )
        requires
            self.shows(nets, rails, tech.rules, tech.widths),
            tech.rules == rules@,
            tech.thicknesses == thicknesses@,
            i < owners(nets).len(),
        ensures
            contributions(final(out)@) == contributions(old(out)@) + row_upto(
                tech,
                all_metal(nets, rails),
                owners(nets),
                i as int,
                owners(nets).len() as int,
            ),
    {
        let ghost m = all_metal(nets, rails);
        let ghost ov = owners(nets);
        let ghost first = contributions(out@);
        let n: usize = self.owner.len();
        let all: usize = self.metal.len();
        assert(ints(self.owner@).len() == n);
        assert(geom::segments_view(self.metal@).len() == all);
        assert(self.holds_wire(i as int, m[i as int], tech.rules, tech.widths));
        let near = self.grid.near(&self.areas[i], self.pad, Ghost(m.len() as int));
        proof {
            assert forall|k: int|
                #![trigger m[k]]
                0 <= k < m.len() && grid::close(
                    area(tech.widths, m[i as int]),
                    area(tech.widths, m[k]),
                    self.pad as int,
                ) implies near@.contains(k as usize) by {
                assert(self.holds_wire(k, m[k], tech.rules, tech.widths));
                assert(self.grid.holds(k as usize, area(tech.widths, m[k])));
            }
            // a wire that is not near contributes nothing
            assert forall|k: int| 0 <= k < n && !near@.contains(k as usize) implies (
            #[trigger] contribution(tech, m, ov, i as int, k)) is None by {
                if pair_cap(tech, m, m[i as int], m[k]) is Some {
                    lemma_coupled_is_close(tech, m, m[i as int], m[k], self.pad as int);
                    assert(near@.contains(k as usize));
                }
            }
        }
        let mut done: usize = i + 1;
        assert(contributions(out@) == first + row_upto(tech, m, ov, i as int, done as int));
        for t in 0..near.len()
            invariant
                self.shows(nets, rails, tech.rules, tech.widths),
                tech.rules == rules@,
                tech.thicknesses == thicknesses@,
                m == all_metal(nets, rails),
                ov == owners(nets),
                n == self.owner@.len(),
                n == ov.len(),
                n <= m.len(),
                ints(self.owner@) == ov,
                i < done <= n,
                forall|t: int| 0 <= t < near@.len() ==> near@[t] < m.len(),
                forall|s: int, t: int| 0 <= s < t < near@.len() ==> near@[s] < near@[t],
                forall|k: int|
                    #![trigger m[k]]
                    0 <= k < m.len() && grid::close(
                        area(tech.widths, m[i as int]),
                        area(tech.widths, m[k]),
                        self.pad as int,
                    ) ==> near@.contains(k as usize),
                forall|k: int|
                    0 <= k < n && !near@.contains(k as usize) ==> (#[trigger] contribution(
                        tech,
                        m,
                        ov,
                        i as int,
                        k,
                    )) is None,
                forall|s: int| 0 <= s < t ==> near@[s] < done || near@[s] >= n,
                contributions(out@) == first + row_upto(tech, m, ov, i as int, done as int),
        {
            let j: usize = near[t];
            if j >= done && j < n {
                proof {
                    assert forall|k: int| done <= k < j implies (#[trigger] contribution(
                        tech,
                        m,
                        ov,
                        i as int,
                        k,
                    )) is None by {
                        if near@.contains(k as usize) {
                            let s = near@.index_of(k as usize);
                            if s > t {
                                assert(near@[t as int] < near@[s]);
                            }
                            assert(false);
                        }
                    }
                    lemma_row_skip(tech, m, ov, i as int, done as int, j as int);
                    assert(ov[i as int] == self.owner@[i as int]);
                    assert(ov[j as int] == self.owner@[j as int]);
                }
                let (oi, oj) = (self.owner[i], self.owner[j]);
                let ghost grown = row_upto(tech, m, ov, i as int, j as int);
                if oi != oj {
                    let cc = self.pair_cap(
                        i,
                        j,
                        &near,
                        rules,
                        thicknesses,
                        Ghost(nets),
                        Ghost(rails),
                        Ghost(tech),
                    );
                    if let Some(c) = cc {
                        if number::is_positive(c) {
                            let (a, b) = if oi <= oj {
                                (oi, oj)
                            } else {
                                (oj, oi)
                            };
                            let ghost before = contributions(out@);
                            out.push(Contribution { a, b, cap_ff: c });
                            assert(contributions(out@) == before.push((a as int, b as int, c)));
                            assert(first + grown.push((a as int, b as int, c)) == (first
                                + grown).push((a as int, b as int, c)));
                        }
                    }
                }
                done = j + 1;
                assert(contributions(out@) == first + row_upto(tech, m, ov, i as int, done as int));
            }
        }
        proof {
            assert forall|k: int| done <= k < n implies (#[trigger] contribution(
                tech,
                m,
                ov,
                i as int,
                k,
            )) is None by {
                if near@.contains(k as usize) {
                    let s = near@.index_of(k as usize);
                    assert(near@[s] == k);
                    assert(false);
                }
            }
            lemma_row_skip(tech, m, ov, i as int, done as int, n as int);
        }
    }

    /// What the wires from `lo` up to `hi` contribute, each with the wires
    /// after it.
    fn scan<N: Real>(
        &self,
        rules: &RcRules<N>,
        thicknesses: &StrMap<N>,
        lo: usize,
        hi: usize,
        Ghost(nets): Ghost<Seq<NetView>>,
        Ghost(rails): Ghost<Seq<SegmentView>>,
        Ghost(tech): Ghost<TechView<N>>,
    ) -> (r: Vec<Contribution<N>>)
        requires
            self.shows(nets, rails, tech.rules, tech.widths),
            tech.rules == rules@,
            tech.thicknesses == thicknesses@,
            lo <= hi <= owners(nets).len(),
        ensures
            contributions(r@) == band(
                tech,
                all_metal(nets, rails),
                owners(nets),
                lo as int,
                hi as int,
            ),
    {
        let mut out: Vec<Contribution<N>> = Vec::new();
        assert(contributions(out@) == Seq::<(int, int, N)>::empty());
        let mut i: usize = lo;
        while i < hi
            invariant
                self.shows(nets, rails, tech.rules, tech.widths),
                tech.rules == rules@,
                tech.thicknesses == thicknesses@,
                lo <= i <= hi <= owners(nets).len(),
                contributions(out@) == band(
                    tech,
                    all_metal(nets, rails),
                    owners(nets),
                    lo as int,
                    i as int,
                ),
            decreases hi - i,
        {
            self.scan_row(
                i,
                &mut out,
                rules,
                thicknesses,
                Ghost(nets),
                Ghost(rails),
                Ghost(tech),
            );
            i = i + 1;
        }
        out
    }
}

/// What the wires of a scene from `lo` up to `hi` contribute, each with the
/// wires after it. The scene is one that was laid out for the deck and widths.
pub fn scan_band<N: Real>(
    scene: &Scene,
    nets: &Vec<DefNet>,
    rails: &Vec<Segment>,
    rules: &RcRules<N>,
    widths: &StrMap<N>,
    thicknesses: &StrMap<N>,
    lo: usize,
    hi: usize,
) -> (r: Vec<Contribution<N>>)
    requires
        scene.shows(geom::nets_view(nets@), geom::segments_view(rails@), rules@, widths@),
        lo <= hi <= owners(geom::nets_view(nets@)).len(),
    ensures
        contributions(r@) == band(
            TechView { rules: rules@, widths: widths@, thicknesses: thicknesses@ },
            all_metal(geom::nets_view(nets@), geom::segments_view(rails@)),
            owners(geom::nets_view(nets@)),
            lo as int,
            hi as int,
        ),
{
    scene.scan(
        rules,
        thicknesses,
        lo,
        hi,
        Ghost(geom::nets_view(nets@)),
        Ghost(geom::segments_view(rails@)),
        Ghost(TechView { rules: rules@, widths: widths@, thicknesses: thicknesses@ }),
    )
}

/// The coupling of pairs of nets, in the order in which the pairs came up, and
/// the pairs that were refused, each once, in the order in which they came up.
#[verifier::ext_equal]
pub struct TableView<N: Real> {
    pub pairs: Seq<(int, int)>,
    pub caps: Seq<N>,
    pub refused: Seq<(int, int)>,
}

/// No pairs.
pub open spec fn no_pairs<N: Real>() -> TableView<N> {
    TableView { pairs: Seq::empty(), caps: Seq::empty(), refused: Seq::empty() }
}

/// The table with one more contribution: added to its pair, or taken up as a
/// new pair while there are fewer than `max` of them, or else its pair refused.
pub open spec fn take_up<N: Real>(t: TableView<N>, c: (int, int, N), max: int) -> TableView<N> {
    let key = (c.0, c.1);
    if t.pairs.contains(key) {
        let i = t.pairs.index_of(key);
        TableView { caps: t.caps.update(i, t.caps[i].spec_plus(c.2)), ..t }
    } else if t.pairs.len() < max {
        TableView {
            pairs: t.pairs.push(key),
            caps: t.caps.push(number::zero::<N>().spec_plus(c.2)),
            ..t
        }
    } else if t.refused.contains(key) {
        t
    } else {
        TableView { refused: t.refused.push(key), ..t }
    }
}

/// The table with all of a list of contributions, in order.
pub open spec fn take_all<N: Real>(t: TableView<N>, cs: Seq<(int, int, N)>, max: int) -> TableView<
    N,
>
    decreases cs.len(),
{
    if cs.len() == 0 {
        t
    } else {
        take_up(take_all(t, cs.drop_last(), max), cs.last(), max)
    }
}

/// Taking up two lists one after the other is taking up the two as one list.
pub proof fn take_all_joins<N: Real>(
    t: TableView<N>,
    cs: Seq<(int, int, N)>,
    ds: Seq<(int, int, N)>,
    max: int,
)
    ensures
        take_all(take_all(t, cs, max), ds, max) == take_all(t, cs + ds, max),
    decreases ds.len(),
{
    if ds.len() == 0 {
        assert(cs + ds == cs);
    } else {
        take_all_joins(t, cs, ds.drop_last(), max);
        assert((cs + ds).drop_last() == cs + ds.drop_last());
    }
}

/// Pairs of nets, each once, with a way to find them.
#[derive(Debug)]
struct PairList {
    pairs: Vec<(usize, usize)>,
    index: HashMap<u128, usize>,
}

spec fn pair_number(p: (int, int)) -> int {
    p.0 * 0x1_0000_0000_0000_0000 + p.1
}

impl PairList {
    spec fn list(self) -> Seq<(int, int)> {
        Seq::new(
            self.pairs@.len(),
            |i: int| (self.pairs@[i].0 as int, self.pairs@[i].1 as int),
        )
    }

    /// Whether every pair is found under its number, and no number leads
    /// elsewhere.
    spec fn wf(self) -> bool {
        &&& forall|i: int|
            0 <= i < self.pairs@.len() ==> self.index@.contains_key(
                pair_number(#[trigger] self.list()[i]) as u128,
            ) && self.index@[pair_number(self.list()[i]) as u128] == i
        &&& forall|k: u128| #[trigger]
            self.index@.contains_key(k) ==> self.index@[k] < self.pairs@.len() && pair_number(
                self.list()[self.index@[k] as int],
            ) == k
    }

    fn new() -> (r: Self)
        ensures
            r.wf(),
            r.list() == Seq::<(int, int)>::empty(),
    {
        let r = PairList { pairs: Vec::new(), index: HashMap::new() };
        assert(r.list() == Seq::<(int, int)>::empty());
        r
    }

    /// Where a pair is in the list.
    fn find(&self, a: usize, b: usize) -> (r: Option<usize>)
        requires
            self.wf(),
        ensures
            r is Some <==> self.list().contains((a as int, b as int)),
            r matches Some(i) ==> i < self.list().len() && self.list()[i as int] == (
                a as int,
                b as int,
            ) && self.list().index_of((a as int, b as int)) == i,
    {
        let ghost key = (a as int, b as int);
        let ghost list = self.list();
        let k: u128 = a as u128 * 0x1_0000_0000_0000_0000 + b as u128;
        assert(k == pair_number(key));
        proof {
            if list.contains(key) {
                let j = list.index_of(key);
                assert(self.index@.contains_key(pair_number(list[j]) as u128));
            }
        }
        match self.index.get(&k) {
            Some(i) => {
                proof {
                    let p = list[*i as int];
                    assert(p.0 == a && p.1 == b);
                    assert(list.contains(key));
                    let j = list.index_of(key);
                    assert(self.index@[pair_number(list[j]) as u128] == j);
                }
                Some(*i)
            },
            None => None,
        }
    }

    /// Appends a pair that is not in the list.
    fn push(&mut self, a: usize, b: usize)
        requires
            old(self).wf(),
            !old(self).list().contains((a as int, b as int)),
        ensures
            final(self).wf(),
            final(self).list() == old(self).list().push((a as int, b as int)),
    {
        let ghost before = *self;
        let ghost key = (a as int, b as int);
        let k: u128 = a as u128 * 0x1_0000_0000_0000_0000 + b as u128;
        assert(k == pair_number(key));
        let at: usize = self.pairs.len();
        proof {
            if before.index@.contains_key(k) {
                let p = before.list()[before.index@[k] as int];
                assert(p.0 == a && p.1 == b);
                assert(before.list().contains(key));
            }
        }
        self.pairs.push((a, b));
        let _ = self.index.insert(k, at);
        assert(self.list() == before.list().push(key));
        assert forall|i: int| 0 <= i < self.pairs@.len() implies self.index@.contains_key(
            pair_number(#[trigger] self.list()[i]) as u128,
        ) && self.index@[pair_number(self.list()[i]) as u128] == i by {
            if i < at {
                assert(self.list()[i] == before.list()[i]);
                assert(before.index@.contains_key(pair_number(before.list()[i]) as u128));
            }
        }
        assert forall|q: u128| #[trigger] self.index@.contains_key(q) implies self.index@[q]
            < self.pairs@.len() && pair_number(self.list()[self.index@[q] as int]) == q by {
            if q != k {
                assert(before.index@.contains_key(q));
                let i = before.index@[q] as int;
                assert(self.list()[i] == before.list()[i]);
            }
        }
    }
}

/// The coupling of pairs of nets, and the pairs that a limit refused.
#[derive(Debug)]
pub struct PairCaps<N: Real> {
    kept: PairList,
    caps: Vec<N>,
    refused: PairList,
}

impl<N: Real> PairCaps<N> {
    /// The table.
    pub closed spec fn table(self) -> TableView<N> {
        TableView { pairs: self.kept.list(), caps: self.caps@, refused: self.refused.list() }
    }

    /// Whether every pair has its coupling and is found.
    pub closed spec fn wf(self) -> bool {
        &&& self.kept.wf()
        &&& self.refused.wf()
        &&& self.caps@.len() == self.kept.list().len()
    }

    pub fn new() -> (r: Self)
        ensures
            r.wf(),
            r.table() == no_pairs::<N>(),
    {
        let r = PairCaps { kept: PairList::new(), caps: Vec::new(), refused: PairList::new() };
        assert(r.table() == no_pairs::<N>());
        r
    }

    /// Takes up one contribution.
    fn take_up(&mut self, c: &Contribution<N>, max: usize)
        requires
            old(self).wf(),
        ensures
            final(self).wf(),
            final(self).table() == take_up(
                old(self).table(),
                (c.a as int, c.b as int, c.cap_ff),
                max as int,
            ),
    {
        let ghost t = self.table();
        match self.kept.find(c.a, c.b) {
            Some(i) => {
                let sum: N = self.caps[i].plus(c.cap_ff);
                self.caps[i] = sum;
                assert(self.table().caps == t.caps.update(i as int, sum));
            },
            None => {
                if self.caps.len() < max {
                    self.kept.push(c.a, c.b);
                    self.caps.push(number::zero_of::<N>().plus(c.cap_ff));
                } else if self.refused.find(c.a, c.b).is_none() {
                    self.refused.push(c.a, c.b);
                }
            },
        }
    }

    /// Takes up a list of contributions, in order.
    pub fn take_all(&mut self, cs: &Vec<Contribution<N>>, max: usize)
        requires
            old(self).wf(),
        ensures
            final(self).wf(),
            final(self).table() == take_all(
                old(self).table(),
                contributions(cs@),
                max as int,
            ),
    {
        let ghost start = self.table();
        let ghost cv = contributions(cs@);
        assert(cv.take(0) == Seq::<(int, int, N)>::empty());
        for i in 0..cs.len()
            invariant
                cv == contributions(cs@),
                self.wf(),
                self.table() == take_all(start, cv.take(i as int), max as int),
        {
            assert(cv.take(i + 1).drop_last() == cv.take(i as int));
            assert(cv[i as int] == (cs@[i as int].a as int, cs@[i as int].b as int, cs@[i as int].cap_ff));
            self.take_up(&cs[i], max);
        }
        assert(cv.take(cv.len() as int) == cv);
        assert(cv.len() == cs@.len());
    }

    /// The number of pairs refused.
    pub fn refused(&self) -> (r: usize)
        ensures
            r == self.table().refused.len(),
    {
        self.refused.pairs.len()
    }
}

/// Whether every pair of a table is a pair of the first `n` nets, the lesser
/// first.
pub open spec fn pairs_of_nets(pairs: Seq<(int, int)>, n: int) -> bool {
    forall|i: int| 0 <= i < pairs.len() ==> 0 <= (#[trigger] pairs[i]).0 < pairs[i].1 < n
}

/// Whether every contribution is one between two of the first `n` nets, the
/// lesser first.
pub open spec fn contributions_of_nets<N: Real>(cs: Seq<(int, int, N)>, n: int) -> bool {
    forall|i: int| 0 <= i < cs.len() ==> 0 <= (#[trigger] cs[i]).0 < cs[i].1 < n
}

proof fn lemma_owners_in_range(nets: Seq<NetView>, n: int)
    requires
        0 <= n <= nets.len(),
    ensures
        forall|i: int| 0 <= i < owners_upto(nets, n).len() ==> 0 <= #[trigger] owners_upto(nets, n)[i]
            < n,
    decreases n,
{
    if n > 0 {
        lemma_owners_in_range(nets, n - 1);
        let b = owners_upto(nets, n - 1);
        assert forall|i: int| 0 <= i < owners_upto(nets, n).len() implies 0
            <= #[trigger] owners_upto(nets, n)[i] < n by {
            if i < b.len() {
                assert(owners_upto(nets, n)[i] == b[i]);
            }
        }
    }
}

proof fn lemma_row_in_range<N: Real>(
    tech: TechView<N>,
    metal: Seq<SegmentView>,
    owners: Seq<int>,
    i: int,
    n: int,
    nets: int,
)
    requires
        0 <= i < owners.len(),
        n <= owners.len(),
        forall|k: int| 0 <= k < owners.len() ==> 0 <= #[trigger] owners[k] < nets,
    ensures
        contributions_of_nets(row_upto(tech, metal, owners, i, n), nets),
    decreases n,
{
    if n > i + 1 && n > 0 {
        lemma_row_in_range(tech, metal, owners, i, n - 1, nets);
        assert(0 <= owners[i] < nets && 0 <= owners[n - 1] < nets);
    }
}

proof fn lemma_band_in_range<N: Real>(
    tech: TechView<N>,
    metal: Seq<SegmentView>,
    owners: Seq<int>,
    lo: int,
    hi: int,
    nets: int,
)
    requires
        0 <= lo,
        hi <= owners.len(),
        forall|k: int| 0 <= k < owners.len() ==> 0 <= #[trigger] owners[k] < nets,
    ensures
        contributions_of_nets(band(tech, metal, owners, lo, hi), nets),
    decreases hi,
{
    if hi > lo && hi > 0 {
        lemma_band_in_range(tech, metal, owners, lo, hi - 1, nets);
        lemma_row_in_range(tech, metal, owners, hi - 1, owners.len() as int, nets);
        let a = band(tech, metal, owners, lo, hi - 1);
        let b = row_upto(tech, metal, owners, hi - 1, owners.len() as int);
        assert forall|i: int| 0 <= i < (a + b).len() implies 0 <= (#[trigger] (a + b)[i]).0 < (a
            + b)[i].1 < nets by {
            if i < a.len() {
                assert((a + b)[i] == a[i]);
            } else {
                assert((a + b)[i] == b[i - a.len()]);
            }
        }
    }
}

proof fn lemma_table_in_range<N: Real>(
    t: TableView<N>,
    cs: Seq<(int, int, N)>,
    max: int,
    nets: int,
)
    requires
        pairs_of_nets(t.pairs, nets),
        contributions_of_nets(cs, nets),
    ensures
        pairs_of_nets(take_all(t, cs, max).pairs, nets),
    decreases cs.len(),
{
    if cs.len() > 0 {
        assert forall|i: int| 0 <= i < cs.drop_last().len() implies 0 <= (
        #[trigger] cs.drop_last()[i]).0 < cs.drop_last()[i].1 < nets by {
            assert(cs.drop_last()[i] == cs[i]);
        }
        lemma_table_in_range(t, cs.drop_last(), max, nets);
        assert(0 <= cs[cs.len() - 1].0 < cs[cs.len() - 1].1 < nets);
    }
}

/// What all pairs of wires contribute.
pub open spec fn all_contributions<N: Real>(
    tech: TechView<N>,
    nets: Seq<NetView>,
    rails: Seq<SegmentView>,
) -> Seq<(int, int, N)> {
    band(tech, all_metal(nets, rails), owners(nets), 0, owners(nets).len() as int)
}

/// The coupling of all pairs of nets, of which at most `max` are kept.
pub open spec fn coupling_table<N: Real>(
    tech: TechView<N>,
    nets: Seq<NetView>,
    rails: Seq<SegmentView>,
    max: int,
) -> TableView<N> {
    take_all(no_pairs(), all_contributions(tech, nets, rails), max)
}

/// A net does not couple to itself, and a pair of nets occurs once: the pairs
/// of the table are distinct pairs of different nets.
pub proof fn each_pair_occurs_once<N: Real>(
    tech: TechView<N>,
    nets: Seq<NetView>,
    rails: Seq<SegmentView>,
    max: int,
)
    ensures
        pairs_of_nets(coupling_table(tech, nets, rails, max).pairs, nets.len() as int),
        coupling_table(tech, nets, rails, max).pairs.no_duplicates(),
{
    lemma_owners_in_range(nets, nets.len() as int);
    lemma_band_in_range(
        tech,
        all_metal(nets, rails),
        owners(nets),
        0,
        owners(nets).len() as int,
        nets.len() as int,
    );
    lemma_table_in_range(
        no_pairs::<N>(),
        all_contributions(tech, nets, rails),
        max,
        nets.len() as int,
    );
    lemma_table_distinct(no_pairs::<N>(), all_contributions(tech, nets, rails), max);
}

proof fn lemma_table_distinct<N: Real>(t: TableView<N>, cs: Seq<(int, int, N)>, max: int)
    requires
        t.pairs.no_duplicates(),
        t.caps.len() == t.pairs.len(),
    ensures
        take_all(t, cs, max).pairs.no_duplicates(),
        take_all(t, cs, max).caps.len() == take_all(t, cs, max).pairs.len(),
    decreases cs.len(),
{
    if cs.len() > 0 {
        lemma_table_distinct(t, cs.drop_last(), max);
    }
}

/// A limit on the number of pairs is kept, and it only drops pairs: the pairs of
/// the limited table are the first ones of a table with a wider limit, each with its
/// full coupling, and the others are those that it refused. A limit as wide as there
/// are contributions refuses none.
pub proof fn a_limit_only_drops_pairs<N: Real>(cs: Seq<(int, int, N)>, max: int, enough: int)
    requires
        0 <= max <= enough,
    ensures
        ({
            let t = take_all(no_pairs::<N>(), cs, max);
            let all = take_all(no_pairs::<N>(), cs, enough);
            &&& t.pairs.len() == geom::min(all.pairs.len() as int, max)
            &&& t.pairs == all.pairs.take(t.pairs.len() as int)
            &&& t.caps == all.caps.take(t.pairs.len() as int)
            &&& t.refused == all.pairs.skip(t.pairs.len() as int) + all.refused
            &&& cs.len() <= enough ==> all.refused.len() == 0
        }),
{
    lemma_limit(cs, max, enough);
}

proof fn lemma_limit<N: Real>(cs: Seq<(int, int, N)>, max: int, enough: int)
    requires
        0 <= max <= enough,
    ensures
        ({
            let t = take_all(no_pairs::<N>(), cs, max);
            let all = take_all(no_pairs::<N>(), cs, enough);
            &&& t.pairs.len() == geom::min(all.pairs.len() as int, max)
            &&& t.pairs == all.pairs.take(t.pairs.len() as int)
            &&& t.caps == all.caps.take(t.pairs.len() as int)
            &&& t.refused == all.pairs.skip(t.pairs.len() as int) + all.refused
            &&& cs.len() <= enough ==> all.refused.len() == 0
            &&& all.pairs.len() <= cs.len()
            &&& all.pairs.len() < enough ==> all.refused.len() == 0
            &&& all.caps.len() == all.pairs.len()
            &&& all.pairs.no_duplicates()
        }),
    decreases cs.len(),
{
    let t = take_all(no_pairs::<N>(), cs, max);
    let all = take_all(no_pairs::<N>(), cs, enough);
    if cs.len() > 0 {
        let d = cs.drop_last();
        lemma_limit(d, max, enough);
        let t0 = take_all(no_pairs::<N>(), d, max);
        let a0 = take_all(no_pairs::<N>(), d, enough);
        let c = cs.last();
        let key = (c.0, c.1);
        let n = t0.pairs.len() as int;
        let rest = a0.pairs.skip(n);
        if a0.pairs.contains(key) {
            let i = a0.pairs.index_of(key);
            if i < n {
                assert(t0.pairs[i] == key);
                assert(t0.pairs.contains(key));
                assert(t0.pairs.index_of(key) == i) by {
                    let j = t0.pairs.index_of(key);
                    assert(a0.pairs[j] == key);
                }
                assert(t.caps == all.caps.take(n));
            } else {
                assert(!t0.pairs.contains(key)) by {
                    if t0.pairs.contains(key) {
                        let j = t0.pairs.index_of(key);
                        assert(a0.pairs[j] == key);
                    }
                }
                assert(t0.refused[i - n] == key);
                assert(t0.refused.contains(key));
                assert(t.caps == all.caps.take(n));
            }
            assert(t.pairs == all.pairs.take(n));
        } else {
            assert(!t0.pairs.contains(key)) by {
                if t0.pairs.contains(key) {
                    let j = t0.pairs.index_of(key);
                    assert(a0.pairs[j] == key);
                }
            }
            assert(t0.refused.contains(key) <==> a0.refused.contains(key)) by {
                if t0.refused.contains(key) {
                    let j = t0.refused.index_of(key);
                    if j < rest.len() {
                        assert(a0.pairs[n + j] == key);
                    } else {
                        assert(a0.refused[j - rest.len()] == key);
                    }
                }
                if a0.refused.contains(key) {
                    let j = a0.refused.index_of(key);
                    assert(t0.refused[rest.len() + j] == key);
                }
            }
            assert(t.pairs == all.pairs.take(t.pairs.len() as int));
            assert(t.caps == all.caps.take(t.pairs.len() as int));
            assert(t.refused == all.pairs.skip(t.pairs.len() as int) + all.refused);
        }
    } else {
        assert(t.pairs == all.pairs.take(0));
        assert(t.caps == all.caps.take(0));
        assert(t.refused == all.pairs.skip(0) + all.refused);
    }
}

/// Those of the first `n` pairs of a table whose coupling is above zero, by the
/// names of their nets.
pub open spec fn named_upto<N: Real>(t: TableView<N>, nets: Seq<NetView>, n: int) -> Seq<
    CapView<N>,
>
    decreases n,
{
    if n <= 0 {
        Seq::empty()
    } else {
        let before = named_upto(t, nets, n - 1);
        if number::positive(t.caps[n - 1]) {
            before.push(
                CapView {
                    a: nets[t.pairs[n - 1].0].name,
                    b: nets[t.pairs[n - 1].1].name,
                    cap: t.caps[n - 1],
                },
            )
        } else {
            before
        }
    }
}

/// The pairs of a table whose coupling is above zero, by the names of their
/// nets.
pub open spec fn named<N: Real>(t: TableView<N>, nets: Seq<NetView>) -> Seq<CapView<N>> {
    named_upto(t, nets, t.pairs.len() as int)
}

/// The names of the two nets of each coupling capacitance.
pub open spec fn net_names<N: Real>(list: Seq<CapView<N>>) -> Seq<(Seq<char>, Seq<char>)> {
    Seq::new(list.len(), |i: int| (list[i].a, list[i].b))
}

/// Whether `out` is `list` in the order of the names of the nets, where those
/// of equal names keep their order.
pub open spec fn is_ordered_form<N: Real>(out: Seq<CapView<N>>, list: Seq<CapView<N>>) -> bool {
    exists|order: Seq<usize>| #[trigger]
        sort::orders(order, net_names(list)) && out == Seq::new(
            list.len(),
            |i: int| list[order[i] as int],
        )
}

/// A list has one ordered form only: the report is settled by the layout and
/// the technology.
pub proof fn one_ordered_form<N: Real>(
    a: Seq<CapView<N>>,
    b: Seq<CapView<N>>,
    list: Seq<CapView<N>>,
)
    requires
        is_ordered_form(a, list),
        is_ordered_form(b, list),
    ensures
        a == b,
{
    let names = net_names(list);
    let s = choose|order: Seq<usize>| #[trigger]
        sort::orders(order, names) && a == Seq::new(list.len(), |i: int| list[order[i] as int]);
    let t = choose|order: Seq<usize>| #[trigger]
        sort::orders(order, names) && b == Seq::new(list.len(), |i: int| list[order[i] as int]);
    sort::one_order(s, t, names);
}

/// Puts coupling capacitances in the order of the names of their nets.
fn in_name_order<N: Real>(list: &Vec<CouplingCap<N>>) -> (r: Vec<CouplingCap<N>>)
    ensures
        is_ordered_form(caps_view(r@), caps_view(list@)),
{
    let ghost lv = caps_view(list@);
    let mut keys: Vec<sort::NamePair> = Vec::new();
    for i in 0..list.len()
        invariant
            keys@.len() == i,
            forall|j: int| 0 <= j < i ==> (#[trigger] keys@[j]).a@ == list@[j].a@ && keys@[j].b@
                == list@[j].b@,
    {
        keys.push(
            sort::NamePair {
                a: text::chars_of(list[i].a.as_str()),
                b: text::chars_of(list[i].b.as_str()),
            },
        );
    }
    let order = sort::order_of(&keys);
    proof {
        sort::lemma_arranged_len(order@, keys@.len() as int);
        assert forall|i: int| 0 <= i < order@.len() implies order@[i] < list@.len() by {
            assert(order@.contains(order@[i]));
        }
    }
    let mut out: Vec<CouplingCap<N>> = Vec::new();
    for i in 0..order.len()
        invariant
            lv == caps_view(list@),
            order@.len() == list@.len(),
            forall|i: int| 0 <= i < order@.len() ==> order@[i] < list@.len(),
            out@.len() == i,
            forall|j: int| 0 <= j < i ==> (#[trigger] out@[j])@ == lv[order@[j] as int],
    {
        let c = &list[order[i]];
        out.push(CouplingCap { a: c.a.clone(), b: c.b.clone(), cap_ff: c.cap_ff });
    }
    let ghost ov = caps_view(out@);
    assert(ov == Seq::new(lv.len(), |i: int| lv[order@[i] as int]));
    proof {
        sort::lemma_orders(keys@, order@, net_names(lv));
    }
    out
}

impl<N: Real> PairCaps<N> {
    /// The pairs whose coupling is above zero, by the names of their nets and
    /// in the order of the names.
    pub fn named(&self, nets: &Vec<DefNet>) -> (r: Vec<CouplingCap<N>>)
        requires
            self.wf(),
            pairs_of_nets(self.table().pairs, nets@.len() as int),
        ensures
            is_ordered_form(caps_view(r@), named(self.table(), geom::nets_view(nets@))),
    {
        let ghost nv = geom::nets_view(nets@);
        let ghost t = self.table();
        let mut list: Vec<CouplingCap<N>> = Vec::new();
        assert(caps_view(list@) == Seq::<CapView<N>>::empty());
        for i in 0..self.caps.len()
            invariant
                self.wf(),
                nv == geom::nets_view(nets@),
                t == self.table(),
                pairs_of_nets(t.pairs, nets@.len() as int),
                caps_view(list@) == named_upto(t, nv, i as int),
        {
            let (a, b) = self.kept.pairs[i];
            let c: N = self.caps[i];
            assert(t.pairs[i as int] == (a as int, b as int));
            assert(t.caps[i as int] == c);
            if number::is_positive(c) {
                let cap = CouplingCap {
                    a: nets[a].name.clone(),
                    b: nets[b].name.clone(),
                    cap_ff: c,
                };
                let ghost v = cap@;
                let ghost before = caps_view(list@);
                list.push(cap);
                assert(nv[a as int].name == nets@[a as int].name@);
                assert(nv[b as int].name == nets@[b as int].name@);
                assert(caps_view(list@) == before.push(v));
            }
        }
        in_name_order(&list)
    }
}

/// Coupling as a caller gets it, and the number of pairs that a limit refused.
#[derive(Debug)]
pub struct Coupled<N: Real> {
    pub caps: Vec<CouplingCap<N>>,
    pub refused: usize,
}

/// The coupling of all pairs of nets among all metal, of which at most
/// `max_pairs` are kept.
pub fn couple<N: Real>(
    nets: &Vec<DefNet>,
    rules: &RcRules<N>,
    widths: &StrMap<N>,
    thicknesses: &StrMap<N>,
    rails: &Vec<Segment>,
    max_pairs: usize,
) -> (r: Coupled<N>)
    ensures
        ({
            let nv = geom::nets_view(nets@);
            let tech = TechView { rules: rules@, widths: widths@, thicknesses: thicknesses@ };
            let t = coupling_table(tech, nv, geom::segments_view(rails@), max_pairs as int);
            &&& is_ordered_form(caps_view(r.caps@), named(t, nv))
            &&& r.refused == t.refused.len()
        }),
{
    let ghost nv = geom::nets_view(nets@);
    let ghost rv = geom::segments_view(rails@);
    let ghost tech = TechView { rules: rules@, widths: widths@, thicknesses: thicknesses@ };
    let scene = Scene::new(nets, rails, rules, widths);
    let n: usize = scene.len();
    let cs = scan_band(&scene, nets, rails, rules, widths, thicknesses, 0, n);
    let mut table: PairCaps<N> = PairCaps::new();
    table.take_all(&cs, max_pairs);
    let ghost t = coupling_table(tech, nv, rv, max_pairs as int);
    assert(table.table() == t);
    proof {
        each_pair_occurs_once(tech, nv, rv, max_pairs as int);
        assert(nv.len() == nets@.len());
    }
    Coupled { caps: table.named(nets), refused: table.refused() }
}

/// The coupling of all pairs of nets.
pub fn extract_coupling<N: Real>(
    nets: &Vec<DefNet>,
    rules: &RcRules<N>,
    widths: &StrMap<N>,
    thicknesses: &StrMap<N>,
) -> (r: Vec<CouplingCap<N>>)
    ensures
        ({
            let nv = geom::nets_view(nets@);
            let tech = TechView { rules: rules@, widths: widths@, thicknesses: thicknesses@ };
            is_ordered_form(
                caps_view(r@),
                named(
                    coupling_table(
                        tech,
                        nv,
                        Seq::empty(),
                        DEFAULT_MAX_COUPLING_PAIRS as int,
                    ),
                    nv,
                ),
            )
        }),
{
    extract_coupling_capped(nets, rules, widths, thicknesses, DEFAULT_MAX_COUPLING_PAIRS)
}

/// The coupling of all pairs of nets, of which at most `max_pairs` are kept.
pub fn extract_coupling_capped<N: Real>(
    nets: &Vec<DefNet>,
    rules: &RcRules<N>,
    widths: &StrMap<N>,
    thicknesses: &StrMap<N>,
    max_pairs: usize,
) -> (r: Vec<CouplingCap<N>>)
    ensures
        ({
            let nv = geom::nets_view(nets@);
            let tech = TechView { rules: rules@, widths: widths@, thicknesses: thicknesses@ };
            is_ordered_form(
                caps_view(r@),
                named(coupling_table(tech, nv, Seq::empty(), max_pairs as int), nv),
            )
        }),
{
    let rails: Vec<Segment> = Vec::new();
    assert(geom::segments_view(rails@) == Seq::<SegmentView>::empty());
    couple(nets, rules, widths, thicknesses, &rails, max_pairs).caps
}

/// The coupling of all pairs of nets among power rails, which block sight and
/// couple to nothing.
pub fn extract_coupling_blocked<N: Real>(
    nets: &Vec<DefNet>,
    rules: &RcRules<N>,
    widths: &StrMap<N>,
    thicknesses: &StrMap<N>,
    rails: &Vec<Segment>,
) -> (r: Vec<CouplingCap<N>>)
    ensures
        ({
            let nv = geom::nets_view(nets@);
            let tech = TechView { rules: rules@, widths: widths@, thicknesses: thicknesses@ };
            is_ordered_form(
                caps_view(r@),
                named(
                    coupling_table(
                        tech,
                        nv,
                        geom::segments_view(rails@),
                        DEFAULT_MAX_COUPLING_PAIRS as int,
                    ),
                    nv,
                ),
            )
        }),
{
    couple(nets, rules, widths, thicknesses, rails, DEFAULT_MAX_COUPLING_PAIRS).caps
}

/// The nets with every wire mirrored.
pub open spec fn mirrored_nets(nets: Seq<NetView>, flip_x: bool, flip_y: bool) -> Seq<NetView> {
    Seq::new(
        nets.len(),
        |i: int|
            NetView { segments: sight::mirrors(nets[i].segments, flip_x, flip_y), ..nets[i] },
    )
}

proof fn lemma_mirrored_wires(nets: Seq<NetView>, flip_x: bool, flip_y: bool, n: int)
    requires
        0 <= n <= nets.len(),
    ensures
        wires_upto(mirrored_nets(nets, flip_x, flip_y), n) == sight::mirrors(
            wires_upto(nets, n),
            flip_x,
            flip_y,
        ),
        owners_upto(mirrored_nets(nets, flip_x, flip_y), n) == owners_upto(nets, n),
    decreases n,
{
    if n > 0 {
        lemma_mirrored_wires(nets, flip_x, flip_y, n - 1);
        let image = mirrored_nets(nets, flip_x, flip_y);
        assert(wires_upto(image, n) == sight::mirrors(wires_upto(nets, n), flip_x, flip_y));
        assert(owners_upto(image, n) == owners_upto(nets, n));
    } else {
        assert(wires_upto(mirrored_nets(nets, flip_x, flip_y), n) == sight::mirrors(
            wires_upto(nets, n),
            flip_x,
            flip_y,
        ));
    }
}

proof fn lemma_mirrored_area<N: Real>(
    widths: Map<Seq<char>, N>,
    a: SegmentView,
    flip_x: bool,
    flip_y: bool,
)
    ensures
        ({
            let (m, r) = (area(widths, sight::mirror(a, flip_x, flip_y)), area(widths, a));
            &&& flip_x ==> m.0 == -r.2 && m.2 == -r.0
            &&& !flip_x ==> m.0 == r.0 && m.2 == r.2
            &&& flip_y ==> m.1 == -r.3 && m.3 == -r.1
            &&& !flip_y ==> m.1 == r.1 && m.3 == r.3
        }),
{
    let m = sight::mirror(a, flip_x, flip_y);
    assert(m.wide(layer_width(widths, m.layer)) == a.wide(layer_width(widths, a.layer)));
    assert(m.horizontal() == a.horizontal());
    assert(m.vertical() == a.vertical());
}

proof fn lemma_mirrored_crossing<N: Real>(
    tech: TechView<N>,
    a: SegmentView,
    b: SegmentView,
    flip_x: bool,
    flip_y: bool,
)
    ensures
        crossing(tech, sight::mirror(a, flip_x, flip_y), sight::mirror(b, flip_x, flip_y))
            == crossing(tech, a, b),
{
    lemma_mirrored_area(tech.widths, a, flip_x, flip_y);
    lemma_mirrored_area(tech.widths, b, flip_x, flip_y);
    let (ma, mb) = (
        area(tech.widths, sight::mirror(a, flip_x, flip_y)),
        area(tech.widths, sight::mirror(b, flip_x, flip_y)),
    );
    let (ra, rb) = (area(tech.widths, a), area(tech.widths, b));
    assert(overlap(ma.0, ma.2, mb.0, mb.2) == overlap(ra.0, ra.2, rb.0, rb.2));
    assert(overlap(ma.1, ma.3, mb.1, mb.3) == overlap(ra.1, ra.3, rb.1, rb.3));
}

proof fn lemma_mirrored_lateral<N: Real>(
    tech: TechView<N>,
    metal: Seq<SegmentView>,
    a: SegmentView,
    b: SegmentView,
    flip_x: bool,
    flip_y: bool,
)
    ensures
        lateral(
            tech,
            sight::mirrors(metal, flip_x, flip_y),
            sight::mirror(a, flip_x, flip_y),
            sight::mirror(b, flip_x, flip_y),
        ) == lateral(tech, metal, a, b),
{
    let (ma, mb) = (sight::mirror(a, flip_x, flip_y), sight::mirror(b, flip_x, flip_y));
    assert(sight::side_by_side(ma, mb) == sight::side_by_side(a, b));
    if let Some(axis) = sight::side_by_side(a, b) {
        sight::sight_is_mirrored(metal, a, b, axis, flip_x, flip_y);
        assert(wire_width(tech.widths, ma) == wire_width(tech.widths, a));
        assert(wire_width(tech.widths, mb) == wire_width(tech.widths, b));
        assert(geom::dist(sight::track(ma, axis), sight::track(mb, axis)) == geom::dist(
            sight::track(a, axis),
            sight::track(b, axis),
        ));
    }
}

proof fn lemma_mirrored_pair<N: Real>(
    tech: TechView<N>,
    metal: Seq<SegmentView>,
    a: SegmentView,
    b: SegmentView,
    flip_x: bool,
    flip_y: bool,
)
    ensures
        pair_cap(
            tech,
            sight::mirrors(metal, flip_x, flip_y),
            sight::mirror(a, flip_x, flip_y),
            sight::mirror(b, flip_x, flip_y),
        ) == pair_cap(tech, metal, a, b),
{
    if a.layer == b.layer {
        lemma_mirrored_lateral(tech, metal, a, b, flip_x, flip_y);
    } else {
        lemma_mirrored_crossing(tech, a, b, flip_x, flip_y);
    }
}

proof fn lemma_mirrored_row<N: Real>(
    tech: TechView<N>,
    metal: Seq<SegmentView>,
    owners: Seq<int>,
    flip_x: bool,
    flip_y: bool,
    i: int,
    n: int,
)
    requires
        0 <= i,
        n <= owners.len() <= metal.len(),
    ensures
        row_upto(tech, sight::mirrors(metal, flip_x, flip_y), owners, i, n) == row_upto(
            tech,
            metal,
            owners,
            i,
            n,
        ),
    decreases n,
{
    if n > i + 1 && n > 0 {
        lemma_mirrored_row(tech, metal, owners, flip_x, flip_y, i, n - 1);
        lemma_mirrored_pair(tech, metal, metal[i], metal[n - 1], flip_x, flip_y);
    }
}

proof fn lemma_mirrored_band<N: Real>(
    tech: TechView<N>,
    metal: Seq<SegmentView>,
    owners: Seq<int>,
    flip_x: bool,
    flip_y: bool,
    lo: int,
    hi: int,
)
    requires
        0 <= lo,
        hi <= owners.len() <= metal.len(),
    ensures
        band(tech, sight::mirrors(metal, flip_x, flip_y), owners, lo, hi) == band(
            tech,
            metal,
            owners,
            lo,
            hi,
        ),
    decreases hi,
{
    if hi > lo && hi > 0 {
        lemma_mirrored_band(tech, metal, owners, flip_x, flip_y, lo, hi - 1);
        lemma_mirrored_row(
            tech,
            metal,
            owners,
            flip_x,
            flip_y,
            hi - 1,
            owners.len() as int,
        );
    }
}

/// Coupling does not depend on which way is up: a design and its mirror image
/// have the same contributions, in the same order, and so the same table.
pub proof fn coupling_is_mirrored<N: Real>(
    tech: TechView<N>,
    nets: Seq<NetView>,
    rails: Seq<SegmentView>,
    flip_x: bool,
    flip_y: bool,
    max: int,
)
    ensures
        ({
            let (image, walls) = (
                mirrored_nets(nets, flip_x, flip_y),
                sight::mirrors(rails, flip_x, flip_y),
            );
            &&& all_contributions(tech, image, walls) == all_contributions(tech, nets, rails)
            &&& coupling_table(tech, image, walls, max) == coupling_table(tech, nets, rails, max)
        }),
{
    let n = nets.len() as int;
    lemma_mirrored_wires(nets, flip_x, flip_y, n);
    lemma_wires_len(nets, n);
    assert(all_metal(
        mirrored_nets(nets, flip_x, flip_y),
        sight::mirrors(rails, flip_x, flip_y),
    ) == sight::mirrors(all_metal(nets, rails), flip_x, flip_y));
    lemma_mirrored_band(
        tech,
        all_metal(nets, rails),
        owners(nets),
        flip_x,
        flip_y,
        0,
        owners(nets).len() as int,
    );
}

/// The number of wires in a band of a scan by a number of threads: a quarter of
/// a thread's share, and at least one.
pub open spec fn band_size(n: int, threads: int) -> int {
    let shares = geom::min(geom::max(threads, 1) * 4, geom::max(n, 1));
    geom::max((n + shares - 1) / shares, 1)
}

/// The bands of a scan of `n` wires: of one size, but for the last, which ends
/// at `n`.
pub open spec fn band_ranges(n: int, size: int) -> Seq<(int, int)> {
    Seq::new(
        ((n + size - 1) / size) as nat,
        |k: int| (k * size, geom::min((k + 1) * size, n)),
    )
}

/// The contributions of the first `k` of a list of bands, one after the other.
pub open spec fn banded<N: Real>(
    tech: TechView<N>,
    metal: Seq<SegmentView>,
    owners: Seq<int>,
    ranges: Seq<(int, int)>,
    k: int,
) -> Seq<(int, int, N)>
    decreases k,
{
    if k <= 0 {
        Seq::empty()
    } else {
        banded(tech, metal, owners, ranges, k - 1) + band(
            tech,
            metal,
            owners,
            ranges[k - 1].0,
            ranges[k - 1].1,
        )
    }
}

proof fn lemma_banded<N: Real>(
    tech: TechView<N>,
    metal: Seq<SegmentView>,
    owners: Seq<int>,
    n: int,
    size: int,
    k: int,
)
    requires
        0 <= n,
        1 <= size,
        0 <= k <= band_ranges(n, size).len(),
    ensures
        banded(tech, metal, owners, band_ranges(n, size), k) == band(
            tech,
            metal,
            owners,
            0,
            geom::min(k * size, n),
        ),
        0 <= k * size,
    decreases k,
{
    let ranges = band_ranges(n, size);
    assert(0 <= k * size) by (nonlinear_arith)
        requires
            0 <= k,
            1 <= size,
    ;
    if k > 0 {
        lemma_banded(tech, metal, owners, n, size, k - 1);
        let q = (n + size - 1) / size;
        vstd::arithmetic::div_mod::lemma_fundamental_div_mod(n + size - 1, size);
        // the band before the k-th ends before n
        assert((k - 1) * size <= n) by (nonlinear_arith)
            requires
                k <= q,
                n + size - 1 == size * q + (n + size - 1) % size,
                0 <= (n + size - 1) % size,
                1 <= size,
                0 < k,
                0 <= n,
        ;
        assert((k - 1 + 1) * size == k * size);
        assert((k - 1) * size <= k * size) by (nonlinear_arith)
            requires
                1 <= size,
        ;
        bands_join(tech, metal, owners, 0, (k - 1) * size, geom::min(k * size, n));
    } else {
        assert(k * size == 0) by (nonlinear_arith)
            requires
                k == 0,
        ;
    }
}

/// Parallel work gives the serial result: the contributions of the bands of any
/// size, taken one band after the other, are those of one scan.
pub proof fn bands_give_the_serial_scan<N: Real>(
    tech: TechView<N>,
    metal: Seq<SegmentView>,
    owners: Seq<int>,
    n: int,
    size: int,
)
    requires
        0 <= n,
        1 <= size,
    ensures
        banded(
            tech,
            metal,
            owners,
            band_ranges(n, size),
            band_ranges(n, size).len() as int,
        ) == band(tech, metal, owners, 0, n),
{
    let q = (n + size - 1) / size;
    vstd::arithmetic::div_mod::lemma_fundamental_div_mod(n + size - 1, size);
    assert(q >= 0 && q * size >= n) by (nonlinear_arith)
        requires
            n + size - 1 == size * q + (n + size - 1) % size,
            (n + size - 1) % size < size,
            1 <= size,
            0 <= n,
    ;
    lemma_banded(tech, metal, owners, n, size, q);
}

/// The bands of a scan of `n` wires by a number of threads.
pub fn bands(n: usize, threads: usize) -> (r: Vec<(usize, usize)>)
    ensures
        Seq::new(r@.len(), |i: int| (r@[i].0 as int, r@[i].1 as int)) == band_ranges(
            n as int,
            band_size(n as int, threads as int),
        ),
{
    let t: u128 = if threads < 1 {
        4
    } else {
        threads as u128 * 4
    };
    let least: u128 = if n < 1 {
        1
    } else {
        n as u128
    };
    let shares: u128 = if t <= least {
        t
    } else {
        least
    };
    let up: u128 = (n as u128 + shares - 1) / shares;
    let size: u128 = if up >= 1 {
        up
    } else {
        1
    };
    assert(size == band_size(n as int, threads as int));
    let ghost ranges = band_ranges(n as int, size as int);
    let count: u128 = (n as u128 + size - 1) / size;
    proof {
        vstd::arithmetic::div_mod::lemma_fundamental_div_mod(
            n as int + shares as int - 1,
            shares as int,
        );
        assert(up <= n || n == 0) by (nonlinear_arith)
            requires
                up == (n + shares - 1) / (shares as int),
                n + shares - 1 == shares * ((n + shares - 1) / (shares as int)) + (n + shares - 1)
                    % (shares as int),
                0 <= (n + shares - 1) % (shares as int),
                1 <= shares,
        ;
        vstd::arithmetic::div_mod::lemma_fundamental_div_mod(
            n as int + size as int - 1,
            size as int,
        );
        assert(count <= n) by (nonlinear_arith)
            requires
                count == (n + size - 1) / (size as int),
                n + size - 1 == size * ((n + size - 1) / (size as int)) + (n + size - 1) % (
                size as int),
                0 <= (n + size - 1) % (size as int) < size,
                1 <= size,
                n >= 0,
        ;
    }
    let mut out: Vec<(usize, usize)> = Vec::new();
    let mut k: u128 = 0;
    while k < count
        invariant
            k <= count <= n,
            1 <= size <= n || n == 0,
            count == (n + size - 1) / (size as int),
            n + size - 1 == size * count + (n + size - 1) % (size as int),
            ranges == band_ranges(n as int, size as int),
            size >= 1,
            out@.len() == k,
            forall|i: int|
                0 <= i < k ==> ((#[trigger] out@[i]).0 as int, out@[i].1 as int) == ranges[i],
        decreases count - k,
    {
        proof {
            assert(k * size <= n && 0 <= k * size) by (nonlinear_arith)
                requires
                    k < count,
                    n + size - 1 == size * count + (n + size - 1) % (size as int),
                    0 <= (n + size - 1) % (size as int),
                    1 <= size,
            ;
            assert((k + 1) * size == k * size + size) by (nonlinear_arith);
        }
        let lo: u128 = k * size;
        let end: u128 = lo + size;
        let hi: u128 = if end <= n as u128 {
            end
        } else {
            n as u128
        };
        out.push((lo as usize, hi as usize));
        k = k + 1;
    }
    assert(Seq::new(out@.len(), |i: int| (out@[i].0 as int, out@[i].1 as int)) == ranges);
    out
}

/// The limit on the number of pairs that a setting gives: a positive whole
/// number, with or without a plus sign and spaces around it; else the default.
pub open spec fn pair_limit(setting: Option<Seq<char>>) -> int {
    match setting {
        Some(s) => {
            let t = text::trim(s);
            let d = if t.len() > 0 && t[0] == '+' {
                t.drop_first()
            } else {
                t
            };
            if text::is_digits(d) && 0 < text::digits_value(d) <= usize::MAX {
                text::digits_value(d) as int
            } else {
                DEFAULT_MAX_COUPLING_PAIRS as int
            }
        },
        None => DEFAULT_MAX_COUPLING_PAIRS as int,
    }
}

/// The limit on the number of pairs that a setting gives.
pub fn max_coupling_pairs(setting: Option<&str>) -> (r: usize)
    ensures
        r == pair_limit(
            match setting {
                Some(s) => Some(s@),
                None => None,
            },
        ),
{
    let t = match setting {
        Some(s) => text::trimmed(&text::chars_of(s)),
        None => {
            return DEFAULT_MAX_COUPLING_PAIRS;
        },
    };
    let d = if t.len() > 0 && t[0] == '+' {
        text::part(&t, 1, t.len())
    } else {
        t
    };
    proof {
        let s = text::trim(setting->0@);
        if s.len() > 0 && s[0] == '+' {
            assert(d@ == s.drop_first());
        }
    }
    match text::parse_digits(&d) {
        Some(n) => if 0 < n && n <= usize::MAX as u64 {
            n as usize
        } else {
            DEFAULT_MAX_COUPLING_PAIRS
        },
        None => DEFAULT_MAX_COUPLING_PAIRS,
    }
}

/// Wires on one layer that are further apart than the cutoff do not couple.
pub proof fn beyond_the_cutoff_nothing_couples<N: Real>(
    tech: TechView<N>,
    metal: Seq<SegmentView>,
    a: SegmentView,
    b: SegmentView,
)
    requires
        a.layer == b.layer,
        sight::side_by_side(a, b) matches Some(axis) ==> edge_gap(tech.widths, a, b, axis) > reach(
            tech.rules,
        ),
    ensures
        pair_cap(tech, metal, a, b) is None,
{
}

/// More metal only takes from the coupling of two wires: those that couple among
/// some wires couple among fewer, over a run that is at least as long and at the
/// same gap. Wires on different layers couple as before.
pub proof fn more_metal_only_shortens_a_coupling<N: Real>(
    tech: TechView<N>,
    fewer: Seq<SegmentView>,
    more: Seq<SegmentView>,
    a: SegmentView,
    b: SegmentView,
)
    requires
        forall|k: int| 0 <= k < fewer.len() ==> more.contains(#[trigger] fewer[k]),
    ensures
        pair_cap(tech, more, a, b) is Some ==> pair_cap(tech, fewer, a, b) is Some,
        a.layer != b.layer ==> pair_cap(tech, more, a, b) == pair_cap(tech, fewer, a, b),
        a.layer == b.layer && pair_cap(tech, more, a, b) is Some ==> ({
            let axis = sight::side_by_side(a, b)->0;
            let gap = edge_gap(tech.widths, a, b, axis);
            let (short, long) = (
                sight::visible(more, a, b, axis),
                sight::visible(fewer, a, b, axis),
            );
            &&& sight::side_by_side(a, b) is Some
            &&& 0 < short <= long
            &&& pair_cap(tech, more, a, b) == run_coupling(tech, a.layer, short, gap)
            &&& pair_cap(tech, fewer, a, b) == run_coupling(tech, a.layer, long, gap)
        }),
{
    if let Some(axis) = sight::side_by_side(a, b) {
        sight::shadowing_only_removes(fewer, more, a, b, axis);
    }
}

/// Wires on different layers couple only where the deck has a coefficient for
/// the pair of layers and the areas of the wires overlap.
pub proof fn layers_couple_by_area_only<N: Real>(
    tech: TechView<N>,
    metal: Seq<SegmentView>,
    a: SegmentView,
    b: SegmentView,
)
    requires
        a.layer != b.layer,
        pair_cap(tech, metal, a, b) is Some,
    ensures
        tech.rules.interlayer.contains_key(rules::pair_key(a.layer, b.layer)),
        ({
            let (ra, rb) = (area(tech.widths, a), area(tech.widths, b));
            overlap(ra.0, ra.2, rb.0, rb.2) > 0 && overlap(ra.1, ra.3, rb.1, rb.3) > 0
        }),
{
}

/// Shielding does not change coupling: the coupling of all pairs of nets does
/// not depend on the part of it that ground loses.
pub proof fn shielding_leaves_coupling<N: Real>(
    tech: TechView<N>,
    k: N,
    nets: Seq<NetView>,
    rails: Seq<SegmentView>,
    max: int,
)
    ensures
        coupling_table(
            TechView { rules: RulesView { shield_k: k, ..tech.rules }, ..tech },
            nets,
            rails,
            max,
        ) == coupling_table(tech, nets, rails, max),
{
    let n = owners(nets).len() as int;
    lemma_band_shield(tech, k, all_metal(nets, rails), owners(nets), 0, n);
}

proof fn lemma_band_shield<N: Real>(
    tech: TechView<N>,
    k: N,
    metal: Seq<SegmentView>,
    owners: Seq<int>,
    lo: int,
    hi: int,
)
    ensures
        band(
            TechView { rules: RulesView { shield_k: k, ..tech.rules }, ..tech },
            metal,
            owners,
            lo,
            hi,
        ) == band(tech, metal, owners, lo, hi),
    decreases hi,
{
    if hi > lo && hi > 0 {
        lemma_band_shield(tech, k, metal, owners, lo, hi - 1);
        lemma_row_shield(tech, k, metal, owners, hi - 1, owners.len() as int);
    }
}

proof fn lemma_row_shield<N: Real>(
    tech: TechView<N>,
    k: N,
    metal: Seq<SegmentView>,
    owners: Seq<int>,
    i: int,
    n: int,
)
    ensures
        row_upto(
            TechView { rules: RulesView { shield_k: k, ..tech.rules }, ..tech },
            metal,
            owners,
            i,
            n,
        ) == row_upto(tech, metal, owners, i, n),
    decreases n,
{
    if n > i + 1 && n > 0 {
        lemma_row_shield(tech, k, metal, owners, i, n - 1);
    }
}

} // verus!

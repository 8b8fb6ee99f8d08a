//! Line of sight between parallel wires of a layer.
//!
//! Two parallel wires see each other over the part of their common run that no
//! wire between them spans. Any metal of the layer blocks: other nets, the two
//! nets themselves, and power rails.
use crate::geom;
use crate::geom::{Segment, SegmentView};
use vstd::prelude::*;

verus! {

/// The direction of a pair of parallel wires.
#[derive(Clone, Copy, Debug, PartialEq, Eq, Structural)]
pub enum Axis {
    Horizontal,
    Vertical,
}

/// Whether a wire runs along an axis.
pub open spec fn runs_along(s: SegmentView, axis: Axis) -> bool {
    match axis {
        Axis::Horizontal => s.horizontal(),
        Axis::Vertical => s.vertical(),
    }
}

/// Where the run of a wire starts.
pub open spec fn run_lo(s: SegmentView, axis: Axis) -> int {
    match axis {
        Axis::Horizontal => geom::min(s.x0, s.x1),
        Axis::Vertical => geom::min(s.y0, s.y1),
    }
}

/// Where the run of a wire ends.
pub open spec fn run_hi(s: SegmentView, axis: Axis) -> int {
    match axis {
        Axis::Horizontal => geom::max(s.x0, s.x1),
        Axis::Vertical => geom::max(s.y0, s.y1),
    }
}

/// The track of a wire: its coordinate across the axis.
pub open spec fn track(s: SegmentView, axis: Axis) -> int {
    match axis {
        Axis::Horizontal => s.y0,
        Axis::Vertical => s.x0,
    }
}

/// The axis along which two wires of a layer run side by side, if any.
pub open spec fn side_by_side(a: SegmentView, b: SegmentView) -> Option<Axis> {
    if a.layer != b.layer {
        None
    } else if a.horizontal() && b.horizontal() {
        Some(Axis::Horizontal)
    } else if a.vertical() && b.vertical() {
        Some(Axis::Vertical)
    } else {
        None
    }
}

/// Where the common run of two wires starts.
pub open spec fn common_lo(a: SegmentView, b: SegmentView, axis: Axis) -> int {
    geom::max(run_lo(a, axis), run_lo(b, axis))
}

/// Where the common run of two wires ends.
pub open spec fn common_hi(a: SegmentView, b: SegmentView, axis: Axis) -> int {
    geom::min(run_hi(a, axis), run_hi(b, axis))
}

/// Whether `t` lies strictly between `p` and `q`.
pub open spec fn between(t: int, p: int, q: int) -> bool {
    (p < t && t < q) || (q < t && t < p)
}

/// Whether wire `c` stands between `a` and `b` and spans the stretch from `x`
/// to `x + 1`.
pub open spec fn shadows(
    c: SegmentView,
    a: SegmentView,
    b: SegmentView,
    axis: Axis,
    x: int,
) -> bool {
    &&& c.layer == a.layer
    &&& runs_along(c, axis)
    &&& between(track(c, axis), track(a, axis), track(b, axis))
    &&& run_lo(c, axis) <= x < run_hi(c, axis)
}

/// Whether any of the wires hides the stretch at `x` of `a` from `b`.
pub open spec fn hidden(
    metal: Seq<SegmentView>,
    a: SegmentView,
    b: SegmentView,
    axis: Axis,
    x: int,
) -> bool {
    exists|k: int| 0 <= k < metal.len() && shadows(#[trigger] metal[k], a, b, axis, x)
}

/// The number of places from `lo` up to `hi` that satisfy `p`.
pub open spec fn count(p: spec_fn(int) -> bool, lo: int, hi: int) -> int
    decreases hi - lo,
{
    if lo >= hi {
        0
    } else {
        count(p, lo, hi - 1) + (if p(hi - 1) {
            1int
        } else {
            0
        })
    }
}

/// The length over which `a` and `b` see each other.
pub open spec fn visible(
    metal: Seq<SegmentView>,
    a: SegmentView,
    b: SegmentView,
    axis: Axis,
) -> int {
    count(
        |x: int| !hidden(metal, a, b, axis, x),
        common_lo(a, b, axis),
        common_hi(a, b, axis),
    )
}

proof fn lemma_count_bounds(p: spec_fn(int) -> bool, lo: int, hi: int)
    ensures
        0 <= count(p, lo, hi),
        lo <= hi ==> count(p, lo, hi) <= hi - lo,
    decreases hi - lo,
{
    if lo < hi {
        lemma_count_bounds(p, lo, hi - 1);
    }
}

pub(crate) proof fn lemma_count_split(p: spec_fn(int) -> bool, lo: int, mid: int, hi: int)
    requires
        lo <= mid <= hi,
    ensures
        count(p, lo, hi) == count(p, lo, mid) + count(p, mid, hi),
    decreases hi - mid,
{
    if mid < hi {
        lemma_count_split(p, lo, mid, hi - 1);
    }
}

proof fn lemma_count_same(p: spec_fn(int) -> bool, q: spec_fn(int) -> bool, lo: int, hi: int)
    requires
        forall|x: int| lo <= x < hi ==> #[trigger] p(x) == q(x),
    ensures
        count(p, lo, hi) == count(q, lo, hi),
    decreases hi - lo,
{
    if lo < hi {
        lemma_count_same(p, q, lo, hi - 1);
    }
}

proof fn lemma_count_less(p: spec_fn(int) -> bool, q: spec_fn(int) -> bool, lo: int, hi: int)
    requires
        forall|x: int| lo <= x < hi && #[trigger] p(x) ==> q(x),
    ensures
        count(p, lo, hi) <= count(q, lo, hi),
    decreases hi - lo,
{
    if lo < hi {
        lemma_count_less(p, q, lo, hi - 1);
    }
}

pub(crate) proof fn lemma_count_none(p: spec_fn(int) -> bool, lo: int, hi: int)
    requires
        forall|x: int| lo <= x < hi ==> !#[trigger] p(x),
    ensures
        count(p, lo, hi) == 0,
    decreases hi - lo,
{
    if lo < hi {
        lemma_count_none(p, lo, hi - 1);
    }
}

pub(crate) proof fn lemma_count_all(p: spec_fn(int) -> bool, lo: int, hi: int)
    requires
        forall|x: int| lo <= x < hi ==> #[trigger] p(x),
        lo <= hi,
    ensures
        count(p, lo, hi) == hi - lo,
    decreases hi - lo,
{
    if lo < hi {
        lemma_count_all(p, lo, hi - 1);
    }
}

/// Counting from the other end: the places of `q` are those of `p` mirrored.
proof fn lemma_count_mirror(p: spec_fn(int) -> bool, q: spec_fn(int) -> bool, lo: int, hi: int)
    requires
        forall|x: int| lo <= x < hi ==> #[trigger] p(x) == q(-x - 1),
    ensures
        count(p, lo, hi) == count(q, -hi, -lo),
    decreases hi - lo,
{
    if lo < hi {
        lemma_count_mirror(p, q, lo, hi - 1);
        lemma_count_split(q, -hi, -hi + 1, -lo);
        assert(count(q, -hi, -hi) == 0);
        assert(count(q, -hi, -hi + 1) == (if q(-hi) {
            1int
        } else {
            0
        }));
        assert(p(hi - 1) == q(-(hi - 1) - 1));
    }
}

/// The length that is seen is no less than nothing and no more than the common
/// run.
pub proof fn visible_is_part_of_the_run(
    metal: Seq<SegmentView>,
    a: SegmentView,
    b: SegmentView,
    axis: Axis,
)
    ensures
        0 <= visible(metal, a, b, axis),
        common_lo(a, b, axis) <= common_hi(a, b, axis) ==> visible(metal, a, b, axis) <= common_hi(
            a,
            b,
            axis,
        ) - common_lo(a, b, axis),
        common_lo(a, b, axis) >= common_hi(a, b, axis) ==> visible(metal, a, b, axis) == 0,
{
    lemma_count_bounds(
        |x: int| !hidden(metal, a, b, axis, x),
        common_lo(a, b, axis),
        common_hi(a, b, axis),
    );
}

/// Sight is mutual: `a` sees as much of `b` as `b` of `a`.
pub proof fn sight_is_mutual(
    metal: Seq<SegmentView>,
    a: SegmentView,
    b: SegmentView,
    axis: Axis,
)
    requires
        a.layer == b.layer,
    ensures
        visible(metal, a, b, axis) == visible(metal, b, a, axis),
{
    let p = |x: int| !hidden(metal, a, b, axis, x);
    let q = |x: int| !hidden(metal, b, a, axis, x);
    assert forall|x: int| #[trigger] p(x) == q(x) by {
        if hidden(metal, a, b, axis, x) {
            let k = choose|k: int| 0 <= k < metal.len() && shadows(metal[k], a, b, axis, x);
            assert(shadows(metal[k], b, a, axis, x));
        }
        if hidden(metal, b, a, axis, x) {
            let k = choose|k: int| 0 <= k < metal.len() && shadows(metal[k], b, a, axis, x);
            assert(shadows(metal[k], a, b, axis, x));
        }
    }
    lemma_count_same(p, q, common_lo(a, b, axis), common_hi(a, b, axis));
}

/// More metal never shows more: what two wires see of each other among some
/// wires is at most what they see among fewer.
pub proof fn shadowing_only_removes(
    fewer: Seq<SegmentView>,
    more: Seq<SegmentView>,
    a: SegmentView,
    b: SegmentView,
    axis: Axis,
)
    requires
        forall|k: int| 0 <= k < fewer.len() ==> more.contains(#[trigger] fewer[k]),
    ensures
        visible(more, a, b, axis) <= visible(fewer, a, b, axis),
{
    let p = |x: int| !hidden(more, a, b, axis, x);
    let q = |x: int| !hidden(fewer, a, b, axis, x);
    assert forall|x: int| #[trigger] p(x) implies q(x) by {
        if hidden(fewer, a, b, axis, x) {
            let k = choose|k: int| 0 <= k < fewer.len() && shadows(fewer[k], a, b, axis, x);
            assert(more.contains(fewer[k]));
            assert(shadows(more[more.index_of(fewer[k])], a, b, axis, x));
        }
    }
    lemma_count_less(p, q, common_lo(a, b, axis), common_hi(a, b, axis));
}

/// A wire between two others that spans their common run hides them from each
/// other altogether.
pub proof fn a_covering_wire_hides_the_pair(
    metal: Seq<SegmentView>,
    k: int,
    a: SegmentView,
    b: SegmentView,
    axis: Axis,
)
    requires
        0 <= k < metal.len(),
        metal[k].layer == a.layer,
        runs_along(metal[k], axis),
        between(track(metal[k], axis), track(a, axis), track(b, axis)),
        run_lo(metal[k], axis) <= common_lo(a, b, axis),
        common_hi(a, b, axis) <= run_hi(metal[k], axis),
    ensures
        visible(metal, a, b, axis) == 0,
{
    let p = |x: int| !hidden(metal, a, b, axis, x);
    assert forall|x: int| common_lo(a, b, axis) <= x < common_hi(a, b, axis) implies !#[trigger] p(x) by {
        assert(shadows(metal[k], a, b, axis, x));
    }
    lemma_count_none(p, common_lo(a, b, axis), common_hi(a, b, axis));
}

/// A wire with its coordinates multiplied by a sign along each axis.
pub open spec fn mirror(s: SegmentView, flip_x: bool, flip_y: bool) -> SegmentView {
    SegmentView {
        layer: s.layer,
        x0: if flip_x {
            -s.x0
        } else {
            s.x0
        },
        y0: if flip_y {
            -s.y0
        } else {
            s.y0
        },
        x1: if flip_x {
            -s.x1
        } else {
            s.x1
        },
        y1: if flip_y {
            -s.y1
        } else {
            s.y1
        },
        width: s.width,
    }
}

/// The mirror images of a list of wires.
pub open spec fn mirrors(s: Seq<SegmentView>, flip_x: bool, flip_y: bool) -> Seq<SegmentView> {
    Seq::new(s.len(), |i: int| mirror(s[i], flip_x, flip_y))
}

/// Sight does not depend on which way is up: in a mirror image of all metal two
/// wires see the same length of each other.
pub proof fn sight_is_mirrored(
    metal: Seq<SegmentView>,
    a: SegmentView,
    b: SegmentView,
    axis: Axis,
    flip_x: bool,
    flip_y: bool,
)
    ensures
        visible(
            mirrors(metal, flip_x, flip_y),
            mirror(a, flip_x, flip_y),
            mirror(b, flip_x, flip_y),
            axis,
        ) == visible(metal, a, b, axis),
{
    let image = mirrors(metal, flip_x, flip_y);
    let (ma, mb) = (mirror(a, flip_x, flip_y), mirror(b, flip_x, flip_y));
    let p = |x: int| !hidden(metal, a, b, axis, x);
    let q = |x: int| !hidden(image, ma, mb, axis, x);
    let (lo, hi) = (common_lo(a, b, axis), common_hi(a, b, axis));
    let along = match axis {
        Axis::Horizontal => flip_x,
        Axis::Vertical => flip_y,
    };
    if along {
        assert forall|x: int| #[trigger] p(x) == q(-x - 1) by {
            if hidden(metal, a, b, axis, x) {
                let k = choose|k: int| 0 <= k < metal.len() && shadows(metal[k], a, b, axis, x);
                assert(shadows(image[k], ma, mb, axis, -x - 1));
            }
            if hidden(image, ma, mb, axis, -x - 1) {
                let k = choose|k: int|
                    0 <= k < image.len() && shadows(image[k], ma, mb, axis, -x - 1);
                assert(shadows(metal[k], a, b, axis, x));
            }
        }
        lemma_count_mirror(p, q, lo, hi);
        assert(common_lo(ma, mb, axis) == -hi);
        assert(common_hi(ma, mb, axis) == -lo);
    } else {
        assert forall|x: int| #[trigger] p(x) == q(x) by {
            if hidden(metal, a, b, axis, x) {
                let k = choose|k: int| 0 <= k < metal.len() && shadows(metal[k], a, b, axis, x);
                assert(shadows(image[k], ma, mb, axis, x));
            }
            if hidden(image, ma, mb, axis, x) {
                let k = choose|k: int| 0 <= k < image.len() && shadows(image[k], ma, mb, axis, x);
                assert(shadows(metal[k], a, b, axis, x));
            }
        }
        lemma_count_same(p, q, lo, hi);
    }
}

/// The axis along which two wires run side by side.
pub fn axis_of(a: &Segment, b: &Segment) -> (r: Option<Axis>)
    ensures
        r == side_by_side(a@, b@),
{
    if a.layer != b.layer {
        None
    } else if a.is_horizontal() && b.is_horizontal() {
        Some(Axis::Horizontal)
    } else if a.is_vertical() && b.is_vertical() {
        Some(Axis::Vertical)
    } else {
        None
    }
}

/// The run of a wire along an axis, as its start and end.
pub fn run_of(s: &Segment, axis: Axis) -> (r: (i128, i128))
    ensures
        r.0 == run_lo(s@, axis),
        r.1 == run_hi(s@, axis),
        -0x8000_0000_0000_0000 <= r.0 <= r.1 <= 0x8000_0000_0000_0000,
{
    match axis {
        Axis::Horizontal => (geom::low(s.x0, s.x1), geom::high(s.x0, s.x1)),
        Axis::Vertical => (geom::low(s.y0, s.y1), geom::high(s.y0, s.y1)),
    }
}

/// The track of a wire.
pub fn track_of(s: &Segment, axis: Axis) -> (r: i64)
    ensures
        r == track(s@, axis),
{
    match axis {
        Axis::Horizontal => s.y0,
        Axis::Vertical => s.x0,
    }
}

/// Whether one of the wires picked from `k` on hides the stretch at `x`.
pub open spec fn hidden_from(
    metal: Seq<SegmentView>,
    picks: Seq<usize>,
    k: int,
    a: SegmentView,
    b: SegmentView,
    axis: Axis,
    x: int,
) -> bool {
    exists|t: int|
        k <= t < picks.len() && shadows(metal[#[trigger] picks[t] as int], a, b, axis, x)
}

/// The length from `lo` up to `hi` that none of the picked wires hides.
fn open_length(
    metal: &Vec<Segment>,
    picks: &Vec<usize>,
    k: usize,
    a: &Segment,
    b: &Segment,
    axis: Axis,
    lo: i128,
    hi: i128,
) -> (r: i128)
    requires
        k <= picks@.len(),
        forall|t: int| 0 <= t < picks@.len() ==> picks@[t] < metal@.len(),
        -0x8000_0000_0000_0000 <= lo <= hi <= 0x8000_0000_0000_0000,
    ensures
        r == count(
            |x: int|
                !hidden_from(
                    geom::segments_view(metal@),
                    picks@,
                    k as int,
                    a@,
                    b@,
                    axis,
                    x,
                ),
            lo as int,
            hi as int,
        ),
        0 <= r <= hi - lo,
    decreases picks@.len() - k,
{
    let ghost mv = geom::segments_view(metal@);
    let ghost pv = picks@;
    let ghost (av, bv) = (a@, b@);
    let ghost p = |x: int| !hidden_from(mv, pv, k as int, av, bv, axis, x);
    if lo >= hi {
        return 0;
    }
    if k >= picks.len() {
        assert forall|x: int| lo <= x < hi implies #[trigger] p(x) by {}
        proof {
            lemma_count_all(p, lo as int, hi as int);
        }
        return hi - lo;
    }
    let ghost q = |x: int| !hidden_from(mv, pv, k + 1, av, bv, axis, x);
    let c = &metal[picks[k]];
    let ghost cv = mv[pv[k as int] as int];
    assert(cv == c@);
    proof {
        // what the wires from k on hide is what this one or a later one hides
        assert forall|x: int| #[trigger] p(x) == (q(x) && !shadows(cv, av, bv, axis, x)) by {
            if hidden_from(mv, pv, k as int, av, bv, axis, x) {
                let t = choose|t: int|
                    k <= t < pv.len() && shadows(mv[#[trigger] pv[t] as int], av, bv, axis, x);
                if t > k {
                    assert(hidden_from(mv, pv, k + 1, av, bv, axis, x));
                }
            }
            if hidden_from(mv, pv, k + 1, av, bv, axis, x) {
                let t = choose|t: int|
                    k + 1 <= t < pv.len() && shadows(mv[#[trigger] pv[t] as int], av, bv, axis, x);
                assert(hidden_from(mv, pv, k as int, av, bv, axis, x));
            }
            if shadows(cv, av, bv, axis, x) {
                assert(shadows(mv[pv[k as int] as int], av, bv, axis, x));
            }
        }
    }
    let along: bool = match axis {
        Axis::Horizontal => c.is_horizontal(),
        Axis::Vertical => c.is_vertical(),
    };
    let (t, ta, tb) = (track_of(c, axis), track_of(a, axis), track_of(b, axis));
    let (clo, chi) = run_of(c, axis);
    let stands: bool = c.layer == a.layer && along && ((ta < t && t < tb) || (tb < t && t < ta));
    if !stands || chi <= lo || hi <= clo {
        proof {
            lemma_count_same(p, q, lo as int, hi as int);
        }
        return open_length(metal, picks, k + 1, a, b, axis, lo, hi);
    }
    let left: i128 = if clo < lo {
        lo
    } else {
        clo
    };
    let right: i128 = if chi > hi {
        hi
    } else {
        chi
    };
    proof {
        lemma_count_split(p, lo as int, left as int, hi as int);
        lemma_count_split(p, left as int, right as int, hi as int);
        assert forall|x: int| left <= x < right implies !#[trigger] p(x) by {}
        lemma_count_none(p, left as int, right as int);
        lemma_count_same(p, q, lo as int, left as int);
        lemma_count_same(p, q, right as int, hi as int);
    }
    open_length(metal, picks, k + 1, a, b, axis, lo, left) + open_length(
        metal,
        picks,
        k + 1,
        a,
        b,
        axis,
        right,
        hi,
    )
}

/// Whether the picks hold every wire that hides any of the pair's common run.
pub open spec fn picks_suffice(
    metal: Seq<SegmentView>,
    picks: Seq<usize>,
    a: SegmentView,
    b: SegmentView,
    axis: Axis,
) -> bool {
    forall|k: int, x: int|
        0 <= k < metal.len() && common_lo(a, b, axis) <= x < common_hi(a, b, axis)
            && #[trigger] shadows(metal[k], a, b, axis, x) ==> picks.contains(k as usize)
}

/// The length over which two wires see each other, by the wires that can stand
/// between them.
pub fn visible_length(
    metal: &Vec<Segment>,
    picks: &Vec<usize>,
    a: &Segment,
    b: &Segment,
    axis: Axis,
) -> (r: i128)
    requires
        forall|t: int| 0 <= t < picks@.len() ==> picks@[t] < metal@.len(),
        picks_suffice(geom::segments_view(metal@), picks@, a@, b@, axis),
    ensures
        r == visible(geom::segments_view(metal@), a@, b@, axis),
        0 <= r <= 0x1_0000_0000_0000_0000,
{
    let ghost mv = geom::segments_view(metal@);
    assert(mv.len() == metal.len());
    let (alo, ahi) = run_of(a, axis);
    let (blo, bhi) = run_of(b, axis);
    let lo: i128 = if alo > blo {
        alo
    } else {
        blo
    };
    let hi: i128 = if ahi < bhi {
        ahi
    } else {
        bhi
    };
    if lo >= hi {
        return 0;
    }
    let ghost p = |x: int| !hidden(mv, a@, b@, axis, x);
    let ghost q = |x: int| !hidden_from(mv, picks@, 0, a@, b@, axis, x);
    proof {
        assert forall|x: int| lo <= x < hi implies #[trigger] p(x) == q(x) by {
            if hidden(mv, a@, b@, axis, x) {
                let k = choose|k: int| 0 <= k < mv.len() && shadows(mv[k], a@, b@, axis, x);
                assert(picks@.contains(k as usize));
                let t = picks@.index_of(k as usize);
                assert(shadows(mv[picks@[t] as int], a@, b@, axis, x));
            }
            if hidden_from(mv, picks@, 0, a@, b@, axis, x) {
                let t = choose|t: int|
                    0 <= t < picks@.len() && shadows(
                        mv[#[trigger] picks@[t] as int],
                        a@,
                        b@,
                        axis,
                        x,
                    );
                assert(shadows(mv[picks@[t] as int], a@, b@, axis, x));
                assert(0 <= picks@[t] < mv.len());
            }
        }
        lemma_count_same(p, q, lo as int, hi as int);
    }
    open_length(metal, picks, 0, a, b, axis, lo, hi)
}

} // verus!

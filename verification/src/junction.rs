//! Cutting wire runs where another vertex of the same net lands inside them.
//!
//! Routing joins wires at points that are an end of one run and lie inside
//! another: a branch taps a run of its own layer, or a via lands on it. A run is
//! cut at the ends of its layer's runs and at the vias of the net, and nowhere
//! else: two runs that cross on different layers with no via between them stay
//! whole.
use crate::def::Segment;
use crate::geom;
use vstd::prelude::*;

verus! {

/// A wire run with ends in whole nanometres.
#[derive(Debug)]
pub struct NmSeg {
    pub layer: String,
    pub a: (i64, i64),
    pub b: (i64, i64),
    /// The width in picometres, as in [`Segment`].
    pub width: i64,
}

/// What an [`NmSeg`] is.
#[verifier::ext_equal]
pub struct RunView {
    pub layer: Seq<char>,
    pub a: (int, int),
    pub b: (int, int),
    pub width: int,
}

impl View for NmSeg {
    type V = RunView;

    open spec fn view(&self) -> RunView {
        RunView {
            layer: self.layer@,
            a: (self.a.0 as int, self.a.1 as int),
            b: (self.b.0 as int, self.b.1 as int),
            width: self.width as int,
        }
    }
}

/// The views of a list of runs.
pub open spec fn runs(v: Seq<NmSeg>) -> Seq<RunView> {
    Seq::new(v.len(), |i: int| v[i]@)
}

/// The views of a list of points.
pub open spec fn points(v: Seq<(i64, i64)>) -> Seq<(int, int)> {
    Seq::new(v.len(), |i: int| (v[i].0 as int, v[i].1 as int))
}

impl RunView {
    /// The length along the two axes, in nanometres.
    pub open spec fn len(self) -> int {
        geom::dist(self.a.0, self.b.0) + geom::dist(self.a.1, self.b.1)
    }
}

/// The whole nanometre nearest to a number of picometres; halves go away from
/// zero.
pub open spec fn nearest_nm(pm: int) -> int {
    if pm >= 0 {
        (pm + 500) / 1000
    } else {
        -((500 - pm) / 1000)
    }
}

/// The bound on nanometre coordinates.
pub open spec fn in_range(v: int) -> bool {
    -9_223_372_036_854_777 <= v <= 9_223_372_036_854_777
}

pub open spec fn point_in_range(p: (int, int)) -> bool {
    in_range(p.0) && in_range(p.1)
}

/// The whole nanometre nearest to a number of picometres.
pub fn qkey(pm: i64) -> (r: i64)
    ensures
        r == nearest_nm(pm as int),
        in_range(r as int),
{
    if pm >= 0 {
        ((pm as u64 + 500) / 1000) as i64
    } else {
        let m: u64 = (500 - pm as i128) as u64;
        -((m / 1000) as i64)
    }
}

/// How far `p` lies along the way from `a` to `b`, times the way's length.
pub open spec fn along(a: (int, int), b: (int, int), p: (int, int)) -> int {
    (p.0 - a.0) * (b.0 - a.0) + (p.1 - a.1) * (b.1 - a.1)
}

/// The cross product of the ways from `a` to `b` and from `a` to `p`: zero
/// where the three points lie on one line.
pub open spec fn turn(a: (int, int), b: (int, int), p: (int, int)) -> int {
    (b.0 - a.0) * (p.1 - a.1) - (b.1 - a.1) * (p.0 - a.0)
}

/// Whether `p` lies strictly inside the straight run from `a` to `b`.
pub open spec fn inside(a: (int, int), b: (int, int), p: (int, int)) -> bool {
    &&& p != a
    &&& p != b
    &&& turn(a, b, p) == 0
    &&& 0 < along(a, b, p) < along(a, b, b)
}

fn along_of(a: (i64, i64), b: (i64, i64), p: (i64, i64)) -> (r: i128)
    requires
        in_range(a.0 as int) && in_range(a.1 as int),
        in_range(b.0 as int) && in_range(b.1 as int),
        in_range(p.0 as int) && in_range(p.1 as int),
    ensures
        r == along(
            (a.0 as int, a.1 as int),
            (b.0 as int, b.1 as int),
            (p.0 as int, p.1 as int),
        ),
{
    let dx: i128 = b.0 as i128 - a.0 as i128;
    let dy: i128 = b.1 as i128 - a.1 as i128;
    let px: i128 = p.0 as i128 - a.0 as i128;
    let py: i128 = p.1 as i128 - a.1 as i128;
    proof {
        lemma_small_product(px as int, dx as int);
        lemma_small_product(py as int, dy as int);
    }
    px * dx + py * dy
}

proof fn lemma_small_product(x: int, y: int)
    requires
        -20_000_000_000_000_000 <= x <= 20_000_000_000_000_000,
        -20_000_000_000_000_000 <= y <= 20_000_000_000_000_000,
    ensures
        -400_000_000_000_000_000_000_000_000_000_000 <= x * y
            <= 400_000_000_000_000_000_000_000_000_000_000,
{
    assert(-400_000_000_000_000_000_000_000_000_000_000 <= x * y
        <= 400_000_000_000_000_000_000_000_000_000_000) by (nonlinear_arith)
        requires
            -20_000_000_000_000_000 <= x <= 20_000_000_000_000_000,
            -20_000_000_000_000_000 <= y <= 20_000_000_000_000_000,
    ;
}

/// Whether `p` lies strictly inside the straight run from `a` to `b`.
pub fn on_interior(a: (i64, i64), b: (i64, i64), p: (i64, i64)) -> (r: bool)
    requires
        in_range(a.0 as int) && in_range(a.1 as int),
        in_range(b.0 as int) && in_range(b.1 as int),
        in_range(p.0 as int) && in_range(p.1 as int),
    ensures
        r == inside(
            (a.0 as int, a.1 as int),
            (b.0 as int, b.1 as int),
            (p.0 as int, p.1 as int),
        ),
{
    if (p.0 == a.0 && p.1 == a.1) || (p.0 == b.0 && p.1 == b.1) {
        return false;
    }
    let dx: i128 = b.0 as i128 - a.0 as i128;
    let dy: i128 = b.1 as i128 - a.1 as i128;
    let px: i128 = p.0 as i128 - a.0 as i128;
    let py: i128 = p.1 as i128 - a.1 as i128;
    proof {
        lemma_small_product(dx as int, py as int);
        lemma_small_product(dy as int, px as int);
    }
    if dx * py - dy * px != 0 {
        return false;
    }
    let dot: i128 = along_of(a, b, p);
    dot > 0 && dot < along_of(a, b, b)
}

/// The cuts with `p` among them, in the order in which the run meets them.
pub open spec fn insert_cut(run: RunView, cuts: Seq<(int, int)>, p: (int, int)) -> Seq<(int, int)>
    decreases cuts.len(),
{
    if cuts.len() > 0 && along(run.a, run.b, p) < along(run.a, run.b, cuts.last()) {
        insert_cut(run, cuts.drop_last(), p).push(cuts.last())
    } else {
        cuts.push(p)
    }
}

/// The cuts of a run at the first `n` of the candidate points: those that lie
/// inside it, each once, in the order in which the run meets them.
pub open spec fn cuts_upto(run: RunView, candidates: Seq<(int, int)>, n: int) -> Seq<(int, int)>
    decreases n,
{
    if n <= 0 {
        Seq::empty()
    } else {
        let before = cuts_upto(run, candidates, n - 1);
        let p = candidates[n - 1];
        if inside(run.a, run.b, p) && !before.contains(p) {
            insert_cut(run, before, p)
        } else {
            before
        }
    }
}

/// The ends of those of the first `n` runs that are on a layer.
pub open spec fn ends_upto(s: Seq<RunView>, layer: Seq<char>, n: int) -> Seq<(int, int)>
    decreases n,
{
    if n <= 0 {
        Seq::empty()
    } else {
        let before = ends_upto(s, layer, n - 1);
        if s[n - 1].layer == layer {
            before.push(s[n - 1].a).push(s[n - 1].b)
        } else {
            before
        }
    }
}

/// The points at which a run of a layer can be cut: the ends of the layer's
/// runs, and every via.
pub open spec fn candidates(s: Seq<RunView>, vias: Seq<(int, int)>, layer: Seq<char>) -> Seq<
    (int, int),
> {
    ends_upto(s, layer, s.len() as int) + vias
}

/// The cuts of a run.
pub open spec fn cuts(s: Seq<RunView>, vias: Seq<(int, int)>, run: RunView) -> Seq<(int, int)> {
    let c = candidates(s, vias, run.layer);
    cuts_upto(run, c, c.len() as int)
}

/// The pieces of a run between its ends and cuts, from end to end.
pub open spec fn pieces(run: RunView, cuts: Seq<(int, int)>) -> Seq<RunView> {
    Seq::new(
        cuts.len() + 1,
        |i: int|
            RunView {
                a: if i == 0 {
                    run.a
                } else {
                    cuts[i - 1]
                },
                b: if i == cuts.len() {
                    run.b
                } else {
                    cuts[i]
                },
                ..run
            },
    )
}

/// The pieces of the first `n` runs.
pub open spec fn split_upto(s: Seq<RunView>, vias: Seq<(int, int)>, n: int) -> Seq<RunView>
    decreases n,
{
    if n <= 0 {
        Seq::empty()
    } else {
        split_upto(s, vias, n - 1) + pieces(s[n - 1], cuts(s, vias, s[n - 1]))
    }
}

/// The pieces of all runs.
pub open spec fn split(s: Seq<RunView>, vias: Seq<(int, int)>) -> Seq<RunView> {
    split_upto(s, vias, s.len() as int)
}

/// Whether the cuts of a run lie inside it, each after the one before.
pub open spec fn ordered_cuts(run: RunView, c: Seq<(int, int)>) -> bool {
    &&& forall|i: int| 0 <= i < c.len() ==> inside(run.a, run.b, #[trigger] c[i])
    &&& forall|i: int, j: int|
        0 <= i < j < c.len() ==> along(run.a, run.b, #[trigger] c[i]) < along(
            run.a,
            run.b,
            #[trigger] c[j],
        )
}

/// Three points on one line are as far apart as their distances along it say.
proof fn lemma_on_line(a: (int, int), b: (int, int), p: (int, int))
    requires
        turn(a, b, p) == 0,
    ensures
        (p.0 - a.0) * along(a, b, b) == along(a, b, p) * (b.0 - a.0),
        (p.1 - a.1) * along(a, b, b) == along(a, b, p) * (b.1 - a.1),
{
    let (dx, dy) = (b.0 - a.0, b.1 - a.1);
    let (px, py) = (p.0 - a.0, p.1 - a.1);
    assert(px * (dx * dx + dy * dy) == (px * dx + py * dy) * dx) by (nonlinear_arith)
        requires
            dx * py - dy * px == 0,
    ;
    assert(py * (dx * dx + dy * dy) == (px * dx + py * dy) * dy) by (nonlinear_arith)
        requires
            dx * py - dy * px == 0,
    ;
}

/// Points on the run with equal distance along it are one point.
proof fn lemma_same_place(a: (int, int), b: (int, int), p: (int, int), q: (int, int))
    requires
        turn(a, b, p) == 0,
        turn(a, b, q) == 0,
        along(a, b, b) > 0,
        along(a, b, p) == along(a, b, q),
    ensures
        p == q,
{
    lemma_on_line(a, b, p);
    lemma_on_line(a, b, q);
    let l = along(a, b, b);
    assert(p.0 - a.0 == q.0 - a.0) by (nonlinear_arith)
        requires
            (p.0 - a.0) * l == (q.0 - a.0) * l,
            l > 0,
    ;
    assert(p.1 - a.1 == q.1 - a.1) by (nonlinear_arith)
        requires
            (p.1 - a.1) * l == (q.1 - a.1) * l,
            l > 0,
    ;
}

proof fn lemma_insert_ordered(run: RunView, c: Seq<(int, int)>, p: (int, int))
    requires
        ordered_cuts(run, c),
        inside(run.a, run.b, p),
        !c.contains(p),
    ensures
        ordered_cuts(run, insert_cut(run, c, p)),
        insert_cut(run, c, p).len() == c.len() + 1,
        forall|q: (int, int)| #[trigger]
            insert_cut(run, c, p).contains(q) <==> (c.contains(q) || q == p),
    decreases c.len(),
{
    let r = insert_cut(run, c, p);
    if c.len() > 0 && along(run.a, run.b, p) < along(run.a, run.b, c.last()) {
        let d = c.drop_last();
        assert(!d.contains(p)) by {
            if d.contains(p) {
                assert(c[d.index_of(p)] == p);
            }
        }
        assert(ordered_cuts(run, d));
        lemma_insert_ordered(run, d, p);
        let e = insert_cut(run, d, p);
        assert(r == e.push(c.last()));
        assert forall|i: int| 0 <= i < e.len() implies along(run.a, run.b, #[trigger] e[i]) < along(
            run.a,
            run.b,
            c.last(),
        ) by {
            assert(e.contains(e[i]));
            if e[i] != p {
                assert(d.contains(e[i]));
                let k = d.index_of(e[i]);
                assert(c[k] == e[i]);
            }
        }
        assert forall|q: (int, int)| #[trigger]
            r.contains(q) <==> (c.contains(q) || q == p) by {
            if r.contains(q) {
                let k = r.index_of(q);
                if k < e.len() {
                    assert(e.contains(q));
                    if d.contains(q) {
                        assert(c[d.index_of(q)] == q);
                    }
                } else {
                    assert(c[c.len() - 1] == q);
                }
            }
            if c.contains(q) {
                let k = c.index_of(q);
                if k < d.len() {
                    assert(d[k] == q);
                    assert(e.contains(q));
                    assert(r[e.index_of(q)] == q);
                } else {
                    assert(r[r.len() - 1] == q);
                }
            }
            if q == p {
                assert(e.contains(p));
                assert(r[e.index_of(p)] == p);
            }
        }
    } else {
        if c.len() > 0 {
            assert(inside(run.a, run.b, c.last()));
            if along(run.a, run.b, p) == along(run.a, run.b, c.last()) {
                lemma_same_place(run.a, run.b, p, c.last());
                assert(c.contains(c.last()));
            }
        }
        assert forall|q: (int, int)| #[trigger]
            r.contains(q) <==> (c.contains(q) || q == p) by {
            if c.contains(q) {
                assert(r[c.index_of(q)] == q);
            }
            if q == p {
                assert(r[r.len() - 1] == q);
            }
            if r.contains(q) {
                let k = r.index_of(q);
                if k < c.len() {
                    assert(c[k] == q);
                }
            }
        }
    }
}

pub proof fn lemma_cuts_upto(run: RunView, c: Seq<(int, int)>, n: int)
    requires
        0 <= n <= c.len(),
    ensures
        ordered_cuts(run, cuts_upto(run, c, n)),
        forall|p: (int, int)|
            cuts_upto(run, c, n).contains(p) <==> (inside(run.a, run.b, p) && c.take(n).contains(
                p,
            )),
    decreases n,
{
    let r = cuts_upto(run, c, n);
    if n > 0 {
        lemma_cuts_upto(run, c, n - 1);
        let before = cuts_upto(run, c, n - 1);
        let p = c[n - 1];
        if inside(run.a, run.b, p) && !before.contains(p) {
            lemma_insert_ordered(run, before, p);
        }
        assert forall|q: (int, int)|
            r.contains(q) <==> (inside(run.a, run.b, q) && c.take(n).contains(q)) by {
            assert(c.take(n) == c.take(n - 1).push(p));
            if c.take(n - 1).contains(q) {
                assert(c.take(n)[c.take(n - 1).index_of(q)] == q);
            }
            assert(c.take(n)[n - 1] == p);
            if c.take(n).contains(q) && q != p {
                let k = c.take(n).index_of(q);
                assert(c.take(n - 1)[k] == q);
            }
        }
    }
}

/// The cuts of a run are the candidate points inside it, each once, in the
/// order in which the run meets them.
pub proof fn cuts_are_the_candidates_inside(s: Seq<RunView>, vias: Seq<(int, int)>, run: RunView)
    ensures
        ordered_cuts(run, cuts(s, vias, run)),
        forall|p: (int, int)|
            cuts(s, vias, run).contains(p) <==> (inside(run.a, run.b, p) && candidates(
                s,
                vias,
                run.layer,
            ).contains(p)),
{
    let c = candidates(s, vias, run.layer);
    lemma_cuts_upto(run, c, c.len() as int);
    assert(c.take(c.len() as int) == c);
}

/// The length of all of a list of runs.
pub open spec fn total_len(s: Seq<RunView>) -> int
    decreases s.len(),
{
    if s.len() == 0 {
        0
    } else {
        total_len(s.drop_last()) + s.last().len()
    }
}

proof fn lemma_total_len_add(s: Seq<RunView>, t: Seq<RunView>)
    ensures
        total_len(s + t) == total_len(s) + total_len(t),
    decreases t.len(),
{
    if t.len() == 0 {
        assert(s + t == s);
    } else {
        assert((s + t).drop_last() == s + t.drop_last());
        lemma_total_len_add(s, t.drop_last());
    }
}

/// On a straight run the lengths of two consecutive stretches add up.
proof fn lemma_stretches(a: (int, int), b: (int, int), p: (int, int), q: (int, int))
    requires
        turn(a, b, p) == 0,
        turn(a, b, q) == 0,
        along(a, b, b) > 0,
        0 <= along(a, b, p) <= along(a, b, q),
    ensures
        geom::dist(a.0, p.0) + geom::dist(p.0, q.0) == geom::dist(a.0, q.0),
        geom::dist(a.1, p.1) + geom::dist(p.1, q.1) == geom::dist(a.1, q.1),
{
    lemma_on_line(a, b, p);
    lemma_on_line(a, b, q);
    lemma_axis(a.0, b.0, p.0, q.0, along(a, b, p), along(a, b, q), along(a, b, b));
    lemma_axis(a.1, b.1, p.1, q.1, along(a, b, p), along(a, b, q), along(a, b, b));
}

proof fn lemma_axis(a: int, b: int, p: int, q: int, sp: int, sq: int, l: int)
    requires
        l > 0,
        0 <= sp <= sq,
        (p - a) * l == sp * (b - a),
        (q - a) * l == sq * (b - a),
    ensures
        geom::dist(a, p) + geom::dist(p, q) == geom::dist(a, q),
{
    let d = b - a;
    let x = p - a;
    let y = q - a;
    if d >= 0 {
        assert(x >= 0) by (nonlinear_arith)
            requires
                x * l == sp * d,
                l > 0,
                sp >= 0,
                d >= 0,
        ;
        assert(y >= x) by (nonlinear_arith)
            requires
                x * l == sp * d,
                y * l == sq * d,
                l > 0,
                sp <= sq,
                d >= 0,
        ;
    } else {
        assert(x <= 0) by (nonlinear_arith)
            requires
                x * l == sp * d,
                l > 0,
                sp >= 0,
                d < 0,
        ;
        assert(y <= x) by (nonlinear_arith)
            requires
                x * l == sp * d,
                y * l == sq * d,
                l > 0,
                sp <= sq,
                d < 0,
        ;
    }
}

proof fn lemma_ends_on_line(a: (int, int), b: (int, int))
    ensures
        turn(a, b, a) == 0,
        turn(a, b, b) == 0,
        along(a, b, a) == 0,
{
    assert((b.0 - a.0) * (b.1 - a.1) == (b.1 - a.1) * (b.0 - a.0)) by (nonlinear_arith);
    assert((a.0 - a.0) * (b.0 - a.0) == 0) by (nonlinear_arith);
    assert((a.1 - a.1) * (b.1 - a.1) == 0) by (nonlinear_arith);
    assert((b.0 - a.0) * (a.1 - a.1) == 0) by (nonlinear_arith);
    assert((b.1 - a.1) * (a.0 - a.0) == 0) by (nonlinear_arith);
}

proof fn lemma_pieces_prefix(run: RunView, c: Seq<(int, int)>, k: int)
    requires
        ordered_cuts(run, c),
        0 <= k <= c.len(),
        c.len() > 0,
    ensures
        total_len(pieces(run, c).take(k)) == (if k == 0 {
            0
        } else {
            geom::dist(run.a.0, c[k - 1].0) + geom::dist(run.a.1, c[k - 1].1)
        }),
    decreases k,
{
    let ps = pieces(run, c);
    if k > 0 {
        lemma_pieces_prefix(run, c, k - 1);
        assert(ps.take(k).drop_last() == ps.take(k - 1));
        lemma_ends_on_line(run.a, run.b);
        assert(inside(run.a, run.b, c[k - 1]));
        if k > 1 {
            assert(inside(run.a, run.b, c[k - 2]));
            lemma_stretches(run.a, run.b, c[k - 2], c[k - 1]);
        }
    }
}

pub(crate) proof fn lemma_pieces_len(run: RunView, c: Seq<(int, int)>)
    requires
        ordered_cuts(run, c),
    ensures
        total_len(pieces(run, c)) == run.len(),
{
    let ps = pieces(run, c);
    assert(ps.drop_last() == ps.take(c.len() as int));
    if c.len() == 0 {
        assert(ps.take(0).len() == 0);
        assert(total_len(ps.take(0)) == 0);
    } else {
        lemma_pieces_prefix(run, c, c.len() as int);
        lemma_ends_on_line(run.a, run.b);
        assert(inside(run.a, run.b, c.last()));
        lemma_stretches(run.a, run.b, c.last(), run.b);
    }
}

proof fn lemma_split_len(s: Seq<RunView>, vias: Seq<(int, int)>, n: int)
    requires
        0 <= n <= s.len(),
    ensures
        total_len(split_upto(s, vias, n)) == total_len(s.take(n)),
    decreases n,
{
    if n == 0 {
        assert(s.take(0).len() == 0);
    } else {
        lemma_split_len(s, vias, n - 1);
        cuts_are_the_candidates_inside(s, vias, s[n - 1]);
        lemma_pieces_len(s[n - 1], cuts(s, vias, s[n - 1]));
        lemma_total_len_add(
            split_upto(s, vias, n - 1),
            pieces(s[n - 1], cuts(s, vias, s[n - 1])),
        );
        assert(s.take(n).drop_last() == s.take(n - 1));
    }
}

/// Cutting neither adds wire nor loses any: the pieces of all runs are
/// together as long as the runs.
pub proof fn splitting_conserves_length(s: Seq<RunView>, vias: Seq<(int, int)>)
    ensures
        total_len(split(s, vias)) == total_len(s),
{
    lemma_split_len(s, vias, s.len() as int);
    assert(s.take(s.len() as int) == s);
}

proof fn lemma_insert_cut_at(run: RunView, c: Seq<(int, int)>, p: (int, int), k: int)
    requires
        0 <= k <= c.len(),
        forall|i: int|
            k <= i < c.len() ==> along(run.a, run.b, p) < along(run.a, run.b, #[trigger] c[i]),
        k > 0 ==> !(along(run.a, run.b, p) < along(run.a, run.b, c[k - 1])),
    ensures
        insert_cut(run, c, p) == c.insert(k, p),
    decreases c.len(),
{
    if k < c.len() {
        lemma_insert_cut_at(run, c.drop_last(), p, k);
        assert(c.drop_last().insert(k, p).push(c.last()) == c.insert(k, p));
    } else {
        assert(c.push(p) == c.insert(k, p));
    }
}

spec fn ranged(v: Seq<(i64, i64)>) -> bool {
    forall|i: int|
        0 <= i < v.len() ==> in_range((#[trigger] v[i]).0 as int) && in_range(v[i].1 as int)
}

/// Whether the ends of a run are in range.
pub open spec fn run_in_range(run: RunView) -> bool {
    point_in_range(run.a) && point_in_range(run.b)
}

/// Takes up a candidate point among the cuts of a run.
fn add_cut(run: &NmSeg, c: &mut Vec<(i64, i64)>, p: (i64, i64))
    requires
        run_in_range(run@),
        ranged(old(c)@),
        in_range(p.0 as int) && in_range(p.1 as int),
    ensures
        ranged(final(c)@),
        points(final(c)@) == (if inside(run@.a, run@.b, (p.0 as int, p.1 as int)) && !points(
            old(c)@,
        ).contains((p.0 as int, p.1 as int)) {
            insert_cut(run@, points(old(c)@), (p.0 as int, p.1 as int))
        } else {
            points(old(c)@)
        }),
{
    let ghost pv = (p.0 as int, p.1 as int);
    if !on_interior(run.a, run.b, p) {
        return;
    }
    let mut i: usize = 0;
    while i < c.len()
        invariant
            i <= c@.len(),
            c@ == old(c)@,
            ranged(c@),
            pv == (p.0 as int, p.1 as int),
            inside(run@.a, run@.b, pv),
            forall|j: int| 0 <= j < i ==> points(c@)[j] != pv,
        decreases c@.len() - i,
    {
        if c[i].0 == p.0 && c[i].1 == p.1 {
            assert(points(c@)[i as int] == pv);
            return;
        }
        i = i + 1;
    }
    assert(!points(c@).contains(pv));
    let key: i128 = along_of(run.a, run.b, p);
    let mut k: usize = c.len();
    while k > 0 && key < along_of(run.a, run.b, c[k - 1])
        invariant
            k <= c@.len(),
            c@ == old(c)@,
            ranged(c@),
            run_in_range(run@),
            pv == (p.0 as int, p.1 as int),
            key == along(run@.a, run@.b, pv),
            forall|i: int|
                k <= i < c@.len() ==> key < along(run@.a, run@.b, #[trigger] points(c@)[i]),
        decreases k,
    {
        assert(points(c@)[k - 1] == (c@[k - 1].0 as int, c@[k - 1].1 as int));
        k = k - 1;
    }
    proof {
        if k > 0 {
            assert(points(c@)[k - 1] == (c@[k - 1].0 as int, c@[k - 1].1 as int));
        }
        lemma_insert_cut_at(run@, points(c@), pv, k as int);
    }
    c.insert(k, p);
    assert(points(c@) == points(old(c)@).insert(k as int, pv));
}

proof fn lemma_ends_len(s: Seq<RunView>, layer: Seq<char>, n: int)
    requires
        0 <= n <= s.len(),
    ensures
        ends_upto(s, layer, n).is_prefix_of(ends_upto(s, layer, s.len() as int)),
    decreases s.len() - n,
{
    if n < s.len() {
        lemma_ends_len(s, layer, n + 1);
    }
}

proof fn lemma_cuts_ext(run: RunView, c: Seq<(int, int)>, d: Seq<(int, int)>, n: int)
    requires
        0 <= n <= c.len(),
        n <= d.len(),
        forall|i: int| 0 <= i < n ==> c[i] == d[i],
    ensures
        cuts_upto(run, c, n) == cuts_upto(run, d, n),
    decreases n,
{
    if n > 0 {
        lemma_cuts_ext(run, c, d, n - 1);
    }
}

/// The cuts of a run.
fn cuts_of(segs: &Vec<NmSeg>, vias: &Vec<(i64, i64)>, run: &NmSeg) -> (r: Vec<(i64, i64)>)
    requires
        run_in_range(run@),
        forall|i: int| 0 <= i < segs@.len() ==> run_in_range((#[trigger] segs@[i])@),
        ranged(vias@),
    ensures
        points(r@) == cuts(runs(segs@), points(vias@), run@),
        ranged(r@),
{
    let ghost sv = runs(segs@);
    let ghost layer = run@.layer;
    let ghost all = candidates(sv, points(vias@), layer);
    let mut out: Vec<(i64, i64)> = Vec::new();
    assert(points(out@) == Seq::<(int, int)>::empty());
    for i in 0..segs.len()
        invariant
            sv == runs(segs@),
            layer == run@.layer,
            run_in_range(run@),
            forall|i: int| 0 <= i < segs@.len() ==> run_in_range((#[trigger] segs@[i])@),
            ranged(out@),
            all == candidates(sv, points(vias@), layer),
            points(out@) == cuts_upto(run@, all, ends_upto(sv, layer, i as int).len() as int),
    {
        assert(run_in_range(segs@[i as int]@));
        assert(sv[i as int] == segs@[i as int]@);
        if segs[i].layer == run.layer {
            let ghost e = ends_upto(sv, layer, i as int);
            proof {
                lemma_ends_len(sv, layer, i + 1);
                assert(ends_upto(sv, layer, i + 1) == e.push(sv[i as int].a).push(sv[i as int].b));
                assert(all[e.len() as int] == ends_upto(sv, layer, i + 1)[e.len() as int]);
                assert(all[e.len() as int + 1] == ends_upto(sv, layer, i + 1)[e.len() as int + 1]);
            }
            let ghost n = e.len() as int;
            add_cut(run, &mut out, segs[i].a);
            assert(points(out@) == cuts_upto(run@, all, n + 1));
            add_cut(run, &mut out, segs[i].b);
            assert(points(out@) == cuts_upto(run@, all, n + 2));
        }
    }
    let ghost ends = ends_upto(sv, layer, sv.len() as int);
    for i in 0..vias.len()
        invariant
            run_in_range(run@),
            ranged(out@),
            ranged(vias@),
            all == ends + points(vias@),
            points(out@) == cuts_upto(run@, all, ends.len() + i),
    {
        assert(all[ends.len() + i] == points(vias@)[i as int]);
        assert(in_range(vias@[i as int].0 as int) && in_range(vias@[i as int].1 as int));
        add_cut(run, &mut out, vias[i]);
    }
    out
}

/// Cuts every run where another vertex of the net lands inside it.
pub fn split_at_junctions(segs: &Vec<NmSeg>, vias: &Vec<(i64, i64)>) -> (r: Vec<NmSeg>)
    requires
        forall|i: int| 0 <= i < segs@.len() ==> run_in_range((#[trigger] segs@[i])@),
        forall|i: int|
            0 <= i < vias@.len() ==> in_range((#[trigger] vias@[i]).0 as int) && in_range(
                vias@[i].1 as int,
            ),
    ensures
        runs(r@) == split(runs(segs@), points(vias@)),
        forall|i: int| 0 <= i < r@.len() ==> run_in_range((#[trigger] r@[i])@),
{
    let ghost sv = runs(segs@);
    let ghost pv = points(vias@);
    let mut out: Vec<NmSeg> = Vec::new();
    assert(runs(out@) == Seq::<RunView>::empty());
    for i in 0..segs.len()
        invariant
            sv == runs(segs@),
            pv == points(vias@),
            ranged(vias@),
            forall|i: int| 0 <= i < segs@.len() ==> run_in_range((#[trigger] segs@[i])@),
            forall|i: int| 0 <= i < out@.len() ==> run_in_range((#[trigger] out@[i])@),
            runs(out@) == split_upto(sv, pv, i as int),
    {
        let s = &segs[i];
        assert(run_in_range(segs@[i as int]@));
        assert(sv[i as int] == s@);
        let c = cuts_of(segs, vias, s);
        let ghost cv = points(c@);
        let ghost ps = pieces(s@, cv);
        let ghost done = runs(out@);
        let mut from: (i64, i64) = s.a;
        for k in 0..c.len()
            invariant
                cv == points(c@),
                ps == pieces(s@, cv),
                ranged(c@),
                run_in_range(s@),
                in_range(from.0 as int) && in_range(from.1 as int),
                (from.0 as int, from.1 as int) == (if k == 0 {
                    s@.a
                } else {
                    cv[k - 1]
                }),
                forall|i: int| 0 <= i < out@.len() ==> run_in_range((#[trigger] out@[i])@),
                runs(out@) == done + ps.take(k as int),
        {
            let piece = NmSeg { layer: s.layer.clone(), a: from, b: c[k], width: s.width };
            assert(cv[k as int] == (c@[k as int].0 as int, c@[k as int].1 as int));
            assert(in_range(c@[k as int].0 as int) && in_range(c@[k as int].1 as int));
            assert(piece@ == ps[k as int]);
            out.push(piece);
            assert(runs(out@) == (done + ps.take(k as int)).push(ps[k as int]));
            assert(done + ps.take(k + 1) == (done + ps.take(k as int)).push(ps[k as int]));
            from = c[k];
        }
        let piece = NmSeg { layer: s.layer.clone(), a: from, b: s.b, width: s.width };
        assert(piece@ == ps[cv.len() as int]);
        out.push(piece);
        assert(runs(out@) == (done + ps.take(cv.len() as int)).push(ps[cv.len() as int]));
        assert(ps == ps.take(cv.len() as int).push(ps[cv.len() as int]));
        assert(runs(out@) == done + ps);
    }
    out
}

/// The runs of a net's segments, in whole nanometres.
pub open spec fn net_runs(s: Seq<geom::SegmentView>) -> Seq<RunView> {
    Seq::new(
        s.len(),
        |i: int|
            RunView {
                layer: s[i].layer,
                a: (nearest_nm(s[i].x0), nearest_nm(s[i].y0)),
                b: (nearest_nm(s[i].x1), nearest_nm(s[i].y1)),
                width: s[i].width,
            },
    )
}

/// The places of a net's vias, in whole nanometres.
pub open spec fn via_places(v: Seq<geom::ViaView>) -> Seq<(int, int)> {
    Seq::new(v.len(), |i: int| (nearest_nm(v[i].x), nearest_nm(v[i].y)))
}

/// The runs of a net's segments, in whole nanometres.
pub fn runs_of(segments: &Vec<Segment>) -> (r: Vec<NmSeg>)
    ensures
        runs(r@) == net_runs(geom::segments_view(segments@)),
        forall|i: int| 0 <= i < r@.len() ==> run_in_range((#[trigger] r@[i])@),
{
    let mut out: Vec<NmSeg> = Vec::new();
    for i in 0..segments.len()
        invariant
            out@.len() == i,
            forall|j: int|
                0 <= j < i ==> (#[trigger] out@[j])@ == net_runs(
                    geom::segments_view(segments@),
                )[j],
            forall|j: int| 0 <= j < i ==> run_in_range((#[trigger] out@[j])@),
    {
        let s = &segments[i];
        out.push(
            NmSeg {
                layer: s.layer.clone(),
                a: (qkey(s.x0), qkey(s.y0)),
                b: (qkey(s.x1), qkey(s.y1)),
                width: s.width,
            },
        );
    }
    assert(runs(out@) == net_runs(geom::segments_view(segments@)));
    out
}

} // verus!

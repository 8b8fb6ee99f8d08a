//! The network of a net against its lumped values in decimal fixed point: what
//! cutting wire where it meets other wire costs in rounding.
use crate::balance;
use crate::conserve;
use crate::def::{NetView, SegmentView, ViaView};
use crate::drawn;
use crate::junction;
use crate::junction::RunView;
use crate::number;
use crate::number::{Fixed, Real};
use crate::rc;
use crate::rounding;
use crate::rules;
use crate::rules::RulesView;
use crate::tree;
use crate::tree::{EdgeView, OutcomeView, Wiring};
use vstd::prelude::*;

verus! {

/// The nano-ohms by which rounding can change a piece of wire: one, or where its
/// resistance is a quotient by its width, two and the quotient of one billionth.
pub open spec fn piece_slack(
    run: RunView,
    r: RulesView<Fixed>,
    widths: Map<Seq<char>, Fixed>,
) -> int {
    let w = tree::run_width(run, widths);
    if r.rsheet.contains_key(run.layer) && number::positive(w) {
        2 + 1_000_000_000int / (w.nano as int)
    } else {
        1
    }
}

/// The nano-ohms by which rounding can change pieces of wire.
pub open spec fn slack(
    ps: Seq<RunView>,
    r: RulesView<Fixed>,
    widths: Map<Seq<char>, Fixed>,
) -> int
    decreases ps.len(),
{
    if ps.len() == 0 {
        0
    } else {
        slack(ps.drop_last(), r, widths) + piece_slack(ps.last(), r, widths)
    }
}

/// The pieces that the wire of a net is cut into.
pub open spec fn pieces_of(net: NetView) -> Seq<RunView> {
    junction::split(junction::net_runs(net.segments), junction::via_places(net.via_points))
}

/// Whether a layer has no value below zero in the deck.
pub open spec fn sane(r: RulesView<Fixed>, layer: Seq<char>) -> bool {
    &&& r.layers.contains_key(layer) ==> 0 <= r.layers[layer].cap_per_um.nano && 0
        <= r.layers[layer].res_per_um.nano
    &&& r.rsheet.contains_key(layer) ==> 0 <= r.rsheet[layer].nano
}

/// Whether the length of a piece of wire, and its product with the sheet
/// resistance, can be held.
spec fn run_fits(run: RunView, r: RulesView<Fixed>) -> bool {
    &&& sane(r, run.layer)
    &&& run.len() * 1_000_000 <= i64::MAX
    &&& r.rsheet.contains_key(run.layer) ==> (r.rsheet[run.layer].nano * (run.len() * 1_000_000))
        / 1_000_000_000 <= i64::MAX
}

/// A quotient of a sum is the sum of the quotients, or one more.
proof fn lemma_quotients(a: int, b: int, d: int)
    requires
        d > 0,
    ensures
        a / d + b / d <= (a + b) / d <= a / d + b / d + 1,
{
    rounding::lemma_floor(a, d);
    rounding::lemma_floor(b, d);
    rounding::lemma_floor(a + b, d);
    let (x, y, z) = (a / d, b / d, (a + b) / d);
    assert(x + y <= z <= x + y + 1) by (nonlinear_arith)
        requires
            d > 0,
            x * d <= a < x * d + d,
            y * d <= b < y * d + d,
            z * d <= a + b < z * d + d,
    ;
}

proof fn lemma_quotient_order(a: int, b: int, d: int)
    requires
        d > 0,
        0 <= a <= b,
    ensures
        0 <= a / d <= b / d,
{
    rounding::lemma_floor(a, d);
    rounding::lemma_floor(b, d);
    let (x, y) = (a / d, b / d);
    assert(0 <= x <= y) by (nonlinear_arith)
        requires
            d > 0,
            0 <= a <= b,
            x * d <= a < x * d + d,
            y * d <= b < y * d + d,
    ;
}

/// A product of a length in nanometres and a value for a micrometre.
spec fn per_um(len: int, k: int) -> int {
    (len * 1_000_000 * k) / 1_000_000_000
}

proof fn lemma_per_um(m: int, n: int, k: int)
    requires
        0 <= m,
        0 <= n,
        0 <= k,
    ensures
        0 <= per_um(m, k),
        0 <= per_um(n, k),
        per_um(0, k) == 0,
        per_um(m, k) + per_um(n, k) <= per_um(m + n, k) <= per_um(m, k) + per_um(n, k) + 1,
{
    let (a, b) = (m * 1_000_000 * k, n * 1_000_000 * k);
    assert(0 <= a && 0 <= b && (m + n) * 1_000_000 * k == a + b) by (nonlinear_arith)
        requires
            0 <= m,
            0 <= n,
            0 <= k,
            a == m * 1_000_000 * k,
            b == n * 1_000_000 * k,
    ;
    assert(0 * 1_000_000 * k == 0) by (nonlinear_arith);
    lemma_quotients(a, b, 1_000_000_000);
    lemma_quotient_order(0, a, 1_000_000_000);
    lemma_quotient_order(0, b, 1_000_000_000);
}

/// The capacitance of a piece of wire.
proof fn lemma_run_cap(run: RunView, r: RulesView<Fixed>)
    requires
        run_fits(run, r),
        r.layers.contains_key(run.layer),
    ensures
        0 <= run.len(),
        0 <= per_um(run.len(), r.layers[run.layer].cap_per_um.nano as int),
        conserve::run_cap(run, r) == number::clamp(
            per_um(run.len(), r.layers[run.layer].cap_per_um.nano as int),
        ),
{
    let k = r.layers[run.layer].cap_per_um.nano as int;
    lemma_per_um(run.len(), 0, k);
}

/// The resistance of a piece of wire.
spec fn ohm_of(run: RunView, len: int, r: RulesView<Fixed>, widths: Map<Seq<char>, Fixed>) -> int {
    let w = tree::run_width(run, widths);
    if r.rsheet.contains_key(run.layer) && number::positive(w) {
        (per_um(len, r.rsheet[run.layer].nano as int) * 1_000_000_000) / (w.nano as int)
    } else {
        per_um(len, r.layers[run.layer].res_per_um.nano as int)
    }
}

proof fn lemma_run_res(run: RunView, r: RulesView<Fixed>, widths: Map<Seq<char>, Fixed>)
    requires
        run_fits(run, r),
        r.layers.contains_key(run.layer),
    ensures
        0 <= ohm_of(run, run.len(), r, widths),
        conserve::run_res(run, r, widths) == number::clamp(ohm_of(run, run.len(), r, widths)),
{
    let w = tree::run_width(run, widths);
    if r.rsheet.contains_key(run.layer) && number::positive(w) {
        let q = r.rsheet[run.layer].nano as int;
        lemma_per_um(run.len(), 0, q);
        let len = run.len() * 1_000_000;
        assert(len * q == q * len) by (nonlinear_arith);
        lemma_quotient_order(0, per_um(run.len(), q) * 1_000_000_000, w.nano as int);
    } else {
        lemma_per_um(run.len(), 0, r.layers[run.layer].res_per_um.nano as int);
    }
}

proof fn lemma_shorter(run: RunView, p: RunView, r: RulesView<Fixed>)
    requires
        run_fits(run, r),
        p.layer == run.layer,
        p.len() <= run.len(),
    ensures
        run_fits(p, r),
{
    if r.rsheet.contains_key(run.layer) {
        let q = r.rsheet[run.layer].nano as int;
        let (a, b) = (p.len() * 1_000_000, run.len() * 1_000_000);
        assert(0 <= q * a <= q * b) by (nonlinear_arith)
            requires
                0 <= q,
                0 <= a <= b,
        ;
        lemma_quotient_order(q * a, q * b, 1_000_000_000);
    }
}

/// Whether pieces are of the layer and width of a run.
spec fn alike(s: Seq<RunView>, run: RunView) -> bool {
    forall|i: int|
        0 <= i < s.len() ==> (#[trigger] s[i]).layer == run.layer && s[i].width == run.width
}

/// One less than how many there are.
spec fn joints(n: nat) -> int {
    if n == 0 {
        0
    } else {
        n - 1
    }
}

/// The capacitances of pieces fall short of that of their whole by no more than a
/// billionth for each cut.
proof fn lemma_cap_pieces(s: Seq<RunView>, run: RunView, r: RulesView<Fixed>)
    requires
        alike(s, run),
        r.layers.contains_key(run.layer),
        run_fits(run, r),
        junction::total_len(s) <= run.len(),
        per_um(run.len(), r.layers[run.layer].cap_per_um.nano as int) <= i64::MAX,
    ensures
        0 <= junction::total_len(s),
        rounding::none_below_zero(conserve::run_caps(s, r)),
        ({
            let n = rounding::nanos(conserve::run_caps(s, r));
            let whole = per_um(junction::total_len(s), r.layers[run.layer].cap_per_um.nano as int);
            n <= whole <= n + joints(s.len())
        }),
    decreases s.len(),
{
    let k = r.layers[run.layer].cap_per_um.nano as int;
    let caps = conserve::run_caps(s, r);
    if s.len() == 0 {
        lemma_per_um(0, 0, k);
    } else {
        let t = s.drop_last();
        let last = s.last();
        assert(last == s[s.len() - 1]);
        assert(0 <= last.len());
        assert forall|i: int| 0 <= i < t.len() implies (#[trigger] t[i]).layer == run.layer
            && t[i].width == run.width by {
            assert(t[i] == s[i]);
        }
        lemma_cap_pieces(t, run, r);
        let m = junction::total_len(t);
        lemma_per_um(m, last.len(), k);
        lemma_per_um(m + last.len(), run.len() - m - last.len(), k);
        lemma_shorter(run, last, r);
        lemma_run_cap(last, r);
        assert(caps.drop_last() == conserve::run_caps(t, r));
        assert(caps.last() == conserve::run_cap(last, r));
        assert forall|i: int| 0 <= i < caps.len() implies 0 <= (#[trigger] caps[i]).nano by {
            if i < t.len() {
                assert(caps[i] == conserve::run_caps(t, r)[i]);
            }
        }
        if t.len() == 0 {
            assert(m == 0);
        }
    }
}

/// The sheet resistances of pieces, times their lengths.
spec fn sheets(s: Seq<RunView>, q: int) -> int
    decreases s.len(),
{
    if s.len() == 0 {
        0
    } else {
        sheets(s.drop_last(), q) + per_um(s.last().len(), q)
    }
}

/// The quotients of pieces by a width.
proof fn lemma_sheet_pieces(
    s: Seq<RunView>,
    run: RunView,
    r: RulesView<Fixed>,
    widths: Map<Seq<char>, Fixed>,
)
    requires
        alike(s, run),
        r.layers.contains_key(run.layer),
        run_fits(run, r),
        junction::total_len(s) <= run.len(),
        r.rsheet.contains_key(run.layer),
        number::positive(tree::run_width(run, widths)),
        ohm_of(run, run.len(), r, widths) <= i64::MAX,
    ensures
        rounding::none_below_zero(conserve::run_ress(s, r, widths)),
        0 <= junction::total_len(s),
        ({
            let q = r.rsheet[run.layer].nano as int;
            let w = tree::run_width(run, widths).nano as int;
            let n = rounding::nanos(conserve::run_ress(s, r, widths));
            let v = sheets(s, q);
            &&& 0 <= v <= per_um(junction::total_len(s), q) <= v + joints(s.len())
            &&& n <= (v * 1_000_000_000) / w <= n + joints(s.len())
        }),
    decreases s.len(),
{
    let q = r.rsheet[run.layer].nano as int;
    let w = tree::run_width(run, widths).nano as int;
    let ress = conserve::run_ress(s, r, widths);
    if s.len() == 0 {
        lemma_per_um(0, 0, q);
        lemma_quotient_order(0, 0, w);
        assert(0int / w == 0) by (nonlinear_arith)
            requires
                w > 0,
        ;
    } else {
        let t = s.drop_last();
        let last = s.last();
        assert(last == s[s.len() - 1]);
        assert(0 <= last.len());
        assert forall|i: int| 0 <= i < t.len() implies (#[trigger] t[i]).layer == run.layer
            && t[i].width == run.width by {
            assert(t[i] == s[i]);
        }
        lemma_sheet_pieces(t, run, r, widths);
        let m = junction::total_len(t);
        lemma_per_um(m, last.len(), q);
        lemma_per_um(m + last.len(), run.len() - m - last.len(), q);
        lemma_shorter(run, last, r);
        lemma_run_res(last, r, widths);
        let (u, x) = (sheets(t, q), per_um(last.len(), q));
        lemma_quotients(u * 1_000_000_000, x * 1_000_000_000, w);
        lemma_quotient_order(0, u * 1_000_000_000, w);
        lemma_quotient_order(x * 1_000_000_000, per_um(run.len(), q) * 1_000_000_000, w);
        assert(tree::run_width(last, widths) == tree::run_width(run, widths));
        assert(ress.drop_last() == conserve::run_ress(t, r, widths));
        assert(ress.last() == conserve::run_res(last, r, widths));
        assert forall|i: int| 0 <= i < ress.len() implies 0 <= (#[trigger] ress[i]).nano by {
            if i < t.len() {
                assert(ress[i] == conserve::run_ress(t, r, widths)[i]);
            }
        }
        if t.len() == 0 {
            assert(m == 0 && u == 0);
            assert(conserve::run_ress(t, r, widths).len() == 0);
            assert(0int / w == 0) by (nonlinear_arith)
                requires
                    w > 0,
            ;
        }
    }
}

/// The products of pieces with a resistance for a micrometre.
proof fn lemma_plain_pieces(
    s: Seq<RunView>,
    run: RunView,
    r: RulesView<Fixed>,
    widths: Map<Seq<char>, Fixed>,
)
    requires
        alike(s, run),
        r.layers.contains_key(run.layer),
        run_fits(run, r),
        junction::total_len(s) <= run.len(),
        !(r.rsheet.contains_key(run.layer) && number::positive(tree::run_width(run, widths))),
        ohm_of(run, run.len(), r, widths) <= i64::MAX,
    ensures
        rounding::none_below_zero(conserve::run_ress(s, r, widths)),
        0 <= junction::total_len(s),
        ({
            let n = rounding::nanos(conserve::run_ress(s, r, widths));
            n <= ohm_of(run, junction::total_len(s), r, widths) <= n + joints(s.len())
        }),
    decreases s.len(),
{
    let k = r.layers[run.layer].res_per_um.nano as int;
    let ress = conserve::run_ress(s, r, widths);
    if s.len() == 0 {
        lemma_per_um(0, 0, k);
    } else {
        let t = s.drop_last();
        let last = s.last();
        assert(last == s[s.len() - 1]);
        assert(0 <= last.len());
        assert forall|i: int| 0 <= i < t.len() implies (#[trigger] t[i]).layer == run.layer
            && t[i].width == run.width by {
            assert(t[i] == s[i]);
        }
        lemma_plain_pieces(t, run, r, widths);
        let m = junction::total_len(t);
        lemma_per_um(m, last.len(), k);
        lemma_per_um(m + last.len(), run.len() - m - last.len(), k);
        lemma_shorter(run, last, r);
        lemma_run_res(last, r, widths);
        assert(tree::run_width(last, widths) == tree::run_width(run, widths));
        assert(ress.drop_last() == conserve::run_ress(t, r, widths));
        assert(ress.last() == conserve::run_res(last, r, widths));
        assert forall|i: int| 0 <= i < ress.len() implies 0 <= (#[trigger] ress[i]).nano by {
            if i < t.len() {
                assert(ress[i] == conserve::run_ress(t, r, widths)[i]);
            }
        }
        if t.len() == 0 {
            assert(m == 0);
        }
    }
}

proof fn lemma_slack_alike(
    s: Seq<RunView>,
    run: RunView,
    r: RulesView<Fixed>,
    widths: Map<Seq<char>, Fixed>,
)
    requires
        alike(s, run),
    ensures
        slack(s, r, widths) == s.len() * piece_slack(run, r, widths),
    decreases s.len(),
{
    let x = piece_slack(run, r, widths);
    if s.len() == 0 {
        assert(0 * x == 0);
    } else {
        let t = s.drop_last();
        assert(s.last() == s[s.len() - 1]);
        assert forall|i: int| 0 <= i < t.len() implies (#[trigger] t[i]).layer == run.layer
            && t[i].width == run.width by {
            assert(t[i] == s[i]);
        }
        lemma_slack_alike(t, run, r, widths);
        assert(s.len() * x == (s.len() - 1) * x + x) by (nonlinear_arith);
    }
}

/// The resistances of the pieces of a run fall short of its own by no more than
/// their slack.
proof fn lemma_res_pieces(
    s: Seq<RunView>,
    run: RunView,
    r: RulesView<Fixed>,
    widths: Map<Seq<char>, Fixed>,
)
    requires
        alike(s, run),
        s.len() > 0,
        r.layers.contains_key(run.layer),
        run_fits(run, r),
        junction::total_len(s) == run.len(),
        ohm_of(run, run.len(), r, widths) <= i64::MAX,
    ensures
        rounding::none_below_zero(conserve::run_ress(s, r, widths)),
        ({
            let n = rounding::nanos(conserve::run_ress(s, r, widths));
            n <= ohm_of(run, run.len(), r, widths) <= n + slack(s, r, widths)
        }),
{
    lemma_slack_alike(s, run, r, widths);
    let w = tree::run_width(run, widths);
    if r.rsheet.contains_key(run.layer) && number::positive(w) {
        lemma_sheet_pieces(s, run, r, widths);
        let q = r.rsheet[run.layer].nano as int;
        let wn = w.nano as int;
        let v = sheets(s, q);
        let h = per_um(run.len(), q);
        let d = h - v;
        let m = s.len() as int;
        let e = 1_000_000_000int;
        let u = e / wn;
        lemma_quotient_order(v * e, h * e, wn);
        assert(h * e == v * e + d * e);
        lemma_quotients(v * e, d * e, wn);
        rounding::lemma_floor(e, wn);
        rounding::lemma_floor(d * e, wn);
        lemma_quotient_order(0, e, wn);
        let y = (d * e) / wn;
        assert(d * e <= d * (u * wn + wn)) by (nonlinear_arith)
            requires
                0 <= d,
                e < u * wn + wn,
        ;
        assert(d * (u * wn + wn) == (d * (u + 1)) * wn) by (nonlinear_arith);
        assert(y <= d * (u + 1)) by (nonlinear_arith)
            requires
                0 < wn,
                y * wn <= (d * (u + 1)) * wn,
        ;
        assert(d * (u + 1) <= (m - 1) * (u + 1)) by (nonlinear_arith)
            requires
                0 <= u,
                d <= m - 1,
        ;
        assert((m - 1) + (m - 1) * (u + 1) + 1 <= m * (2 + u)) by (nonlinear_arith)
            requires
                1 <= m,
                0 <= u,
        ;
    } else {
        lemma_plain_pieces(s, run, r, widths);
    }
}

proof fn lemma_slack_append(
    s: Seq<RunView>,
    t: Seq<RunView>,
    r: RulesView<Fixed>,
    widths: Map<Seq<char>, Fixed>,
)
    ensures
        slack(s + t, r, widths) == slack(s, r, widths) + slack(t, r, widths),
    decreases t.len(),
{
    if t.len() == 0 {
        assert(s + t == s);
    } else {
        lemma_slack_append(s, t.drop_last(), r, widths);
        assert((s + t).drop_last() == s + t.drop_last());
        assert((s + t).last() == t.last());
    }
}

proof fn lemma_none_below(s: Seq<Fixed>, t: Seq<Fixed>)
    requires
        rounding::none_below_zero(s),
        rounding::none_below_zero(t),
    ensures
        rounding::none_below_zero(s + t),
{
    assert forall|i: int| 0 <= i < (s + t).len() implies 0 <= (#[trigger] (s + t)[i]).nano by {
        if i < s.len() {
            assert((s + t)[i] == s[i]);
        } else {
            assert((s + t)[i] == t[i - s.len()]);
        }
    }
}

/// Pieces on layers with a rule are of runs on layers with a rule.
proof fn lemma_ruled_runs(
    s: Seq<RunView>,
    vias: Seq<(int, int)>,
    n: int,
    r: RulesView<Fixed>,
)
    requires
        0 <= n <= s.len(),
        conserve::ruled(junction::split_upto(s, vias, n), r),
    ensures
        conserve::ruled(s.take(n), r),
    decreases n,
{
    if n > 0 {
        let run = s[n - 1];
        let before = junction::split_upto(s, vias, n - 1);
        let ps = junction::pieces(run, junction::cuts(s, vias, run));
        let all = junction::split_upto(s, vias, n);
        assert(all == before + ps);
        assert forall|i: int| 0 <= i < before.len() implies r.layers.contains_key(
            (#[trigger] before[i]).layer,
        ) by {
            assert(all[i] == before[i]);
        }
        lemma_ruled_runs(s, vias, n - 1, r);
        assert(all[before.len() as int] == ps[0]);
        assert(ps[0].layer == run.layer);
        assert forall|i: int| 0 <= i < n implies r.layers.contains_key(
            (#[trigger] s.take(n)[i]).layer,
        ) by {
            if i < n - 1 {
                assert(s.take(n - 1)[i] == s[i]);
            }
        }
    }
}

/// The pieces of runs carry what the runs carry, but for what rounding leaves out.
proof fn lemma_fixed_split(
    s: Seq<RunView>,
    vias: Seq<(int, int)>,
    n: int,
    r: RulesView<Fixed>,
    widths: Map<Seq<char>, Fixed>,
)
    requires
        0 <= n <= s.len(),
        conserve::ruled(s, r),
        forall|i: int| 0 <= i < s.len() ==> run_fits(#[trigger] s[i], r),
        forall|i: int|
            0 <= i < s.len() ==> conserve::run_cap(#[trigger] s[i], r).nano < i64::MAX
                && conserve::run_res(s[i], r, widths).nano < i64::MAX,
    ensures
        forall|i: int|
            0 <= i < junction::split_upto(s, vias, n).len() ==> run_fits(
                #[trigger] junction::split_upto(s, vias, n)[i],
                r,
            ),
        ({
            let ps = junction::split_upto(s, vias, n);
            let (a, b) = (conserve::run_caps(ps, r), conserve::run_caps(s.take(n), r));
            let (c, d) = (
                conserve::run_ress(ps, r, widths),
                conserve::run_ress(s.take(n), r, widths),
            );
            &&& rounding::none_below_zero(a)
            &&& rounding::none_below_zero(c)
            &&& rounding::nanos(a) <= rounding::nanos(b)
            &&& rounding::nanos(b) + n <= rounding::nanos(a) + ps.len()
            &&& rounding::nanos(c) <= rounding::nanos(d) <= rounding::nanos(c) + slack(
                ps,
                r,
                widths,
            )
        }),
    decreases n,
{
    if n == 0 {
        assert(conserve::run_caps(s.take(0), r).len() == 0);
        assert(conserve::run_ress(s.take(0), r, widths).len() == 0);
    } else {
        let run = s[n - 1];
        let c = junction::cuts(s, vias, run);
        let before = junction::split_upto(s, vias, n - 1);
        let ps = junction::pieces(run, c);
        let all = junction::split_upto(s, vias, n);
        assert(all == before + ps);
        lemma_fixed_split(s, vias, n - 1, r, widths);
        junction::cuts_are_the_candidates_inside(s, vias, run);
        junction::lemma_pieces_len(run, c);
        assert(run_fits(run, r));
        lemma_run_cap(run, r);
        lemma_run_res(run, r, widths);
        lemma_cap_pieces(ps, run, r);
        lemma_res_pieces(ps, run, r, widths);
        let (ca, cb) = (conserve::run_caps(before, r), conserve::run_caps(ps, r));
        let (ra, rb) = (conserve::run_ress(before, r, widths), conserve::run_ress(ps, r, widths));
        assert(conserve::run_caps(all, r) == ca + cb);
        assert(conserve::run_ress(all, r, widths) == ra + rb);
        rounding::lemma_nanos_append(ca, cb);
        rounding::lemma_nanos_append(ra, rb);
        lemma_none_below(ca, cb);
        lemma_none_below(ra, rb);
        lemma_slack_append(before, ps, r, widths);
        let (sc, sr) = (conserve::run_caps(s.take(n), r), conserve::run_ress(s.take(n), r, widths));
        assert(sc.drop_last() == conserve::run_caps(s.take(n - 1), r));
        assert(sr.drop_last() == conserve::run_ress(s.take(n - 1), r, widths));
        assert(sc.last() == conserve::run_cap(run, r));
        assert(sr.last() == conserve::run_res(run, r, widths));
        assert forall|i: int| 0 <= i < all.len() implies run_fits(#[trigger] all[i], r) by {
            if i < before.len() {
                assert(all[i] == before[i]);
            } else {
                let k = i - before.len();
                assert(all[i] == ps[k]);
                lemma_part_len(ps, k);
                lemma_shorter(run, ps[k], r);
            }
        }
    }
}

/// No piece is longer than all of them.
proof fn lemma_part_len(s: Seq<RunView>, k: int)
    requires
        0 <= k < s.len(),
    ensures
        s[k].len() <= junction::total_len(s),
    decreases s.len(),
{
    let t = s.drop_last();
    if k < t.len() {
        lemma_part_len(t, k);
        assert(t[k] == s[k]);
    } else {
        lemma_len_sum(t);
    }
}

proof fn lemma_len_sum(s: Seq<RunView>)
    ensures
        0 <= junction::total_len(s),
    decreases s.len(),
{
    if s.len() > 0 {
        lemma_len_sum(s.drop_last());
    }
}

proof fn lemma_nanos_update(s: Seq<Fixed>, i: int, x: Fixed)
    requires
        0 <= i < s.len(),
    ensures
        rounding::nanos(s.update(i, x)) == rounding::nanos(s) - s[i].nano + x.nano,
    decreases s.len(),
{
    let t = s.update(i, x);
    if i == s.len() - 1 {
        assert(t.drop_last() == s.drop_last());
    } else {
        lemma_nanos_update(s.drop_last(), i, x);
        assert(t.drop_last() == s.drop_last().update(i, x));
        assert(t.last() == s.last());
    }
}

/// Whether no value of a wiring is below zero.
spec fn unsigned(w: Wiring<Fixed>) -> bool {
    &&& tree::sound(w)
    &&& rounding::none_below_zero(w.caps)
    &&& rounding::none_below_zero(tree::ohms(w.edges))
}

proof fn lemma_fixed_node(w: Wiring<Fixed>, k: (int, int, Seq<char>))
    requires
        unsigned(w),
    ensures
        unsigned(tree::with_node(w, k)),
        rounding::nanos(tree::with_node(w, k).caps) == rounding::nanos(w.caps),
        tree::with_node(w, k).edges == w.edges,
        tree::with_node(w, k).keys.contains(k),
        forall|q: (int, int, Seq<char>)|
            w.keys.contains(q) ==> #[trigger] tree::with_node(w, k).keys.contains(q),
{
    tree::lemma_with_node(w, k);
    let g = tree::with_node(w, k);
    if !w.keys.contains(k) {
        assert(g.caps.drop_last() == w.caps);
        assert forall|i: int| 0 <= i < g.caps.len() implies 0 <= (#[trigger] g.caps[i]).nano by {
            if i < w.caps.len() {
                assert(g.caps[i] == w.caps[i]);
            }
        }
        assert forall|q: (int, int, Seq<char>)| w.keys.contains(q) implies #[trigger] g.keys.contains(
            q,
        ) by {
            assert(g.keys[w.keys.index_of(q)] == q);
        }
    }
}

/// A piece of wire adds its capacitance, in two halves, and its resistance.
proof fn lemma_fixed_lay(
    w: Wiring<Fixed>,
    run: RunView,
    r: RulesView<Fixed>,
    widths: Map<Seq<char>, Fixed>,
)
    requires
        unsigned(w),
        r.layers.contains_key(run.layer),
        run_fits(run, r),
        rounding::nanos(w.caps) + conserve::run_cap(run, r).nano <= i64::MAX,
    ensures
        tree::lay(w, run, r, widths) matches Some(g) && unsigned(g) && rounding::nanos(g.caps)
            <= rounding::nanos(w.caps) + conserve::run_cap(run, r).nano <= rounding::nanos(g.caps)
            + 1 && rounding::nanos(tree::ohms(g.edges)) == rounding::nanos(tree::ohms(w.edges))
            + conserve::run_res(run, r, widths).nano,
{
    let (ka, kb) = ((run.a.0, run.a.1, run.layer), (run.b.0, run.b.1, run.layer));
    lemma_fixed_node(w, ka);
    let h = tree::with_node(w, ka);
    lemma_fixed_node(h, kb);
    let g = tree::with_node(h, kb);
    assert(g.keys.contains(ka) && g.keys.contains(kb));
    let (a, b) = (g.keys.index_of(ka), g.keys.index_of(kb));
    lemma_run_cap(run, r);
    lemma_run_res(run, r, widths);
    let x = conserve::run_cap(run, r);
    let half = x.spec_over(<Fixed as Real>::spec_count(2));
    rounding::lemma_over_count(x, 2);
    rounding::lemma_fixed_total(g.caps);
    let once = g.caps.update(a, g.caps[a].spec_plus(half));
    lemma_nanos_update(g.caps, a, g.caps[a].spec_plus(half));
    assert(rounding::none_below_zero(once)) by {
        assert forall|i: int| 0 <= i < once.len() implies 0 <= (#[trigger] once[i]).nano by {
            assert(0 <= g.caps[i].nano);
        }
    }
    rounding::lemma_fixed_total(once);
    let twice = once.update(b, once[b].spec_plus(half));
    lemma_nanos_update(once, b, once[b].spec_plus(half));
    assert(rounding::none_below_zero(twice)) by {
        assert forall|i: int| 0 <= i < twice.len() implies 0 <= (#[trigger] twice[i]).nano by {
            assert(0 <= once[i].nano);
        }
    }
    let out = tree::lay(w, run, r, widths)->0;
    assert(out.caps == twice);
    assert(out.keys == g.keys);
    if a != b {
        let e = EdgeView { a, b, res: conserve::run_res(run, r, widths) };
        assert(out.edges == g.edges.push(e));
        let ohms = tree::ohms(out.edges);
        assert(ohms.drop_last() == tree::ohms(g.edges));
        assert(ohms.last() == e.res);
        assert forall|i: int| 0 <= i < ohms.len() implies 0 <= (#[trigger] ohms[i]).nano by {
            if i < g.edges.len() {
                assert(ohms[i] == tree::ohms(g.edges)[i]);
            }
        }
        tree::lemma_push_edge(g, e);
    } else {
        assert(ka == kb);
        assert(run.len() == 0);
        assert(ohm_of(run, 0, r, widths) == 0) by {
            let wide = tree::run_width(run, widths);
            if r.rsheet.contains_key(run.layer) && number::positive(wide) {
                lemma_per_um(0, 0, r.rsheet[run.layer].nano as int);
                let wn = wide.nano as int;
                assert(0int / wn == 0) by (nonlinear_arith)
                    requires
                        wn > 0,
                ;
            } else {
                lemma_per_um(0, 0, r.layers[run.layer].res_per_um.nano as int);
            }
        }
    }
}

proof fn lemma_fixed_lays(
    ps: Seq<RunView>,
    n: int,
    r: RulesView<Fixed>,
    widths: Map<Seq<char>, Fixed>,
)
    requires
        0 <= n <= ps.len(),
        conserve::ruled(ps, r),
        forall|i: int| 0 <= i < ps.len() ==> run_fits(#[trigger] ps[i], r),
        rounding::none_below_zero(conserve::run_caps(ps, r)),
        rounding::nanos(conserve::run_caps(ps, r)) <= i64::MAX,
    ensures
        tree::lay_upto(ps, n, r, widths) is Some,
        ({
            let w = tree::lay_upto(ps, n, r, widths)->0;
            let caps = rounding::nanos(conserve::run_caps(ps.take(n), r));
            &&& unsigned(w)
            &&& rounding::nanos(w.caps) <= caps <= rounding::nanos(w.caps) + n
            &&& rounding::nanos(tree::ohms(w.edges)) == rounding::nanos(
                conserve::run_ress(ps.take(n), r, widths),
            )
        }),
    decreases n,
{
    if n == 0 {
        let w = tree::lay_upto(ps, 0, r, widths)->0;
        assert(conserve::run_caps(ps.take(0), r).len() == 0);
        assert(conserve::run_ress(ps.take(0), r, widths).len() == 0);
        assert(tree::ohms(w.edges).len() == 0);
        assert(tree::ends(w.edges).len() == 0);
    } else {
        lemma_fixed_lays(ps, n - 1, r, widths);
        let w = tree::lay_upto(ps, n - 1, r, widths)->0;
        let run = ps[n - 1];
        let all = conserve::run_caps(ps, r);
        let (some, rest) = (all.take(n), all.skip(n));
        assert(all == some + rest);
        rounding::lemma_nanos_append(some, rest);
        assert forall|i: int| 0 <= i < rest.len() implies 0 <= (#[trigger] rest[i]).nano by {
            assert(rest[i] == all[n + i]);
        }
        rounding::lemma_fixed_total(rest);
        assert(conserve::run_caps(ps.take(n), r) == some);
        assert(some.drop_last() == conserve::run_caps(ps.take(n - 1), r));
        assert(some.last() == conserve::run_cap(run, r));
        let ress = conserve::run_ress(ps.take(n), r, widths);
        assert(ress.drop_last() == conserve::run_ress(ps.take(n - 1), r, widths));
        assert(ress.last() == conserve::run_res(run, r, widths));
        assert(run_fits(run, r) && r.layers.contains_key(run.layer));
        lemma_fixed_lay(w, run, r, widths);
    }
}

proof fn lemma_fixed_lands(w: Wiring<Fixed>, vias: Seq<ViaView>, n: int, r: RulesView<Fixed>)
    requires
        unsigned(w),
    ensures
        unsigned(tree::land_upto(w, vias, n, r)),
        rounding::nanos(tree::land_upto(w, vias, n, r).caps) == rounding::nanos(w.caps),
        tree::land_upto(w, vias, n, r).edges == w.edges,
    decreases n,
{
    if n > 0 {
        lemma_fixed_lands(w, vias, n - 1, r);
        let p = junction::via_places(vias)[n - 1];
        lemma_fixed_node(tree::land_upto(w, vias, n - 1, r), (p.0, p.1, vias[n - 1].layer));
    }
}

proof fn lemma_laid_is_ruled(
    ps: Seq<RunView>,
    n: int,
    r: RulesView<Fixed>,
    widths: Map<Seq<char>, Fixed>,
)
    requires
        0 <= n <= ps.len(),
        tree::lay_upto(ps, n, r, widths) is Some,
    ensures
        conserve::ruled(ps.take(n), r),
    decreases n,
{
    if n > 0 {
        lemma_laid_is_ruled(ps, n - 1, r, widths);
        assert forall|i: int| 0 <= i < n implies r.layers.contains_key(
            (#[trigger] ps.take(n)[i]).layer,
        ) by {
            if i < n - 1 {
                assert(ps.take(n - 1)[i] == ps[i]);
            }
        }
    }
}

proof fn lemma_copies(v: Fixed, n: nat)
    requires
        0 <= v.nano,
    ensures
        rounding::none_below_zero(conserve::copies(v, n)),
        rounding::nanos(conserve::copies(v, n)) == n * v.nano,
    decreases n,
{
    if n == 0 {
        assert(0 * v.nano == 0);
    } else {
        let m = (n - 1) as nat;
        lemma_copies(v, m);
        assert(conserve::copies(v, n).drop_last() == conserve::copies(v, m));
        assert(n * v.nano == m * v.nano + v.nano) by (nonlinear_arith)
            requires
                m == n - 1,
        ;
    }
}

/// Whether a segment lies on whole nanometres, its layer has no value below zero
/// in the deck, and its length and the product of that with a sheet resistance can
/// be held.
pub open spec fn segment_fits(s: SegmentView, r: RulesView<Fixed>) -> bool {
    &&& conserve::in_whole_nm(s)
    &&& sane(r, s.layer)
    &&& s.len() * 1000 <= i64::MAX
    &&& r.rsheet.contains_key(s.layer) ==> r.rsheet[s.layer].spec_times(
        <Fixed as Real>::spec_micro(s.len()),
    ).nano < i64::MAX
}

/// Whether every segment of a net fits, and its wire sums to what can be held.
pub open spec fn net_fits(
    net: NetView,
    r: RulesView<Fixed>,
    widths: Map<Seq<char>, Fixed>,
) -> bool {
    let n = net.segments.len() as int;
    &&& forall|i: int| 0 <= i < n ==> segment_fits(#[trigger] net.segments[i], r)
    &&& rc::wire_cap(net.segments, n, r).nano < i64::MAX
    &&& rc::wire_ohm(net.segments, n, r, widths).nano < i64::MAX
}

/// The values of runs on layers with a rule are what they sum to.
proof fn lemma_run_sums(s: Seq<RunView>, r: RulesView<Fixed>, widths: Map<Seq<char>, Fixed>)
    requires
        conserve::ruled(s, r),
        forall|i: int| 0 <= i < s.len() ==> run_fits(#[trigger] s[i], r),
        number::total(conserve::run_caps(s, r)).nano < i64::MAX,
        number::total(conserve::run_ress(s, r, widths)).nano < i64::MAX,
    ensures
        rounding::nanos(conserve::run_caps(s, r)) == number::total(conserve::run_caps(s, r)).nano,
        rounding::nanos(conserve::run_ress(s, r, widths)) == number::total(
            conserve::run_ress(s, r, widths),
        ).nano,
        forall|i: int|
            0 <= i < s.len() ==> conserve::run_cap(#[trigger] s[i], r).nano < i64::MAX
                && conserve::run_res(s[i], r, widths).nano < i64::MAX,
{
    let (caps, ress) = (conserve::run_caps(s, r), conserve::run_ress(s, r, widths));
    assert forall|i: int| 0 <= i < caps.len() implies 0 <= (#[trigger] caps[i]).nano by {
        lemma_run_cap(s[i], r);
    }
    assert forall|i: int| 0 <= i < ress.len() implies 0 <= (#[trigger] ress[i]).nano by {
        lemma_run_res(s[i], r, widths);
    }
    rounding::lemma_fixed_total(caps);
    rounding::lemma_fixed_total(ress);
    assert forall|i: int| 0 <= i < s.len() implies conserve::run_cap(#[trigger] s[i], r).nano
        < i64::MAX && conserve::run_res(s[i], r, widths).nano < i64::MAX by {
        assert(caps[i] == conserve::run_cap(s[i], r));
        assert(ress[i] == conserve::run_res(s[i], r, widths));
    }
}

proof fn lemma_runs_fit(s: Seq<SegmentView>, r: RulesView<Fixed>)
    requires
        forall|i: int| 0 <= i < s.len() ==> segment_fits(#[trigger] s[i], r),
    ensures
        forall|i: int|
            0 <= i < junction::net_runs(s).len() ==> run_fits(
                #[trigger] junction::net_runs(s)[i],
                r,
            ),
{
    let runs = junction::net_runs(s);
    assert forall|i: int| 0 <= i < runs.len() implies run_fits(#[trigger] runs[i], r) by {
        assert(segment_fits(s[i], r));
        assert(runs[i].len() * 1000 == s[i].len());
    }
}

/// In decimal fixed point, the network of a net, before it is scaled, is the net but
/// for what rounding leaves out. Its capacitances never exceed the lumped
/// capacitance and fall short of it by less than two billionths for each piece of
/// wire; its resistances never exceed those of the wire and of as many vias as it
/// joins layers by, and fall short of them by no more than the slack of its pieces.
/// No value of it is below zero. So cutting wire at taps and vias costs a net no more
/// than the rounding of its pieces.
#[verifier::rlimit(50)]
pub proof fn a_fixed_network_carries_its_net(
    net: NetView,
    r: RulesView<Fixed>,
    widths: Map<Seq<char>, Fixed>,
    via_layers: Map<Seq<char>, Seq<Seq<char>>>,
) -> (vias: nat)
    requires
        net_fits(net, r, widths),
    ensures
        tree::outcome(net, r, widths, via_layers) matches OutcomeView::Built(t) ==> {
            let ps = pieces_of(net);
            let most = rc::wire_ohm(net.segments, net.segments.len() as int, r, widths).nano + vias
                * tree::via_ohm(r).nano;
            &&& rc::lumped(net, r, widths) matches Ok(p) && t.raw_cap.nano <= p.cap.nano
                && p.cap.nano - t.raw_cap.nano + net.segments.len() <= 2 * ps.len()
            &&& number::clamp(most - slack(ps, r, widths)).nano <= t.raw_res.nano
                <= number::clamp(most).nano
            &&& net.via_points.len() == 0 && conserve::on_one_layer(net.segments) ==> vias == 0
            &&& rounding::none_below_zero(balance::node_caps(t))
            &&& rounding::none_below_zero(tree::ohms(t.edges))
        },
{
    match tree::outcome(net, r, widths, via_layers) {
        OutcomeView::Built(t) => {
            let places = junction::via_places(net.via_points);
            let runs = junction::net_runs(net.segments);
            let ps = junction::split(runs, places);
            let n = ps.len() as int;
            let count = runs.len() as int;
            let ohm = tree::via_ohm(r);
            lemma_laid_is_ruled(ps, n, r, widths);
            assert(ps.take(n) == ps);
            lemma_ruled_runs(runs, places, count, r);
            assert(runs.take(count) == runs);
            assert forall|i: int| 0 <= i < net.segments.len() implies conserve::in_whole_nm(
                #[trigger] net.segments[i],
            ) by {
                assert(segment_fits(net.segments[i], r));
            }
            conserve::lemma_runs(net.segments, count, r, widths);
            conserve::lemma_unruled(net.segments, 0, r);
            lemma_runs_fit(net.segments, r);
            lemma_run_sums(runs, r, widths);
            lemma_fixed_split(runs, places, count, r, widths);
            lemma_fixed_lays(ps, n, r, widths);
            let laid = tree::lay_upto(ps, n, r, widths)->0;
            lemma_fixed_lands(laid, net.via_points, net.via_points.len() as int, r);
            let vias = conserve::lemma_joined(net, r, widths, via_layers, laid);
            let landed = tree::land_upto(laid, net.via_points, net.via_points.len() as int, r);
            let w = tree::with_vias(landed, net.via_points, via_layers, ohm);
            drawn::every_resistor_is_drawn(net, r, widths, via_layers);
            assert(balance::node_caps(t) == w.caps);
            rounding::lemma_fixed_total(w.caps);
            lemma_copies(ohm, vias);
            let (wire, more) = (tree::ohms(landed.edges), conserve::copies(ohm, vias));
            rounding::lemma_nanos_append(wire, more);
            lemma_none_below(wire, more);
            rounding::lemma_fixed_total(wire + more);
            vias
        },
        _ => 0,
    }
}

/// In decimal fixed point, a stub that taps the wire of a net adds its own
/// capacitance and its own resistance to the network, but for the rounding of the
/// pieces with it and without it.
#[verifier::rlimit(50)]
pub proof fn a_fixed_stub_adds_its_own(
    net: NetView,
    stub: SegmentView,
    r: RulesView<Fixed>,
    widths: Map<Seq<char>, Fixed>,
    via_layers: Map<Seq<char>, Seq<Seq<char>>>,
)
    requires
        net_fits(NetView { segments: net.segments.push(stub), ..net }, r, widths),
        net.via_points.len() == 0,
        conserve::on_one_layer(net.segments.push(stub)),
        tree::outcome(net, r, widths, via_layers) is Built,
        tree::outcome(
            NetView { segments: net.segments.push(stub), ..net },
            r,
            widths,
            via_layers,
        ) is Built,
    ensures
        ({
            let tapped = NetView { segments: net.segments.push(stub), ..net };
            let t = tree::outcome(net, r, widths, via_layers)->Built_0;
            let u = tree::outcome(tapped, r, widths, via_layers)->Built_0;
            let len = <Fixed as Real>::spec_micro(stub.len());
            let cap = len.spec_times(r.layers[stub.layer].cap_per_um).nano;
            let res = (rules::wire_res(
                r,
                stub.layer,
                len,
                rc::segment_width(stub, widths),
            )->0).nano;
            let (with, without) = (pieces_of(tapped), pieces_of(net));
            &&& cap - 2 * with.len() < u.raw_cap.nano - t.raw_cap.nano < cap + 2 * without.len()
            &&& res - slack(with, r, widths) <= u.raw_res.nano - t.raw_res.nano <= res + slack(
                without,
                r,
                widths,
            )
        }),
{
    let s = net.segments;
    let more = s.push(stub);
    let tapped = NetView { segments: more, ..net };
    lemma_built_is_ruled(tapped, r, widths, via_layers);
    assert(more[s.len() as int] == stub);
    lemma_last_segment(s, stub, r, widths);
    lemma_on_one_layer(s, stub);
    lemma_plain_network(tapped, r, widths, via_layers);
    lemma_plain_network(net, r, widths, via_layers);
}

proof fn lemma_on_one_layer(s: Seq<SegmentView>, stub: SegmentView)
    requires
        conserve::on_one_layer(s.push(stub)),
    ensures
        conserve::on_one_layer(s),
{
    let more = s.push(stub);
    assert forall|i: int, j: int| 0 <= i < s.len() && 0 <= j < s.len() implies (
    #[trigger] s[i]).layer == (#[trigger] s[j]).layer by {
        assert(more[i] == s[i] && more[j] == s[j]);
    }
}

/// A network without vias against the wire of its net.
proof fn lemma_plain_network(
    net: NetView,
    r: RulesView<Fixed>,
    widths: Map<Seq<char>, Fixed>,
    via_layers: Map<Seq<char>, Seq<Seq<char>>>,
)
    requires
        net_fits(net, r, widths),
        net.via_points.len() == 0,
        conserve::on_one_layer(net.segments),
        tree::outcome(net, r, widths, via_layers) is Built,
    ensures
        ({
            let t = tree::outcome(net, r, widths, via_layers)->Built_0;
            let n = net.segments.len() as int;
            let cap = rc::wire_cap(net.segments, n, r).nano;
            let ohm = rc::wire_ohm(net.segments, n, r, widths).nano;
            &&& cap - 2 * pieces_of(net).len() < t.raw_cap.nano <= cap
            &&& ohm - slack(pieces_of(net), r, widths) <= t.raw_res.nano <= ohm
        }),
{
    let vias = a_fixed_network_carries_its_net(net, r, widths, via_layers);
    assert(vias * tree::via_ohm(r).nano == 0) by (nonlinear_arith)
        requires
            vias == 0,
    ;
    if net.segments.len() == 0 {
        assert(junction::net_runs(net.segments).len() == 0);
        assert(tree::lay_upto(pieces_of(net), 0, r, widths)->0.keys.len() == 0);
    }
}

/// A net with a network has a rule for each of its layers.
proof fn lemma_built_is_ruled(
    net: NetView,
    r: RulesView<Fixed>,
    widths: Map<Seq<char>, Fixed>,
    via_layers: Map<Seq<char>, Seq<Seq<char>>>,
)
    requires
        tree::outcome(net, r, widths, via_layers) is Built,
    ensures
        forall|i: int|
            0 <= i < net.segments.len() ==> r.layers.contains_key(
                (#[trigger] net.segments[i]).layer,
            ),
{
    let ps = pieces_of(net);
    let runs = junction::net_runs(net.segments);
    lemma_laid_is_ruled(ps, ps.len() as int, r, widths);
    assert(ps.take(ps.len() as int) == ps);
    lemma_ruled_runs(runs, junction::via_places(net.via_points), runs.len() as int, r);
    assert(runs.take(runs.len() as int) == runs);
    assert forall|i: int| 0 <= i < net.segments.len() implies r.layers.contains_key(
        (#[trigger] net.segments[i]).layer,
    ) by {
        assert(runs[i].layer == net.segments[i].layer);
    }
}

/// One more segment adds its own to the lumped values.
proof fn lemma_last_segment(
    s: Seq<SegmentView>,
    stub: SegmentView,
    r: RulesView<Fixed>,
    widths: Map<Seq<char>, Fixed>,
)
    requires
        ({
            let more = s.push(stub);
            let n = more.len() as int;
            &&& forall|i: int| 0 <= i < n ==> segment_fits(#[trigger] more[i], r)
            &&& rc::wire_cap(more, n, r).nano < i64::MAX
            &&& rc::wire_ohm(more, n, r, widths).nano < i64::MAX
        }),
        r.layers.contains_key(stub.layer),
    ensures
        ({
            let more = s.push(stub);
            let n = s.len() as int;
            let len = <Fixed as Real>::spec_micro(stub.len());
            let cap = len.spec_times(r.layers[stub.layer].cap_per_um).nano;
            let res = (rules::wire_res(
                r,
                stub.layer,
                len,
                rc::segment_width(stub, widths),
            )->0).nano;
            &&& forall|i: int| 0 <= i < n ==> segment_fits(#[trigger] s[i], r)
            &&& rc::wire_cap(s, n, r).nano + cap == rc::wire_cap(more, n + 1, r).nano
            &&& rc::wire_ohm(s, n, r, widths).nano + res == rc::wire_ohm(
                more,
                n + 1,
                r,
                widths,
            ).nano
            &&& 0 <= cap
            &&& 0 <= res
        }),
{
    let more = s.push(stub);
    let n = s.len() as int;
    assert forall|i: int| 0 <= i < n implies segment_fits(#[trigger] s[i], r) by {
        assert(more[i] == s[i]);
    }
    conserve::lemma_wire_prefix(s, more, n, r, widths);
    assert(more[n] == stub);
    assert(segment_fits(stub, r));
    let runs = junction::net_runs(more);
    lemma_runs_fit(more, r);
    assert(runs[n].len() * 1000 == stub.len());
    assert(run_fits(runs[n], r));
    lemma_run_cap(runs[n], r);
    lemma_run_res(runs[n], r, widths);
}

} // verus!

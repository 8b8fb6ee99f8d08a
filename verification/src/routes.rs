//! What the routing of a net in a DEF draws: a wire from each point of a route to the
//! next, and a via where one is named.
use crate::def;
use crate::def::{FrameView, Mode, Reading};
use crate::geom::{NetView, SegmentView, ViaView};
use crate::ndr;
use crate::ndr::RuleWidthView;
use crate::number::Real;
use vstd::prelude::*;

verus! {

/// One step of a route: to a point, or a via where the route stands.
pub enum Step {
    To(Seq<char>, Seq<char>),
    Drop(Seq<char>),
}

/// A route: its layer, and its steps.
pub struct Route {
    pub layer: Seq<char>,
    pub steps: Seq<Step>,
}

/// How many tokens a step takes.
pub open spec fn size(s: Step) -> int {
    match s {
        Step::To(_, _) => 4,
        Step::Drop(_) => 1,
    }
}

/// How many tokens the first `k` steps take.
pub open spec fn extent(steps: Seq<Step>, k: int) -> int
    decreases k,
{
    if k <= 0 {
        0
    } else {
        extent(steps, k - 1) + size(steps[k - 1])
    }
}

/// Whether a word can name a via: it is no mark and no keyword of routing.
pub open spec fn is_plain(w: Seq<char>) -> bool {
    &&& w != "+"@ && w != "NEW"@ && w != "("@ && w != ";"@
    &&& w != "TAPER"@ && w != "TAPERRULE"@ && w != "RECT"@ && w != "MASK"@ && w != "STYLE"@
    &&& w != "VIRTUAL"@ && w != "ORIENT"@
}

/// Whether a word is a coordinate: a number, or `*`.
pub open spec fn is_coordinate<N: Real>(w: Seq<char>) -> bool {
    w != ")"@ && (w == "*"@ || N::spec_parse(w) is Some)
}

/// Whether a step is spelled at a token.
pub open spec fn step_at<N: Real>(t: Seq<Seq<char>>, i: int, s: Step) -> bool {
    &&& 0 <= i
    &&& i + size(s) <= t.len()
    &&& match s {
        Step::To(x, y) => t[i] == "("@ && t[i + 1] == x && t[i + 2] == y && t[i + 3] == ")"@
            && is_coordinate::<N>(x) && is_coordinate::<N>(y),
        Step::Drop(name) => t[i] == name && is_plain(name),
    }
}

/// Whether the steps of a route are spelled from a token on.
pub open spec fn steps_at<N: Real>(t: Seq<Seq<char>>, i: int, steps: Seq<Step>) -> bool {
    forall|k: int|
        0 <= k < steps.len() ==> step_at::<N>(t, i + extent(steps, k), #[trigger] steps[k])
}

/// A coordinate in picometres; `*` repeats the one before.
pub open spec fn coordinate<N: Real>(w: Seq<char>, before: int, scale: N) -> int {
    if w == "*"@ {
        before
    } else {
        (N::spec_parse(w)->0).spec_over(scale).spec_millionths()
    }
}

/// Where a route stands after its first `k` steps.
pub open spec fn place<N: Real>(steps: Seq<Step>, k: int, scale: N) -> Option<(int, int)>
    decreases k,
{
    if k <= 0 {
        None
    } else {
        let before = place(steps, k - 1, scale);
        match steps[k - 1] {
            Step::Drop(_) => before,
            Step::To(x, y) => {
                let (px, py) = match before {
                    Some(p) => p,
                    None => (0, 0),
                };
                Some((coordinate(x, px, scale), coordinate(y, py, scale)))
            },
        }
    }
}

/// The wires of the first `k` steps, of a width: one from each point to the next, unless
/// that is the same point.
pub open spec fn wires<N: Real>(r: Route, k: int, scale: N, wide: int) -> Seq<SegmentView>
    decreases k,
{
    if k <= 0 {
        Seq::empty()
    } else {
        let before = wires(r, k - 1, scale, wide);
        match (r.steps[k - 1], place(r.steps, k - 1, scale)) {
            (Step::To(_, _), Some(p)) => {
                let q = place(r.steps, k, scale)->0;
                if p != q {
                    before.push(
                        SegmentView {
                            layer: r.layer,
                            x0: p.0,
                            y0: p.1,
                            x1: q.0,
                            y1: q.1,
                            width: wide,
                        },
                    )
                } else {
                    before
                }
            },
            _ => before,
        }
    }
}

/// The vias of the first `k` steps that stand at a point, on the layer of the route.
pub open spec fn drops<N: Real>(r: Route, k: int, scale: N) -> Seq<ViaView>
    decreases k,
{
    if k <= 0 {
        Seq::empty()
    } else {
        let before = drops(r, k - 1, scale);
        match (r.steps[k - 1], place(r.steps, k - 1, scale)) {
            (Step::Drop(name), Some(p)) => before.push(
                ViaView { x: p.0, y: p.1, layer: r.layer, name },
            ),
            _ => before,
        }
    }
}

/// How many of the first `k` steps are vias.
pub open spec fn drop_count(steps: Seq<Step>, k: int) -> nat
    decreases k,
{
    if k <= 0 {
        0
    } else {
        drop_count(steps, k - 1) + (if steps[k - 1] is Drop {
            1nat
        } else {
            0
        })
    }
}

proof fn lemma_extent(steps: Seq<Step>, k: int)
    requires
        0 <= k <= steps.len(),
    ensures
        0 <= extent(steps, k),
    decreases k,
{
    if k > 0 {
        lemma_extent(steps, k - 1);
    }
}

proof fn lemma_marks()
    ensures
        "("@ != "+"@ && "("@ != "NEW"@ && "("@ != ";"@ && ")"@ != "("@,
        "+"@ != ";"@ && "NEW"@ != ";"@ && "NEW"@ != "+"@ && "-"@ != "END"@,
{
    reveal_strlit("(");
    reveal_strlit(")");
    reveal_strlit("+");
    reveal_strlit(";");
    reveal_strlit("-");
    reveal_strlit("NEW");
    reveal_strlit("END");
    assert("("@[0] == '(' && ")"@[0] == ')' && "+"@[0] == '+' && ";"@[0] == ';');
    assert("NEW"@.len() == 3 && "END"@.len() == 3 && "-"@.len() == 1 && "("@.len() == 1);
}

/// The width that a rule gives a layer: the last one that is stated, and none without a
/// rule or a statement.
pub open spec fn wide_under(
    ws: Seq<RuleWidthView>,
    rule: Option<Seq<char>>,
    layer: Seq<char>,
) -> int
    decreases ws.len(),
{
    if ws.len() == 0 || rule is None {
        0
    } else if ws.last().rule == rule->0 && ws.last().layer == layer {
        ws.last().width
    } else {
        wide_under(ws.drop_last(), rule, layer)
    }
}

proof fn lemma_wide(ws: Seq<RuleWidthView>, rule: Option<Seq<char>>, layer: Seq<char>)
    ensures
        rule matches Some(name) ==> wide_under(ws, rule, layer) == ndr::width_under(
            ws,
            name,
            layer,
        ),
        rule is None ==> wide_under(ws, rule, layer) == 0,
    decreases ws.len(),
{
    if ws.len() > 0 {
        lemma_wide(ws.drop_last(), rule, layer);
    }
}

/// A net while the first `k` steps of a route have been read.
pub open spec fn routed<N: Real>(b: Reading, r: Route, k: int, f: FrameView<N>) -> Reading {
    let scale = f.scale;
    Reading {
        net: NetView {
            segments: b.net.segments + wires(r, k, scale, wide_under(f.widths, b.rule, r.layer)),
            vias: b.net.vias + drop_count(r.steps, k),
            via_points: b.net.via_points + drops(r, k, scale),
            ..b.net
        },
        prev: place(r.steps, k, scale),
        ..b
    }
}

pub(crate) proof fn lemma_group_end(t: Seq<Seq<char>>, i: int)
    requires
        0 <= i,
        i + 3 < t.len(),
        t[i + 1] != ")"@,
        t[i + 2] != ")"@,
        t[i + 3] == ")"@,
    ensures
        def::find_token(t, ")"@, i + 1) == i + 3,
{
    reveal_with_fuel(def::find_token, 4);
}

/// Reading the first `k` steps of a route.
#[verifier::rlimit(50)]
proof fn lemma_steps<N: Real>(
    t: Seq<Seq<char>>,
    i: int,
    b: Reading,
    r: Route,
    k: int,
    f: FrameView<N>,
)
    requires
        0 <= i,
        0 <= k <= r.steps.len(),
        steps_at::<N>(t, i, r.steps),
        b.mode is Routing,
        b.layer == Some(r.layer),
        b.prev is None,
    ensures
        def::items(t, i, b, f) == def::items(
            t,
            i + extent(r.steps, k),
            routed(b, r, k, f),
            f,
        ),
    decreases k,
{
    lemma_marks();
    if k == 0 {
        let z = routed(b, r, 0, f);
        assert(z.net.segments =~= b.net.segments);
        assert(z.net.via_points =~= b.net.via_points);
        assert(z == b);
    } else {
        lemma_steps(t, i, b, r, k - 1, f);
        lemma_extent(r.steps, k - 1);
        let j = i + extent(r.steps, k - 1);
        let x = routed(b, r, k - 1, f);
        let y = routed(b, r, k, f);
        assert(step_at::<N>(t, j, r.steps[k - 1]));
        match r.steps[k - 1] {
            Step::To(cx, cy) => {
                lemma_group_end(t, j);
                let g = def::group(t, j + 1, j + 3, x, f);
                lemma_wide(f.widths, b.rule, r.layer);
                assert(g is Ok);
                assert(g->Ok_0.net.segments =~= y.net.segments);
                assert(g->Ok_0.net.via_points =~= y.net.via_points);
                assert(g->Ok_0 == y);
                assert(def::item(t, j, x, f) == Ok::<(Reading, int), Seq<char>>(
                    (y, def::upto(t, j + 4)),
                ));
            },
            Step::Drop(name) => {
                let l = def::land(x, name);
                assert(l.net.segments =~= y.net.segments);
                assert(l.net.via_points =~= y.net.via_points);
                assert(l == y);
                assert(def::item(t, j, x, f) == Ok::<(Reading, int), Seq<char>>((y, j + 1)));
            },
        }
        def::lemma_item_moves(t, j, x, f);
        if def::upto(t, j + size(r.steps[k - 1])) != j + size(r.steps[k - 1]) {
            assert(j + size(r.steps[k - 1]) == t.len());
        }
    }
}

/// Where the tokens of route `k` start, after its keyword and its layer.
pub open spec fn route_start(routes: Seq<Route>, base: int, k: int) -> int
    decreases k,
{
    if k <= 0 {
        base + 3
    } else {
        let before = routes[k - 1];
        route_start(routes, base, k - 1) + extent(before.steps, before.steps.len() as int) + 2
    }
}

/// Whether a route is spelled: its steps from a token on, its layer before them, and
/// before that `+ ROUTED` for the first one of a net, `NEW` for any other.
#[verifier::opaque]
pub open spec fn route_at<N: Real>(t: Seq<Seq<char>>, i: int, r: Route, first: bool) -> bool {
    &&& steps_at::<N>(t, i, r.steps)
    &&& t[i - 1] == r.layer
    &&& first ==> t[i - 3] == "+"@ && t[i - 2] == "ROUTED"@
    &&& !first ==> t[i - 2] == "NEW"@
}

/// Whether routes are spelled from a token on: the first after `+ ROUTED` and its layer,
/// each other after `NEW` and its layer, and a semicolon after the last.
pub open spec fn routes_at<N: Real>(t: Seq<Seq<char>>, base: int, routes: Seq<Route>) -> bool {
    &&& routes.len() > 0
    &&& forall|k: int|
        0 <= k < routes.len() ==> route_at::<N>(
            t,
            route_start(routes, base, k),
            #[trigger] routes[k],
            k == 0,
        )
    &&& ({
        let end = route_start(routes, base, routes.len() as int) - 2;
        end < t.len() && t[end] == ";"@
    })
}

/// The wires of the first `n` routes, of the widths that a rule gives their layers.
pub open spec fn all_wires<N: Real>(
    routes: Seq<Route>,
    n: int,
    f: FrameView<N>,
    rule: Option<Seq<char>>,
) -> Seq<SegmentView>
    decreases n,
{
    if n <= 0 {
        Seq::empty()
    } else {
        all_wires(routes, n - 1, f, rule) + wires(
            routes[n - 1],
            routes[n - 1].steps.len() as int,
            f.scale,
            wide_under(f.widths, rule, routes[n - 1].layer),
        )
    }
}

/// The vias of the first `n` routes that stand at a point.
pub open spec fn all_drops<N: Real>(routes: Seq<Route>, n: int, scale: N) -> Seq<ViaView>
    decreases n,
{
    if n <= 0 {
        Seq::empty()
    } else {
        all_drops(routes, n - 1, scale) + drops(
            routes[n - 1],
            routes[n - 1].steps.len() as int,
            scale,
        )
    }
}

/// The number of vias of the first `n` routes.
pub open spec fn all_count(routes: Seq<Route>, n: int) -> nat
    decreases n,
{
    if n <= 0 {
        0
    } else {
        all_count(routes, n - 1) + drop_count(
            routes[n - 1].steps,
            routes[n - 1].steps.len() as int,
        )
    }
}

proof fn lemma_start(routes: Seq<Route>, base: int, k: int)
    requires
        0 <= k <= routes.len(),
    ensures
        base + 3 <= route_start(routes, base, k),
    decreases k,
{
    if k > 0 {
        lemma_start(routes, base, k - 1);
        lemma_extent(routes[k - 1].steps, routes[k - 1].steps.len() as int);
    }
}

/// Reading one route of a net.
#[verifier::rlimit(50)]
proof fn lemma_route<N: Real>(
    t: Seq<Seq<char>>,
    i: int,
    b: Reading,
    r: Route,
    first: bool,
    f: FrameView<N>,
) -> (out: Reading)
    requires
        3 <= i <= t.len(),
        route_at::<N>(t, i, r, first),
        !first ==> b.routed,
    ensures
        ({
            let len = r.steps.len() as int;
            &&& out.net == (NetView {
                segments: b.net.segments + wires(
                    r,
                    len,
                    f.scale,
                    wide_under(f.widths, b.net_rule, r.layer),
                ),
                vias: b.net.vias + drop_count(r.steps, len),
                via_points: b.net.via_points + drops(r, len, f.scale),
                ..b.net
            })
            &&& out.routed
            &&& out.net_rule == b.net_rule
            &&& goes_on(
                t,
                if first {
                    i - 3
                } else {
                    i - 2
                },
                b,
                i + extent(r.steps, len),
                out,
                f,
            )
        }),
{
    lemma_marks();
    reveal(route_at);
    let len = r.steps.len() as int;
    let x = Reading {
        mode: Mode::Routing,
        routed: true,
        layer: Some(r.layer),
        rule: b.net_rule,
        prev: None,
        ..b
    };
    if first {
        assert(def::is_status(t[i - 2]));
        assert(def::token_at(t, i - 1) == Some(r.layer));
        assert(def::item(t, i - 3, b, f) == Ok::<(Reading, int), Seq<char>>((x, i)));
        assert(def::items(t, i - 3, b, f) == def::items(t, i, x, f));
    } else {
        assert(def::token_at(t, i - 1) == Some(r.layer));
        assert(def::item(t, i - 2, b, f) == Ok::<(Reading, int), Seq<char>>((x, i)));
        assert(def::items(t, i - 2, b, f) == def::items(t, i, x, f));
    }
    lemma_steps(t, i, x, r, len, f);
    reveal(goes_on);
    routed(x, r, len, f)
}

/// Whether reading on from one token is reading on from another.
#[verifier::opaque]
spec fn goes_on<N: Real>(
    t: Seq<Seq<char>>,
    i: int,
    b: Reading,
    j: int,
    out: Reading,
    f: FrameView<N>,
) -> bool {
    def::items(t, i, b, f) == def::items(t, j, out, f)
}

proof fn lemma_goes_on<N: Real>(
    t: Seq<Seq<char>>,
    i: int,
    b: Reading,
    j: int,
    y: Reading,
    k: int,
    out: Reading,
    f: FrameView<N>,
)
    requires
        goes_on(t, i, b, j, y, f),
        goes_on(t, j, y, k, out, f),
    ensures
        goes_on(t, i, b, k, out, f),
{
    reveal(goes_on);
}

/// Reading the first `n` routes of a net.
#[verifier::rlimit(50)]
proof fn lemma_routes<N: Real>(
    t: Seq<Seq<char>>,
    base: int,
    b: Reading,
    routes: Seq<Route>,
    n: int,
    f: FrameView<N>,
) -> (out: Reading)
    requires
        0 <= base,
        0 < n <= routes.len(),
        routes_at::<N>(t, base, routes),
    ensures
        out.net == (NetView {
            segments: b.net.segments + all_wires(routes, n, f, b.net_rule),
            vias: b.net.vias + all_count(routes, n),
            via_points: b.net.via_points + all_drops(routes, n, f.scale),
            ..b.net
        }),
        out.routed,
        out.net_rule == b.net_rule,
        goes_on(t, base, b, route_start(routes, base, n) - 2, out, f),
    decreases n,
{
    let k = n - 1;
    let r = routes[k];
    let i = route_start(routes, base, k);
    lemma_start(routes, base, k);
    lemma_extent(r.steps, r.steps.len() as int);
    lemma_end_within::<N>(t, base, routes, n);
    assert(route_at::<N>(t, i, routes[k], k == 0));
    if k == 0 {
        let out = lemma_route(t, i, b, r, true, f);
        assert(all_wires(routes, 0, f, b.net_rule) =~= Seq::<SegmentView>::empty());
        assert(all_drops(routes, 0, f.scale) =~= Seq::<ViaView>::empty());
        assert(all_wires(routes, 1, f, b.net_rule) =~= wires(
            r,
            r.steps.len() as int,
            f.scale,
            wide_under(f.widths, b.net_rule, r.layer),
        ));
        assert(all_drops(routes, 1, f.scale) =~= drops(r, r.steps.len() as int, f.scale));
        assert(all_count(routes, 0) == 0);
        out
    } else {
        let y = lemma_routes(t, base, b, routes, k, f);
        let out = lemma_route(t, i, y, r, false, f);
        lemma_goes_on(t, base, b, i - 2, y, route_start(routes, base, n) - 2, out, f);
        assert(out.net.segments =~= b.net.segments + all_wires(routes, n, f, b.net_rule));
        assert(out.net.via_points =~= b.net.via_points + all_drops(routes, n, f.scale));
        out
    }
}

/// Every route lies within the tokens.
proof fn lemma_end_within<N: Real>(t: Seq<Seq<char>>, base: int, routes: Seq<Route>, n: int)
    requires
        0 <= base,
        0 <= n <= routes.len(),
        routes_at::<N>(t, base, routes),
    ensures
        route_start(routes, base, n) - 2 < t.len(),
    decreases routes.len() - n,
{
    if n < routes.len() {
        lemma_end_within::<N>(t, base, routes, n + 1);
        lemma_extent(routes[n].steps, routes[n].steps.len() as int);
    }
}

/// Whether pins are spelled from a token on, each as a group.
pub open spec fn pins_at(t: Seq<Seq<char>>, i: int, pins: Seq<(Seq<char>, Seq<char>)>) -> bool {
    forall|k: int|
        0 <= k < pins.len() ==> t[i + 4 * k] == "("@ && t[i + 4 * k + 1] == (#[trigger] pins[k]).0
            && t[i + 4 * k + 2] == pins[k].1 && t[i + 4 * k + 3] == ")"@ && pins[k].0 != ")"@
            && pins[k].1 != ")"@
}

proof fn lemma_pins<N: Real>(
    t: Seq<Seq<char>>,
    i: int,
    b: Reading,
    pins: Seq<(Seq<char>, Seq<char>)>,
    k: int,
    f: FrameView<N>,
)
    requires
        0 <= i,
        0 <= k <= pins.len(),
        i + 4 * pins.len() < t.len(),
        pins_at(t, i, pins),
        b.mode is Pins,
    ensures
        def::items(t, i, b, f) == def::items(
            t,
            i + 4 * k,
            Reading { net: NetView { pins: b.net.pins + pins.take(k), ..b.net }, ..b },
            f,
        ),
    decreases k,
{
    lemma_marks();
    if k == 0 {
        assert(b.net.pins + pins.take(0) =~= b.net.pins);
    } else {
        lemma_pins(t, i, b, pins, k - 1, f);
        let j = i + 4 * (k - 1);
        let x = Reading { net: NetView { pins: b.net.pins + pins.take(k - 1), ..b.net }, ..b };
        let y = Reading { net: NetView { pins: b.net.pins + pins.take(k), ..b.net }, ..b };
        assert(pins[k - 1] == pins[k - 1]);
        lemma_group_end(t, j);
        assert(x.net.pins.push(pins[k - 1]) =~= y.net.pins);
        assert(def::item(t, j, x, f) == Ok::<(Reading, int), Seq<char>>((y, j + 4)));
    }
}

/// The rule that the attributes of a net name, where no attribute comes before it.
proof fn lemma_rule(t: Seq<Seq<char>>, i: int, j: int)
    requires
        0 <= i <= j < t.len(),
        forall|k: int| i <= k < j ==> #[trigger] t[k] != "+"@ && t[k] != ";"@,
    ensures
        def::net_rule(t, i) == def::net_rule(t, j),
    decreases j - i,
{
    if i < j {
        assert(t[i] != "+"@ && t[i] != ";"@);
        lemma_rule(t, i + 1, j);
    }
}

proof fn lemma_pin_tokens(t: Seq<Seq<char>>, i: int, pins: Seq<(Seq<char>, Seq<char>)>)
    requires
        pins_at(t, i, pins),
        forall|k: int|
            0 <= k < pins.len() ==> is_plain((#[trigger] pins[k]).0) && is_plain(pins[k].1),
    ensures
        forall|j: int| i <= j < i + 4 * pins.len() ==> #[trigger] t[j] != "+"@ && t[j] != ";"@,
{
    lemma_marks();
    reveal_strlit(")");
    reveal_strlit("+");
    reveal_strlit(";");
    assert(")"@[0] == ')' && "+"@[0] == '+' && ";"@[0] == ';');
    assert forall|j: int| i <= j < i + 4 * pins.len() implies #[trigger] t[j] != "+"@ && t[j]
        != ";"@ by {
        let k = (j - i) / 4;
        assert(pins[k] == pins[k]);
        assert(0 <= k < pins.len());
        assert(j == i + 4 * k || j == i + 4 * k + 1 || j == i + 4 * k + 2 || j == i + 4 * k + 3);
    }
}

/// A net of a DEF reads as it is drawn. It starts with `-` and its name; then come its
/// pins, each as a group of instance and pin; then, if it has one, its non-default rule,
/// after `+ NONDEFAULTRULE`; then its routes, the first after `+ ROUTED` and each other
/// after `NEW`, up to the semicolon. It has these pins in this order. On the layer of each
/// route it has a wire from each point to the next, of the width that its rule gives the
/// layer, where `*` repeats a coordinate of the point before; and it has a via at the
/// last point for each word between. The nets after it are read on from there.
#[verifier::rlimit(50)]
pub proof fn a_net_reads_as_it_is_drawn<N: Real>(
    t: Seq<Seq<char>>,
    i: int,
    name: Seq<char>,
    pins: Seq<(Seq<char>, Seq<char>)>,
    rule: Option<Seq<char>>,
    routes: Seq<Route>,
    f: FrameView<N>,
)
    requires
        0 <= i,
        i + 2 + 4 * pins.len() + 3 < t.len(),
        t[i] == "-"@,
        t[i + 1] == name,
        pins_at(t, i + 2, pins),
        forall|k: int|
            0 <= k < pins.len() ==> is_plain((#[trigger] pins[k]).0) && is_plain(pins[k].1),
        ({
            let at = i + 2 + 4 * pins.len();
            match rule {
                Some(name) => t[at] == "+"@ && t[at + 1] == "NONDEFAULTRULE"@ && t[at + 2] == name
                    && is_plain(name) && routes_at::<N>(t, at + 3, routes),
                None => def::net_rule(t, i + 2) is None && routes_at::<N>(t, at, routes),
            }
        }),
    ensures
        ({
            let n = routes.len() as int;
            let at = i + 2 + 4 * pins.len() + (if rule is Some {
                3int
            } else {
                0
            });
            let end = route_start(routes, at, n) - 2;
            let net = NetView {
                name,
                pins,
                segments: all_wires(routes, n, f, rule),
                vias: all_count(routes, n),
                via_points: all_drops(routes, n, f.scale),
            };
            match def::nets_from(t, end + 1, f) {
                Ok(rest) => def::nets_from(t, i, f) == Ok::<Seq<NetView>, Seq<char>>(
                    seq![net] + rest,
                ),
                Err(m) => def::nets_from(t, i, f) == Err::<Seq<NetView>, Seq<char>>(m),
            }
        }),
{
    lemma_marks();
    let n = routes.len() as int;
    let at = i + 2 + 4 * pins.len() as int;
    let base = if rule is Some {
        at + 3
    } else {
        at
    };
    let b = def::opened(t, i);
    assert(b.net_rule == rule) by {
        if rule is Some {
            lemma_pin_tokens(t, i + 2, pins);
            lemma_rule(t, i + 2, at);
        }
    }
    lemma_pins(t, i + 2, b, pins, pins.len() as int, f);
    let x = Reading {
        net: NetView { pins: b.net.pins + pins.take(pins.len() as int), ..b.net },
        ..b
    };
    assert(x.net.pins =~= pins);
    let y = lemma_attribute(t, at, x, rule, f);
    let out = lemma_routes(t, base, y, routes, n, f);
    reveal(goes_on);
    lemma_end_within::<N>(t, base, routes, n);
    lemma_start(routes, base, n);
    let end = route_start(routes, base, n) - 2;
    assert(t[end] == ";"@);
    assert(def::items(t, end, out, f) == Ok::<(Reading, int), Seq<char>>((out, end)));
    assert(def::items(t, i + 2, b, f) == Ok::<(Reading, int), Seq<char>>((out, end)));
    assert(out.net.segments =~= all_wires(routes, n, f, rule));
    assert(out.net.via_points =~= all_drops(routes, n, f.scale));
    assert(def::upto(t, i + 2) == i + 2);
    assert(def::upto(t, end + 1) == end + 1);
}

/// Reading over the non-default rule of a net.
proof fn lemma_attribute<N: Real>(
    t: Seq<Seq<char>>,
    at: int,
    b: Reading,
    rule: Option<Seq<char>>,
    f: FrameView<N>,
) -> (out: Reading)
    requires
        0 <= at,
        at + 3 < t.len(),
        rule matches Some(name) ==> t[at] == "+"@ && t[at + 1] == "NONDEFAULTRULE"@ && t[at + 2]
            == name && is_plain(name),
    ensures
        out.net == b.net && out.net_rule == b.net_rule,
        goes_on(
            t,
            at,
            b,
            if rule is Some {
                at + 3
            } else {
                at
            },
            out,
            f,
        ),
{
    reveal(goes_on);
    if let Some(name) = rule {
        lemma_marks();
        reveal_strlit("NONDEFAULTRULE");
        reveal_strlit("ROUTED");
        reveal_strlit("FIXED");
        reveal_strlit("COVER");
        reveal_strlit("NOSHIELD");
        let key = "NONDEFAULTRULE"@;
        assert(key.len() == 14 && "ROUTED"@.len() == 6 && "FIXED"@.len() == 5 && "COVER"@.len() == 5
            && "NOSHIELD"@.len() == 8);
        assert(!def::is_status(key));
        assert(is_plain(key)) by {
            reveal_strlit("TAPER");
            reveal_strlit("TAPERRULE");
            reveal_strlit("RECT");
            reveal_strlit("MASK");
            reveal_strlit("STYLE");
            reveal_strlit("VIRTUAL");
            reveal_strlit("ORIENT");
            reveal_strlit("+");
            reveal_strlit("NEW");
            reveal_strlit("(");
            reveal_strlit(";");
            assert("TAPER"@.len() == 5 && "TAPERRULE"@.len() == 9 && "RECT"@.len() == 4
                && "MASK"@.len() == 4 && "STYLE"@.len() == 5 && "VIRTUAL"@.len() == 7
                && "ORIENT"@.len() == 6);
            assert("+"@.len() == 1 && "NEW"@.len() == 3 && "("@.len() == 1 && ";"@.len() == 1);
        }
        let x = Reading { mode: Mode::Attribute, ..b };
        assert(def::item(t, at, b, f) == Ok::<(Reading, int), Seq<char>>((x, at + 1)));
        assert(def::items(t, at, b, f) == def::items(t, at + 1, x, f));
        assert(def::item(t, at + 1, x, f) == Ok::<(Reading, int), Seq<char>>((x, at + 2)));
        assert(def::items(t, at + 1, x, f) == def::items(t, at + 2, x, f));
        assert(def::item(t, at + 2, x, f) == Ok::<(Reading, int), Seq<char>>((x, at + 3)));
        assert(def::items(t, at + 2, x, f) == def::items(t, at + 3, x, f));
        x
    } else {
        b
    }
}

/// The ways in which wire is routed, and what may decorate it.
pub proof fn the_keywords_of_routing_are_known()
    ensures
        def::is_status("ROUTED"@) && def::is_status("FIXED"@) && def::is_status("COVER"@)
            && def::is_status("NOSHIELD"@),
        def::is_decoration("TAPER"@) && def::is_decoration("TAPERRULE"@) && def::is_decoration(
            "RECT"@,
        ) && def::is_decoration("MASK"@) && def::is_decoration("STYLE"@) && def::is_decoration(
            "VIRTUAL"@,
        ) && def::is_decoration("ORIENT"@),
{
}

/// A decoration of a route draws nothing: no wire, no via and no pin. `TAPER` takes the
/// rule of the run away, and `TAPERRULE` gives it the one that it names; any other leaves
/// it. An attribute that starts no routing draws nothing either, and ends the routing.
#[verifier::rlimit(50)]
pub proof fn decorations_and_attributes_draw_nothing<N: Real>(
    t: Seq<Seq<char>>,
    i: int,
    r: Reading,
    f: FrameView<N>,
)
    requires
        0 <= i,
        i + 1 < t.len(),
    ensures
        ({
            let out = def::item(t, i, r, f);
            let w = t[i];
            &&& w == "TAPER"@ || w == "TAPERRULE"@ || w == "RECT"@ || w == "MASK"@ || w
                == "STYLE"@ || w == "VIRTUAL"@ || w == "ORIENT"@ ==> out is Ok && out->Ok_0.0.net
                == r.net && out->Ok_0.0.prev == r.prev && out->Ok_0.0.layer == r.layer
                && out->Ok_0.0.mode == r.mode
            &&& w == "TAPER"@ ==> out->Ok_0.0.rule is None
            &&& w == "TAPERRULE"@ && t[i + 1] != ";"@ ==> out->Ok_0.0.rule == Some(t[i + 1])
            &&& w == "RECT"@ || w == "MASK"@ || w == "STYLE"@ || w == "VIRTUAL"@ || w == "ORIENT"@
                ==> out->Ok_0.0.rule == r.rule
            &&& w == "+"@ && t[i + 1] != "ROUTED"@ && t[i + 1] != "FIXED"@ && t[i + 1] != "COVER"@
                && t[i + 1] != "NOSHIELD"@ ==> out is Ok && out->Ok_0.0.net == r.net
                && out->Ok_0.0.mode is Attribute
            &&& w == "+"@ && (t[i + 1] == "ROUTED"@ || t[i + 1] == "FIXED"@ || t[i + 1]
                == "COVER"@ || t[i + 1] == "NOSHIELD"@) && i + 2 < t.len() ==> out is Ok
                && out->Ok_0.0.net == r.net && out->Ok_0.0.mode is Routing && out->Ok_0.0.layer
                == Some(t[i + 2]) && out->Ok_0.0.prev is None && out->Ok_0.0.rule == r.net_rule
            &&& w == "NEW"@ && r.routed ==> out is Ok && out->Ok_0.0.net == r.net
                && out->Ok_0.0.mode is Routing && out->Ok_0.0.layer == Some(t[i + 1])
                && out->Ok_0.0.prev is None && out->Ok_0.0.rule == r.net_rule
        }),
{
    lemma_marks();
    reveal_strlit("TAPER");
    reveal_strlit("TAPERRULE");
    reveal_strlit("RECT");
    reveal_strlit("MASK");
    reveal_strlit("STYLE");
    reveal_strlit("VIRTUAL");
    reveal_strlit("ORIENT");
    reveal_strlit("+");
    reveal_strlit("NEW");
    reveal_strlit("(");
    assert("TAPER"@.len() == 5 && "TAPERRULE"@.len() == 9 && "RECT"@.len() == 4 && "MASK"@.len()
        == 4 && "STYLE"@.len() == 5 && "VIRTUAL"@.len() == 7 && "ORIENT"@.len() == 6);
    assert("+"@.len() == 1 && "NEW"@.len() == 3 && "("@.len() == 1);
    assert("TAPER"@[0] == 'T' && "STYLE"@[0] == 'S' && "RECT"@[0] == 'R' && "MASK"@[0] == 'M');
}

} // verus!

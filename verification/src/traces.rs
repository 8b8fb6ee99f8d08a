//! What becomes of traced metal: every rectangle of a net on a routing layer is a wire
//! of that net, and nothing else is.
use crate::gds;
use crate::gds::{Box2, Prim, RolesView, Shape, Trace};
use crate::geom::{NetView, SegmentView};
use crate::number::Real;
use crate::sort;
use crate::text;
use vstd::prelude::*;

verus! {

/// A coordinate in database units, in picometres.
pub open spec fn in_pm<N: Real>(v: int, dbu_per_um: N) -> int {
    N::spec_micro(v * 1_000_000).spec_over(dbu_per_um).spec_millionths()
}

/// The middle of two coordinates in database units, in picometres.
pub open spec fn half_way<N: Real>(a: int, b: int, dbu_per_um: N) -> int {
    N::spec_micro((a + b) * 1_000_000).spec_over(N::spec_count(2)).spec_over(
        dbu_per_um,
    ).spec_millionths()
}

/// Whether a wire is that of a rectangle: on its layer, from end to end of its longer
/// side, half way between the two longer sides.
pub open spec fn runs_through<N: Real>(
    s: SegmentView,
    layer: Seq<char>,
    r: Box2,
    dbu_per_um: N,
) -> bool {
    &&& s.layer == layer
    &&& r.x1 - r.x0 >= r.y1 - r.y0 ==> {
        &&& s.x0 == in_pm(r.x0 as int, dbu_per_um) && s.x1 == in_pm(r.x1 as int, dbu_per_um)
        &&& s.y0 == half_way(r.y0 as int, r.y1 as int, dbu_per_um) && s.y1 == s.y0
    }
    &&& r.x1 - r.x0 < r.y1 - r.y0 ==> {
        &&& s.y0 == in_pm(r.y0 as int, dbu_per_um) && s.y1 == in_pm(r.y1 as int, dbu_per_um)
        &&& s.x0 == half_way(r.x0 as int, r.x1 as int, dbu_per_um) && s.x1 == s.x0
    }
}

/// A rectangle becomes the wire that runs through it.
pub proof fn a_rectangle_becomes_its_wire<N: Real>(layer: Seq<char>, r: Box2, dbu_per_um: N)
    ensures
        runs_through(gds::centerline(layer, r, dbu_per_um), layer, r, dbu_per_um),
{
}

/// How many rectangles the pieces of a net on routing layers have, among the first `n`.
pub open spec fn rectangles(roles: RolesView, prims: Seq<Prim>, net: int, n: int) -> int
    decreases n,
{
    if n <= 0 {
        0
    } else {
        rectangles(roles, prims, net, n - 1) + (if prims[n - 1].net == net
            && roles.routing.contains_key((prims[n - 1].layer.0 as int, prims[n - 1].layer.1 as int)) {
            prims[n - 1].rects@.len() as int
        } else {
            0
        })
    }
}

proof fn lemma_wires<N: Real>(
    roles: RolesView,
    prims: Seq<Prim>,
    net: int,
    n: int,
    dbu_per_um: N,
)
    requires
        0 <= n <= prims.len(),
    ensures
        ({
            let list = gds::members(roles, prims, net, n);
            let wires = gds::wires_upto(roles, prims, list, list.len() as int, dbu_per_um);
            &&& wires.len() == rectangles(roles, prims, net, n)
            &&& forall|i: int, j: int|
                0 <= i < n && prims[i].net == net && roles.routing.contains_key(
                    gds::ld(prims[i].layer),
                ) && 0 <= j < prims[i].rects@.len() ==> wires.contains(
                    gds::centerline(
                        roles.routing[gds::ld(prims[i].layer)],
                        #[trigger] prims[i].rects@[j],
                        dbu_per_um,
                    ),
                )
        }),
    decreases n,
{
    if n > 0 {
        lemma_wires(roles, prims, net, n - 1, dbu_per_um);
        let before = gds::members(roles, prims, net, n - 1);
        let list = gds::members(roles, prims, net, n);
        let old = gds::wires_upto(roles, prims, before, before.len() as int, dbu_per_um);
        let all = gds::wires_upto(roles, prims, list, list.len() as int, dbu_per_um);
        let p = prims[n - 1];
        if p.net == net && roles.routing.contains_key(gds::ld(p.layer)) {
            lemma_wires_prefix(roles, prims, before, list, before.len() as int, dbu_per_um);
            let own = gds::piece_wires(roles, p, dbu_per_um);
            assert(list[before.len() as int] == n - 1);
            assert(all == old + own);
            assert forall|i: int, j: int|
                0 <= i < n && prims[i].net == net && roles.routing.contains_key(
                    gds::ld(prims[i].layer),
                ) && 0 <= j < prims[i].rects@.len() implies all.contains(
                gds::centerline(
                    roles.routing[gds::ld(prims[i].layer)],
                    #[trigger] prims[i].rects@[j],
                    dbu_per_um,
                ),
            ) by {
                let w = gds::centerline(
                    roles.routing[gds::ld(prims[i].layer)],
                    prims[i].rects@[j],
                    dbu_per_um,
                );
                if i < n - 1 {
                    assert(old.contains(w));
                    assert(all[old.index_of(w)] == w);
                } else {
                    assert(all[old.len() + j] == w);
                }
            }
        }
    }
}

proof fn lemma_wires_prefix<N: Real>(
    roles: RolesView,
    prims: Seq<Prim>,
    a: Seq<int>,
    b: Seq<int>,
    n: int,
    dbu_per_um: N,
)
    requires
        0 <= n <= a.len() <= b.len(),
        forall|i: int| 0 <= i < a.len() ==> a[i] == b[i],
    ensures
        gds::wires_upto(roles, prims, a, n, dbu_per_um) == gds::wires_upto(
            roles,
            prims,
            b,
            n,
            dbu_per_um,
        ),
    decreases n,
{
    if n > 0 {
        lemma_wires_prefix(roles, prims, a, b, n - 1, dbu_per_um);
    }
}

/// Every rectangle of a traced net on a routing layer is a wire of the net, under the
/// name that the layer has in the map; the net has no other wires, has as many vias as
/// cuts, and has the name of its label where it has one.
pub proof fn a_traced_net_has_its_metal<N: Real>(
    roles: RolesView,
    t: Trace,
    net: int,
    i: int,
    j: int,
    dbu_per_um: N,
)
    requires
        0 <= net < t.names@.len(),
        0 <= i < t.prims@.len(),
        t.prims@[i].net == net,
        roles.routing.contains_key((t.prims@[i].layer.0 as int, t.prims@[i].layer.1 as int)),
        0 <= j < t.prims@[i].rects@.len(),
    ensures
        ({
            let n = gds::traced_net(roles, t, net, dbu_per_um);
            let layer = roles.routing[(t.prims@[i].layer.0 as int, t.prims@[i].layer.1 as int)];
            &&& exists|k: int|
                0 <= k < n.segments.len() && runs_through(
                    #[trigger] n.segments[k],
                    layer,
                    t.prims@[i].rects@[j],
                    dbu_per_um,
                )
            &&& n.segments.len() == rectangles(roles, t.prims@, net, t.prims@.len() as int)
            &&& n.vias == t.cuts@[net]
            &&& t.names@[net] matches Some(name) ==> n.name == name@
            &&& n.pins.len() == 0 && n.via_points.len() == 0
        }),
{
    let prims = t.prims@;
    lemma_wires(roles, prims, net, prims.len() as int, dbu_per_um);
    let n = gds::traced_net(roles, t, net, dbu_per_um);
    assert(prims[i].rects@[j] == prims[i].rects@[j]);
    let w = gds::centerline(
        roles.routing[gds::ld(prims[i].layer)],
        prims[i].rects@[j],
        dbu_per_um,
    );
    assert(n.segments.contains(w));
    let k = n.segments.index_of(w);
    assert(n.segments[k] == w);
}

/// Every net with metal on a routing layer is traced, and no other: the nets are as many
/// as the numbers below `k` that have such metal, each once.
pub proof fn every_net_with_metal_is_traced<N: Real>(
    roles: RolesView,
    t: Trace,
    net: int,
    i: int,
    dbu_per_um: N,
)
    requires
        0 <= net < t.names@.len(),
        0 <= i < t.prims@.len(),
        t.prims@[i].net == net,
        roles.routing.contains_key((t.prims@[i].layer.0 as int, t.prims@[i].layer.1 as int)),
    ensures
        gds::traced_upto(roles, t, t.names@.len() as int, dbu_per_um).contains(
            gds::traced_net(roles, t, net, dbu_per_um),
        ),
{
    lemma_member(roles, t.prims@, net, t.prims@.len() as int, i);
    lemma_traced(roles, t, net, t.names@.len() as int, dbu_per_um);
}

proof fn lemma_member(roles: RolesView, prims: Seq<Prim>, net: int, n: int, i: int)
    requires
        0 <= i < n <= prims.len(),
        prims[i].net == net,
        roles.routing.contains_key(gds::ld(prims[i].layer)),
    ensures
        gds::members(roles, prims, net, n).len() > 0,
    decreases n,
{
    if i < n - 1 {
        lemma_member(roles, prims, net, n - 1, i);
    }
}

proof fn lemma_traced<N: Real>(roles: RolesView, t: Trace, net: int, k: int, dbu_per_um: N)
    requires
        0 <= net < k <= t.names@.len(),
        gds::members(roles, t.prims@, net, t.prims@.len() as int).len() > 0,
    ensures
        gds::traced_upto(roles, t, k, dbu_per_um).contains(
            gds::traced_net(roles, t, net, dbu_per_um),
        ),
    decreases k,
{
    let all = gds::traced_upto(roles, t, k, dbu_per_um);
    let n = gds::traced_net(roles, t, net, dbu_per_um);
    if net == k - 1 {
        assert(all[all.len() - 1] == n);
    } else {
        lemma_traced(roles, t, net, k - 1, dbu_per_um);
        let before = gds::traced_upto(roles, t, k - 1, dbu_per_um);
        assert(all[before.index_of(n)] == n);
    }
}

/// The shapes on the layers that a map names for cuts, and on none that it routes on,
/// are the cuts, in order and none left out.
pub proof fn every_cut_is_found(roles: RolesView, shapes: Seq<Shape>, i: int)
    requires
        0 <= i < shapes.len(),
    ensures
        ({
            let l = (shapes[i].layer.0 as int, shapes[i].layer.1 as int);
            !roles.routing.contains_key(l) && roles.vias.contains(l) ==> gds::cuts_upto(
                roles,
                shapes,
                shapes.len() as int,
            ).contains(shapes[i].area)
        }),
{
    if !roles.routing.contains_key(gds::ld(shapes[i].layer)) && roles.vias.contains(
        gds::ld(shapes[i].layer),
    ) {
        lemma_cut(roles, shapes, i, shapes.len() as int);
    }
}

/// Whether a rectangle is filed under a layer.
pub open spec fn filed(
    s: Seq<((int, int), Seq<Box2>)>,
    l: (int, int),
    b: Box2,
) -> bool {
    exists|k: int| 0 <= k < s.len() && (#[trigger] s[k]).0 == l && s[k].1.contains(b)
}

/// The shapes on routing layers are filed under their layers, none left out.
pub proof fn every_routing_shape_is_filed(roles: RolesView, shapes: Seq<Shape>, i: int)
    requires
        0 <= i < shapes.len(),
        roles.routing.contains_key((shapes[i].layer.0 as int, shapes[i].layer.1 as int)),
    ensures
        filed(
            gds::filed_upto(roles, shapes, shapes.len() as int),
            (shapes[i].layer.0 as int, shapes[i].layer.1 as int),
            shapes[i].area,
        ),
{
    lemma_filed(roles, shapes, i, shapes.len() as int);
}

proof fn lemma_filed(roles: RolesView, shapes: Seq<Shape>, i: int, n: int)
    requires
        0 <= i < n <= shapes.len(),
        roles.routing.contains_key(gds::ld(shapes[i].layer)),
    ensures
        filed(gds::filed_upto(roles, shapes, n), gds::ld(shapes[i].layer), shapes[i].area),
    decreases n,
{
    let before = gds::filed_upto(roles, shapes, n - 1);
    let s = shapes[n - 1];
    if i < n - 1 {
        lemma_filed(roles, shapes, i, n - 1);
    }
    if roles.routing.contains_key(gds::ld(s.layer)) {
        lemma_file(before, gds::ld(s.layer), s.area, gds::ld(shapes[i].layer), shapes[i].area);
    }
}

proof fn lemma_file(
    s: Seq<((int, int), Seq<Box2>)>,
    l: (int, int),
    b: Box2,
    m: (int, int),
    c: Box2,
)
    ensures
        filed(gds::file_under(s, l, b), l, b),
        filed(s, m, c) ==> filed(gds::file_under(s, l, b), m, c),
    decreases s.len(),
{
    let out = gds::file_under(s, l, b);
    let d = s.drop_last();
    if s.len() == 0 || gds::ld_lt(s.last().0, l) {
        assert(out[s.len() as int].0 == l);
        assert(out[s.len() as int].1[0] == b);
        if filed(s, m, c) {
            let k = choose|k: int| 0 <= k < s.len() && (#[trigger] s[k]).0 == m && s[k].1.contains(c);
            assert(out[k] == s[k]);
        }
    } else if s.last().0 == l {
        let z = s.len() - 1;
        let own = s.last().1;
        assert(out[z].0 == l && out[z].1 == own.push(b));
        assert(out[z].1[own.len() as int] == b);
        if filed(s, m, c) {
            let k = choose|k: int| 0 <= k < s.len() && (#[trigger] s[k]).0 == m && s[k].1.contains(c);
            if k < z {
                assert(out[k] == s[k]);
            } else {
                assert(out[z].1[own.index_of(c)] == c);
            }
        }
    } else {
        lemma_file(d, l, b, m, c);
        let e = gds::file_under(d, l, b);
        assert(out == e.push(s.last()));
        let x = choose|k: int| 0 <= k < e.len() && (#[trigger] e[k]).0 == l && e[k].1.contains(b);
        assert(out[x] == e[x]);
        if filed(s, m, c) {
            let k = choose|k: int| 0 <= k < s.len() && (#[trigger] s[k]).0 == m && s[k].1.contains(c);
            if k < d.len() {
                assert(d[k] == s[k]);
                assert(filed(d, m, c));
                let y = choose|k: int|
                    0 <= k < e.len() && (#[trigger] e[k]).0 == m && e[k].1.contains(c);
                assert(out[y] == e[y]);
            } else {
                assert(out[e.len() as int] == s[k]);
            }
        }
    }
}

proof fn lemma_cut(roles: RolesView, shapes: Seq<Shape>, i: int, n: int)
    requires
        0 <= i < n <= shapes.len(),
        !roles.routing.contains_key(gds::ld(shapes[i].layer)) && roles.vias.contains(
            gds::ld(shapes[i].layer),
        ),
    ensures
        gds::cuts_upto(roles, shapes, n).contains(shapes[i].area),
    decreases n,
{
    let all = gds::cuts_upto(roles, shapes, n);
    if i == n - 1 {
        assert(all[all.len() - 1] == shapes[i].area);
    } else {
        lemma_cut(roles, shapes, i, n - 1);
        let before = gds::cuts_upto(roles, shapes, n - 1);
        assert(all[before.index_of(shapes[i].area)] == shapes[i].area);
    }
}

/// What the line of a layer map gives: `routing` a name to a layer, `via` and `label` a
/// role, and nothing to any other layer.
pub proof fn a_line_of_a_map_gives_its_role(
    m: RolesView,
    raw: Seq<char>,
    key: Seq<char>,
    rest: Seq<char>,
)
    requires
        text::has_char(text::trim(text::before(raw, '#')), ':'),
        key == text::lower(text::trim(text::before(text::trim(text::before(raw, '#')), ':'))),
        rest == text::after(text::trim(text::before(raw, '#')), ':'),
        text::words(rest).len() >= 1,
        gds::layer_of(text::words(rest)[0]) is Ok,
    ensures
        ({
            let l = gds::layer_of(text::words(rest)[0])->Ok_0;
            let out = gds::role_line(m, raw);
            let r = out->Ok_0;
            &&& key == "routing"@ && text::words(rest).len() == 2 ==> out is Ok
                && r.routing == m.routing.insert(l, text::words(rest)[1]) && r.vias == m.vias
                && r.labels == m.labels
            &&& key == "via"@ ==> out is Ok && r.vias.contains(l) && r.vias.len()
                == m.vias.len() + 1 && r.routing == m.routing && r.labels == m.labels
            &&& key == "label"@ ==> out is Ok && r.labels.contains(l) && r.labels.len()
                == m.labels.len() + 1 && r.routing == m.routing && r.vias == m.vias
            &&& key != "routing"@ && key != "via"@ && key != "label"@ ==> out is Err
        }),
{
    let l = gds::layer_of(text::words(rest)[0])->Ok_0;
    let line = text::trim(text::before(raw, '#'));
    reveal_strlit("routing");
    reveal_strlit("via");
    reveal_strlit("label");
    assert("routing"@.len() == 7 && "via"@.len() == 3 && "label"@.len() == 5);
    assert(line.len() > 0);
    assert(m.vias.push(l)[m.vias.len() as int] == l);
    assert(m.labels.push(l)[m.labels.len() as int] == l);
}

/// Whether a net has metal on a routing layer.
pub open spec fn has_metal(roles: RolesView, t: Trace, net: int) -> bool {
    exists|i: int|
        0 <= i < t.prims@.len() && (#[trigger] t.prims@[i]).net == net
            && roles.routing.contains_key((t.prims@[i].layer.0 as int, t.prims@[i].layer.1 as int))
}

/// How many of the nets below `k` have metal and no label.
pub open spec fn unlabelled(roles: RolesView, t: Trace, k: int) -> nat
    decreases k,
{
    if k <= 0 {
        0
    } else {
        unlabelled(roles, t, k - 1) + (if has_metal(roles, t, k - 1) && t.names@[k - 1] is None {
            1nat
        } else {
            0
        })
    }
}

proof fn lemma_metal(roles: RolesView, prims: Seq<Prim>, net: int, n: int)
    requires
        0 <= n <= prims.len(),
    ensures
        gds::members(roles, prims, net, n).len() > 0 ==> exists|i: int|
            0 <= i < n && (#[trigger] prims[i]).net == net && roles.routing.contains_key(
                gds::ld(prims[i].layer),
            ),
    decreases n,
{
    if n > 0 {
        lemma_metal(roles, prims, net, n - 1);
        if gds::members(roles, prims, net, n).len() > 0 {
            if gds::members(roles, prims, net, n - 1).len() > 0 {
                let i = choose|i: int|
                    0 <= i < n - 1 && (#[trigger] prims[i]).net == net
                        && roles.routing.contains_key(gds::ld(prims[i].layer));
                assert(prims[i].net == net);
            } else {
                assert(prims[n - 1].net == net);
            }
        }
    }
}

proof fn lemma_has_metal(roles: RolesView, t: Trace, net: int)
    ensures
        gds::members(roles, t.prims@, net, t.prims@.len() as int).len() > 0 <==> has_metal(
            roles,
            t,
            net,
        ),
{
    let n = t.prims@.len() as int;
    lemma_metal(roles, t.prims@, net, n);
    if has_metal(roles, t, net) {
        let i = choose|i: int|
            0 <= i < n && (#[trigger] t.prims@[i]).net == net && roles.routing.contains_key(
                (t.prims@[i].layer.0 as int, t.prims@[i].layer.1 as int),
            );
        lemma_member(roles, t.prims@, net, n, i);
    }
}

proof fn lemma_unlabelled(roles: RolesView, t: Trace, k: int)
    ensures
        gds::unnamed_upto(roles, t, k) == unlabelled(roles, t, k),
    decreases k,
{
    if k > 0 {
        lemma_unlabelled(roles, t, k - 1);
        lemma_has_metal(roles, t, k - 1);
    }
}

/// A traced net without a label is named by its number among those without: `gnet_1`,
/// `gnet_2` and so on. A net without metal on a routing layer is not counted and is not
/// traced: the nets are as many as have such metal.
pub proof fn nets_without_a_label_are_numbered<N: Real>(
    roles: RolesView,
    t: Trace,
    net: int,
    dbu_per_um: N,
)
    requires
        0 <= net < t.names@.len(),
    ensures
        t.names@[net] is None ==> gds::traced_net(roles, t, net, dbu_per_um).name == "gnet_"@
            + text::nat_text(unlabelled(roles, t, net) + 1),
        gds::traced_upto(roles, t, net + 1, dbu_per_um).len() == gds::traced_upto(
            roles,
            t,
            net,
            dbu_per_um,
        ).len() + (if has_metal(roles, t, net) {
            1int
        } else {
            0
        }),
{
    lemma_unlabelled(roles, t, net);
    lemma_has_metal(roles, t, net);
}

/// Traced nets are in the order of their names.
pub proof fn traced_nets_are_in_the_order_of_names(
    out: Seq<NetView>,
    list: Seq<NetView>,
    i: int,
    j: int,
)
    requires
        gds::in_name_order(out, list),
        0 <= i < j < out.len(),
    ensures
        out.len() == list.len(),
        list.contains(out[i]),
        text::text_lt(out[i].name, out[j].name) || out[i].name == out[j].name,
{
    let names = gds::sort_names(list);
    let order = choose|order: Seq<usize>| #[trigger]
        sort::orders(order, names) && out == Seq::new(list.len(), |i: int| list[order[i] as int]);
    assert(sort::name_comes(names, order[i], order[j]));
    assert(order.contains(order[i]) && order.contains(order[j]));
    assert(out[i] == list[order[i] as int] && out[j] == list[order[j] as int]);
}

} // verus!

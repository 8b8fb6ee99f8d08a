//! What the parts of a net add up to in decimal fixed point.
//!
//! A fixed-point value holds whole billionths, so a part of a net is rounded down
//! to one. Here it is shown how little that leaves out: the parts of a net never
//! exceed the net, and fall short of it by less than a billionth each, beside what
//! the rounding of a scaling factor takes.
use crate::balance;
use crate::coupling::CapView;
use crate::hookup::PinResolver;
use crate::number;
use crate::number::{Fixed, Real};
use crate::rc::ParasiticsView;
use crate::spef;
use crate::tree;
use crate::tree::NetworkView;
use vstd::prelude::*;

verus! {

/// The billionths of fixed-point values, summed.
pub open spec fn nanos(s: Seq<Fixed>) -> int
    decreases s.len(),
{
    if s.len() == 0 {
        0
    } else {
        nanos(s.drop_last()) + s.last().nano
    }
}

/// Whether no value is below zero.
pub open spec fn none_below_zero(s: Seq<Fixed>) -> bool {
    forall|i: int| 0 <= i < s.len() ==> 0 <= (#[trigger] s[i]).nano
}

/// A sum of values, none below zero, is what they add up to, or the most that
/// can be held where that is less.
pub(crate) proof fn lemma_fixed_total(s: Seq<Fixed>)
    requires
        none_below_zero(s),
    ensures
        0 <= nanos(s),
        number::total(s) == number::clamp(nanos(s)),
        forall|i: int| 0 <= i < s.len() ==> (#[trigger] s[i]).nano <= nanos(s),
    decreases s.len(),
{
    if s.len() > 0 {
        assert(none_below_zero(s.drop_last())) by {
            assert forall|i: int| 0 <= i < s.drop_last().len() implies 0 <= (
            #[trigger] s.drop_last()[i]).nano by {
                assert(s.drop_last()[i] == s[i]);
            }
        }
        lemma_fixed_total(s.drop_last());
        assert(0 <= s.last().nano);
        assert forall|i: int| 0 <= i < s.len() implies (#[trigger] s[i]).nano <= nanos(s) by {
            if i < s.len() - 1 {
                assert(s.drop_last()[i] == s[i]);
            }
        }
    }
}

pub(crate) proof fn lemma_floor(a: int, d: int)
    requires
        d > 0,
    ensures
        (a / d) * d <= a < (a / d) * d + d,
{
    vstd::arithmetic::div_mod::lemma_fundamental_div_mod(a, d);
    vstd::arithmetic::div_mod::lemma_mod_bound(a, d);
    assert((a / d) * d == d * (a / d)) by (nonlinear_arith);
}

/// One value times a factor, where the result can be held.
proof fn lemma_fixed_times(c: int, k: int, most: int)
    requires
        0 <= c,
        0 <= k,
        c * k <= most * 1_000_000_000,
        most <= i64::MAX,
    ensures
        0 <= (c * k) / 1_000_000_000 <= most,
        ((c * k) / 1_000_000_000) * 1_000_000_000 <= c * k,
        c * k < ((c * k) / 1_000_000_000) * 1_000_000_000 + 1_000_000_000,
{
    assert(0 <= c * k) by (nonlinear_arith)
        requires
            0 <= c,
            0 <= k,
    ;
}

/// The parts fall short of the scaled sum by less than a billionth each.
proof fn lemma_fixed_scaled(s: Seq<Fixed>, k: Fixed, most: int)
    requires
        none_below_zero(s),
        0 <= k.nano,
        0 <= most <= i64::MAX,
        nanos(s) * k.nano <= most * 1_000_000_000,
    ensures
        none_below_zero(balance::scaled(s, k)),
        nanos(balance::scaled(s, k)) * 1_000_000_000 <= nanos(s) * k.nano,
        nanos(s) * k.nano <= (nanos(balance::scaled(s, k)) + s.len()) * 1_000_000_000,
        s.len() > 0 ==> nanos(s) * k.nano < (nanos(balance::scaled(s, k)) + s.len()) * 1_000_000_000,
    decreases s.len(),
{
    let r = balance::scaled(s, k);
    if s.len() == 0 {
        assert(nanos(s) * k.nano == 0) by (nonlinear_arith)
            requires
                nanos(s) == 0,
        ;
    } else {
        let t = s.drop_last();
        let c = s.last().nano as int;
        assert forall|i: int| 0 <= i < t.len() implies 0 <= (#[trigger] t[i]).nano by {
            assert(t[i] == s[i]);
        }
        lemma_fixed_total(t);
        lemma_fixed_total(s);
        let kn = k.nano as int;
        assert(nanos(s) * kn == nanos(t) * kn + c * kn) by (nonlinear_arith)
            requires
                nanos(s) == nanos(t) + c,
        ;
        assert(0 <= nanos(t) * kn && 0 <= c * kn) by (nonlinear_arith)
            requires
                0 <= nanos(t),
                0 <= c,
                0 <= kn,
        ;
        lemma_fixed_scaled(t, k, most);
        lemma_fixed_times(c, kn, most);
        assert(r.drop_last() == balance::scaled(t, k));
        assert(r.last() == s.last().spec_times(k));
        assert(r.last().nano == (c * kn) / 1_000_000_000);
        assert forall|i: int| 0 <= i < r.len() implies 0 <= (#[trigger] r[i]).nano by {
            if i < t.len() {
                assert(r[i] == balance::scaled(t, k)[i]);
            }
        }
    }
}

/// Whether a sum of rounded parts makes up a whole: it never exceeds it, and it
/// falls short by less than a billionth for each of `parts` and a billionth of
/// `own` billionths.
pub open spec fn nearly(sum: Fixed, whole: Fixed, parts: int, own: int) -> bool {
    &&& sum.nano <= whole.nano
    &&& (whole.nano - sum.nano) * 1_000_000_000 < parts * 1_000_000_000 + own
}

/// In decimal fixed point, values that are scaled to a whole make up the whole
/// but for what rounding leaves out: they never exceed it, and they fall short
/// of it by less than a billionth for each value and a billionth of their own sum.
/// This holds where no value is below zero and neither their sum nor the factor
/// is too great to hold.
pub proof fn fixed_parts_make_up_the_whole(s: Seq<Fixed>, whole: Fixed)
    requires
        none_below_zero(s),
        0 < nanos(s) <= i64::MAX,
        0 <= whole.nano,
        whole.nano * 1_000_000_000 <= i64::MAX * nanos(s),
    ensures
        ({
            let parts = balance::scaled(s, spef::scale(whole, number::total(s)));
            &&& none_below_zero(parts)
            &&& nearly(number::total(parts), whole, s.len() as int, nanos(s))
        }),
{
    lemma_fixed_total(s);
    let raw = nanos(s);
    let w = whole.nano as int;
    let k = spef::scale(whole, number::total(s));
    let q = (w * 1_000_000_000) / raw;
    lemma_floor(w * 1_000_000_000, raw);
    assert(q <= i64::MAX && 0 <= q) by (nonlinear_arith)
        requires
            q * raw <= w * 1_000_000_000,
            w * 1_000_000_000 < q * raw + raw,
            w * 1_000_000_000 <= i64::MAX * raw,
            0 <= w,
            0 < raw,
    ;
    assert(k.nano == q);
    assert(raw * q == q * raw) by (nonlinear_arith);
    lemma_fixed_scaled(s, k, w);
    lemma_fixed_total(balance::scaled(s, k));
}

/// Whether values, none below zero, and the factor that brings them to a whole can
/// be held.
pub open spec fn scalable(s: Seq<Fixed>, whole: Fixed) -> bool {
    &&& none_below_zero(s)
    &&& nanos(s) <= i64::MAX
    &&& 0 <= whole.nano
    &&& nanos(s) > 0 ==> whole.nano * 1_000_000_000 <= i64::MAX * nanos(s)
}

/// Values whose sum and factor are less than the most that can be held can be
/// scaled to a whole.
pub proof fn a_factor_that_is_held(s: Seq<Fixed>, whole: Fixed)
    requires
        none_below_zero(s),
        0 <= whole.nano,
        number::total(s).nano < i64::MAX,
        spef::scale(whole, number::total(s)).nano < i64::MAX,
    ensures
        scalable(s, whole),
{
    lemma_fixed_total(s);
    let raw = nanos(s);
    if raw > 0 {
        let w = whole.nano * 1_000_000_000;
        let q = w / raw;
        lemma_floor(w, raw);
        assert(w <= i64::MAX * raw) by (nonlinear_arith)
            requires
                w < q * raw + raw,
                q < i64::MAX,
                0 < raw,
        ;
    }
}

/// In decimal fixed point, the network of a net makes up the net but for what
/// rounding leaves out: less than a billionth for each part, and a billionth of
/// what the network sums to by itself. Where the network has no capacitance of its
/// own, the whole stands at one node; a network without resistance has none to scale.
pub proof fn a_fixed_network_makes_up_its_net(
    names: Seq<Seq<char>>,
    nid: nat,
    t: NetworkView<Fixed>,
    cap: Fixed,
    res: Fixed,
)
    requires
        balance::tallied(t),
        scalable(balance::node_caps(t), cap),
        scalable(tree::ohms(t.edges), res),
    ensures
        ({
            let caps = balance::values(spef::tree_caps(names, nid, t, cap));
            let ohms = balance::values(spef::tree_res(names, nid, t, res));
            &&& none_below_zero(caps)
            &&& nearly(number::total(caps), cap, t.nodes.len() as int, t.raw_cap.nano as int)
            &&& number::positive(t.raw_res) ==> nearly(
                number::total(ohms),
                res,
                t.edges.len() as int,
                t.raw_res.nano as int,
            )
        }),
{
    let (c, r) = (balance::node_caps(t), tree::ohms(t.edges));
    let caps = balance::values(spef::tree_caps(names, nid, t, cap));
    lemma_fixed_total(c);
    lemma_fixed_total(r);
    if number::positive(t.raw_cap) {
        fixed_parts_make_up_the_whole(c, cap);
        assert(caps == balance::scaled(c, spef::scale(cap, t.raw_cap)));
    } else {
        assert(nanos(c) == 0);
        let rest = caps.drop_first();
        assert forall|i: int| 0 <= i < rest.len() implies #[trigger] rest[i] == (Fixed { nano: 0 }) by {
            assert(rest[i] == t.nodes[i + 1].cap.spec_times(Fixed { nano: 0 }));
            assert(t.nodes[i + 1].cap.nano * 0 == 0);
        }
        assert(caps == seq![cap] + rest);
        lemma_nothing_more(cap, rest);
    }
    if number::positive(t.raw_res) {
        fixed_parts_make_up_the_whole(r, res);
        assert(balance::values(spef::tree_res(names, nid, t, res)) == balance::scaled(
            r,
            spef::scale(res, t.raw_res),
        ));
    }
}

/// A value with nothing after it.
proof fn lemma_nothing_more(a: Fixed, s: Seq<Fixed>)
    requires
        forall|i: int| 0 <= i < s.len() ==> #[trigger] s[i] == (Fixed { nano: 0 }),
    ensures
        number::total(seq![a] + s) == a,
    decreases s.len(),
{
    let all = seq![a] + s;
    if s.len() == 0 {
        assert(all.drop_last() == Seq::<Fixed>::empty());
        assert(number::total(all.drop_last()) == (Fixed { nano: 0 }));
        assert(all.last() == a);
    } else {
        assert(s.last() == s[s.len() - 1]);
        lemma_nothing_more(a, s.drop_last());
        assert(all.drop_last() == seq![a] + s.drop_last());
        assert(all.last() == s.last());
    }
}

/// A value in equal parts: each is the value divided, rounded down.
pub(crate) proof fn lemma_over_count(a: Fixed, k: nat)
    requires
        0 <= a.nano,
        0 < k,
        k * 1_000_000_000 <= i64::MAX,
    ensures
        ({
            let q = a.spec_over(<Fixed as Real>::spec_count(k)).nano;
            0 <= q && q * k <= a.nano < q * k + k
        }),
{
    let n = k as int * 1_000_000_000;
    let v = a.nano * 1_000_000_000;
    let q = v / n;
    lemma_floor(v, n);
    assert(0 <= q && q * k <= a.nano < q * k + k && q <= a.nano) by (nonlinear_arith)
        requires
            n == k as int * 1_000_000_000,
            v == a.nano * 1_000_000_000,
            q * n <= v < q * n + n,
            0 < k,
            0 <= a.nano,
    ;
}

/// One half of a value, and the other half in equal shares.
#[verifier::rlimit(50)]
proof fn lemma_fixed_half_and_shares(s: Seq<Fixed>, a: Fixed, n: int)
    requires
        0 <= a.nano,
        2 <= n,
        1 <= s.len() <= n,
        (n - 1) * 1_000_000_000 <= i64::MAX,
        ({
            let half = a.spec_over(<Fixed as Real>::spec_count(2));
            &&& s[0] == half
            &&& forall|i: int|
                1 <= i < s.len() ==> #[trigger] s[i] == half.spec_over(
                    <Fixed as Real>::spec_count((n - 1) as nat),
                )
        }),
    ensures
        ({
            let half = a.spec_over(<Fixed as Real>::spec_count(2));
            let share = half.spec_over(<Fixed as Real>::spec_count((n - 1) as nat));
            &&& none_below_zero(s)
            &&& nanos(s) == half.nano + (s.len() - 1) * share.nano
            &&& s.len() == n ==> nearly(number::total(s), a, n, 0)
        }),
    decreases s.len(),
{
    let half = a.spec_over(<Fixed as Real>::spec_count(2));
    let share = half.spec_over(<Fixed as Real>::spec_count((n - 1) as nat));
    lemma_over_count(a, 2);
    lemma_over_count(half, (n - 1) as nat);
    let k = s.len() as int;
    if k == 1 {
        assert(nanos(s.drop_last()) == 0);
        assert(s.last() == s[0]);
        assert((k - 1) * share.nano == 0) by (nonlinear_arith)
            requires
                k == 1,
        ;
    } else {
        lemma_fixed_half_and_shares(s.drop_last(), a, n);
        assert(s.last() == s[k - 1]);
        assert((k - 1) * share.nano == (k - 2) * share.nano + share.nano) by (nonlinear_arith);
    }
    assert(nanos(s) == half.nano + (k - 1) * share.nano);
    assert(none_below_zero(s)) by {
        assert forall|i: int| 0 <= i < k implies 0 <= (#[trigger] s[i]).nano by {
            if i > 0 {
                assert(s[i] == share);
            }
        }
    }
    if k == n {
        lemma_fixed_total(s);
        let (h, m) = (half.nano as int, (n - 1) * share.nano);
        assert(share.nano * (n - 1) == m) by (nonlinear_arith)
            requires
                m == (n - 1) * share.nano,
        ;
        assert(h * 2 <= a.nano < h * 2 + 2);
        assert(m <= h < m + n - 1);
        assert(nanos(s) == h + m);
        assert(nanos(s) <= a.nano && a.nano - nanos(s) <= n - 1);
        assert(number::total(s).nano == nanos(s));
    }
}

/// In decimal fixed point, the star of a net makes up the net but for less than a
/// billionth for each part.
pub proof fn a_fixed_star_makes_up_its_net(
    names: Seq<Seq<char>>,
    nid: nat,
    pins: Seq<(Seq<char>, Seq<char>)>,
    cap: Fixed,
    res: Fixed,
)
    requires
        0 <= cap.nano,
        pins.len() * 1_000_000_000 <= i64::MAX,
    ensures
        ({
            let caps = balance::values(spef::star_caps(names, nid, pins, cap, res));
            let ohms = balance::values(spef::star_res(names, nid, pins, res));
            &&& none_below_zero(caps)
            &&& nearly(number::total(caps), cap, caps.len() as int, 0)
            &&& number::positive(res) ==> nearly(number::total(ohms), res, ohms.len() as int, 0)
        }),
{
    let caps = balance::values(spef::star_caps(names, nid, pins, cap, res));
    let ohms = balance::values(spef::star_res(names, nid, pins, res));
    let half = cap.spec_over(<Fixed as Real>::spec_count(2));
    if !number::positive(res) {
        assert(caps == seq![cap] + Seq::<Fixed>::empty());
        lemma_nothing_more(cap, Seq::<Fixed>::empty());
    } else if pins.len() <= 1 {
        lemma_over_count(cap, 2);
        lemma_over_count(half, 1);
        assert(caps == seq![half, half]);
        lemma_fixed_half_and_shares(caps, cap, 2);
        assert(ohms == seq![res] + Seq::<Fixed>::empty());
        lemma_nothing_more(res, Seq::<Fixed>::empty());
    } else {
        lemma_fixed_half_and_shares(caps, cap, pins.len() as int);
        lemma_fixed_half_and_shares(ohms, res, pins.len() as int);
    }
}

/// What the capacitances of a net's network sum to by themselves; nothing for a
/// star.
pub open spec fn own_cap(trees: Seq<Option<NetworkView<Fixed>>>, n: int) -> int {
    if spef::has_tree(trees, n) {
        (trees[n]->0).raw_cap.nano as int
    } else {
        0
    }
}

/// What the resistances of a net's network sum to by themselves; nothing for a
/// star.
pub open spec fn own_res(trees: Seq<Option<NetworkView<Fixed>>>, n: int) -> int {
    if spef::has_tree(trees, n) {
        (trees[n]->0).raw_res.nano as int
    } else {
        0
    }
}

/// Whether the network of a net can be scaled to its values, or the pins of its
/// star counted.
pub open spec fn fits(net: ParasiticsView<Fixed>, tree: Option<NetworkView<Fixed>>) -> bool {
    match tree {
        Some(t) => balance::tallied(t) && scalable(balance::node_caps(t), net.cap) && scalable(
            tree::ohms(t.edges),
            net.res,
        ),
        None => 0 <= net.cap.nano && net.pins.len() * 1_000_000_000 <= i64::MAX,
    }
}

/// The network that stands for a net, if there is one.
pub open spec fn tree_of(trees: Seq<Option<NetworkView<Fixed>>>, n: int) -> Option<
    NetworkView<Fixed>,
> {
    if spef::has_tree(trees, n) {
        trees[n]
    } else {
        None
    }
}

/// In decimal fixed point, what is written of a net makes up the net, by its
/// network or by its star, but for what rounding leaves out: less than a billionth
/// for each line, and a billionth of what its network sums to by itself.
pub proof fn a_fixed_record_makes_up_its_net(
    nets: Seq<ParasiticsView<Fixed>>,
    trees: Seq<Option<NetworkView<Fixed>>>,
    n: int,
)
    requires
        0 <= n < nets.len(),
        fits(nets[n], tree_of(trees, n)),
    ensures
        ({
            let names = spef::name_map(nets);
            let grounded = balance::values(spef::grounded_lines(names, nets, trees, n));
            let series = balance::values(spef::res_lines(names, nets, trees, n));
            let resists = if spef::has_tree(trees, n) {
                number::positive((trees[n]->0).raw_res)
            } else {
                number::positive(nets[n].res)
            };
            &&& none_below_zero(grounded)
            &&& nearly(
                number::total(grounded),
                nets[n].cap,
                grounded.len() as int,
                own_cap(trees, n),
            )
            &&& resists ==> nearly(
                number::total(series),
                nets[n].res,
                series.len() as int,
                own_res(trees, n),
            )
        }),
{
    let names = spef::name_map(nets);
    let nid = spef::id(names, nets[n].name);
    if spef::has_tree(trees, n) {
        a_fixed_network_makes_up_its_net(names, nid, trees[n]->0, nets[n].cap, nets[n].res);
    } else {
        a_fixed_star_makes_up_its_net(names, nid, nets[n].pins, nets[n].cap, nets[n].res);
    }
}

pub(crate) proof fn lemma_nanos_append(s: Seq<Fixed>, t: Seq<Fixed>)
    ensures
        nanos(s + t) == nanos(s) + nanos(t),
    decreases t.len(),
{
    if t.len() == 0 {
        assert(s + t == s);
    } else {
        lemma_nanos_append(s, t.drop_last());
        assert((s + t).drop_last() == s + t.drop_last());
        assert((s + t).last() == t.last());
    }
}

proof fn lemma_fixed_loads(
    names: Seq<Seq<char>>,
    pins: Seq<(Seq<char>, Seq<char>)>,
    resolver: Option<&PinResolver<Fixed>>,
    k: int,
)
    requires
        0 <= k <= pins.len(),
        none_below_zero(spef::loads(pins, resolver)),
    ensures
        none_below_zero(balance::values(spef::load_lines(names, pins, resolver, k))),
        nanos(balance::values(spef::load_lines(names, pins, resolver, k))) == nanos(
            spef::loads(pins, resolver).take(k),
        ),
    decreases k,
{
    let all = spef::loads(pins, resolver);
    let lines = spef::load_lines(names, pins, resolver, k);
    if k == 0 {
        assert(all.take(0) == Seq::<Fixed>::empty());
        assert(balance::values(lines) == Seq::<Fixed>::empty());
    } else {
        lemma_fixed_loads(names, pins, resolver, k - 1);
        assert(all.take(k).drop_last() == all.take(k - 1));
        assert(all.take(k).last() == all[k - 1]);
        let before = balance::values(spef::load_lines(names, pins, resolver, k - 1));
        if number::positive(all[k - 1]) {
            assert(balance::values(lines) == before.push(all[k - 1]));
            assert(before.push(all[k - 1]).drop_last() == before);
        }
    }
}

/// The couplings of a net to its neighbours, one for each of its sides.
pub open spec fn couplings_of(name: Seq<char>, caps: Seq<CapView<Fixed>>) -> Seq<Fixed> {
    let sides = spef::sides(name, caps, caps.len() as int);
    Seq::new(sides.len(), |i: int| caps[sides[i].0].cap)
}

/// In decimal fixed point, the total that the record of a net states is its
/// capacitance to ground with its couplings and its loads, or the most that can be
/// held. What is listed in the record sums to that total but for what rounding
/// leaves out of the grounded capacitances. So couplings and loads are listed whole:
/// they only add to the total, and nothing is taken for them.
pub proof fn a_fixed_record_states_what_it_lists(
    nets: Seq<ParasiticsView<Fixed>>,
    trees: Seq<Option<NetworkView<Fixed>>>,
    caps: Seq<CapView<Fixed>>,
    resolver: Option<&PinResolver<Fixed>>,
    n: int,
)
    requires
        0 <= n < nets.len(),
        fits(nets[n], tree_of(trees, n)),
        none_below_zero(spef::loads(nets[n].pins, resolver)),
        none_below_zero(couplings_of(nets[n].name, caps)),
    ensures
        ({
            let names = spef::name_map(nets);
            let grounded = balance::values(spef::grounded_lines(names, nets, trees, n));
            let listed = balance::values(
                spef::cap_lines(names, nets, trees, caps, resolver, n),
            );
            let stated = spef::stated_total(nets[n], caps, resolver);
            let added = nanos(couplings_of(nets[n].name, caps)) + nanos(
                spef::loads(nets[n].pins, resolver),
            );
            &&& 0 <= added
            &&& stated == number::clamp(nets[n].cap.nano + added)
            &&& none_below_zero(listed)
            &&& number::total(listed) == number::clamp(nanos(grounded) + added)
            &&& nearly(number::total(listed), stated, grounded.len() as int, own_cap(trees, n))
        }),
{
    let names = spef::name_map(nets);
    let pins = nets[n].pins;
    let g = balance::values(spef::grounded_lines(names, nets, trees, n));
    let l = balance::values(spef::load_lines(names, pins, resolver, pins.len() as int));
    let c = balance::values(spef::coupling_lines(names, nets, trees, caps, n));
    a_fixed_record_makes_up_its_net(nets, trees, n);
    lemma_fixed_loads(names, pins, resolver, pins.len() as int);
    let all = spef::loads(pins, resolver);
    assert(all.take(pins.len() as int) == all);
    assert(c == couplings_of(nets[n].name, caps));
    lemma_fixed_total(g);
    lemma_fixed_total(all);
    lemma_fixed_total(c);
    let listed = balance::values(spef::cap_lines(names, nets, trees, caps, resolver, n));
    assert(listed == g + l + c);
    lemma_nanos_append(g + l, c);
    lemma_nanos_append(g, l);
    assert forall|i: int| 0 <= i < listed.len() implies 0 <= (#[trigger] listed[i]).nano by {
        if i < g.len() {
            assert(listed[i] == g[i]);
        } else if i < g.len() + l.len() {
            assert(listed[i] == l[i - g.len()]);
        } else {
            assert(listed[i] == c[i - g.len() - l.len()]);
        }
    }
    lemma_fixed_total(listed);
}

} // verus!

//! What the parts of a net add up to.
//!
//! A net is written as many capacitances and resistances that stand for one
//! lumped value each. Here it is shown that the parts make up the whole, to the
//! last digit, where arithmetic is exact; `rounding` says the same of decimal fixed
//! point, up to the rounding of each part.
use crate::coupling::CapView;
use crate::def::NetView;
use crate::drawn;
use crate::hookup::PinResolver;
use crate::number;
use crate::number::Real;
use crate::rc::ParasiticsView;
use crate::rules::RulesView;
use crate::spef;
use crate::tree;
use crate::tree::{NetworkView, OutcomeView};
use vstd::prelude::*;

verus! {

/// Whether sums can be regrouped and reordered, products and quotients spread over
/// them, what is divided put together again, and lengths added up.
#[verifier::opaque]
pub open spec fn exact<N: Real>() -> bool {
    &&& forall|a: N, b: N| (#[trigger] a.spec_plus(b)) == b.spec_plus(a)
    &&& forall|a: N, b: N, c: N|
        (#[trigger] a.spec_plus(b).spec_plus(c)) == a.spec_plus(b.spec_plus(c))
    &&& forall|a: N| (#[trigger] number::zero::<N>().spec_plus(a)) == a
    &&& forall|a: N| (#[trigger] a.spec_plus(number::zero())) == a
    &&& forall|a: N, b: N, k: N|
        (#[trigger] a.spec_plus(b).spec_times(k)) == a.spec_times(k).spec_plus(b.spec_times(k))
    &&& forall|k: N| (#[trigger] number::zero::<N>().spec_times(k)) == number::zero::<N>()
    &&& forall|a: N| (#[trigger] a.spec_times(number::zero())) == number::zero::<N>()
    &&& forall|a: N, b: N|
        number::positive(b) ==> (#[trigger] b.spec_times(a.spec_over(b))) == a
    &&& forall|a: N, n: nat| n > 0 ==> number::total(#[trigger] shares(a, n)) == a
    &&& forall|k: N, a: N, b: N|
        (#[trigger] k.spec_times(a.spec_plus(b))) == k.spec_times(a).spec_plus(k.spec_times(b))
    &&& forall|a: N, b: N, w: N|
        number::positive(w) ==> (#[trigger] a.spec_plus(b).spec_over(w)) == a.spec_over(
            w,
        ).spec_plus(b.spec_over(w))
    &&& forall|w: N|
        number::positive(w) ==> (#[trigger] number::zero::<N>().spec_over(w)) == number::zero::<
            N,
        >()
    &&& forall|m: int, n: int|
        (#[trigger] N::spec_micro(m).spec_plus(N::spec_micro(n))) == N::spec_micro(m + n)
}

pub(crate) proof fn lemma_reorder<N: Real>(a: N, b: N)
    requires
        exact::<N>(),
    ensures
        a.spec_plus(b) == b.spec_plus(a),
{
    reveal(exact);
}

pub(crate) proof fn lemma_regroup<N: Real>(a: N, b: N, c: N)
    requires
        exact::<N>(),
    ensures
        a.spec_plus(b).spec_plus(c) == a.spec_plus(b.spec_plus(c)),
{
    reveal(exact);
}

pub(crate) proof fn lemma_zero<N: Real>(a: N)
    requires
        exact::<N>(),
    ensures
        number::zero::<N>().spec_plus(a) == a,
        a.spec_plus(number::zero()) == a,
        number::zero::<N>().spec_times(a) == number::zero::<N>(),
        a.spec_times(number::zero()) == number::zero::<N>(),
{
    reveal(exact);
}

pub(crate) proof fn lemma_spread<N: Real>(a: N, b: N, k: N)
    requires
        exact::<N>(),
    ensures
        a.spec_plus(b).spec_times(k) == a.spec_times(k).spec_plus(b.spec_times(k)),
{
    reveal(exact);
}

pub(crate) proof fn lemma_spread_left<N: Real>(k: N, a: N, b: N)
    requires
        exact::<N>(),
    ensures
        k.spec_times(a.spec_plus(b)) == k.spec_times(a).spec_plus(k.spec_times(b)),
{
    reveal(exact);
}

pub(crate) proof fn lemma_spread_over<N: Real>(a: N, b: N, w: N)
    requires
        exact::<N>(),
        number::positive(w),
    ensures
        a.spec_plus(b).spec_over(w) == a.spec_over(w).spec_plus(b.spec_over(w)),
        number::zero::<N>().spec_over(w) == number::zero::<N>(),
{
    reveal(exact);
}

pub(crate) proof fn lemma_lengths<N: Real>(m: int, n: int)
    requires
        exact::<N>(),
    ensures
        N::spec_micro(m).spec_plus(N::spec_micro(n)) == N::spec_micro(m + n),
{
    reveal(exact);
}

proof fn lemma_shares<N: Real>(a: N, n: nat)
    requires
        exact::<N>(),
        n > 0,
    ensures
        number::total(shares(a, n)) == a,
{
    reveal(exact);
}

/// A value in `n` equal shares.
pub open spec fn shares<N: Real>(a: N, n: nat) -> Seq<N> {
    Seq::new(n, |i: int| a.spec_over(N::spec_count(n)))
}

/// The values of numbered lines.
pub open spec fn values<N: Real>(lines: Seq<(Seq<char>, N)>) -> Seq<N> {
    Seq::new(lines.len(), |i: int| lines[i].1)
}

/// The capacitances of the nodes of a network.
pub open spec fn node_caps<N: Real>(t: NetworkView<N>) -> Seq<N> {
    Seq::new(t.nodes.len(), |i: int| t.nodes[i].cap)
}

/// Whether the sums that a network records are those of its nodes and of its
/// resistors.
pub open spec fn tallied<N: Real>(t: NetworkView<N>) -> bool {
    &&& t.nodes.len() > 0
    &&& t.raw_cap == number::total(node_caps(t))
    &&& t.raw_res == number::total(tree::ohms(t.edges))
}

/// A network that is built records the sums of its nodes and of its resistors.
pub proof fn a_built_network_is_tallied<N: Real>(
    net: NetView,
    rules: RulesView<N>,
    widths: Map<Seq<char>, N>,
    via_layers: Map<Seq<char>, Seq<Seq<char>>>,
)
    ensures
        tree::outcome(net, rules, widths, via_layers) matches OutcomeView::Built(t) ==> tallied(t),
{
    drawn::every_resistor_is_drawn(net, rules, widths, via_layers);
    if let OutcomeView::Built(t) = tree::outcome(net, rules, widths, via_layers) {
        let w = tree::wired(net, rules, widths, via_layers)->0;
        assert(node_caps(t) == w.caps);
    }
}

/// Values, each multiplied by a factor.
pub open spec fn scaled<N: Real>(s: Seq<N>, k: N) -> Seq<N> {
    Seq::new(s.len(), |i: int| s[i].spec_times(k))
}

proof fn lemma_scaled_total<N: Real>(s: Seq<N>, k: N)
    requires
        exact::<N>(),
    ensures
        number::total(scaled(s, k)) == number::total(s).spec_times(k),
    decreases s.len(),
{
    if s.len() == 0 {
        lemma_zero(k);
    } else {
        lemma_scaled_total(s.drop_last(), k);
        assert(scaled(s, k).drop_last() == scaled(s.drop_last(), k));
        lemma_spread(number::total(s.drop_last()), s.last(), k);
    }
}

/// Values that are scaled to a whole make up the whole.
proof fn lemma_scaled_to_whole<N: Real>(s: Seq<N>, whole: N)
    requires
        exact::<N>(),
        number::positive(number::total(s)),
    ensures
        number::total(scaled(s, spef::scale(whole, number::total(s)))) == whole,
{
    let sum = number::total(s);
    lemma_scaled_total(s, spef::scale(whole, sum));
    assert(sum.spec_times(whole.spec_over(sum)) == whole) by {
        reveal(exact);
    }
}

proof fn lemma_total_of_zeros<N: Real>(s: Seq<N>)
    requires
        exact::<N>(),
        forall|i: int| 0 <= i < s.len() ==> #[trigger] s[i] == number::zero::<N>(),
    ensures
        number::total(s) == number::zero::<N>(),
    decreases s.len(),
{
    if s.len() > 0 {
        lemma_total_of_zeros(s.drop_last());
        assert(s.last() == number::zero::<N>());
        lemma_zero(number::zero::<N>());
    }
}

/// A first value and the sum of the rest.
proof fn lemma_total_cons<N: Real>(a: N, s: Seq<N>)
    requires
        exact::<N>(),
    ensures
        number::total(seq![a] + s) == a.spec_plus(number::total(s)),
    decreases s.len(),
{
    let all = seq![a] + s;
    if s.len() == 0 {
        assert(all == seq![a]);
        assert(all.drop_last() == Seq::<N>::empty());
        assert(all.last() == a);
        assert(number::total(Seq::<N>::empty()) == number::zero::<N>());
        assert(number::total(all) == number::zero::<N>().spec_plus(a));
        lemma_zero(a);
    } else {
        lemma_total_cons(a, s.drop_last());
        assert(all.drop_last() == seq![a] + s.drop_last());
        assert(all.last() == s.last());
        lemma_regroup(a, number::total(s.drop_last()), s.last());
    }
}

pub(crate) proof fn lemma_two_halves<N: Real>(a: N)
    requires
        exact::<N>(),
    ensures
        ({
            let half = a.spec_over(N::spec_count(2));
            number::total(seq![half, half]) == a && half.spec_plus(half) == a
        }),
{
    let half = a.spec_over(N::spec_count(2));
    lemma_shares(a, 2);
    assert(shares(a, 2) == seq![half, half]);
    assert(seq![half, half] == seq![half] + seq![half]);
    lemma_total_cons(half, seq![half]);
    assert(seq![half] == seq![half] + Seq::<N>::empty());
    lemma_total_cons(half, Seq::<N>::empty());
    lemma_zero(half);
}

/// One half, and the other half in shares.
proof fn lemma_half_and_shares<N: Real>(s: Seq<N>, a: N)
    requires
        exact::<N>(),
        s.len() >= 2,
        ({
            let half = a.spec_over(N::spec_count(2));
            &&& s[0] == half
            &&& forall|i: int|
                1 <= i < s.len() ==> #[trigger] s[i] == half.spec_over(
                    N::spec_count((s.len() - 1) as nat),
                )
        }),
    ensures
        number::total(s) == a,
{
    let half = a.spec_over(N::spec_count(2));
    let rest = shares(half, (s.len() - 1) as nat);
    lemma_shares(half, (s.len() - 1) as nat);
    assert(s == seq![half] + rest);
    lemma_total_cons(half, rest);
    lemma_two_halves(a);
}

/// The network of a net makes up the net: scaled, its capacitances sum to the
/// capacitance of the net and its resistances to the resistance of the net,
/// where arithmetic is exact. Where the network has no capacitance of its own,
/// the whole stands at one node; a network without resistance has none to scale.
pub proof fn a_network_makes_up_its_net<N: Real>(
    names: Seq<Seq<char>>,
    nid: nat,
    t: NetworkView<N>,
    cap: N,
    res: N,
)
    requires
        exact::<N>(),
        tallied(t),
    ensures
        number::total(values(spef::tree_caps(names, nid, t, cap))) == cap,
        number::positive(t.raw_res) ==> number::total(
            values(spef::tree_res(names, nid, t, res)),
        ) == res,
{
    let caps = values(spef::tree_caps(names, nid, t, cap));
    if number::positive(t.raw_cap) {
        lemma_scaled_to_whole(node_caps(t), cap);
        assert(caps == scaled(node_caps(t), spef::scale(cap, t.raw_cap)));
    } else {
        let rest = caps.drop_first();
        assert forall|i: int| 0 <= i < rest.len() implies #[trigger] rest[i] == number::zero::<
            N,
        >() by {
            assert(rest[i] == t.nodes[i + 1].cap.spec_times(number::zero()));
            lemma_zero(t.nodes[i + 1].cap);
        }
        lemma_total_of_zeros(rest);
        assert(caps == seq![cap] + rest);
        lemma_total_cons(cap, rest);
        lemma_zero(cap);
    }
    if number::positive(t.raw_res) {
        let ohms = tree::ohms(t.edges);
        lemma_scaled_to_whole(ohms, res);
        assert(values(spef::tree_res(names, nid, t, res)) == scaled(
            ohms,
            spef::scale(res, t.raw_res),
        ));
    }
}

/// The star of a net makes up the net: its capacitances sum to the capacitance
/// of the net and its resistances, where the net has any, to the resistance of
/// the net, where arithmetic is exact.
pub proof fn a_star_makes_up_its_net<N: Real>(
    names: Seq<Seq<char>>,
    nid: nat,
    pins: Seq<(Seq<char>, Seq<char>)>,
    cap: N,
    res: N,
)
    requires
        exact::<N>(),
    ensures
        number::total(values(spef::star_caps(names, nid, pins, cap, res))) == cap,
        number::positive(res) ==> number::total(values(spef::star_res(names, nid, pins, res)))
            == res,
{
    let caps = values(spef::star_caps(names, nid, pins, cap, res));
    let ohms = values(spef::star_res(names, nid, pins, res));
    let half = cap.spec_over(N::spec_count(2));
    if !number::positive(res) {
        assert(caps == seq![cap] + Seq::<N>::empty());
        lemma_total_cons(cap, Seq::<N>::empty());
        lemma_zero(cap);
    } else if pins.len() <= 1 {
        lemma_two_halves(cap);
        assert(caps == seq![half, half]);
        assert(ohms == seq![res] + Seq::<N>::empty());
        lemma_total_cons(res, Seq::<N>::empty());
        lemma_zero(res);
    } else {
        lemma_half_and_shares(caps, cap);
        lemma_half_and_shares(ohms, res);
    }
}

/// What is written of a net makes up the net, by its network or by its star:
/// the grounded capacitances sum to its capacitance, and the resistances to its
/// resistance where there are any, where arithmetic is exact.
pub proof fn a_record_makes_up_its_net<N: Real>(
    nets: Seq<ParasiticsView<N>>,
    trees: Seq<Option<NetworkView<N>>>,
    n: int,
)
    requires
        exact::<N>(),
        0 <= n < nets.len(),
        spef::has_tree(trees, n) ==> tallied(trees[n]->0),
    ensures
        ({
            let names = spef::name_map(nets);
            let grounded = values(spef::grounded_lines(names, nets, trees, n));
            let series = values(spef::res_lines(names, nets, trees, n));
            let resists = if spef::has_tree(trees, n) {
                number::positive((trees[n]->0).raw_res)
            } else {
                number::positive(nets[n].res)
            };
            &&& number::total(grounded) == nets[n].cap
            &&& resists ==> number::total(series) == nets[n].res
        }),
{
    let names = spef::name_map(nets);
    let nid = spef::id(names, nets[n].name);
    if spef::has_tree(trees, n) {
        a_network_makes_up_its_net(names, nid, trees[n]->0, nets[n].cap, nets[n].res);
    } else {
        a_star_makes_up_its_net(names, nid, nets[n].pins, nets[n].cap, nets[n].res);
    }
}

pub(crate) proof fn lemma_total_append<N: Real>(s: Seq<N>, t: Seq<N>)
    requires
        exact::<N>(),
    ensures
        number::total(s + t) == number::total(s).spec_plus(number::total(t)),
    decreases t.len(),
{
    if t.len() == 0 {
        assert(s + t == s);
        lemma_zero(number::total(s));
    } else {
        lemma_total_append(s, t.drop_last());
        assert((s + t).drop_last() == s + t.drop_last());
        assert((s + t).last() == t.last());
        lemma_regroup(number::total(s), number::total(t.drop_last()), t.last());
    }
}

proof fn lemma_loads<N: Real>(
    names: Seq<Seq<char>>,
    pins: Seq<(Seq<char>, Seq<char>)>,
    resolver: Option<&PinResolver<N>>,
    k: int,
)
    requires
        exact::<N>(),
        0 <= k <= pins.len(),
        forall|i: int|
            0 <= i < pins.len() ==> loads_or_not(#[trigger] spef::loads(pins, resolver)[i]),
    ensures
        number::total(values(spef::load_lines(names, pins, resolver, k))) == number::total(
            spef::loads(pins, resolver).take(k),
        ),
    decreases k,
{
    let all = spef::loads(pins, resolver);
    let lines = spef::load_lines(names, pins, resolver, k);
    if k == 0 {
        assert(all.take(0) == Seq::<N>::empty());
        assert(values(lines) == Seq::<N>::empty());
    } else {
        lemma_loads(names, pins, resolver, k - 1);
        assert(all.take(k).drop_last() == all.take(k - 1));
        assert(all.take(k).last() == all[k - 1]);
        assert(loads_or_not(all[k - 1]));
        if number::positive(all[k - 1]) {
            assert(values(lines).drop_last() == values(
                spef::load_lines(names, pins, resolver, k - 1),
            ));
        } else {
            lemma_zero(number::total(all.take(k - 1)));
        }
    }
}

/// Whether a load is above zero, or none.
pub open spec fn loads_or_not<N: Real>(c: N) -> bool {
    number::positive(c) || c == number::zero::<N>()
}

/// The capacitances that are listed of a net sum to the total that its record
/// states, where arithmetic is exact and no pin has a load below zero.
pub proof fn a_record_states_what_it_lists<N: Real>(
    nets: Seq<ParasiticsView<N>>,
    trees: Seq<Option<NetworkView<N>>>,
    caps: Seq<CapView<N>>,
    resolver: Option<&PinResolver<N>>,
    n: int,
)
    requires
        exact::<N>(),
        0 <= n < nets.len(),
        spef::has_tree(trees, n) ==> tallied(trees[n]->0),
        forall|i: int|
            0 <= i < nets[n].pins.len() ==> loads_or_not(
                #[trigger] spef::loads(nets[n].pins, resolver)[i],
            ),
    ensures
        number::total(
            values(spef::cap_lines(spef::name_map(nets), nets, trees, caps, resolver, n)),
        ) == spef::stated_total(nets[n], caps, resolver),
{
    let names = spef::name_map(nets);
    let pins = nets[n].pins;
    let ground = spef::grounded_lines(names, nets, trees, n);
    let load = spef::load_lines(names, pins, resolver, pins.len() as int);
    let couple = spef::coupling_lines(names, nets, trees, caps, n);
    a_record_makes_up_its_net(nets, trees, n);
    lemma_loads(names, pins, resolver, pins.len() as int);
    let all = spef::loads(pins, resolver);
    assert(all.take(pins.len() as int) == all);
    let sides = spef::sides(nets[n].name, caps, caps.len() as int);
    assert(values(couple) == Seq::new(sides.len(), |i: int| caps[sides[i].0].cap));
    assert(values(ground + load + couple) == values(ground) + values(load) + values(couple));
    lemma_total_append(values(ground) + values(load), values(couple));
    lemma_total_append(values(ground), values(load));
    let (g, l, c) = (
        number::total(values(ground)),
        number::total(values(load)),
        number::total(values(couple)),
    );
    lemma_regroup(g, l, c);
    lemma_reorder(l, c);
    lemma_regroup(g, c, l);
}

} // verus!

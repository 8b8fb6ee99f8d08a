//! The limit on coupled pairs, by what is reported: it drops whole pairs and
//! nothing else.
use crate::coupling;
use crate::coupling::{CapView, TableView, TechView};
use crate::def::{NetView, SegmentView};
use crate::geom;
use crate::number;
use crate::number::{Fixed, Real};
use crate::sort;
use vstd::prelude::*;

verus! {

/// Whether sums of values above zero are above zero.
pub open spec fn sums_stay_positive<N: Real>() -> bool {
    &&& forall|a: N, b: N|
        number::positive(a) && number::positive(b) ==> number::positive(#[trigger] a.spec_plus(b))
    &&& forall|b: N|
        number::positive(b) ==> number::positive(#[trigger] number::zero::<N>().spec_plus(b))
}

/// In decimal fixed point sums of values above zero are above zero.
pub proof fn fixed_sums_stay_positive()
    ensures
        sums_stay_positive::<Fixed>(),
{
}

/// Whether all contributions are above zero.
spec fn all_positive<N: Real>(cs: Seq<(int, int, N)>) -> bool {
    forall|i: int| 0 <= i < cs.len() ==> number::positive((#[trigger] cs[i]).2)
}

proof fn lemma_row_positive<N: Real>(
    tech: TechView<N>,
    metal: Seq<SegmentView>,
    owners: Seq<int>,
    i: int,
    n: int,
)
    ensures
        all_positive(coupling::row_upto(tech, metal, owners, i, n)),
    decreases n,
{
    if n > i + 1 && n > 0 {
        lemma_row_positive(tech, metal, owners, i, n - 1);
    }
}

proof fn lemma_band_positive<N: Real>(
    tech: TechView<N>,
    metal: Seq<SegmentView>,
    owners: Seq<int>,
    lo: int,
    hi: int,
)
    ensures
        all_positive(coupling::band(tech, metal, owners, lo, hi)),
    decreases hi,
{
    if hi > lo && hi > 0 {
        lemma_band_positive(tech, metal, owners, lo, hi - 1);
        lemma_row_positive(tech, metal, owners, hi - 1, owners.len() as int);
        let before = coupling::band(tech, metal, owners, lo, hi - 1);
        let row = coupling::row_upto(tech, metal, owners, hi - 1, owners.len() as int);
        let all = before + row;
        assert forall|k: int| 0 <= k < all.len() implies number::positive((#[trigger] all[k]).2) by {
            if k < before.len() {
                assert(all[k] == before[k]);
            } else {
                assert(all[k] == row[k - before.len()]);
            }
        }
    }
}

/// The sums of contributions above zero are above zero.
proof fn lemma_table_positive<N: Real>(cs: Seq<(int, int, N)>, max: int)
    requires
        sums_stay_positive::<N>(),
        all_positive(cs),
    ensures
        ({
            let t = coupling::take_all(coupling::no_pairs::<N>(), cs, max);
            &&& t.caps.len() == t.pairs.len()
            &&& forall|i: int| 0 <= i < t.caps.len() ==> number::positive(#[trigger] t.caps[i])
        }),
    decreases cs.len(),
{
    if cs.len() > 0 {
        assert forall|i: int| 0 <= i < cs.drop_last().len() implies number::positive(
            (#[trigger] cs.drop_last()[i]).2,
        ) by {
            assert(cs.drop_last()[i] == cs[i]);
        }
        lemma_table_positive(cs.drop_last(), max);
        assert(cs.last() == cs[cs.len() - 1]);
        let before = coupling::take_all(coupling::no_pairs::<N>(), cs.drop_last(), max);
        let key = (cs.last().0, cs.last().1);
        if before.pairs.contains(key) {
            let i = before.pairs.index_of(key);
            assert(number::positive(before.caps[i]));
            assert(number::positive(before.caps[i].spec_plus(cs.last().2)));
        }
    }
}

/// Fewer pairs of a table by name are the first of more.
proof fn lemma_named_prefix<N: Real>(
    s: TableView<N>,
    t: TableView<N>,
    nets: Seq<NetView>,
    k: int,
    n: int,
)
    requires
        0 <= k <= n <= t.pairs.len(),
        t.caps.len() == t.pairs.len(),
        s.pairs == t.pairs.take(k),
        s.caps == t.caps.take(k),
    ensures
        coupling::named_upto(s, nets, k).is_prefix_of(coupling::named_upto(t, nets, n)),
    decreases n,
{
    if k < n {
        lemma_named_prefix(s, t, nets, k, n - 1);
        let (a, b, c) = (
            coupling::named_upto(s, nets, k),
            coupling::named_upto(t, nets, n - 1),
            coupling::named_upto(t, nets, n),
        );
        assert(c.take(a.len() as int) == b.take(a.len() as int));
    } else {
        lemma_named_same(s, t, nets, k);
    }
}

proof fn lemma_named_same<N: Real>(
    s: TableView<N>,
    t: TableView<N>,
    nets: Seq<NetView>,
    n: int,
)
    requires
        0 <= n <= s.pairs.len() <= t.pairs.len(),
        s.caps.len() == s.pairs.len(),
        t.caps.len() == t.pairs.len(),
        s.pairs == t.pairs.take(s.pairs.len() as int),
        s.caps == t.caps.take(s.pairs.len() as int),
    ensures
        coupling::named_upto(s, nets, n) == coupling::named_upto(t, nets, n),
    decreases n,
{
    if n > 0 {
        lemma_named_same(s, t, nets, n - 1);
        assert(s.pairs[n - 1] == t.pairs[n - 1]);
        assert(s.caps[n - 1] == t.caps[n - 1]);
    }
}

/// The entry of pair `k` of a table, by the names of its nets.
pub(crate) open spec fn entry<N: Real>(t: TableView<N>, nets: Seq<NetView>, k: int) -> CapView<N> {
    CapView { a: nets[t.pairs[k].0].name, b: nets[t.pairs[k].1].name, cap: t.caps[k] }
}

pub(crate) proof fn lemma_named_entry<N: Real>(t: TableView<N>, nets: Seq<NetView>, n: int, i: int) -> (k: int)
    requires
        0 <= i < coupling::named_upto(t, nets, n).len(),
    ensures
        0 <= k < n,
        coupling::named_upto(t, nets, n)[i] == entry(t, nets, k),
    decreases n,
{
    if n <= 0 {
        0
    } else if i < coupling::named_upto(t, nets, n - 1).len() {
        lemma_named_entry(t, nets, n - 1, i)
    } else {
        n - 1
    }
}

proof fn lemma_named_len<N: Real>(t: TableView<N>, nets: Seq<NetView>, n: int)
    requires
        0 <= n <= t.caps.len(),
        forall|i: int| 0 <= i < t.caps.len() ==> number::positive(#[trigger] t.caps[i]),
    ensures
        coupling::named_upto(t, nets, n).len() == n,
    decreases n,
{
    if n > 0 {
        lemma_named_len(t, nets, n - 1);
        assert(number::positive(t.caps[n - 1]));
    }
}

/// An ordered form holds the entries of its list.
pub(crate) proof fn lemma_ordered_entry<N: Real>(
    out: Seq<CapView<N>>,
    list: Seq<CapView<N>>,
    i: int,
) -> (k: int)
    requires
        coupling::is_ordered_form(out, list),
        0 <= i < out.len(),
    ensures
        0 <= k < list.len(),
        out[i] == list[k],
{
    let names = coupling::net_names(list);
    let order = choose|order: Seq<usize>| #[trigger]
        sort::orders(order, names) && out == Seq::new(list.len(), |i: int| list[order[i] as int]);
    assert(order.contains(order[i]));
    order[i] as int
}

proof fn lemma_ordered_has<N: Real>(out: Seq<CapView<N>>, list: Seq<CapView<N>>, k: int)
    requires
        coupling::is_ordered_form(out, list),
        0 <= k < list.len(),
    ensures
        out.contains(list[k]),
{
    let names = coupling::net_names(list);
    let order = choose|order: Seq<usize>| #[trigger]
        sort::orders(order, names) && out == Seq::new(list.len(), |i: int| list[order[i] as int]);
    lemma_few_places(order);
    assert(order.contains(k as usize));
    let i = order.index_of(k as usize);
    assert(out[i] == list[k]);
}

/// Distinct places are no more than there are.
proof fn lemma_few_places(s: Seq<usize>)
    requires
        s.no_duplicates(),
    ensures
        s.len() <= usize::MAX + 1,
{
    let ints = Seq::new(s.len(), |i: int| s[i] as int);
    let all = vstd::set_lib::set_int_range(0, usize::MAX + 1);
    ints.unique_seq_to_set();
    vstd::set_lib::lemma_int_range(0, usize::MAX + 1);
    assert(ints.to_set().subset_of(all)) by {
        assert forall|x: int| ints.to_set().contains(x) implies all.contains(x) by {
            let k = ints.index_of(x);
            assert(ints[k] == x);
        }
    }
    vstd::set_lib::lemma_len_subset(ints.to_set(), all);
}

/// Whether no two nets have one name.
pub open spec fn distinct_names(nets: Seq<NetView>) -> bool {
    forall|i: int, j: int|
        0 <= i < nets.len() && 0 <= j < nets.len() && (#[trigger] nets[i]).name == (
        #[trigger] nets[j]).name ==> i == j
}

/// A limit on the number of coupled pairs is kept, and it only drops whole pairs:
/// every coupling that is reported under it is reported under a wider one, with the
/// same value under the same names. Where sums of values above zero are above zero,
/// there are as many as the limit allows, and all of them, in the same order, where it
/// allows as many.
pub proof fn a_limit_only_drops_couplings<N: Real>(
    tech: TechView<N>,
    nets: Seq<NetView>,
    rails: Seq<SegmentView>,
    max: int,
    enough: int,
    few: Seq<CapView<N>>,
    full: Seq<CapView<N>>,
)
    requires
        distinct_names(nets),
        0 <= max <= enough,
        coupling::is_ordered_form(
            few,
            coupling::named(coupling::coupling_table(tech, nets, rails, max), nets),
        ),
        coupling::is_ordered_form(
            full,
            coupling::named(coupling::coupling_table(tech, nets, rails, enough), nets),
        ),
    ensures
        few.len() <= max,
        forall|i: int| 0 <= i < few.len() ==> full.contains(#[trigger] few[i]),
        forall|i: int, j: int|
            0 <= i < few.len() && 0 <= j < full.len() && (#[trigger] few[i]).a == (
            #[trigger] full[j]).a && few[i].b == full[j].b ==> few[i] == full[j],
        sums_stay_positive::<N>() ==> few.len() == geom::min(full.len() as int, max),
        sums_stay_positive::<N>() && full.len() <= max ==> few == full,
{
    let cs = coupling::all_contributions(tech, nets, rails);
    let t = coupling::coupling_table(tech, nets, rails, max);
    let all = coupling::coupling_table(tech, nets, rails, enough);
    coupling::a_limit_only_drops_pairs(cs, max, enough);
    coupling::each_pair_occurs_once(tech, nets, rails, enough);
    lemma_caps_len(cs, enough);
    let (k, m) = (t.pairs.len() as int, all.pairs.len() as int);
    lemma_named_prefix(t, all, nets, k, m);
    lemma_named_short(t, nets, k);
    let (fl, al) = (coupling::named(t, nets), coupling::named(all, nets));
    lemma_form_len(few, fl);
    lemma_form_len(full, al);
    assert forall|i: int| 0 <= i < few.len() implies full.contains(#[trigger] few[i]) by {
        let p = lemma_ordered_entry(few, fl, i);
        assert(al[p] == fl[p]);
        lemma_ordered_has(full, al, p);
    }
    assert forall|i: int, j: int|
        0 <= i < few.len() && 0 <= j < full.len() && (#[trigger] few[i]).a == (
        #[trigger] full[j]).a && few[i].b == full[j].b implies few[i] == full[j] by {
        let p = lemma_ordered_entry(few, fl, i);
        assert(al[p] == fl[p]);
        let q = lemma_ordered_entry(full, al, j);
        let u = lemma_named_entry(all, nets, m, p);
        let v = lemma_named_entry(all, nets, m, q);
        let (x, y) = (all.pairs[u], all.pairs[v]);
        assert(nets[x.0].name == nets[y.0].name && nets[x.1].name == nets[y.1].name);
        assert(x == y);
        assert(u == v);
    }
    if sums_stay_positive::<N>() {
        lemma_band_positive(
            tech,
            coupling::all_metal(nets, rails),
            coupling::owners(nets),
            0,
            coupling::owners(nets).len() as int,
        );
        lemma_table_positive(cs, max);
        lemma_table_positive(cs, enough);
        lemma_named_len(t, nets, k);
        lemma_named_len(all, nets, m);
        if full.len() <= max {
            assert(fl == al);
            coupling::one_ordered_form(few, full, al);
        }
    }
}

proof fn lemma_caps_len<N: Real>(cs: Seq<(int, int, N)>, max: int)
    ensures
        ({
            let t = coupling::take_all(coupling::no_pairs::<N>(), cs, max);
            t.caps.len() == t.pairs.len()
        }),
    decreases cs.len(),
{
    if cs.len() > 0 {
        lemma_caps_len(cs.drop_last(), max);
    }
}

pub(crate) proof fn lemma_named_short<N: Real>(t: TableView<N>, nets: Seq<NetView>, n: int)
    requires
        0 <= n,
    ensures
        coupling::named_upto(t, nets, n).len() <= n,
    decreases n,
{
    if n > 0 {
        lemma_named_short(t, nets, n - 1);
    }
}

proof fn lemma_form_len<N: Real>(out: Seq<CapView<N>>, list: Seq<CapView<N>>)
    requires
        coupling::is_ordered_form(out, list),
    ensures
        out.len() == list.len(),
{
}

} // verus!

//! References in a written netlist, by its text: every token that leads with `*`
//! and a number cites an entry of the name map.
use crate::coupling::CapView;
use crate::def::NetView;
use crate::drawn;
use crate::engine;
use crate::engine::{Extraction, Inputs};
use crate::geom;
use crate::hookup::{PinDir, PinResolver};
use crate::number;
use crate::number::{Fixed, Real};
use crate::rc;
use crate::rc::ParasiticsView;
use crate::rules::RulesView;
use crate::spef;
use crate::spef::UnitsView;
use crate::text;
use crate::tree;
use crate::tree::NetworkView;
use crate::version;
use vstd::prelude::*;

verus! {

/// The first index at or after `i` that holds no digit, or the end of the text.
pub open spec fn digits_end(s: Seq<char>, i: int) -> int
    decreases s.len() - i,
{
    if 0 <= i < s.len() && text::is_digit(s[i]) {
        digits_end(s, i + 1)
    } else {
        i
    }
}

/// Whether a token leads with `*` and a digit.
pub open spec fn cites(w: Seq<char>) -> bool {
    w.len() >= 2 && w[0] == '*' && text::is_digit(w[1])
}

/// The number that a token leads with, after its `*`.
pub open spec fn cited(w: Seq<char>) -> nat {
    text::digits_value(w.subrange(1, digits_end(w, 1)))
}

/// Whether a text has no `*`.
pub open spec fn starless(s: Seq<char>) -> bool {
    forall|i: int| 0 <= i < s.len() ==> #[trigger] s[i] != '*'
}

/// Whether a token with `*` and a digit starts at `i`.
spec fn starts(s: Seq<char>, i: int) -> bool {
    &&& 0 <= i
    &&& i + 1 < s.len()
    &&& s[i] == '*'
    &&& i == 0 || text::is_space(s[i - 1])
    &&& text::is_digit(s[i + 1])
}

spec fn cited_at(s: Seq<char>, i: int) -> nat {
    text::digits_value(s.subrange(i + 1, digits_end(s, i + 1)))
}

/// Whether every number that a token leads with is one of the first `n`.
spec fn holds(s: Seq<char>, n: int) -> bool {
    forall|i: int| #[trigger] starts(s, i) ==> 1 <= cited_at(s, i) <= n
}

/// Whether that is so, and the text ends between tokens.
spec fn good(s: Seq<char>, n: int) -> bool {
    holds(s, n) && (s.len() == 0 || text::is_space(s.last()))
}

/// Whether no `*` has a digit after it, and none ends the text.
spec fn calm(s: Seq<char>) -> bool {
    &&& forall|i: int|
        0 <= i < s.len() - 1 && #[trigger] s[i] == '*' ==> !text::is_digit(s[i + 1])
    &&& s.len() == 0 || s.last() != '*'
}

spec fn calm_from(s: Seq<char>, i: int) -> bool
    decreases s.len() - i,
{
    if 0 <= i < s.len() {
        (s[i] != '*' || (i + 1 < s.len() && !text::is_digit(s[i + 1]))) && calm_from(s, i + 1)
    } else {
        true
    }
}

proof fn lemma_calm_from(s: Seq<char>, i: int)
    requires
        0 <= i,
        calm_from(s, i),
    ensures
        forall|j: int|
            i <= j < s.len() && #[trigger] s[j] == '*' ==> j + 1 < s.len() && !text::is_digit(
                s[j + 1],
            ),
    decreases s.len() - i,
{
    if i < s.len() {
        lemma_calm_from(s, i + 1);
    }
}

proof fn lemma_calm(s: Seq<char>)
    requires
        calm_from(s, 0),
    ensures
        calm(s),
{
    lemma_calm_from(s, 0);
    if s.len() > 0 {
        assert(s[s.len() - 1] == s.last());
    }
}

proof fn lemma_starless_calm(s: Seq<char>)
    requires
        starless(s),
    ensures
        calm(s),
{
    if s.len() > 0 {
        assert(s[s.len() - 1] != '*');
    }
}

proof fn lemma_calm_add(s: Seq<char>, t: Seq<char>)
    requires
        calm(s),
        calm(t),
    ensures
        calm(s + t),
{
    let all = s + t;
    assert forall|i: int| 0 <= i < all.len() - 1 && #[trigger] all[i] == '*' implies !text::is_digit(
        all[i + 1],
    ) by {
        if i < s.len() {
            assert(s[i] == all[i]);
            if i == s.len() - 1 {
                assert(s.last() == '*');
            } else {
                assert(all[i + 1] == s[i + 1]);
            }
        } else {
            assert(t[i - s.len()] == all[i]);
            assert(t[i + 1 - s.len()] == all[i + 1]);
        }
    }
    if t.len() > 0 {
        assert(all.last() == t.last());
    } else {
        assert(all == s);
    }
}

/// A calm text that ends between tokens cites nothing.
proof fn lemma_calm_good(s: Seq<char>, n: int)
    requires
        calm(s),
        s.len() == 0 || text::is_space(s.last()),
    ensures
        good(s, n),
{
}

proof fn lemma_digits_end(s: Seq<char>, i: int)
    requires
        0 <= i <= s.len(),
    ensures
        i <= digits_end(s, i) <= s.len(),
        digits_end(s, i) < s.len() ==> !text::is_digit(s[digits_end(s, i)]),
        forall|j: int| i <= j < digits_end(s, i) ==> text::is_digit(#[trigger] s[j]),
    decreases s.len() - i,
{
    if i < s.len() && text::is_digit(s[i]) {
        lemma_digits_end(s, i + 1);
    }
}

proof fn lemma_digits_end_is(s: Seq<char>, i: int, e: int)
    requires
        0 <= i <= e <= s.len(),
        forall|j: int| i <= j < e ==> text::is_digit(#[trigger] s[j]),
        e < s.len() ==> !text::is_digit(s[e]),
    ensures
        digits_end(s, i) == e,
    decreases e - i,
{
    if i < e {
        assert(text::is_digit(s[i]));
        lemma_digits_end_is(s, i + 1, e);
    }
}

/// Texts that end between tokens cite together what they cite apart.
proof fn lemma_good_add(s: Seq<char>, t: Seq<char>, n: int)
    requires
        good(s, n),
        good(t, n),
    ensures
        good(s + t, n),
{
    let all = s + t;
    let k = s.len() as int;
    assert forall|i: int| #[trigger] starts(all, i) implies 1 <= cited_at(all, i) <= n by {
        if i < k {
            assert(all[i] == s[i]);
            assert(s.last() == s[k - 1]);
            assert(i < k - 1);
            assert(all[i + 1] == s[i + 1]);
            if i > 0 {
                assert(all[i - 1] == s[i - 1]);
            }
            assert(starts(s, i));
            lemma_digits_end(s, i + 1);
            let e = digits_end(s, i + 1);
            assert(e < k) by {
                if e == k {
                    assert(text::is_digit(s[k - 1]));
                }
            }
            assert forall|j: int| i + 1 <= j < e implies text::is_digit(#[trigger] all[j]) by {
                assert(all[j] == s[j]);
            }
            assert(all[e] == s[e]);
            lemma_digits_end_is(all, i + 1, e);
            assert(all.subrange(i + 1, e) == s.subrange(i + 1, e));
        } else {
            let q = i - k;
            assert(all[i] == t[q]);
            assert(all[i + 1] == t[q + 1]);
            if q > 0 {
                assert(all[i - 1] == t[q - 1]);
            }
            assert(starts(t, q));
            lemma_digits_end(t, q + 1);
            let e = digits_end(t, q + 1);
            assert forall|j: int| i + 1 <= j < k + e implies text::is_digit(#[trigger] all[j]) by {
                assert(all[j] == t[j - k]);
            }
            if e < t.len() {
                assert(all[k + e] == t[e]);
            }
            lemma_digits_end_is(all, i + 1, k + e);
            assert(all.subrange(i + 1, k + e) == t.subrange(q + 1, e));
        }
    }
    if t.len() > 0 {
        assert(all.last() == t.last());
    } else {
        assert(all == s);
    }
}

/// A text without `*`, and a space after it.
proof fn lemma_plain(w: Seq<char>, c: char, n: int)
    requires
        starless(w),
        text::is_space(c),
    ensures
        good(w + seq![c], n),
{
    let s = w + seq![c];
    assert(s.last() == c);
    assert forall|i: int| #[trigger] starts(s, i) implies false by {
        if i < w.len() {
            assert(s[i] == w[i]);
        }
    }
}

/// A reference to one of the first `n` names, and a space after it.
proof fn lemma_ref(k: nat, rest: Seq<char>, c: char, n: int)
    requires
        1 <= k <= n,
        starless(rest),
        rest.len() > 0 ==> !text::is_digit(rest[0]),
        text::is_space(c),
        !text::is_digit(c),
        c != '*',
    ensures
        good("*"@ + text::nat_text(k) + rest + seq![c], n),
{
    reveal_strlit("*");
    number::lemma_nat_text(k);
    let t = text::nat_text(k);
    let s = "*"@ + t + rest + seq![c];
    let e = 1 + t.len() as int;
    assert(s.last() == c);
    assert forall|j: int| 1 <= j < e implies text::is_digit(#[trigger] s[j]) by {
        assert(s[j] == t[j - 1]);
    }
    assert(s[e] == if rest.len() > 0 {
        rest[0]
    } else {
        c
    });
    lemma_digits_end_is(s, 1, e);
    assert(s.subrange(1, e) == t);
    assert forall|i: int| #[trigger] starts(s, i) implies 1 <= cited_at(s, i) <= n by {
        if 0 < i < e {
            assert(text::is_digit(s[i]));
        } else if e <= i < e + rest.len() {
            assert(s[i] == rest[i - e]);
        }
    }
}

/// Whether a label can stand before a space.
spec fn fits(l: Seq<char>, n: int) -> bool {
    good(l + " "@, n)
}

proof fn lemma_space()
    ensures
        " "@ == seq![' '],
        "\n"@ == seq!['\n'],
        text::is_space(' '),
        text::is_space('\n'),
{
    reveal_strlit(" ");
    reveal_strlit("\n");
    assert(" "@ == seq![' ']);
    assert("\n"@ == seq!['\n']);
}

proof fn lemma_plain_fits(l: Seq<char>, n: int)
    requires
        starless(l),
    ensures
        fits(l, n),
        good(l + "\n"@, n),
{
    lemma_space();
    lemma_plain(l, ' ', n);
    lemma_plain(l, '\n', n);
}

proof fn lemma_nat_starless(k: nat)
    ensures
        starless(text::nat_text(k)),
{
    number::lemma_nat_text(k);
    let t = text::nat_text(k);
    assert forall|i: int| 0 <= i < t.len() implies #[trigger] t[i] != '*' by {
        assert(text::is_digit(t[i]));
    }
}

proof fn lemma_inst_fits(k: nat, tail: Seq<char>, n: int)
    requires
        1 <= k <= n,
        starless(tail),
    ensures
        fits(spef::inst_label(k, tail), n),
{
    lemma_space();
    reveal_strlit(":");
    let rest = ":"@ + tail;
    assert forall|i: int| 0 <= i < rest.len() implies #[trigger] rest[i] != '*' by {
        if i > 0 {
            assert(rest[i] == tail[i - 1]);
        }
    }
    assert(rest[0] == ':');
    lemma_ref(k, rest, ' ', n);
    assert(spef::inst_label(k, tail) == "*"@ + text::nat_text(k) + rest);
}

proof fn lemma_inner_fits(k: nat, i: nat, n: int)
    requires
        1 <= k <= n,
    ensures
        fits(spef::inner_label(k, i), n),
{
    lemma_nat_starless(i);
    lemma_inst_fits(k, text::nat_text(i), n);
}

proof fn lemma_far_fits(k: nat, n: int)
    requires
        1 <= k <= n,
    ensures
        fits(spef::far_label(k), n),
{
    lemma_space();
    reveal_strlit(":far");
    let rest = ":far"@;
    assert(starless(rest)) by {
        reveal_with_fuel(calm_from, 6);
        assert forall|i: int| 0 <= i < rest.len() implies #[trigger] rest[i] != '*' by {
            assert(i == 0 || i == 1 || i == 2 || i == 3);
        }
    }
    lemma_ref(k, rest, ' ', n);
}

proof fn lemma_between_fits(a: Seq<char>, b: Seq<char>, n: int)
    requires
        fits(a, n),
        fits(b, n),
    ensures
        fits(spef::between(a, b), n),
{
    lemma_good_add(a + " "@, b + " "@, n);
    assert(spef::between(a, b) + " "@ == (a + " "@) + (b + " "@));
}

/// Whether no pin and no instance of a list of connections has a `*` in its name.
pub open spec fn starless_pins(pins: Seq<(Seq<char>, Seq<char>)>) -> bool {
    forall|k: int|
        0 <= k < pins.len() ==> starless((#[trigger] pins[k]).0) && starless(pins[k].1)
}

/// Whether no name of a net, an instance or a pin has a `*` in it.
pub open spec fn starless_nets<N: Real>(nets: Seq<ParasiticsView<N>>) -> bool {
    forall|i: int|
        0 <= i < nets.len() ==> starless((#[trigger] nets[i]).name) && starless_pins(nets[i].pins)
}

/// Whether the pins of each network are pins of its net.
pub open spec fn own_pins<N: Real>(
    nets: Seq<ParasiticsView<N>>,
    trees: Seq<Option<NetworkView<N>>>,
) -> bool {
    forall|n: int|
        0 <= n < nets.len() && #[trigger] spef::has_tree(trees, n) ==> forall|i: int|
            0 <= i < (trees[n]->0).nodes.len() ==> ((#[trigger] (trees[n]->0).nodes[i]).pin matches Some(
                p,
            ) ==> nets[n].pins.contains(p))
}

/// Whether numerals have no `*`.
pub open spec fn starless_numerals<N: Real>() -> bool {
    forall|v: N| starless(#[trigger] v.spec_numeral())
}

/// The numerals of decimal fixed point have no `*`.
pub proof fn fixed_numerals_are_starless()
    ensures
        starless_numerals::<Fixed>(),
{
    assert forall|v: Fixed| starless(#[trigger] v.spec_numeral()) by {
        number::a_numeral_reads_back(v);
        let s = v.spec_show();
        assert forall|i: int| 0 <= i < s.len() implies #[trigger] s[i] != '*' by {
            assert(text::is_digit(s[i]) || s[i] == '.' || s[i] == '-');
        }
    }
}

proof fn lemma_pin_fits(names: Seq<Seq<char>>, inst: Seq<char>, pin: Seq<char>)
    requires
        starless(inst),
        starless(pin),
    ensures
        fits(spef::pin_label(names, inst, pin), names.len() as int),
{
    let n = names.len() as int;
    if spef::is_port(inst) {
        lemma_plain_fits(pin, n);
    } else if names.contains(inst) {
        lemma_inst_fits(spef::id(names, inst), pin, n);
    } else {
        reveal_strlit(":");
        let l = inst + ":"@ + pin;
        assert forall|i: int| 0 <= i < l.len() implies #[trigger] l[i] != '*' by {
            if i < inst.len() {
                assert(l[i] == inst[i]);
            } else if i > inst.len() {
                assert(l[i] == pin[i - inst.len() - 1]);
            }
        }
        lemma_plain_fits(l, n);
    }
}

proof fn lemma_face_fits<N: Real>(
    nets: Seq<ParasiticsView<N>>,
    trees: Seq<Option<NetworkView<N>>>,
    n: int,
)
    requires
        0 <= n < nets.len(),
        starless_nets(nets),
    ensures
        fits(
            spef::face(spef::name_map(nets), nets, trees, n),
            spef::name_map(nets).len() as int,
        ),
{
    let names = spef::name_map(nets);
    assert(starless(nets[n].name));
    if spef::has_tree(trees, n) && nets[n].pins.len() > 0 {
        let p = nets[n].pins[0];
        assert(starless(p.0) && starless(p.1));
        lemma_pin_fits(names, p.0, p.1);
    } else {
        spef::nets_are_mapped(nets, n);
        lemma_inner_fits(spef::id(names, nets[n].name), 0, names.len() as int);
    }
}

/// Whether all lines can be written.
spec fn lines_fit<N: Real>(lines: Seq<(Seq<char>, N)>, n: int) -> bool {
    forall|i: int| 0 <= i < lines.len() ==> fits((#[trigger] lines[i]).0, n)
}

proof fn lemma_grounded_fit<N: Real>(
    nets: Seq<ParasiticsView<N>>,
    trees: Seq<Option<NetworkView<N>>>,
    n: int,
)
    requires
        0 <= n < nets.len(),
        starless_nets(nets),
        own_pins(nets, trees),
        spef::sound_networks(trees),
    ensures
        lines_fit(
            spef::grounded_lines(spef::name_map(nets), nets, trees, n),
            spef::name_map(nets).len() as int,
        ),
        lines_fit(
            spef::res_lines(spef::name_map(nets), nets, trees, n),
            spef::name_map(nets).len() as int,
        ),
{
    let names = spef::name_map(nets);
    let m = names.len() as int;
    let net = nets[n];
    spef::nets_are_mapped(nets, n);
    let nid = spef::id(names, net.name);
    assert(starless_pins(net.pins));
    lemma_inner_fits(nid, 0, m);
    lemma_far_fits(nid, m);
    let g = spef::grounded_lines(names, nets, trees, n);
    let r = spef::res_lines(names, nets, trees, n);
    if spef::has_tree(trees, n) {
        let t = trees[n]->0;
        assert forall|i: int| 0 <= i < t.nodes.len() implies fits(
            #[trigger] spef::node_label(names, nid, t, i),
            m,
        ) by {
            match t.nodes[i].pin {
                Some(p) => {
                    assert(net.pins.contains(p));
                    let k = net.pins.index_of(p);
                    assert(starless(net.pins[k].0) && starless(net.pins[k].1));
                    lemma_pin_fits(names, p.0, p.1);
                },
                None => {
                    lemma_inner_fits(nid, i as nat, m);
                },
            }
        }
        assert forall|i: int| 0 <= i < g.len() implies fits((#[trigger] g[i]).0, m) by {
            assert(g[i].0 == spef::node_label(names, nid, t, i));
        }
        assert forall|i: int| 0 <= i < r.len() implies fits((#[trigger] r[i]).0, m) by {
            let e = t.edges[i];
            assert(tree::ends(t.edges)[i] == (e.a, e.b));
            lemma_between_fits(
                spef::node_label(names, nid, t, e.a),
                spef::node_label(names, nid, t, e.b),
                m,
            );
        }
    } else {
        let root = spef::root_label(nid);
        assert forall|k: int| 0 <= k < net.pins.len() implies fits(
            #[trigger] spef::pin_label(names, net.pins[k].0, net.pins[k].1),
            m,
        ) by {
            assert(starless(net.pins[k].0) && starless(net.pins[k].1));
            lemma_pin_fits(names, net.pins[k].0, net.pins[k].1);
        }
        lemma_between_fits(root, spef::far_label(nid), m);
        assert forall|i: int| 0 <= i < g.len() implies fits((#[trigger] g[i]).0, m) by {
            if net.pins.len() > 0 && number::positive(net.res) && i < net.pins.len() {
                assert(fits(spef::pin_label(names, net.pins[i].0, net.pins[i].1), m));
            }
        }
        assert forall|i: int| 0 <= i < r.len() implies fits((#[trigger] r[i]).0, m) by {
            if net.pins.len() > 0 {
                let l = spef::pin_label(names, net.pins[i].0, net.pins[i].1);
                assert(fits(l, m));
                lemma_between_fits(root, l, m);
            }
        }
    }
}

proof fn lemma_loads_fit<N: Real>(
    names: Seq<Seq<char>>,
    pins: Seq<(Seq<char>, Seq<char>)>,
    resolver: Option<&PinResolver<N>>,
    k: int,
)
    requires
        0 <= k <= pins.len(),
        starless_pins(pins),
    ensures
        lines_fit(spef::load_lines(names, pins, resolver, k), names.len() as int),
    decreases k,
{
    if k > 0 {
        lemma_loads_fit(names, pins, resolver, k - 1);
        let p = pins[k - 1];
        assert(starless(p.0) && starless(p.1));
        lemma_pin_fits(names, p.0, p.1);
        let before = spef::load_lines(names, pins, resolver, k - 1);
        let now = spef::load_lines(names, pins, resolver, k);
        assert forall|i: int| 0 <= i < now.len() implies fits(
            (#[trigger] now[i]).0,
            names.len() as int,
        ) by {
            if i < before.len() {
                assert(now[i] == before[i]);
            }
        }
    }
}

proof fn lemma_couplings_fit<N: Real>(
    nets: Seq<ParasiticsView<N>>,
    trees: Seq<Option<NetworkView<N>>>,
    caps: Seq<CapView<N>>,
    n: int,
)
    requires
        0 <= n < nets.len(),
        starless_nets(nets),
    ensures
        lines_fit(
            spef::coupling_lines(spef::name_map(nets), nets, trees, caps, n),
            spef::name_map(nets).len() as int,
        ),
{
    let names = spef::name_map(nets);
    let m = names.len() as int;
    let nid = spef::id(names, nets[n].name);
    let lines = spef::coupling_lines(names, nets, trees, caps, n);
    let s = spef::sides(nets[n].name, caps, caps.len() as int);
    lemma_face_fits(nets, trees, n);
    spef::nets_are_mapped(nets, n);
    assert forall|i: int| 0 <= i < lines.len() implies fits((#[trigger] lines[i]).0, m) by {
        let c = caps[s[i].0];
        let other = if s[i].1 {
            c.b
        } else {
            c.a
        };
        spef::lemma_last_net(nets, other, nets.len() as int);
        match spef::last_net(nets, other, nets.len() as int) {
            Some(j) => {
                lemma_face_fits(nets, trees, j);
            },
            None => {
                if names.contains(other) {
                    lemma_inner_fits(spef::id(names, other), 0, m);
                } else {
                    lemma_inner_fits(nid, 0, m);
                }
            },
        }
        lemma_between_fits(
            spef::face(names, nets, trees, n),
            spef::neighbour(names, nets, trees, nid, other),
            m,
        );
    }
}

proof fn lemma_lines<N: Real>(s: Seq<char>, lines: Seq<(Seq<char>, N)>, k: int, n: int)
    requires
        0 <= k <= lines.len(),
        good(s, n),
        lines_fit(lines, n),
        starless_numerals::<N>(),
    ensures
        good(spef::with_lines(s, lines, k), n),
    decreases k,
{
    if k > 0 {
        lemma_lines(s, lines, k - 1, n);
        let before = spef::with_lines(s, lines, k - 1);
        let (l, v) = lines[k - 1];
        let t = text::nat_text(k as nat);
        assert(fits(lines[k - 1].0, n));
        assert(starless(v.spec_numeral()));
        lemma_nat_starless(k as nat);
        lemma_plain_fits(t, n);
        lemma_plain_fits(v.spec_numeral(), n);
        lemma_good_add(before, t + " "@, n);
        lemma_good_add(before + (t + " "@), l + " "@, n);
        lemma_good_add(before + (t + " "@) + (l + " "@), v.spec_numeral() + "\n"@, n);
        assert(spef::with_lines(s, lines, k) == before + (t + " "@) + (l + " "@) + (
        v.spec_numeral() + "\n"@));
    }
}

proof fn lemma_letter(d: PinDir)
    ensures
        starless(spef::dir_letter(d)),
{
    reveal_strlit("O");
    reveal_strlit("B");
    reveal_strlit("I");
}

proof fn lemma_conns<N: Real>(
    s: Seq<char>,
    names: Seq<Seq<char>>,
    pins: Seq<(Seq<char>, Seq<char>)>,
    resolver: Option<&PinResolver<N>>,
    k: int,
)
    requires
        0 <= k <= pins.len(),
        good(s, names.len() as int),
        starless_pins(pins),
        starless_numerals::<N>(),
    ensures
        good(spef::with_conns(s, names, pins, resolver, k), names.len() as int),
    decreases k,
{
    if k > 0 {
        let n = names.len() as int;
        lemma_conns(s, names, pins, resolver, k - 1);
        let before = spef::with_conns(s, names, pins, resolver, k - 1);
        let p = pins[k - 1];
        assert(starless(p.0) && starless(p.1));
        let (d, c) = spef::hookup(resolver, p);
        let letter = spef::dir_letter(d);
        let num = c.spec_numeral();
        lemma_letter(d);
        lemma_plain_fits(letter, n);
        assert(starless(num));
        lemma_plain_fits(num, n);
        reveal_strlit("*P ");
        reveal_strlit("*I ");
        reveal_strlit("*L ");
        reveal_strlit(" *L ");
        reveal_with_fuel(calm_from, 6);
        lemma_calm("*P "@);
        lemma_calm("*I "@);
        lemma_calm("*L "@);
        lemma_space();
        lemma_calm_good("*P "@, n);
        lemma_calm_good("*I "@, n);
        lemma_calm_good("*L "@, n);
        if spef::is_port(p.0) {
            lemma_plain_fits(p.1, n);
            lemma_good_add(before, "*P "@, n);
            lemma_good_add(before + "*P "@, p.1 + " "@, n);
            lemma_good_add(before + "*P "@ + (p.1 + " "@), letter + "\n"@, n);
            assert(spef::with_conns(s, names, pins, resolver, k) == before + "*P "@ + (p.1
                + " "@) + (letter + "\n"@));
        } else {
            let l = spef::pin_label(names, p.0, p.1);
            lemma_pin_fits(names, p.0, p.1);
            lemma_good_add(before, "*I "@, n);
            let head = before + "*I "@;
            lemma_good_add(head, l + " "@, n);
            let named = head + (l + " "@);
            if number::positive(c) {
                lemma_good_add(named, letter + " "@, n);
                let dir = named + (letter + " "@);
                lemma_good_add(dir, "*L "@, n);
                lemma_good_add(dir + "*L "@, num + "\n"@, n);
                assert(" *L "@ == " "@ + "*L "@);
                assert(spef::with_conns(s, names, pins, resolver, k) == dir + "*L "@ + (num
                    + "\n"@));
            } else {
                lemma_good_add(named, letter + "\n"@, n);
                assert(spef::with_conns(s, names, pins, resolver, k) == named + (letter
                    + "\n"@));
            }
        }
    }
}

proof fn lemma_net<N: Real>(
    s: Seq<char>,
    nets: Seq<ParasiticsView<N>>,
    trees: Seq<Option<NetworkView<N>>>,
    caps: Seq<CapView<N>>,
    resolver: Option<&PinResolver<N>>,
    n: int,
)
    requires
        0 <= n < nets.len(),
        good(s, spef::name_map(nets).len() as int),
        starless_nets(nets),
        own_pins(nets, trees),
        spef::sound_networks(trees),
        starless_numerals::<N>(),
    ensures
        good(
            spef::with_net(s, spef::name_map(nets), nets, trees, caps, resolver, n),
            spef::name_map(nets).len() as int,
        ),
{
    let names = spef::name_map(nets);
    let m = names.len() as int;
    let net = nets[n];
    let nid = spef::id(names, net.name);
    let num = spef::stated_total(net, caps, resolver).spec_numeral();
    spef::nets_are_mapped(nets, n);
    assert(starless_pins(net.pins));
    assert(starless(num));
    lemma_space();
    reveal_strlit("*D_NET ");
    reveal_strlit("*D_NET *");
    reveal_strlit("*CONN\n");
    reveal_strlit("*CAP\n");
    reveal_strlit("*RES\n");
    reveal_strlit("*END\n\n");
    reveal_strlit("*");
    reveal_with_fuel(calm_from, 10);
    lemma_calm("*D_NET "@);
    lemma_calm("*CONN\n"@);
    lemma_calm("*CAP\n"@);
    lemma_calm("*RES\n"@);
    lemma_calm("*END\n\n"@);
    lemma_calm_good("*D_NET "@, m);
    lemma_calm_good("*CONN\n"@, m);
    lemma_calm_good("*CAP\n"@, m);
    lemma_calm_good("*RES\n"@, m);
    lemma_calm_good("*END\n\n"@, m);
    let cite = "*"@ + text::nat_text(nid) + " "@;
    lemma_ref(nid, Seq::empty(), ' ', m);
    assert("*"@ + text::nat_text(nid) + Seq::<char>::empty() + seq![' '] == cite);
    lemma_plain_fits(num, m);
    lemma_good_add(s, "*D_NET "@, m);
    lemma_good_add(s + "*D_NET "@, cite, m);
    lemma_good_add(s + "*D_NET "@ + cite, num + "\n"@, m);
    lemma_good_add(s + "*D_NET "@ + cite + (num + "\n"@), "*CONN\n"@, m);
    let head = s + "*D_NET *"@ + text::nat_text(nid) + " "@ + num + "\n"@ + "*CONN\n"@;
    assert("*D_NET *"@ == "*D_NET "@ + "*"@);
    assert(head == s + "*D_NET "@ + cite + (num + "\n"@) + "*CONN\n"@);
    lemma_conns(head, names, net.pins, resolver, net.pins.len() as int);
    let conns = spef::with_conns(head, names, net.pins, resolver, net.pins.len() as int);
    lemma_good_add(conns, "*CAP\n"@, m);
    let g = spef::grounded_lines(names, nets, trees, n);
    let ld = spef::load_lines(names, net.pins, resolver, net.pins.len() as int);
    let cp = spef::coupling_lines(names, nets, trees, caps, n);
    lemma_grounded_fit(nets, trees, n);
    lemma_loads_fit(names, net.pins, resolver, net.pins.len() as int);
    lemma_couplings_fit(nets, trees, caps, n);
    let cl = spef::cap_lines(names, nets, trees, caps, resolver, n);
    assert forall|i: int| 0 <= i < cl.len() implies fits((#[trigger] cl[i]).0, m) by {
        if i < g.len() {
            assert(cl[i] == g[i]);
        } else if i < g.len() + ld.len() {
            assert(cl[i] == ld[i - g.len()]);
        } else {
            assert(cl[i] == cp[i - g.len() - ld.len()]);
        }
    }
    lemma_lines(conns + "*CAP\n"@, cl, cl.len() as int, m);
    let capped = spef::with_lines(conns + "*CAP\n"@, cl, cl.len() as int);
    let rl = spef::res_lines(names, nets, trees, n);
    lemma_good_add(capped, "*RES\n"@, m);
    lemma_lines(capped + "*RES\n"@, rl, rl.len() as int, m);
    lemma_good_add(
        spef::with_lines(capped + "*RES\n"@, rl, rl.len() as int),
        "*END\n\n"@,
        m,
    );
    lemma_good_add(capped, "*END\n\n"@, m);
}

proof fn lemma_nets<N: Real>(
    s: Seq<char>,
    nets: Seq<ParasiticsView<N>>,
    trees: Seq<Option<NetworkView<N>>>,
    caps: Seq<CapView<N>>,
    resolver: Option<&PinResolver<N>>,
    n: int,
)
    requires
        0 <= n <= nets.len(),
        good(s, spef::name_map(nets).len() as int),
        starless_nets(nets),
        own_pins(nets, trees),
        spef::sound_networks(trees),
        starless_numerals::<N>(),
    ensures
        good(
            spef::with_nets(s, spef::name_map(nets), nets, trees, caps, resolver, n),
            spef::name_map(nets).len() as int,
        ),
    decreases n,
{
    if n > 0 {
        lemma_nets(s, nets, trees, caps, resolver, n - 1);
        lemma_net(
            spef::with_nets(s, spef::name_map(nets), nets, trees, caps, resolver, n - 1),
            nets,
            trees,
            caps,
            resolver,
            n - 1,
        );
    }
}

/// Whether no name of a list has a `*` in it.
spec fn all_starless(names: Seq<Seq<char>>) -> bool {
    forall|i: int| 0 <= i < names.len() ==> starless(#[trigger] names[i])
}

proof fn lemma_names(s: Seq<char>, names: Seq<Seq<char>>, k: int)
    requires
        0 <= k <= names.len(),
        good(s, names.len() as int),
        all_starless(names),
    ensures
        good(spef::with_names(s, names, k), names.len() as int),
    decreases k,
{
    if k > 0 {
        let n = names.len() as int;
        lemma_names(s, names, k - 1);
        let before = spef::with_names(s, names, k - 1);
        let name = names[k - 1];
        assert(starless(name));
        lemma_space();
        reveal_strlit("*");
        let cite = "*"@ + text::nat_text(k as nat) + " "@;
        lemma_ref(k as nat, Seq::empty(), ' ', n);
        assert("*"@ + text::nat_text(k as nat) + Seq::<char>::empty() + seq![' '] == cite);
        lemma_plain_fits(name, n);
        lemma_good_add(before, cite, n);
        lemma_good_add(before + cite, name + "\n"@, n);
        assert(spef::with_names(s, names, k) == before + cite + (name + "\n"@));
    }
}

proof fn lemma_intern_starless(names: Seq<Seq<char>>, s: Seq<char>)
    requires
        all_starless(names),
        starless(s),
    ensures
        all_starless(spef::intern(names, s)),
{
}

proof fn lemma_insts_starless(
    names: Seq<Seq<char>>,
    pins: Seq<(Seq<char>, Seq<char>)>,
    k: int,
)
    requires
        0 <= k <= pins.len(),
        all_starless(names),
        starless_pins(pins),
    ensures
        all_starless(spef::with_insts(names, pins, k)),
    decreases k,
{
    if k > 0 {
        lemma_insts_starless(names, pins, k - 1);
        assert(starless(pins[k - 1].0));
        lemma_intern_starless(spef::with_insts(names, pins, k - 1), pins[k - 1].0);
    }
}

proof fn lemma_net_names_starless<N: Real>(nets: Seq<ParasiticsView<N>>, n: int)
    requires
        0 <= n <= nets.len(),
        starless_nets(nets),
    ensures
        all_starless(spef::net_names(nets, n)),
    decreases n,
{
    if n > 0 {
        lemma_net_names_starless(nets, n - 1);
        assert(starless(nets[n - 1].name));
        lemma_intern_starless(spef::net_names(nets, n - 1), nets[n - 1].name);
    }
}

proof fn lemma_net_insts_starless<N: Real>(
    names: Seq<Seq<char>>,
    nets: Seq<ParasiticsView<N>>,
    n: int,
)
    requires
        0 <= n <= nets.len(),
        all_starless(names),
        starless_nets(nets),
    ensures
        all_starless(spef::with_net_insts(names, nets, n)),
    decreases n,
{
    if n > 0 {
        lemma_net_insts_starless(names, nets, n - 1);
        let pins = nets[n - 1].pins;
        assert(starless_pins(pins));
        lemma_insts_starless(
            spef::with_net_insts(names, nets, n - 1),
            pins,
            pins.len() as int,
        );
    }
}

/// Whether no port has a `*` in its name.
spec fn ports_starless(p: Seq<(Seq<char>, PinDir)>) -> bool {
    forall|i: int| 0 <= i < p.len() ==> starless((#[trigger] p[i]).0)
}

proof fn lemma_insert_port_starless(
    s: Seq<(Seq<char>, PinDir)>,
    p: (Seq<char>, PinDir),
)
    requires
        ports_starless(s),
        starless(p.0),
    ensures
        ports_starless(spef::insert_port(s, p)),
    decreases s.len(),
{
    if s.len() > 0 {
        let t = s.drop_last();
        assert forall|i: int| 0 <= i < t.len() implies starless((#[trigger] t[i]).0) by {
            assert(t[i] == s[i]);
        }
        assert(s.last() == s[s.len() - 1]);
        lemma_insert_port_starless(t, p);
    }
}

proof fn lemma_pin_ports_starless<N: Real>(
    s: Seq<(Seq<char>, PinDir)>,
    pins: Seq<(Seq<char>, Seq<char>)>,
    resolver: Option<&PinResolver<N>>,
    k: int,
)
    requires
        0 <= k <= pins.len(),
        ports_starless(s),
        starless_pins(pins),
    ensures
        ports_starless(spef::with_pin_ports(s, pins, resolver, k)),
    decreases k,
{
    if k > 0 {
        lemma_pin_ports_starless(s, pins, resolver, k - 1);
        let p = pins[k - 1];
        assert(starless(p.1));
        lemma_insert_port_starless(
            spef::with_pin_ports(s, pins, resolver, k - 1),
            (p.1, spef::hookup(resolver, p).0),
        );
    }
}

proof fn lemma_ports_starless<N: Real>(
    nets: Seq<ParasiticsView<N>>,
    resolver: Option<&PinResolver<N>>,
    n: int,
)
    requires
        0 <= n <= nets.len(),
        starless_nets(nets),
    ensures
        ports_starless(spef::ports(nets, resolver, n)),
    decreases n,
{
    if n > 0 {
        lemma_ports_starless(nets, resolver, n - 1);
        let pins = nets[n - 1].pins;
        assert(starless_pins(pins));
        lemma_pin_ports_starless(
            spef::ports(nets, resolver, n - 1),
            pins,
            resolver,
            pins.len() as int,
        );
    }
}

proof fn lemma_ports(
    s: Seq<char>,
    p: Seq<(Seq<char>, PinDir)>,
    k: int,
    n: int,
)
    requires
        0 <= k <= p.len(),
        good(s, n),
        ports_starless(p),
    ensures
        good(spef::with_ports(s, p, k), n),
    decreases k,
{
    if k > 0 {
        lemma_ports(s, p, k - 1, n);
        let before = spef::with_ports(s, p, k - 1);
        let (name, d) = p[k - 1];
        let letter = spef::dir_letter(d);
        assert(starless(p[k - 1].0));
        lemma_letter(d);
        lemma_plain_fits(name, n);
        lemma_plain_fits(letter, n);
        lemma_good_add(before, name + " "@, n);
        lemma_good_add(before + (name + " "@), letter + "\n"@, n);
        assert(spef::with_ports(s, p, k) == before + (name + " "@) + (letter + "\n"@));
    }
}

/// Whether no unit has a `*` in it.
pub open spec fn starless_units(u: UnitsView) -> bool {
    starless(u.time) && starless(u.cap) && starless(u.res)
}

proof fn lemma_header(design: Seq<char>, units: UnitsView, date: Seq<char>, n: int)
    requires
        starless(design),
        starless_units(units),
        starless(date),
    ensures
        good(spef::header(design, units, date), n),
{
    reveal_with_fuel(calm_from, 60);
    reveal_strlit("*SPEF \"IEEE 1481-1999\"\n");
    reveal_strlit("*DESIGN \"");
    reveal_strlit("\"\n*DATE \"");
    reveal_strlit("\"\n*VENDOR \"Vyges\"\n");
    reveal_strlit("*PROGRAM \"vyges-extract\"\n");
    reveal_strlit("*VERSION \"");
    reveal_strlit("\"\n");
    reveal_strlit("*DESIGN_FLOW \"NAME_SCOPE LOCAL\" \"PIN_CAP NONE\"\n");
    reveal_strlit("*DIVIDER /\n");
    reveal_strlit("*DELIMITER :\n");
    reveal_strlit("*BUS_DELIMITER [ ]\n");
    reveal_strlit("*T_UNIT ");
    reveal_strlit("\n*C_UNIT ");
    reveal_strlit("\n*R_UNIT ");
    reveal_strlit("\n*L_UNIT 1 HENRY\n\n");
    reveal_strlit("0.1.0");
    lemma_calm("*SPEF \"IEEE 1481-1999\"\n"@);
    lemma_calm("*DESIGN \""@);
    lemma_calm("\"\n*DATE \""@);
    lemma_calm("\"\n*VENDOR \"Vyges\"\n"@);
    lemma_calm("*PROGRAM \"vyges-extract\"\n"@);
    lemma_calm("*VERSION \""@);
    lemma_calm("\"\n"@);
    lemma_calm("*DESIGN_FLOW \"NAME_SCOPE LOCAL\" \"PIN_CAP NONE\"\n"@);
    lemma_calm("*DIVIDER /\n"@);
    lemma_calm("*DELIMITER :\n"@);
    lemma_calm("*BUS_DELIMITER [ ]\n"@);
    lemma_calm("*T_UNIT "@);
    lemma_calm("\n*C_UNIT "@);
    lemma_calm("\n*R_UNIT "@);
    lemma_calm("\n*L_UNIT 1 HENRY\n\n"@);
    lemma_calm(version::VERSION@);
    lemma_starless_calm(design);
    lemma_starless_calm(date);
    lemma_starless_calm(units.time);
    lemma_starless_calm(units.cap);
    lemma_starless_calm(units.res);
    let a = "*SPEF \"IEEE 1481-1999\"\n"@;
    lemma_calm_add(a, "*DESIGN \""@);
    let a = a + "*DESIGN \""@;
    lemma_calm_add(a, design);
    let a = a + design;
    lemma_calm_add(a, "\"\n*DATE \""@);
    let a = a + "\"\n*DATE \""@;
    lemma_calm_add(a, date);
    let a = a + date;
    lemma_calm_add(a, "\"\n*VENDOR \"Vyges\"\n"@);
    let a = a + "\"\n*VENDOR \"Vyges\"\n"@;
    lemma_calm_add(a, "*PROGRAM \"vyges-extract\"\n"@);
    let a = a + "*PROGRAM \"vyges-extract\"\n"@;
    lemma_calm_add(a, "*VERSION \""@);
    let a = a + "*VERSION \""@;
    lemma_calm_add(a, version::VERSION@);
    let a = a + version::VERSION@;
    lemma_calm_add(a, "\"\n"@);
    let a = a + "\"\n"@;
    lemma_calm_add(a, "*DESIGN_FLOW \"NAME_SCOPE LOCAL\" \"PIN_CAP NONE\"\n"@);
    let a = a + "*DESIGN_FLOW \"NAME_SCOPE LOCAL\" \"PIN_CAP NONE\"\n"@;
    lemma_calm_add(a, "*DIVIDER /\n"@);
    let a = a + "*DIVIDER /\n"@;
    lemma_calm_add(a, "*DELIMITER :\n"@);
    let a = a + "*DELIMITER :\n"@;
    lemma_calm_add(a, "*BUS_DELIMITER [ ]\n"@);
    let a = a + "*BUS_DELIMITER [ ]\n"@;
    lemma_calm_add(a, "*T_UNIT "@);
    let a = a + "*T_UNIT "@;
    lemma_calm_add(a, units.time);
    let a = a + units.time;
    lemma_calm_add(a, "\n*C_UNIT "@);
    let a = a + "\n*C_UNIT "@;
    lemma_calm_add(a, units.cap);
    let a = a + units.cap;
    lemma_calm_add(a, "\n*R_UNIT "@);
    let a = a + "\n*R_UNIT "@;
    lemma_calm_add(a, units.res);
    let a = a + units.res;
    lemma_calm_add(a, "\n*L_UNIT 1 HENRY\n\n"@);
    let a = a + "\n*L_UNIT 1 HENRY\n\n"@;
    lemma_calm_good(a, n);
    assert(a == spef::header(design, units, date));
}

proof fn lemma_fixed_date()
    ensures
        starless(spef::fixed_date()),
{
    reveal_strlit("00:00:00 Thursday January 01, 1970");
    reveal_with_fuel(free_from, 40);
    lemma_free_from(spef::fixed_date(), 0);
}

spec fn free_from(s: Seq<char>, i: int) -> bool
    decreases s.len() - i,
{
    if 0 <= i < s.len() {
        s[i] != '*' && free_from(s, i + 1)
    } else {
        true
    }
}

proof fn lemma_free_from(s: Seq<char>, i: int)
    requires
        0 <= i,
        free_from(s, i),
    ensures
        forall|j: int| i <= j < s.len() ==> #[trigger] s[j] != '*',
    decreases s.len() - i,
{
    if i < s.len() {
        lemma_free_from(s, i + 1);
    }
}

proof fn lemma_space_run(s: Seq<char>, i: int)
    requires
        0 <= i <= s.len(),
        i == 0 || text::is_space(s[i - 1]) || i == s.len() || text::is_space(s[i]),
    ensures
        ({
            let b = text::space_end(s, i);
            b >= s.len() || b == 0 || text::is_space(s[b - 1])
        }),
    decreases s.len() - i,
{
    if i < s.len() && text::is_space(s[i]) {
        lemma_space_run(s, i + 1);
    }
}

proof fn lemma_word_stop(s: Seq<char>, i: int)
    requires
        0 <= i <= s.len(),
    ensures
        text::word_end(s, i) == s.len() || text::is_space(s[text::word_end(s, i)]),
        forall|j: int| i <= j < text::word_end(s, i) ==> !text::is_space(#[trigger] s[j]),
    decreases s.len() - i,
{
    if i < s.len() && !text::is_space(s[i]) {
        lemma_word_stop(s, i + 1);
    }
}

/// Each word of a text is one from a place where a token starts.
proof fn lemma_word_at(s: Seq<char>, i: int, k: int) -> (a: int)
    requires
        0 <= i <= s.len(),
        i == 0 || text::is_space(s[i - 1]) || i == s.len() || text::is_space(s[i]),
        0 <= k < text::words_from(s, i).len(),
    ensures
        0 <= a < text::word_end(s, a) <= s.len(),
        a == 0 || text::is_space(s[a - 1]),
        text::words_from(s, i)[k] == s.subrange(a, text::word_end(s, a)),
    decreases s.len() - i,
{
    lemma_space_run(s, i);
    text::lemma_space_end(s, i);
    let b = text::space_end(s, i);
    text::lemma_word_end(s, b);
    let e = text::word_end(s, b);
    lemma_word_stop(s, b);
    let rest = text::words_from(s, e);
    assert(text::words_from(s, i) == seq![s.subrange(b, e)] + rest);
    if k == 0 {
        b
    } else {
        assert(text::words_from(s, i)[k] == rest[k - 1]);
        lemma_word_at(s, e, k - 1)
    }
}

/// A token cites what its text cites where it stands.
proof fn lemma_token(s: Seq<char>, a: int, n: int)
    requires
        good(s, n),
        0 <= a < text::word_end(s, a) <= s.len(),
        a == 0 || text::is_space(s[a - 1]),
        cites(s.subrange(a, text::word_end(s, a))),
    ensures
        1 <= cited(s.subrange(a, text::word_end(s, a))) <= n,
{
    let e = text::word_end(s, a);
    let w = s.subrange(a, e);
    assert(w[0] == s[a] && w[1] == s[a + 1]);
    assert(starts(s, a));
    lemma_word_stop(s, a);
    lemma_digits_end(s, a + 1);
    let d = digits_end(s, a + 1);
    assert(d <= e) by {
        if e < d {
            assert(text::is_digit(s[e]));
            assert(text::is_space(s[e]));
        }
    }
    assert forall|j: int| 1 <= j < d - a implies text::is_digit(#[trigger] w[j]) by {
        assert(w[j] == s[a + j]);
    }
    if d < e {
        assert(w[d - a] == s[d]);
    }
    lemma_digits_end_is(w, 1, d - a);
    assert(w.subrange(1, d - a) == s.subrange(a + 1, d));
}

/// Every token of a written netlist that leads with `*` and a number cites an entry
/// of the name map. This holds where no name, unit, date or numeral has a `*` in it
/// and the pins of each network are pins of its net.
pub proof fn every_token_resolves<N: Real>(
    design: Seq<char>,
    units: UnitsView,
    date: Option<Seq<char>>,
    nets: Seq<ParasiticsView<N>>,
    trees: Seq<Option<NetworkView<N>>>,
    caps: Seq<CapView<N>>,
    resolver: Option<&PinResolver<N>>,
    k: int,
)
    requires
        starless(design),
        starless_units(units),
        date matches Some(d) ==> starless(d),
        starless_nets(nets),
        own_pins(nets, trees),
        spef::sound_networks(trees),
        starless_numerals::<N>(),
        0 <= k < text::words(
            spef::document(design, units, date, nets, trees, caps, resolver),
        ).len(),
    ensures
        ({
            let w = text::words(
                spef::document(design, units, date, nets, trees, caps, resolver),
            )[k];
            cites(w) ==> 1 <= cited(w) <= spef::name_map(nets).len()
        }),
{
    let names = spef::name_map(nets);
    let m = names.len() as int;
    let count = nets.len() as int;
    let stamp = match date {
        Some(d) => d,
        None => spef::fixed_date(),
    };
    lemma_fixed_date();
    lemma_header(design, units, stamp, m);
    let top = spef::header(design, units, stamp);
    lemma_space();
    reveal_strlit("*NAME_MAP\n");
    reveal_strlit("*PORTS\n");
    reveal_with_fuel(calm_from, 12);
    lemma_calm("*NAME_MAP\n"@);
    lemma_calm("*PORTS\n"@);
    lemma_calm_good("*NAME_MAP\n"@, m);
    lemma_calm_good("*PORTS\n"@, m);
    lemma_calm("\n"@);
    lemma_calm_good("\n"@, m);
    lemma_good_add(top, "*NAME_MAP\n"@, m);
    lemma_net_names_starless(nets, count);
    lemma_net_insts_starless(spef::net_names(nets, count), nets, count);
    lemma_names(top + "*NAME_MAP\n"@, names, m);
    let listed = spef::with_names(top + "*NAME_MAP\n"@, names, m);
    lemma_good_add(listed, "\n"@, m);
    let mapped = listed + "\n"@;
    let p = spef::ports(nets, resolver, count);
    lemma_ports_starless(nets, resolver, count);
    lemma_good_add(mapped, "*PORTS\n"@, m);
    lemma_ports(mapped + "*PORTS\n"@, p, p.len() as int, m);
    lemma_good_add(spef::with_ports(mapped + "*PORTS\n"@, p, p.len() as int), "\n"@, m);
    let ported = if p.len() > 0 {
        spef::with_ports(mapped + "*PORTS\n"@, p, p.len() as int) + "\n"@
    } else {
        mapped
    };
    lemma_nets(ported, nets, trees, caps, resolver, count);
    let s = spef::document(design, units, date, nets, trees, caps, resolver);
    assert(good(s, m));
    let a = lemma_word_at(s, 0, k);
    if cites(text::words(s)[k]) {
        lemma_token(s, a, m);
    }
}

proof fn lemma_intern_once(names: Seq<Seq<char>>, s: Seq<char>)
    requires
        names.no_duplicates(),
    ensures
        spef::intern(names, s).no_duplicates(),
        names.is_prefix_of(spef::intern(names, s)),
{
    let r = spef::intern(names, s);
    assert(r.take(names.len() as int) == names);
}

proof fn lemma_prefix_trans(a: Seq<Seq<char>>, b: Seq<Seq<char>>, c: Seq<Seq<char>>)
    requires
        a.is_prefix_of(b),
        b.is_prefix_of(c),
    ensures
        a.is_prefix_of(c),
{
    assert(c.take(a.len() as int) == b.take(a.len() as int));
}

proof fn lemma_insts_once(names: Seq<Seq<char>>, pins: Seq<(Seq<char>, Seq<char>)>, k: int)
    requires
        names.no_duplicates(),
    ensures
        spef::with_insts(names, pins, k).no_duplicates(),
        names.is_prefix_of(spef::with_insts(names, pins, k)),
    decreases k,
{
    if k > 0 {
        lemma_insts_once(names, pins, k - 1);
        let before = spef::with_insts(names, pins, k - 1);
        lemma_intern_once(before, pins[k - 1].0);
        if !spef::is_port(pins[k - 1].0) {
            lemma_prefix_trans(names, before, spef::intern(before, pins[k - 1].0));
        }
    } else {
        assert(names.take(names.len() as int) == names);
    }
}

proof fn lemma_net_insts_once<N: Real>(
    names: Seq<Seq<char>>,
    nets: Seq<ParasiticsView<N>>,
    n: int,
)
    requires
        names.no_duplicates(),
    ensures
        spef::with_net_insts(names, nets, n).no_duplicates(),
        names.is_prefix_of(spef::with_net_insts(names, nets, n)),
    decreases n,
{
    if n > 0 {
        lemma_net_insts_once(names, nets, n - 1);
        let before = spef::with_net_insts(names, nets, n - 1);
        let pins = nets[n - 1].pins;
        lemma_insts_once(before, pins, pins.len() as int);
        lemma_prefix_trans(names, before, spef::with_net_insts(names, nets, n));
    } else {
        assert(names.take(names.len() as int) == names);
    }
}

proof fn lemma_net_names_once<N: Real>(nets: Seq<ParasiticsView<N>>, n: int)
    ensures
        spef::net_names(nets, n).no_duplicates(),
    decreases n,
{
    if n > 0 {
        lemma_net_names_once(nets, n - 1);
        lemma_intern_once(spef::net_names(nets, n - 1), nets[n - 1].name);
    }
}

/// The name map lists each name once, those of the nets first.
pub proof fn the_name_map_lists_each_name_once<N: Real>(nets: Seq<ParasiticsView<N>>)
    ensures
        spef::name_map(nets).no_duplicates(),
        spef::net_names(nets, nets.len() as int).is_prefix_of(spef::name_map(nets)),
{
    let n = nets.len() as int;
    lemma_net_names_once(nets, n);
    lemma_net_insts_once(spef::net_names(nets, n), nets, n);
}

proof fn lemma_lumped_pins<N: Real>(
    nets: Seq<NetView>,
    r: RulesView<N>,
    widths: Map<Seq<char>, N>,
    n: int,
)
    requires
        0 <= n <= nets.len(),
    ensures
        engine::lumped_upto(nets, r, widths, n) matches Ok(s) ==> s.len() == n && forall|i: int|
            0 <= i < n ==> (#[trigger] s[i]).pins == nets[i].pins,
    decreases n,
{
    if n > 0 {
        lemma_lumped_pins(nets, r, widths, n - 1);
    }
}

/// The networks of an extraction have pins of their nets only.
pub proof fn extracted_pins_are_own<N: Real>(x: Extraction<N>, inputs: Inputs<N>)
    requires
        engine::is_extraction(x, inputs),
    ensures
        own_pins(rc::parasitics_view(x.nets@), spef::trees_view(x.trees@)),
{
    let nets = geom::nets_view(inputs.def.nets@);
    let (r, widths) = (inputs.rules@, inputs.lef.widths@);
    let via_layers = tree::named_layers(inputs.lef.vias@);
    let o = engine::outcomes(nets, r, widths, via_layers);
    let (list, trees) = (rc::parasitics_view(x.nets@), spef::trees_view(x.trees@));
    lemma_lumped_pins(nets, r, widths, nets.len() as int);
    assert forall|n: int| 0 <= n < list.len() && #[trigger] spef::has_tree(trees, n) implies forall|
        i: int,
    |
        0 <= i < (trees[n]->0).nodes.len() ==> ((#[trigger] (trees[n]->0).nodes[i]).pin matches Some(
            p,
        ) ==> list[n].pins.contains(p)) by {
        assert(trees[n] == engine::networks(o)[n]);
        let at = drawn::each_pin_has_its_own_node(nets[n], r, widths, via_layers);
        let t = trees[n]->0;
        assert(list[n].pins == nets[n].pins);
        assert forall|i: int| 0 <= i < t.nodes.len() implies ((#[trigger] t.nodes[i]).pin matches Some(
            p,
        ) ==> list[n].pins.contains(p)) by {
            if at.contains(i) {
                let k = at.index_of(i);
                assert(at[k] == i);
                assert(nets[n].pins[k] == t.nodes[i].pin->0);
            }
        }
    }
}

} // verus!

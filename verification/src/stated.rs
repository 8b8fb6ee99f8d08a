//! What a deck states, line by line: the last line for a thing counts, and nothing
//! holds that no line states.
use crate::number;
use crate::number::Real;
use crate::rules;
use crate::rules::{LayerRc, RulesView};
use crate::text;
use vstd::prelude::*;

verus! {

/// The words of a line before its comment, without a leading `layer`.
pub open spec fn said(line: Seq<char>) -> Seq<Seq<char>> {
    let all = text::words(text::before(line, '#'));
    if all.len() > 0 && text::lower(all[0]) == "layer"@ {
        all.subrange(1, all.len() as int)
    } else {
        all
    }
}

/// A word of a line, or none.
pub open spec fn word(line: Seq<char>, i: int) -> Seq<char> {
    if 0 <= i < said(line).len() {
        said(line)[i]
    } else {
        Seq::empty()
    }
}

/// Whether a line leads with a keyword, in capitals or not.
pub open spec fn leads(line: Seq<char>, key: Seq<char>) -> bool {
    said(line).len() > 0 && text::lower(said(line)[0]) == key
}

/// Whether a line is the row of a layer: it leads with no keyword.
pub open spec fn is_row(line: Seq<char>) -> bool {
    &&& said(line).len() > 0
    &&& !leads(line, "via"@) && !leads(line, "couple_cutoff"@) && !leads(line, "eps_r"@)
    &&& !leads(line, "shield_k"@) && !leads(line, "couple_shape"@) && !leads(line, "rsheet"@)
    &&& !leads(line, "height"@) && !leads(line, "interlayer"@)
}

/// Whether a value is what the last of the first `n` lines with a keyword gives, or a
/// default where there is none.
pub open spec fn value_stated<N: Real>(
    lines: Seq<Seq<char>>,
    n: int,
    key: Seq<char>,
    v: N,
    default: N,
) -> bool {
    &&& forall|k: int|
        0 <= k < n && leads(#[trigger] lines[k], key) && (forall|j: int|
            k < j < n ==> !leads(#[trigger] lines[j], key)) ==> N::spec_parse(word(lines[k], 1))
            == Some(v)
    &&& (forall|k: int| 0 <= k < n ==> !leads(#[trigger] lines[k], key)) ==> v == default
}

/// Whether a table holds what the last of the first `n` lines with a keyword gives each
/// layer, and no other layer.
pub open spec fn table_stated<N: Real>(
    lines: Seq<Seq<char>>,
    n: int,
    key: Seq<char>,
    m: Map<Seq<char>, N>,
) -> bool {
    &&& forall|k: int|
        0 <= k < n && leads(#[trigger] lines[k], key) && (forall|j: int|
            k < j < n && leads(#[trigger] lines[j], key) ==> word(lines[j], 1) != word(lines[k], 1))
            ==> m.contains_key(word(lines[k], 1)) && N::spec_parse(word(lines[k], 2)) == Some(
            m[word(lines[k], 1)],
        )
    &&& forall|layer: Seq<char>| #[trigger]
        m.contains_key(layer) ==> exists|k: int|
            0 <= k < n && leads(#[trigger] lines[k], key) && word(lines[k], 1) == layer
}

/// Whether two words name a pair of layers, in either order.
pub open spec fn same_pair(line: Seq<char>, other: Seq<char>) -> bool {
    word(line, 1) == word(other, 1) && word(line, 2) == word(other, 2) || word(line, 1) == word(
        other,
        2,
    ) && word(line, 2) == word(other, 1)
}

/// Whether a table of pairs of layers holds what the last of the first `n` lines for a
/// pair gives it, whatever the order of the two layers.
pub open spec fn pairs_stated<N: Real>(
    lines: Seq<Seq<char>>,
    n: int,
    m: Map<(Seq<char>, Seq<char>), N>,
) -> bool {
    forall|k: int|
        0 <= k < n && leads(#[trigger] lines[k], "interlayer"@) && (forall|j: int|
            k < j < n && leads(#[trigger] lines[j], "interlayer"@) ==> !same_pair(
                lines[j],
                lines[k],
            )) ==> {
            let (a, b) = (word(lines[k], 1), word(lines[k], 2));
            let p = if text::text_lt(b, a) {
                (b, a)
            } else {
                (a, b)
            };
            m.contains_key(p) && N::spec_parse(word(lines[k], 3)) == Some(m[p])
        }
}

/// Whether the layers are those of the rows among the first `n` lines, each as its last
/// row gives it: resistance, capacitance, coupling, which is none where it is left out,
/// and reference spacing, which is a fifth of a micrometre where it is left out.
pub open spec fn rows_stated<N: Real>(
    lines: Seq<Seq<char>>,
    n: int,
    m: Map<Seq<char>, LayerRc<N>>,
) -> bool {
    &&& forall|k: int|
        0 <= k < n && is_row(#[trigger] lines[k]) && (forall|j: int|
            k < j < n && is_row(#[trigger] lines[j]) ==> word(lines[j], 0) != word(lines[k], 0))
            ==> {
            let l = m[word(lines[k], 0)];
            &&& m.contains_key(word(lines[k], 0))
            &&& said(lines[k]).len() >= 3
            &&& N::spec_parse(word(lines[k], 1)) == Some(l.res_per_um)
            &&& N::spec_parse(word(lines[k], 2)) == Some(l.cap_per_um)
            &&& said(lines[k]).len() > 3 ==> N::spec_parse(word(lines[k], 3)) == Some(
                l.coupling_per_um,
            )
            &&& said(lines[k]).len() <= 3 ==> l.coupling_per_um == N::spec_micro(0)
            &&& said(lines[k]).len() > 4 ==> N::spec_parse(word(lines[k], 4)) == Some(l.s_ref)
            &&& said(lines[k]).len() <= 4 ==> l.s_ref == N::spec_micro(200_000)
        }
    &&& forall|layer: Seq<char>| #[trigger]
        m.contains_key(layer) ==> exists|k: int|
            0 <= k < n && is_row(#[trigger] lines[k]) && word(lines[k], 0) == layer
}

/// Whether curves are those of the last lines for their layers: a point for each word
/// after the layer, of the numbers before and after its colon.
pub open spec fn shapes_stated<N: Real>(
    lines: Seq<Seq<char>>,
    n: int,
    m: Map<Seq<char>, Seq<(N, N)>>,
) -> bool {
    &&& forall|k: int|
        0 <= k < n && leads(#[trigger] lines[k], "couple_shape"@) && (forall|j: int|
            k < j < n && leads(#[trigger] lines[j], "couple_shape"@) ==> word(lines[j], 1) != word(
                lines[k],
                1,
            )) ==> {
            m.contains_key(word(lines[k], 1)) && has_points(m[word(lines[k], 1)], said(lines[k]))
        }
    &&& forall|layer: Seq<char>| #[trigger]
        m.contains_key(layer) ==> exists|k: int|
            0 <= k < n && leads(#[trigger] lines[k], "couple_shape"@) && word(lines[k], 1) == layer
}

/// Whether a word `spacing:factor` gives one of some points.
pub open spec fn has_point<N: Real>(pts: Seq<(N, N)>, w: Seq<char>) -> bool {
    exists|i: int|
        0 <= i < pts.len() && N::spec_parse(text::before(w, ':')) == Some((#[trigger] pts[i]).0)
            && N::spec_parse(text::after(w, ':')) == Some(pts[i].1)
}

/// Whether points are those that the words after the first two give, one each.
pub open spec fn has_points<N: Real>(pts: Seq<(N, N)>, words: Seq<Seq<char>>) -> bool {
    &&& pts.len() == words.len() - 2
    &&& forall|i: int| 2 <= i < words.len() ==> has_point(pts, #[trigger] words[i])
}

/// Whether a deck is what the first `n` lines state.
pub open spec fn is_stated<N: Real>(lines: Seq<Seq<char>>, n: int, r: RulesView<N>) -> bool {
    &&& value_stated(lines, n, "via"@, r.via_res, N::spec_micro(0))
    &&& value_stated(lines, n, "couple_cutoff"@, r.couple_cutoff, N::spec_micro(2_000_000))
    &&& value_stated(lines, n, "eps_r"@, r.eps_r, N::spec_micro(0))
    &&& value_stated(lines, n, "shield_k"@, r.shield_k, N::spec_micro(0))
    &&& table_stated(lines, n, "rsheet"@, r.rsheet)
    &&& table_stated(lines, n, "height"@, r.heights)
    &&& pairs_stated(lines, n, r.interlayer)
    &&& rows_stated(lines, n, r.layers)
    &&& shapes_stated(lines, n, r.couple_shapes)
}

proof fn lemma_value<N: Real>(
    lines: Seq<Seq<char>>,
    n: int,
    key: Seq<char>,
    before: N,
    v: N,
    default: N,
)
    requires
        n > 0,
        value_stated(lines, n - 1, key, before, default),
        leads(lines[n - 1], key) ==> N::spec_parse(word(lines[n - 1], 1)) == Some(v),
        !leads(lines[n - 1], key) ==> v == before,
    ensures
        value_stated(lines, n, key, v, default),
{
    assert forall|k: int|
        0 <= k < n && leads(#[trigger] lines[k], key) && (forall|j: int|
            k < j < n ==> !leads(#[trigger] lines[j], key)) implies N::spec_parse(word(lines[k], 1))
        == Some(v) by {
        if k < n - 1 {
            assert(!leads(lines[n - 1], key));
        }
    }
    if forall|k: int| 0 <= k < n ==> !leads(#[trigger] lines[k], key) {
        assert(!leads(lines[n - 1], key));
    }
}

proof fn lemma_table<N: Real>(
    lines: Seq<Seq<char>>,
    n: int,
    key: Seq<char>,
    before: Map<Seq<char>, N>,
    m: Map<Seq<char>, N>,
)
    requires
        n > 0,
        table_stated(lines, n - 1, key, before),
        leads(lines[n - 1], key) ==> N::spec_parse(word(lines[n - 1], 2)) is Some && m
            == before.insert(word(lines[n - 1], 1), N::spec_parse(word(lines[n - 1], 2))->0),
        !leads(lines[n - 1], key) ==> m == before,
    ensures
        table_stated(lines, n, key, m),
{
    assert forall|k: int|
        0 <= k < n && leads(#[trigger] lines[k], key) && (forall|j: int|
            k < j < n && leads(#[trigger] lines[j], key) ==> word(lines[j], 1) != word(
                lines[k],
                1,
            )) implies m.contains_key(word(lines[k], 1)) && N::spec_parse(word(lines[k], 2))
        == Some(m[word(lines[k], 1)]) by {
        if k < n - 1 {
            assert(leads(lines[n - 1], key) ==> word(lines[n - 1], 1) != word(lines[k], 1));
        }
    }
    assert forall|layer: Seq<char>| #[trigger] m.contains_key(layer) implies exists|k: int|
        0 <= k < n && leads(#[trigger] lines[k], key) && word(lines[k], 1) == layer by {
        if before.contains_key(layer) {
            let k = choose|k: int|
                0 <= k < n - 1 && leads(#[trigger] lines[k], key) && word(lines[k], 1) == layer;
            assert(leads(lines[k], key));
        } else {
            assert(leads(lines[n - 1], key) && word(lines[n - 1], 1) == layer);
        }
    }
}

proof fn lemma_pairs<N: Real>(
    lines: Seq<Seq<char>>,
    n: int,
    before: Map<(Seq<char>, Seq<char>), N>,
    m: Map<(Seq<char>, Seq<char>), N>,
)
    requires
        n > 0,
        pairs_stated(lines, n - 1, before),
        leads(lines[n - 1], "interlayer"@) ==> N::spec_parse(word(lines[n - 1], 3)) is Some && m
            == before.insert(
            rules::pair_key(word(lines[n - 1], 1), word(lines[n - 1], 2)),
            N::spec_parse(word(lines[n - 1], 3))->0,
        ),
        !leads(lines[n - 1], "interlayer"@) ==> m == before,
    ensures
        pairs_stated(lines, n, m),
{
    let key = "interlayer"@;
    assert forall|k: int|
        0 <= k < n && leads(#[trigger] lines[k], key) && (forall|j: int|
            k < j < n && leads(#[trigger] lines[j], key) ==> !same_pair(
                lines[j],
                lines[k],
            )) implies {
        let (a, b) = (word(lines[k], 1), word(lines[k], 2));
        let p = if text::text_lt(b, a) {
            (b, a)
        } else {
            (a, b)
        };
        m.contains_key(p) && N::spec_parse(word(lines[k], 3)) == Some(m[p])
    } by {
        let (a, b) = (word(lines[k], 1), word(lines[k], 2));
        let p = if text::text_lt(b, a) {
            (b, a)
        } else {
            (a, b)
        };
        if k < n - 1 && leads(lines[n - 1], key) {
            assert(!same_pair(lines[n - 1], lines[k]));
            let q = rules::pair_key(word(lines[n - 1], 1), word(lines[n - 1], 2));
            assert(q != p);
        }
    }
}

#[verifier::rlimit(50)]
proof fn lemma_rows<N: Real>(
    lines: Seq<Seq<char>>,
    n: int,
    before: Map<Seq<char>, LayerRc<N>>,
    m: Map<Seq<char>, LayerRc<N>>,
)
    requires
        n > 0,
        rows_stated(lines, n - 1, before),
        is_row(lines[n - 1]) ==> said(lines[n - 1]).len() >= 3 && rules::layer_row::<N>(
            said(lines[n - 1]),
        ) is Ok && m == before.insert(
            word(lines[n - 1], 0),
            rules::layer_row::<N>(said(lines[n - 1]))->Ok_0,
        ),
        !is_row(lines[n - 1]) ==> m == before,
    ensures
        rows_stated(lines, n, m),
{
    assert forall|k: int|
        0 <= k < n && is_row(#[trigger] lines[k]) && (forall|j: int|
            k < j < n && is_row(#[trigger] lines[j]) ==> word(lines[j], 0) != word(
                lines[k],
                0,
            )) implies {
        let l = m[word(lines[k], 0)];
        &&& m.contains_key(word(lines[k], 0))
        &&& said(lines[k]).len() >= 3
        &&& N::spec_parse(word(lines[k], 1)) == Some(l.res_per_um)
        &&& N::spec_parse(word(lines[k], 2)) == Some(l.cap_per_um)
        &&& said(lines[k]).len() > 3 ==> N::spec_parse(word(lines[k], 3)) == Some(
            l.coupling_per_um,
        )
        &&& said(lines[k]).len() <= 3 ==> l.coupling_per_um == N::spec_micro(0)
        &&& said(lines[k]).len() > 4 ==> N::spec_parse(word(lines[k], 4)) == Some(l.s_ref)
        &&& said(lines[k]).len() <= 4 ==> l.s_ref == N::spec_micro(200_000)
    } by {
        if k < n - 1 {
            assert(is_row(lines[n - 1]) ==> word(lines[n - 1], 0) != word(lines[k], 0));
        }
    }
    assert forall|layer: Seq<char>| #[trigger] m.contains_key(layer) implies exists|k: int|
        0 <= k < n && is_row(#[trigger] lines[k]) && word(lines[k], 0) == layer by {
        if before.contains_key(layer) {
            let k = choose|k: int|
                0 <= k < n - 1 && is_row(#[trigger] lines[k]) && word(lines[k], 0) == layer;
            assert(is_row(lines[k]));
        } else {
            assert(is_row(lines[n - 1]) && word(lines[n - 1], 0) == layer);
        }
    }
}

proof fn lemma_insert_point<N: Real>(s: Seq<(N, N)>, p: (N, N))
    ensures
        number::insert_ranked(s, p).len() == s.len() + 1,
        number::insert_ranked(s, p).contains(p),
        forall|q: (N, N)| s.contains(q) ==> #[trigger] number::insert_ranked(s, p).contains(q),
    decreases s.len(),
{
    let out = number::insert_ranked(s, p);
    if s.len() > 0 && p.0.spec_below(s.last().0) {
        let d = s.drop_last();
        lemma_insert_point(d, p);
        let e = number::insert_ranked(d, p);
        assert(out == e.push(s.last()));
        assert(out[e.index_of(p)] == p);
        assert forall|q: (N, N)| s.contains(q) implies #[trigger] out.contains(q) by {
            let i = s.index_of(q);
            if i < d.len() {
                assert(d[i] == q);
                assert(e.contains(q));
                assert(out[e.index_of(q)] == q);
            } else {
                assert(out[e.len() as int] == q);
            }
        }
    } else {
        assert(out[s.len() as int] == p);
        assert forall|q: (N, N)| s.contains(q) implies #[trigger] out.contains(q) by {
            assert(out[s.index_of(q)] == q);
        }
    }
}

proof fn lemma_points<N: Real>(layer: Seq<char>, t: Seq<Seq<char>>, n: int)
    requires
        2 <= n <= t.len(),
        rules::points::<N>(layer, t, n) is Ok,
    ensures
        ({
            let pts = rules::points::<N>(layer, t, n)->Ok_0;
            &&& pts.len() == n - 2
            &&& forall|i: int| 2 <= i < n ==> has_point(pts, #[trigger] t[i])
        }),
    decreases n,
{
    if n > 2 {
        lemma_points::<N>(layer, t, n - 1);
        let before = rules::points::<N>(layer, t, n - 1)->Ok_0;
        let pts = rules::points::<N>(layer, t, n)->Ok_0;
        let w = t[n - 1];
        let p = (
            N::spec_parse(text::before(w, ':'))->0,
            N::spec_parse(text::after(w, ':'))->0,
        );
        assert(pts == number::insert_ranked(before, p));
        lemma_insert_point(before, p);
        assert forall|i: int| 2 <= i < n implies has_point(pts, #[trigger] t[i]) by {
            if i < n - 1 {
                let j = choose|j: int|
                    0 <= j < before.len() && N::spec_parse(text::before(t[i], ':')) == Some(
                        (#[trigger] before[j]).0,
                    ) && N::spec_parse(text::after(t[i], ':')) == Some(before[j].1);
                assert(before.contains(before[j]));
                assert(pts.contains(before[j]));
                let k = pts.index_of(before[j]);
                assert(pts[k] == before[j]);
            } else {
                assert(pts.contains(p));
                let k = pts.index_of(p);
                assert(pts[k] == p);
            }
        }
    }
}

#[verifier::rlimit(50)]
proof fn lemma_shapes<N: Real>(
    lines: Seq<Seq<char>>,
    n: int,
    before: Map<Seq<char>, Seq<(N, N)>>,
    m: Map<Seq<char>, Seq<(N, N)>>,
)
    requires
        n > 0,
        shapes_stated(lines, n - 1, before),
        leads(lines[n - 1], "couple_shape"@) ==> {
            let t = said(lines[n - 1]);
            let pts = rules::points::<N>(t[1], t, t.len() as int);
            t.len() >= 3 && pts is Ok && m == before.insert(t[1], pts->Ok_0)
        },
        !leads(lines[n - 1], "couple_shape"@) ==> m == before,
    ensures
        shapes_stated(lines, n, m),
{
    let key = "couple_shape"@;
    let t = said(lines[n - 1]);
    if leads(lines[n - 1], key) {
        lemma_points::<N>(t[1], t, t.len() as int);
        assert(has_points(rules::points::<N>(t[1], t, t.len() as int)->Ok_0, t));
    }
    assert forall|k: int|
        0 <= k < n && leads(#[trigger] lines[k], key) && (forall|j: int|
            k < j < n && leads(#[trigger] lines[j], key) ==> word(lines[j], 1) != word(
                lines[k],
                1,
            )) implies {
        m.contains_key(word(lines[k], 1)) && has_points(m[word(lines[k], 1)], said(lines[k]))
    } by {
        if k < n - 1 {
            assert(leads(lines[n - 1], key) ==> word(lines[n - 1], 1) != word(lines[k], 1));
        }
    }
    assert forall|layer: Seq<char>| #[trigger] m.contains_key(layer) implies exists|k: int|
        0 <= k < n && leads(#[trigger] lines[k], key) && word(lines[k], 1) == layer by {
        if before.contains_key(layer) {
            let k = choose|k: int|
                0 <= k < n - 1 && leads(#[trigger] lines[k], key) && word(lines[k], 1) == layer;
            assert(leads(lines[k], key));
        } else {
            assert(leads(lines[n - 1], key) && word(lines[n - 1], 1) == layer);
        }
    }
}

/// No keyword is another.
proof fn lemma_keywords()
    ensures
        "via"@ != "couple_cutoff"@ && "via"@ != "eps_r"@ && "via"@ != "shield_k"@ && "via"@
            != "couple_shape"@ && "via"@ != "rsheet"@ && "via"@ != "height"@ && "via"@
            != "interlayer"@,
        "couple_cutoff"@ != "eps_r"@ && "couple_cutoff"@ != "shield_k"@ && "couple_cutoff"@
            != "couple_shape"@ && "couple_cutoff"@ != "rsheet"@ && "couple_cutoff"@ != "height"@
            && "couple_cutoff"@ != "interlayer"@,
        "eps_r"@ != "shield_k"@ && "eps_r"@ != "couple_shape"@ && "eps_r"@ != "rsheet"@ && "eps_r"@
            != "height"@ && "eps_r"@ != "interlayer"@,
        "shield_k"@ != "couple_shape"@ && "shield_k"@ != "rsheet"@ && "shield_k"@ != "height"@
            && "shield_k"@ != "interlayer"@,
        "couple_shape"@ != "rsheet"@ && "couple_shape"@ != "height"@ && "couple_shape"@
            != "interlayer"@,
        "rsheet"@ != "height"@ && "rsheet"@ != "interlayer"@,
        "height"@ != "interlayer"@,
{
    reveal_strlit("via");
    reveal_strlit("couple_cutoff");
    reveal_strlit("eps_r");
    reveal_strlit("shield_k");
    reveal_strlit("couple_shape");
    reveal_strlit("rsheet");
    reveal_strlit("height");
    reveal_strlit("interlayer");
    assert("via"@.len() == 3 && "couple_cutoff"@.len() == 13 && "eps_r"@.len() == 5);
    assert("shield_k"@.len() == 8 && "couple_shape"@.len() == 12 && "interlayer"@.len() == 10);
    assert("rsheet"@.len() == 6 && "height"@.len() == 6);
    assert("rsheet"@[0] == 'r' && "height"@[0] == 'h');
}

#[verifier::rlimit(50)]
proof fn lemma_deck<N: Real>(lines: Seq<Seq<char>>, n: int)
    requires
        0 <= n <= lines.len(),
    ensures
        rules::deck_upto::<N>(lines, n) matches Ok(r) ==> is_stated(lines, n, r),
    decreases n,
{
    if n > 0 {
        lemma_deck::<N>(lines, n - 1);
        if let Ok(b) = rules::deck_upto::<N>(lines, n - 1) {
            if let Ok(r) = rules::deck_upto::<N>(lines, n) {
                let line = lines[n - 1];
                let t = said(line);
                assert(t =~= rules::rule_words(line));
                assert(rules::rule(b, t) == Ok::<RulesView<N>, Seq<char>>(r));
                lemma_keywords();
                lemma_value(lines, n, "via"@, b.via_res, r.via_res, N::spec_micro(0));
                lemma_value(
                    lines,
                    n,
                    "couple_cutoff"@,
                    b.couple_cutoff,
                    r.couple_cutoff,
                    N::spec_micro(2_000_000),
                );
                lemma_value(lines, n, "eps_r"@, b.eps_r, r.eps_r, N::spec_micro(0));
                lemma_value(lines, n, "shield_k"@, b.shield_k, r.shield_k, N::spec_micro(0));
                lemma_table(lines, n, "rsheet"@, b.rsheet, r.rsheet);
                lemma_table(lines, n, "height"@, b.heights, r.heights);
                lemma_pairs(lines, n, b.interlayer, r.interlayer);
                lemma_rows(lines, n, b.layers, r.layers);
                lemma_shapes(lines, n, b.couple_shapes, r.couple_shapes);
            }
        }
    }
}

/// A deck that is read is what its lines state. Of several lines for one thing the last
/// counts; a thing that no line states has its default, and a table holds no layer that
/// no line names. A deck without the row of a layer is not read.
pub proof fn a_deck_is_what_its_lines_state<N: Real>(source: Seq<char>)
    ensures
        rules::deck::<N>(source) matches Ok(r) ==> is_stated(
            text::lines(source),
            text::lines(source).len() as int,
            r,
        ) && exists|k: int|
            0 <= k < text::lines(source).len() && is_row(#[trigger] text::lines(source)[k]),
{
    let lines = text::lines(source);
    lemma_deck::<N>(lines, lines.len() as int);
    if let Ok(r) = rules::deck::<N>(source) {
        if forall|name: Seq<char>| !r.layers.contains_key(name) {
            assert(r.layers =~= Map::<Seq<char>, LayerRc<N>>::empty());
        }
        let name = choose|name: Seq<char>| r.layers.contains_key(name);
        assert(r.layers.contains_key(name));
    }
}

} // verus!

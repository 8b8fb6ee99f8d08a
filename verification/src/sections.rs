//! What the sections of a DEF say beside its nets: the units, the widths of non-default
//! rules, and the power rails.
use crate::def;
use crate::geom::SegmentView;
use crate::ndr;
use crate::ndr::RuleWidthView;
use crate::number::Real;
use crate::rails;
use crate::rails::RailReading;
use crate::routes;
use vstd::prelude::*;

verus! {

/// Whether the database units are stated at a token.
pub open spec fn units_at<N: Real>(t: Seq<Seq<char>>, k: int) -> bool {
    &&& 0 <= k
    &&& k + 3 < t.len()
    &&& t[k] == "UNITS"@ && t[k + 1] == "DISTANCE"@ && t[k + 2] == "MICRONS"@
    &&& N::spec_parse(t[k + 3]) is Some
}

proof fn lemma_units<N: Real>(t: Seq<Seq<char>>, n: int, k: int)
    requires
        0 <= n <= t.len(),
    ensures
        k < n && units_at::<N>(t, k) && (forall|j: int| k < j < n ==> !units_at::<N>(t, j))
            ==> Some(def::scale_upto::<N>(t, n)) == N::spec_parse(t[k + 3]),
        (forall|j: int| 0 <= j < n ==> !units_at::<N>(t, j)) ==> def::scale_upto::<N>(t, n)
            == N::spec_micro(1_000_000_000),
    decreases n,
{
    if n > 0 {
        lemma_units::<N>(t, n - 1, k);
        if k < n - 1 && (forall|j: int| k < j < n ==> !units_at::<N>(t, j)) {
            assert(!units_at::<N>(t, n - 1));
        }
        if forall|j: int| 0 <= j < n ==> !units_at::<N>(t, j) {
            assert(!units_at::<N>(t, n - 1));
        }
    }
}

/// The database units of a micrometre are those that are stated last, and a thousand
/// where none are.
pub proof fn the_last_units_count<N: Real>(t: Seq<Seq<char>>, k: int)
    ensures
        units_at::<N>(t, k) && (forall|j: int| k < j ==> !units_at::<N>(t, j)) ==> Some(
            def::scale::<N>(t),
        ) == N::spec_parse(t[k + 3]),
        (forall|j: int| !units_at::<N>(t, j)) ==> def::scale::<N>(t) == N::spec_micro(
            1_000_000_000,
        ),
{
    lemma_units::<N>(t, t.len() as int, k);
}

/// Where a token first stands, as it is searched for.
proof fn lemma_found(t: Seq<Seq<char>>, s: Seq<char>, i: int, k: int)
    requires
        0 <= i <= k < t.len(),
        t[k] == s,
        forall|j: int| i <= j < k ==> #[trigger] t[j] != s,
    ensures
        def::find_token(t, s, i) == k,
    decreases k - i,
{
    if i < k {
        assert(t[i] != s);
        lemma_found(t, s, i + 1, k);
    }
}

/// The nets of a DEF are those after the header of its `NETS` section, up to `END`; a
/// DEF without the section has none.
pub proof fn the_nets_are_those_of_their_section<N: Real>(t: Seq<Seq<char>>, p: int, s: int)
    ensures
        0 <= p <= s && s + 1 < t.len() && t[p] == "NETS"@ && t[s] == ";"@ && (forall|j: int|
            0 <= j < p ==> #[trigger] t[j] != "NETS"@) && (forall|j: int|
            p <= j < s ==> #[trigger] t[j] != ";"@) ==> def::nets::<N>(t) == def::nets_from(
            t,
            s + 1,
            def::frame::<N>(t),
        ),
        (forall|j: int| 0 <= j < t.len() ==> #[trigger] t[j] != "NETS"@) ==> (def::nets::<N>(
            t,
        ) is Ok && def::nets::<N>(t)->Ok_0.len() == 0),
{
    if 0 <= p <= s && s + 1 < t.len() && t[p] == "NETS"@ && t[s] == ";"@ && (forall|j: int|
        0 <= j < p ==> #[trigger] t[j] != "NETS"@) && (forall|j: int|
        p <= j < s ==> #[trigger] t[j] != ";"@) {
        lemma_found(t, "NETS"@, 0, p);
        lemma_found(t, ";"@, p, s);
    }
    if forall|j: int| 0 <= j < t.len() ==> #[trigger] t[j] != "NETS"@ {
        lemma_missing(t, "NETS"@, 0);
    }
}

proof fn lemma_missing(t: Seq<Seq<char>>, s: Seq<char>, i: int)
    requires
        0 <= i <= t.len(),
        forall|j: int| 0 <= j < t.len() ==> #[trigger] t[j] != s,
    ensures
        def::find_token(t, s, i) == t.len(),
    decreases t.len() - i,
{
    if i < t.len() {
        assert(t[i] != s);
        lemma_missing(t, s, i + 1);
    }
}

/// The rule that is being read at a token: the name after the last `-` before it.
pub open spec fn rule_at(t: Seq<Seq<char>>, i: int, k: int, rule: Seq<char>) -> Seq<char>
    decreases k - i,
{
    if k <= i {
        rule
    } else if t[k - 1] == "-"@ {
        t[k]
    } else {
        rule_at(t, i, k - 1, rule)
    }
}

/// A rule gives a layer the width that stands after `LAYER`, the name of the layer and
/// `WIDTH`, in picometres, and none below zero.
pub proof fn a_rule_gives_the_width_it_states<N: Real>(
    t: Seq<Seq<char>>,
    p: int,
    k: int,
    scale: N,
)
    requires
        0 <= p < k,
        k + 3 < t.len(),
        t[p] == "NONDEFAULTRULES"@,
        forall|j: int| 0 <= j < p ==> #[trigger] t[j] != "NONDEFAULTRULES"@,
        forall|j: int| p <= j <= k ==> #[trigger] t[j] != "END"@,
        t[k] == "LAYER"@,
        t[k + 2] == "WIDTH"@,
        N::spec_parse(t[k + 3]) is Some,
    ensures
        ({
            let w = (N::spec_parse(t[k + 3])->0).spec_over(scale).spec_millionths();
            ndr::rule_widths(t, scale).contains(
                RuleWidthView {
                    rule: rule_at(t, p, k, Seq::empty()),
                    layer: t[k + 1],
                    width: if w < 0 {
                        0
                    } else {
                        w
                    },
                },
            )
        }),
{
    lemma_found(t, "NONDEFAULTRULES"@, 0, p);
    reveal_strlit("LAYER");
    reveal_strlit("-");
    assert("LAYER"@.len() == 5 && "-"@.len() == 1);
    lemma_widths(t, p, k, Seq::empty(), scale);
}

proof fn lemma_widths<N: Real>(
    t: Seq<Seq<char>>,
    i: int,
    k: int,
    rule: Seq<char>,
    scale: N,
)
    requires
        0 <= i <= k,
        k + 3 < t.len(),
        forall|j: int| i <= j <= k ==> #[trigger] t[j] != "END"@,
        t[k] == "LAYER"@,
        t[k] != "-"@,
        t[k + 2] == "WIDTH"@,
        N::spec_parse(t[k + 3]) is Some,
    ensures
        ndr::widths_from(t, i, rule, scale).contains(
            RuleWidthView {
                rule: rule_at(t, i, k, rule),
                layer: t[k + 1],
                width: ndr::width_of(t[k + 3], scale)->0,
            },
        ),
    decreases k - i,
{
    let x = RuleWidthView {
        rule: rule_at(t, i, k, rule),
        layer: t[k + 1],
        width: ndr::width_of(t[k + 3], scale)->0,
    };
    let all = ndr::widths_from(t, i, rule, scale);
    assert(t[i] != "END"@);
    if i == k {
        assert(all[0] == x);
    } else if t[i] == "-"@ {
        lemma_widths(t, i + 1, k, t[i + 1], scale);
        lemma_rule_step(t, i, k, rule, t[i + 1]);
    } else {
        lemma_widths(t, i + 1, k, rule, scale);
        lemma_rule_step(t, i, k, rule, rule);
        let rest = ndr::widths_from(t, i + 1, rule, scale);
        match ndr::width_at(t, i, scale) {
            Some(width) => {
                assert(all[1 + rest.index_of(x)] == x);
            },
            None => {},
        }
    }
}

proof fn lemma_rule_step(
    t: Seq<Seq<char>>,
    i: int,
    k: int,
    rule: Seq<char>,
    next: Seq<char>,
)
    requires
        i < k,
        next == (if t[i] == "-"@ {
            t[i + 1]
        } else {
            rule
        }),
    ensures
        rule_at(t, i, k, rule) == rule_at(t, i + 1, k, next),
    decreases k - i,
{
    if k > i + 1 {
        lemma_rule_step(t, i, k - 1, rule, next);
    } else {
        reveal_with_fuel(rule_at, 2);
    }
}

/// Whether a point is spelled at a token.
pub open spec fn point_at<N: Real>(t: Seq<Seq<char>>, i: int, x: Seq<char>, y: Seq<char>) -> bool {
    &&& 0 <= i
    &&& i + 4 <= t.len()
    &&& t[i] == "("@ && t[i + 1] == x && t[i + 2] == y && t[i + 3] == ")"@
    &&& routes::is_coordinate::<N>(x) && routes::is_coordinate::<N>(y)
}

/// A rail reads as it is drawn: `ROUTED`, its layer and its width, a shape or none, and
/// two points, of which the second may repeat a coordinate of the first. Where the points
/// differ it is a wire of that layer and width from the first to the second.
#[verifier::rlimit(50)]
pub proof fn a_rail_reads_as_it_is_drawn<N: Real>(
    t: Seq<Seq<char>>,
    i: int,
    layer: Seq<char>,
    shaped: bool,
    p: (Seq<char>, Seq<char>),
    q: (Seq<char>, Seq<char>),
    r: RailReading,
    scale: N,
) -> (after: RailReading)
    requires
        0 <= i,
        ({
            let at = if shaped {
                i + 7
            } else {
                i + 4
            };
            &&& at + 8 <= t.len()
            &&& t[i] == "+"@ && t[i + 1] == "ROUTED"@ && t[i + 2] == layer
            &&& N::spec_parse(t[i + 3]) is Some
            &&& shaped ==> t[i + 4] == "+"@ && t[i + 5] == "SHAPE"@
            &&& point_at::<N>(t, at, p.0, p.1)
            &&& point_at::<N>(t, at + 4, q.0, q.1)
        }),
    ensures
        ({
            let at = if shaped {
                i + 7
            } else {
                i + 4
            };
            let w = (N::spec_parse(t[i + 3])->0).spec_over(scale).spec_millionths();
            let (x0, y0) = (
                routes::coordinate(p.0, 0, scale),
                routes::coordinate(p.1, 0, scale),
            );
            let (x1, y1) = (
                routes::coordinate(q.0, x0, scale),
                routes::coordinate(q.1, y0, scale),
            );
            let wire = SegmentView {
                layer,
                x0,
                y0,
                x1,
                y1,
                width: if w < 0 {
                    0
                } else {
                    w
                },
            };
            let rest = rails::rails_from(t, at + 8, after, scale);
            &&& (x0, y0) != (x1, y1) ==> rails::rails_from(t, i, r, scale) == seq![wire] + rest
            &&& (x0, y0) == (x1, y1) ==> rails::rails_from(t, i, r, scale) == rest
        }),
{
    let at = if shaped {
        i + 7
    } else {
        i + 4
    };
    reveal_strlit("+");
    reveal_strlit("(");
    reveal_strlit(";");
    reveal_strlit("NEW");
    reveal_strlit("END");
    reveal_strlit("SHAPE");
    reveal_strlit("ROUTED");
    reveal_strlit("FIXED");
    reveal_strlit("COVER");
    reveal_strlit("NOSHIELD");
    assert("+"@.len() == 1 && "("@.len() == 1 && ";"@.len() == 1 && "NEW"@.len() == 3
        && "END"@.len() == 3);
    assert("+"@[0] == '+' && "("@[0] == '(' && ";"@[0] == ';');
    assert("SHAPE"@.len() == 5 && "FIXED"@.len() == 5 && "COVER"@.len() == 5 && "ROUTED"@.len() == 6
        && "NOSHIELD"@.len() == 8);
    assert("SHAPE"@[0] == 'S' && "FIXED"@[0] == 'F' && "COVER"@[0] == 'C');
    let none = Seq::<SegmentView>::empty();
    let a = rails::started(t, i + 2, scale);
    assert(rails::step(t, i, r, scale) == (a, none, i + 4));
    assert(rails::rails_from(t, i, r, scale) =~= rails::rails_from(t, i + 4, a, scale));
    if shaped {
        assert(rails::step(t, i + 4, a, scale) == (a, none, i + 7));
        assert(rails::rails_from(t, i + 4, a, scale) =~= rails::rails_from(t, i + 7, a, scale));
    }
    routes::lemma_group_end(t, at);
    routes::lemma_group_end(t, at + 4);
    let (x0, y0) = (routes::coordinate(p.0, 0, scale), routes::coordinate(p.1, 0, scale));
    let (x1, y1) = (routes::coordinate(q.0, x0, scale), routes::coordinate(q.1, y0, scale));
    let b = RailReading { prev: Some((x0, y0)), ..a };
    let c = RailReading { prev: Some((x1, y1)), ..a };
    assert(rails::point(t, at + 1, at + 3, a.prev, scale) == Some((x0, y0)));
    assert(rails::step(t, at, a, scale) == (b, none, at + 4));
    assert(rails::rails_from(t, at, a, scale) =~= rails::rails_from(t, at + 4, b, scale));
    assert(rails::point(t, at + 5, at + 7, b.prev, scale) == Some((x1, y1)));
    let drawn = rails::rail_to(b, (x1, y1));
    assert(rails::step(t, at + 4, b, scale) == (c, drawn, at + 8));
    assert(rails::rails_from(t, at + 4, b, scale) =~= drawn + rails::rails_from(
        t,
        at + 8,
        c,
        scale,
    ));
    c
}

/// A run of special wire that starts with `NEW` has its own layer and width, and no point
/// yet; and a run goes on from point to point: each one after the first is a wire from the
/// one before to it, unless that is the same point.
#[verifier::rlimit(50)]
pub proof fn a_rail_goes_on_from_point_to_point<N: Real>(
    t: Seq<Seq<char>>,
    i: int,
    r: RailReading,
    q: (Seq<char>, Seq<char>),
    scale: N,
)
    requires
        0 <= i,
        i + 4 <= t.len(),
    ensures
        t[i] == "NEW"@ && N::spec_parse(t[i + 2]) is Some ==> {
            let w = (N::spec_parse(t[i + 2])->0).spec_over(scale).spec_millionths();
            let width = if w < 0 {
                0
            } else {
                w
            };
            rails::rails_from(t, i, r, scale) == rails::rails_from(
                t,
                i + 3,
                RailReading { on: true, layer: Some(t[i + 1]), width, prev: None },
                scale,
            )
        },
        point_at::<N>(t, i, q.0, q.1) && r.on && r.layer is Some && r.prev is Some ==> {
            let (x0, y0) = r.prev->0;
            let (x1, y1) = (
                routes::coordinate(q.0, x0, scale),
                routes::coordinate(q.1, y0, scale),
            );
            let wire = SegmentView { layer: r.layer->0, x0, y0, x1, y1, width: r.width };
            let rest = rails::rails_from(
                t,
                i + 4,
                RailReading { prev: Some((x1, y1)), ..r },
                scale,
            );
            &&& (x0, y0) != (x1, y1) ==> rails::rails_from(t, i, r, scale) == seq![wire] + rest
            &&& (x0, y0) == (x1, y1) ==> rails::rails_from(t, i, r, scale) == rest
        },
{
    reveal_strlit("+");
    reveal_strlit("(");
    reveal_strlit(";");
    reveal_strlit("NEW");
    reveal_strlit("END");
    assert("+"@.len() == 1 && "("@.len() == 1 && ";"@.len() == 1 && "NEW"@.len() == 3
        && "END"@.len() == 3);
    assert("NEW"@[0] == 'N' && "END"@[0] == 'E' && "+"@[0] == '+' && "("@[0] == '(' && ";"@[0]
        == ';');
    let none = Seq::<SegmentView>::empty();
    if t[i] == "NEW"@ && N::spec_parse(t[i + 2]) is Some {
        let a = rails::started(t, i + 1, scale);
        assert(rails::step(t, i, r, scale) == (a, none, i + 3));
        assert(rails::rails_from(t, i, r, scale) =~= rails::rails_from(t, i + 3, a, scale));
    }
    if point_at::<N>(t, i, q.0, q.1) && r.on && r.layer is Some && r.prev is Some {
        routes::lemma_group_end(t, i);
        let (x0, y0) = r.prev->0;
        let (x1, y1) = (routes::coordinate(q.0, x0, scale), routes::coordinate(q.1, y0, scale));
        let c = RailReading { prev: Some((x1, y1)), ..r };
        assert(rails::point(t, i + 1, i + 3, r.prev, scale) == Some((x1, y1)));
        let drawn = rails::rail_to(r, (x1, y1));
        assert(rails::step(t, i, r, scale) == (c, drawn, i + 4));
        assert(rails::rails_from(t, i, r, scale) =~= drawn + rails::rails_from(
            t,
            i + 4,
            c,
            scale,
        ));
    }
}

} // verus!

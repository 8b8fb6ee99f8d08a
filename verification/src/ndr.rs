//! Non-default routing rules: the widths that the `NONDEFAULTRULES` section of a
//! DEF file gives to the layers, rule by rule.
use crate::def;
use crate::geom;
use crate::number::Real;
use crate::text;
use vstd::prelude::*;

verus! {

/// The width (pm) of a layer under a rule.
#[derive(Debug)]
pub struct RuleWidth {
    pub rule: String,
    pub layer: String,
    pub width: i64,
}

/// What a [`RuleWidth`] is.
#[verifier::ext_equal]
pub struct RuleWidthView {
    pub rule: Seq<char>,
    pub layer: Seq<char>,
    pub width: int,
}

impl View for RuleWidth {
    type V = RuleWidthView;

    open spec fn view(&self) -> RuleWidthView {
        RuleWidthView { rule: self.rule@, layer: self.layer@, width: self.width as int }
    }
}

/// The views of a list of widths.
pub open spec fn widths_view(v: Seq<RuleWidth>) -> Seq<RuleWidthView> {
    Seq::new(v.len(), |i: int| v[i]@)
}

/// The width in picometres that a numeral in database units spells; nothing
/// where it spells none, and zero where it is below zero.
pub open spec fn width_of<N: Real>(s: Seq<char>, scale: N) -> Option<int> {
    match N::spec_parse(s) {
        Some(v) => Some(geom::max(v.spec_over(scale).spec_millionths(), 0)),
        None => None,
    }
}

/// The width that the token at `i` gives a layer, where it is the `LAYER` of
/// `LAYER name WIDTH width`.
pub open spec fn width_at<N: Real>(t: Seq<Seq<char>>, i: int, scale: N) -> Option<int> {
    if def::is_at(t, i, "LAYER"@) && def::is_at(t, i + 2, "WIDTH"@) && i + 3 < t.len() {
        width_of(t[i + 3], scale)
    } else {
        None
    }
}

/// The widths from token `i` up to `END`, where the rule `rule` is being read.
pub open spec fn widths_from<N: Real>(
    t: Seq<Seq<char>>,
    i: int,
    rule: Seq<char>,
    scale: N,
) -> Seq<RuleWidthView>
    decreases t.len() - i,
{
    if i < 0 || i >= t.len() || t[i] == "END"@ {
        Seq::empty()
    } else if t[i] == "-"@ {
        let name = match def::token_at(t, i + 1) {
            Some(s) => s,
            None => Seq::empty(),
        };
        widths_from(t, i + 1, name, scale)
    } else {
        let rest = widths_from(t, i + 1, rule, scale);
        match width_at(t, i, scale) {
            Some(width) => seq![RuleWidthView { rule, layer: t[i + 1], width }] + rest,
            None => rest,
        }
    }
}

/// The widths of the non-default rules of a token sequence.
pub open spec fn rule_widths<N: Real>(t: Seq<Seq<char>>, scale: N) -> Seq<RuleWidthView> {
    let p = def::find_token(t, "NONDEFAULTRULES"@, 0);
    widths_from(t, p, Seq::empty(), scale)
}

/// The width of a layer under a rule, or zero where the rule gives it none.
pub open spec fn width_under(
    ws: Seq<RuleWidthView>,
    rule: Seq<char>,
    layer: Seq<char>,
) -> int
    decreases ws.len(),
{
    if ws.len() == 0 {
        0
    } else if ws.last().rule == rule && ws.last().layer == layer {
        ws.last().width
    } else {
        width_under(ws.drop_last(), rule, layer)
    }
}

/// Reads a width in database units.
pub fn read_width<N: Real>(s: &Vec<char>, scale: N) -> (r: Option<i64>)
    ensures
        match (r, width_of(s@, scale)) {
            (Some(a), Some(b)) => a == b,
            (None, None) => true,
            _ => false,
        },
{
    match N::parse(s) {
        Some(v) => {
            let w: i64 = v.over(scale).millionths();
            Some(
                if w > 0 {
                    w
                } else {
                    0
                },
            )
        },
        None => None,
    }
}

/// Reads the non-default rules.
pub fn read<N: Real>(t: &Vec<Vec<char>>, scale: N) -> (r: Vec<RuleWidth>)
    ensures
        widths_view(r@) == rule_widths(text::seqs(t@), scale),
{
    let ghost tv = text::seqs(t@);
    let mut out: Vec<RuleWidth> = Vec::new();
    let mut rule = String::new();
    let mut i: usize = def::find_token_at(t, "NONDEFAULTRULES", 0);
    assert(rule@ == Seq::<char>::empty());
    assert(widths_view(out@) + widths_from(tv, i as int, rule@, scale) == rule_widths(tv, scale));
    while i < t.len() && !def::token_is(t, i, "END")
        invariant
            i <= t@.len(),
            tv == text::seqs(t@),
            widths_view(out@) + widths_from(tv, i as int, rule@, scale) == rule_widths(tv, scale),
        decreases t@.len() - i,
    {
        let n: usize = t.len();
        assert(tv[i as int] == t@[i as int]@);
        let ghost before = widths_view(out@);
        let ghost rest = widths_from(tv, i + 1, rule@, scale);
        if def::token_is(t, i, "-") {
            rule = match def::token_text(t, i + 1) {
                Some(s) => s,
                None => String::new(),
            };
            assert(def::token_at(tv, i + 1) is None ==> rule@ == Seq::<char>::empty());
        } else if n - i > 3 && def::token_is(t, i, "LAYER") && def::token_is(t, i + 2, "WIDTH") {
            assert(tv[i + 1] == t@[i + 1]@);
            assert(tv[i + 3] == t@[i + 3]@);
            if let Some(width) = read_width(&t[i + 3], scale) {
                let w = RuleWidth { rule: rule.clone(), layer: text::string_of(&t[i + 1]), width };
                let ghost v = w@;
                out.push(w);
                assert(widths_view(out@) == before.push(v));
                assert(before.push(v) + rest == before + (seq![v] + rest));
            }
        }
        i = i + 1;
    }
    assert(widths_from(tv, i as int, rule@, scale) == Seq::<RuleWidthView>::empty());
    assert(widths_view(out@) + Seq::<RuleWidthView>::empty() == widths_view(out@));
    out
}

/// Looks up the width of a layer under a rule.
pub fn lookup(ws: &Vec<RuleWidth>, rule: &str, layer: &str) -> (r: i64)
    ensures
        r == width_under(widths_view(ws@), rule@, layer@),
{
    let ghost wv = widths_view(ws@);
    let mut k: usize = ws.len();
    assert(wv.take(k as int) == wv);
    while k > 0
        invariant
            k <= ws@.len(),
            wv == widths_view(ws@),
            width_under(wv.take(k as int), rule@, layer@) == width_under(wv, rule@, layer@),
        decreases k,
    {
        let w = &ws[k - 1];
        assert(wv.take(k as int).last() == w@);
        assert(wv.take(k as int).drop_last() == wv.take(k - 1));
        if text::same_text(w.rule.as_str(), rule) && text::same_text(w.layer.as_str(), layer) {
            return w.width;
        }
        k = k - 1;
    }
    0
}

} // verus!

//! Lumped parasitics: one resistance and one grounded capacitance a net.
use crate::def::{DefNet, NetView, SegmentView};
use crate::geom;
use crate::number;
use crate::number::Real;
use crate::rules;
use crate::rules::{RcRules, RulesView};
use crate::strmap::StrMap;
use crate::text;
use vstd::prelude::*;

verus! {

/// The lumped parasitics of a net.
#[derive(Debug)]
pub struct NetParasitics<N: Real> {
    pub name: String,
    /// The pins, as `(instance, pin)`; the first is the driver.
    pub pins: Vec<(String, String)>,
    pub res_ohm: N,
    pub cap_ff: N,
}

/// What a [`NetParasitics`] is.
#[verifier::ext_equal]
pub struct ParasiticsView<N: Real> {
    pub name: Seq<char>,
    pub pins: Seq<(Seq<char>, Seq<char>)>,
    pub res: N,
    pub cap: N,
}

impl<N: Real> View for NetParasitics<N> {
    type V = ParasiticsView<N>;

    open spec fn view(&self) -> ParasiticsView<N> {
        ParasiticsView {
            name: self.name@,
            pins: geom::pins_view(self.pins@),
            res: self.res_ohm,
            cap: self.cap_ff,
        }
    }
}

/// The views of a list of lumped parasitics.
pub open spec fn parasitics_view<N: Real>(v: Seq<NetParasitics<N>>) -> Seq<ParasiticsView<N>> {
    Seq::new(v.len(), |i: int| v[i]@)
}

/// Why a net was not extracted.
#[derive(Debug)]
pub struct RcError(pub String);

impl RcError {
    /// The error as a message.
    pub fn message(&self) -> (r: String)
        ensures
            r@ == "rc error: "@ + self.0@,
    {
        let mut out = "rc error: ".to_owned();
        out.append(self.0.as_str());
        out
    }
}

/// The width (um) of a segment: its own, else that of its layer, else zero.
pub open spec fn segment_width<N: Real>(s: SegmentView, widths: Map<Seq<char>, N>) -> N {
    if s.width > 0 {
        N::spec_micro(s.width)
    } else if widths.contains_key(s.layer) {
        widths[s.layer]
    } else {
        number::zero()
    }
}

/// The resistance of the first `n` segments.
pub open spec fn wire_ohm<N: Real>(
    s: Seq<SegmentView>,
    n: int,
    r: RulesView<N>,
    widths: Map<Seq<char>, N>,
) -> N
    decreases n,
{
    if n <= 0 {
        number::zero()
    } else {
        let len = N::spec_micro(s[n - 1].len());
        wire_ohm(s, n - 1, r, widths).spec_plus(
            rules::wire_res(r, s[n - 1].layer, len, segment_width(s[n - 1], widths))->0,
        )
    }
}

/// The grounded capacitance of the first `n` segments.
pub open spec fn wire_cap<N: Real>(s: Seq<SegmentView>, n: int, r: RulesView<N>) -> N
    decreases n,
{
    if n <= 0 {
        number::zero()
    } else {
        let len = N::spec_micro(s[n - 1].len());
        wire_cap(s, n - 1, r).spec_plus(
            len.spec_times(r.layers[s[n - 1].layer].cap_per_um),
        )
    }
}

/// The first of the segments from `i` on that is on a layer without a rule.
pub open spec fn unruled<N: Real>(s: Seq<SegmentView>, i: int, r: RulesView<N>) -> Option<
    Seq<char>,
>
    decreases s.len() - i,
{
    if i < 0 || i >= s.len() {
        None
    } else if !r.layers.contains_key(s[i].layer) {
        Some(s[i].layer)
    } else {
        unruled(s, i + 1, r)
    }
}

/// The lumped parasitics of a net: the resistance of its wire and of its vias,
/// and the grounded capacitance of its wire. A segment on a layer without a rule
/// is an error, and the message names the first such layer.
pub open spec fn lumped<N: Real>(
    net: NetView,
    r: RulesView<N>,
    widths: Map<Seq<char>, N>,
) -> Result<ParasiticsView<N>, Seq<char>> {
    match unruled(net.segments, 0, r) {
        Some(layer) => Err(
            "net "@ + net.name + ": no rule for layer "@ + text::debug_text(layer),
        ),
        None => Ok(
            ParasiticsView {
                name: net.name,
                pins: net.pins,
                res: wire_ohm(net.segments, net.segments.len() as int, r, widths).spec_plus(
                    N::spec_count(net.vias).spec_times(r.via_res),
                ),
                cap: wire_cap(net.segments, net.segments.len() as int, r),
            },
        ),
    }
}

/// Extracts the lumped parasitics of a net.
pub fn extract_net<N: Real>(net: &DefNet, rules: &RcRules<N>, widths: &StrMap<N>) -> (r: Result<
    NetParasitics<N>,
    RcError,
>)
    ensures
        match (r, lumped(net@, rules@, widths@)) {
            (Ok(p), Ok(v)) => p@ == v,
            (Err(e), Err(v)) => e.0@ == v,
            _ => false,
        },
{
    let ghost nv = net@;
    let ghost sv = nv.segments;
    let mut res: N = number::zero_of();
    let mut cap: N = number::zero_of();
    for i in 0..net.segments.len()
        invariant
            nv == net@,
            sv == nv.segments,
            sv.len() == net.segments@.len(),
            unruled(sv, i as int, rules@) == unruled(sv, 0, rules@),
            res == wire_ohm(sv, i as int, rules@, widths@),
            cap == wire_cap(sv, i as int, rules@),
    {
        let s = &net.segments[i];
        assert(sv[i as int] == s@);
        let l = match rules.layer(s.layer.as_str()) {
            None => {
                let mut m = "net ".to_owned();
                m.append(net.name.as_str());
                m.append(": no rule for layer ");
                m.append(text::debug_string(s.layer.as_str()).as_str());
                return Err(RcError(m));
            },
            Some(l) => l,
        };
        let len: N = N::micro(s.length());
        let width: N = if s.width > 0 {
            N::micro(s.width as i128)
        } else {
            match widths.get(s.layer.as_str()) {
                Some(w) => *w,
                None => number::zero_of(),
            }
        };
        match rules.wire_res(s.layer.as_str(), len, width) {
            Some(v) => {
                res = res.plus(v);
            },
            None => {},
        }
        cap = cap.plus(len.times(l.cap_per_um));
    }
    res = res.plus(N::count(net.vias).times(rules.via_res));
    let p = NetParasitics {
        name: net.name.clone(),
        pins: geom::copy_pins(&net.pins),
        res_ohm: res,
        cap_ff: cap,
    };
    Ok(p)
}

} // verus!

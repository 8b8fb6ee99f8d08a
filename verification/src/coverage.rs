//! How much of a layout the inputs describe, and what a run has produced.
//!
//! A net without routing extracts to nothing, and a layer that the deck does
//! not know is extracted against nothing: both give a file that looks complete.
use crate::coupling;
use crate::coupling::{CapView, CouplingCap};
use crate::def::{DefNet, NetView, SegmentView};
use crate::engine::Inputs;
use crate::geom;
use crate::notice;
use crate::notice::{Notice, NoticeView};
use crate::number;
use crate::number::Real;
use crate::rc;
use crate::rc::{NetParasitics, ParasiticsView};
use crate::spef;
use crate::strmap;
use crate::strmap::StrMap;
use crate::text;
use vstd::prelude::*;

verus! {

/// The number of those of the first `n` nets that have routing.
pub open spec fn routed_upto(nets: Seq<NetView>, n: int) -> nat
    decreases n,
{
    if n <= 0 {
        0
    } else if nets[n - 1].segments.len() > 0 {
        routed_upto(nets, n - 1) + 1
    } else {
        routed_upto(nets, n - 1)
    }
}

/// The layers with those of the first `n` segments among them.
pub open spec fn with_layers(m: Map<Seq<char>, ()>, s: Seq<SegmentView>, n: int) -> Map<
    Seq<char>,
    (),
>
    decreases n,
{
    if n <= 0 {
        m
    } else {
        with_layers(m, s, n - 1).insert(s[n - 1].layer, ())
    }
}

/// The layers that the first `n` nets are routed on.
pub open spec fn used_upto(nets: Seq<NetView>, n: int) -> Map<Seq<char>, ()>
    decreases n,
{
    if n <= 0 {
        Map::empty()
    } else {
        with_layers(
            used_upto(nets, n - 1),
            nets[n - 1].segments,
            nets[n - 1].segments.len() as int,
        )
    }
}

/// The layers that nets are routed on, in the order of their names.
pub open spec fn used(nets: Seq<NetView>) -> Seq<Seq<char>> {
    strmap::walk(used_upto(nets, nets.len() as int))
}

/// Those of the first `n` names that a table lacks.
pub open spec fn unknown_upto<T>(names: Seq<Seq<char>>, m: Map<Seq<char>, T>, n: int) -> Seq<
    Seq<char>,
>
    decreases n,
{
    if n <= 0 {
        Seq::empty()
    } else if m.contains_key(names[n - 1]) {
        unknown_upto(names, m, n - 1)
    } else {
        unknown_upto(names, m, n - 1).push(names[n - 1])
    }
}

/// Those of the names that a table lacks.
pub open spec fn unknown<T>(names: Seq<Seq<char>>, m: Map<Seq<char>, T>) -> Seq<Seq<char>> {
    unknown_upto(names, m, names.len() as int)
}

/// The notice on the nets of a layout.
pub open spec fn nets_notice(nets: Seq<NetView>, placed: nat) -> NoticeView {
    let routed = routed_upto(nets, nets.len() as int);
    let bare = (nets.len() - routed) as nat;
    NoticeView {
        attention: nets.len() == 0 || bare > 0,
        code: "EXTRACT-DEF"@,
        message: "DEF: "@ + text::nat_text(nets.len()) + " signal net(s), "@ + text::nat_text(
            routed,
        ) + " with routing geometry, "@ + text::nat_text(bare)
            + " with none (those extract to nothing), "@ + text::nat_text(placed)
            + " placed instance(s)"@,
        objects: Seq::empty(),
    }
}

/// The remarks on the layers of a layout.
pub open spec fn layer_notes(
    no_rule: Seq<Seq<char>>,
    no_width: Seq<Seq<char>>,
    lef_given: bool,
) -> Seq<Seq<char>> {
    let first = if no_rule.len() > 0 {
        seq!["no RC rule for "@ + text::debug_list(no_rule)]
    } else {
        Seq::empty()
    };
    if !lef_given {
        first.push("no LEF given, so widths are defaults rather than the technology's"@)
    } else if no_width.len() > 0 {
        first.push("no LEF width for "@ + text::debug_list(no_width))
    } else {
        first
    }
}

/// The notice on the layers of a layout.
pub open spec fn layers_notice(
    n: nat,
    no_rule: Seq<Seq<char>>,
    no_width: Seq<Seq<char>>,
    lef_given: bool,
) -> NoticeView {
    let base = "layers: "@ + text::nat_text(n) + " used by the routing, "@ + text::nat_text(
        (n - no_rule.len()) as nat,
    ) + " with RC rules, "@ + text::nat_text((n - no_width.len()) as nat) + " with LEF widths"@;
    let notes = layer_notes(no_rule, no_width, lef_given);
    NoticeView {
        attention: no_rule.len() > 0,
        code: "EXTRACT-LAYERS"@,
        message: if notes.len() == 0 {
            base
        } else {
            base + " — "@ + text::join(notes, "; "@)
        },
        objects: Seq::empty(),
    }
}

/// What is said of the inputs of an extraction.
pub open spec fn input_notices<N: Real>(i: Inputs<N>) -> Seq<NoticeView> {
    let nets = geom::nets_view(i.def.nets@);
    let names = used(nets);
    seq![
        nets_notice(nets, i.placed as nat),
        layers_notice(
            names.len(),
            unknown(names, i.rules@.layers),
            unknown(names, i.lef.widths@),
            i.lef_given,
        ),
    ]
}

proof fn lemma_unknown_len<T>(names: Seq<Seq<char>>, m: Map<Seq<char>, T>, n: int)
    requires
        0 <= n <= names.len(),
    ensures
        unknown_upto(names, m, n).len() <= n,
    decreases n,
{
    if n > 0 {
        lemma_unknown_len(names, m, n - 1);
    }
}

fn used_of(nets: &Vec<DefNet>) -> (r: StrMap<()>)
    ensures
        r@ == used_upto(geom::nets_view(nets@), nets@.len() as int),
{
    let ghost nv = geom::nets_view(nets@);
    let mut out: StrMap<()> = StrMap::new();
    for i in 0..nets.len()
        invariant
            nv == geom::nets_view(nets@),
            out@ == used_upto(nv, i as int),
    {
        let ghost before = out@;
        let segments = &nets[i].segments;
        let ghost sv = nv[i as int].segments;
        assert(sv == geom::segments_view(segments@));
        for j in 0..segments.len()
            invariant
                sv == geom::segments_view(segments@),
                out@ == with_layers(before, sv, j as int),
        {
            assert(sv[j as int].layer == segments@[j as int].layer@);
            out.insert(segments[j].layer.as_str(), ());
        }
    }
    out
}

fn unknown_of<T>(names: &StrMap<()>, m: &StrMap<T>) -> (r: Vec<String>)
    ensures
        text::texts(r@) == unknown(strmap::walk(names@), m@),
        r@.len() <= strmap::walk(names@).len(),
{
    let n: usize = names.len();
    let ghost nv = strmap::walk(names@);
    let mut out: Vec<String> = Vec::new();
    assert(text::texts(out@) == Seq::<Seq<char>>::empty());
    for i in 0..n
        invariant
            nv == names.keys(),
            n == nv.len(),
            text::texts(out@) == unknown_upto(nv, m@, i as int),
    {
        let k = names.key_at(i);
        if m.get_chars(k).is_none() {
            let ghost before = text::texts(out@);
            out.push(text::string_of(k));
            assert(text::texts(out@) == before.push(k@));
        }
    }
    proof {
        lemma_unknown_len(nv, m@, n as int);
        assert(text::texts(out@).len() == out@.len());
    }
    out
}

fn routed_of(nets: &Vec<DefNet>) -> (r: usize)
    ensures
        r == routed_upto(geom::nets_view(nets@), nets@.len() as int),
        r <= nets@.len(),
{
    let ghost nv = geom::nets_view(nets@);
    let mut n: usize = 0;
    for i in 0..nets.len()
        invariant
            nv == geom::nets_view(nets@),
            n == routed_upto(nv, i as int),
            n <= i,
    {
        assert(nv[i as int].segments.len() == nets@[i as int].segments@.len());
        if nets[i].segments.len() > 0 {
            n = n + 1;
        }
    }
    n
}

fn count_text(n: usize) -> (r: String)
    ensures
        r@ == text::nat_text(n as nat),
{
    text::nat_string(n as u128)
}

/// Says how much of the layout the inputs describe.
pub fn notice_inputs<N: Real>(inputs: &Inputs<N>) -> (r: Vec<Notice>)
    ensures
        notice::notices_view(r@) == input_notices(*inputs),
{
    let nets = &inputs.def.nets;
    let ghost nv = geom::nets_view(nets@);
    let total: usize = nets.len();
    assert(nv.len() == total);
    let routed: usize = routed_of(nets);
    let bare: usize = total - routed;
    let mut m = "DEF: ".to_owned();
    m.append(count_text(total).as_str());
    m.append(" signal net(s), ");
    m.append(count_text(routed).as_str());
    m.append(" with routing geometry, ");
    m.append(count_text(bare).as_str());
    m.append(" with none (those extract to nothing), ");
    m.append(count_text(inputs.placed).as_str());
    m.append(" placed instance(s)");
    let first = notice::plain(total == 0 || bare > 0, "EXTRACT-DEF", m);
    assert(first@ == nets_notice(nv, inputs.placed as nat));
    let layers = used_of(nets);
    let n: usize = layers.len();
    let ghost names = strmap::walk(layers@);
    let no_rule = unknown_of(&layers, &inputs.rules.layers);
    let no_width = unknown_of(&layers, &inputs.lef.widths);
    let ghost rv = text::texts(no_rule@);
    let ghost wv = text::texts(no_width@);
    assert(rv.len() == no_rule@.len() && wv.len() == no_width@.len());
    let mut notes: Vec<String> = Vec::new();
    assert(text::texts(notes@) == Seq::<Seq<char>>::empty());
    if no_rule.len() > 0 {
        let mut t = "no RC rule for ".to_owned();
        t.append(text::debug_list_string(&no_rule).as_str());
        notes.push(t);
    }
    let ghost first_notes = text::texts(notes@);
    assert(first_notes == (if rv.len() > 0 {
        seq!["no RC rule for "@ + text::debug_list(rv)]
    } else {
        Seq::empty()
    }));
    if !inputs.lef_given {
        notes.push("no LEF given, so widths are defaults rather than the technology's".to_owned());
        assert(text::texts(notes@) == first_notes.push(
            "no LEF given, so widths are defaults rather than the technology's"@,
        ));
    } else if no_width.len() > 0 {
        let mut t = "no LEF width for ".to_owned();
        t.append(text::debug_list_string(&no_width).as_str());
        let ghost tv = t@;
        notes.push(t);
        assert(text::texts(notes@) == first_notes.push(tv));
    }
    assert(text::texts(notes@) == layer_notes(rv, wv, inputs.lef_given));
    assert(text::texts(notes@).len() == notes@.len());
    let mut m = "layers: ".to_owned();
    m.append(count_text(n).as_str());
    m.append(" used by the routing, ");
    m.append(count_text(n - no_rule.len()).as_str());
    m.append(" with RC rules, ");
    m.append(count_text(n - no_width.len()).as_str());
    m.append(" with LEF widths");
    if notes.len() > 0 {
        m.append(" — ");
        m.append(text::join_strings(&notes, "; ").as_str());
    }
    let second = notice::plain(no_rule.len() > 0, "EXTRACT-LAYERS", m);
    assert(second@ == layers_notice(names.len(), rv, wv, inputs.lef_given));
    let mut out: Vec<Notice> = Vec::new();
    out.push(first);
    out.push(second);
    assert(notice::notices_view(out@) == input_notices(*inputs));
    out
}

/// The notice on a net with fewer pins than a connection has.
pub open spec fn unconnected_notice<N: Real>(p: ParasiticsView<N>) -> NoticeView {
    NoticeView {
        attention: true,
        code: "EXTRACT-UNCONNECTED"@,
        message: "net '"@ + p.name + "' has "@ + text::nat_text(p.pins.len())
            + " pin(s) — no complete connection to extract"@,
        objects: seq![notice::net_object(p.name)],
    }
}

/// The notices on those of the first `n` nets that have fewer than two pins.
pub open spec fn unconnected_upto<N: Real>(nets: Seq<ParasiticsView<N>>, n: int) -> Seq<NoticeView>
    decreases n,
{
    if n <= 0 {
        Seq::empty()
    } else if nets[n - 1].pins.len() < 2 {
        unconnected_upto(nets, n - 1).push(unconnected_notice(nets[n - 1]))
    } else {
        unconnected_upto(nets, n - 1)
    }
}

/// The notice that an extraction is done.
pub open spec fn done_notice<N: Real>(
    nets: Seq<ParasiticsView<N>>,
    caps: Seq<CapView<N>>,
) -> NoticeView {
    let sum = number::total(spef::net_caps(nets)).spec_plus(
        number::total(spef::cap_values(caps)),
    );
    NoticeView {
        attention: false,
        code: "EXTRACT-DONE"@,
        message: "extracted "@ + text::nat_text(nets.len()) + " net(s), "@ + text::nat_text(
            caps.len(),
        ) + " coupling pair(s) ("@ + sum.spec_places(2) + " fF total capacitance)"@,
        objects: Seq::empty(),
    }
}

/// Says what an extraction has produced.
pub fn notice_result<N: Real>(
    nets: &Vec<NetParasitics<N>>,
    couplings: &Vec<CouplingCap<N>>,
) -> (r: Vec<Notice>)
    ensures
        notice::notices_view(r@) == unconnected_upto(
            rc::parasitics_view(nets@),
            nets@.len() as int,
        ).push(done_notice(rc::parasitics_view(nets@), coupling::caps_view(couplings@))),
{
    let ghost nv = rc::parasitics_view(nets@);
    let ghost cv = coupling::caps_view(couplings@);
    let mut out: Vec<Notice> = Vec::new();
    assert(notice::notices_view(out@) == Seq::<NoticeView>::empty());
    for i in 0..nets.len()
        invariant
            nv == rc::parasitics_view(nets@),
            notice::notices_view(out@) == unconnected_upto(nv, i as int),
    {
        let n = &nets[i];
        assert(nv[i as int] == n@);
        if n.pins.len() < 2 {
            let mut message = "net '".to_owned();
            message.append(n.name.as_str());
            message.append("' has ");
            message.append(count_text(n.pins.len()).as_str());
            message.append(" pin(s) — no complete connection to extract");
            let mut objects: Vec<String> = Vec::new();
            objects.push(notice::net_object_of(n.name.as_str()));
            assert(text::texts(objects@) == seq![notice::net_object(n.name@)]);
            let ghost before = notice::notices_view(out@);
            out.push(
                Notice {
                    attention: true,
                    code: "EXTRACT-UNCONNECTED".to_owned(),
                    message,
                    objects,
                },
            );
            assert(notice::notices_view(out@) == before.push(unconnected_notice(nv[i as int])));
        }
    }
    let mut grounded: Vec<N> = Vec::new();
    for i in 0..nets.len()
        invariant
            grounded@.len() == i,
            forall|j: int| 0 <= j < i ==> grounded@[j] == nets@[j].cap_ff,
    {
        grounded.push(nets[i].cap_ff);
    }
    let mut coupled: Vec<N> = Vec::new();
    for i in 0..couplings.len()
        invariant
            coupled@.len() == i,
            forall|j: int| 0 <= j < i ==> coupled@[j] == couplings@[j].cap_ff,
    {
        coupled.push(couplings[i].cap_ff);
    }
    assert(grounded@ == spef::net_caps(nv));
    assert(coupled@ == spef::cap_values(cv));
    let sum: N = number::total_of(&grounded).plus(number::total_of(&coupled));
    let mut m = "extracted ".to_owned();
    m.append(count_text(nets.len()).as_str());
    m.append(" net(s), ");
    m.append(count_text(couplings.len()).as_str());
    m.append(" coupling pair(s) (");
    m.append(sum.places(2).as_str());
    m.append(" fF total capacitance)");
    let done = notice::plain(false, "EXTRACT-DONE", m);
    assert(done@ == done_notice(nv, cv));
    let ghost before = notice::notices_view(out@);
    out.push(done);
    assert(notice::notices_view(out@) == before.push(done_notice(nv, cv)));
    out
}

} // verus!

//! From traced layout shapes to nets.
//!
//! A layer map says which layers of a GDS file carry routing, which are cuts,
//! and which hold labels. Shapes are sorted by that map for the tracer of
//! connected metal, and the nets that it finds are reduced to centerlines: each
//! rectangle becomes a wire along its longer side.
use crate::def::{DefNet, NetView, Segment, SegmentView};
use crate::geom;
use crate::number::Real;
use crate::sort;
use crate::sort::Ordered;
use crate::text;
use vstd::prelude::*;

verus! {

/// A GDS layer and datatype.
pub type Ld = (i16, i16);

/// The roles of layers: routing layers by name, cuts, and label layers.
#[derive(Debug)]
pub struct LayerMap {
    routing: Vec<(Ld, String)>,
    vias: Vec<Ld>,
    labels: Vec<Ld>,
}

/// What a [`LayerMap`] is.
#[verifier::ext_equal]
pub struct RolesView {
    pub routing: Map<(int, int), Seq<char>>,
    pub vias: Seq<(int, int)>,
    pub labels: Seq<(int, int)>,
}

/// Why a layer map was not read.
#[derive(Debug)]
pub struct GdsError(pub String);

impl GdsError {
    /// The error as a message.
    pub fn message(&self) -> (r: String)
        ensures
            r@ == "gds error: "@ + self.0@,
    {
        let mut out = "gds error: ".to_owned();
        out.append(self.0.as_str());
        out
    }
}

pub open spec fn ld(p: Ld) -> (int, int) {
    (p.0 as int, p.1 as int)
}

/// The views of a list of layers.
pub open spec fn lds(v: Seq<Ld>) -> Seq<(int, int)> {
    Seq::new(v.len(), |i: int| ld(v[i]))
}

/// The 16-bit number that a word spells, if any.
pub open spec fn short(s: Seq<char>) -> Option<int> {
    match text::int_value(text::trim(s)) {
        Some(n) => if i16::MIN <= n <= i16::MAX {
            Some(n)
        } else {
            None
        },
        None => None,
    }
}

/// The layer and datatype that a word spells: `layer/datatype`, or `layer`
/// alone for the datatype zero.
pub open spec fn layer_of(s: Seq<char>) -> Result<(int, int), Seq<char>> {
    let t = text::trim(s);
    let (a, b) = if text::has_char(t, '/') {
        (text::before(t, '/'), text::after(t, '/'))
    } else {
        (t, "0"@)
    };
    match (short(a), short(b)) {
        (Some(l), Some(d)) => Ok((l, d)),
        _ => Err("bad layer/datatype "@ + text::debug_text(s)),
    }
}

/// The map after one of its lines.
pub open spec fn role_line(m: RolesView, raw: Seq<char>) -> Result<RolesView, Seq<char>> {
    let line = text::trim(text::before(raw, '#'));
    if line.len() == 0 {
        Ok(m)
    } else if !text::has_char(line, ':') {
        Err("expected 'key: value', got "@ + text::debug_text(line))
    } else {
        let k = text::trim(text::before(line, ':'));
        let v = text::after(line, ':');
        let t = text::words(v);
        if text::lower(k) == "routing"@ && t.len() == 2 {
            match layer_of(t[0]) {
                Ok(l) => Ok(RolesView { routing: m.routing.insert(l, t[1]), ..m }),
                Err(e) => Err(e),
            }
        } else if text::lower(k) == "via"@ && t.len() > 0 {
            match layer_of(t[0]) {
                Ok(l) => Ok(RolesView { vias: m.vias.push(l), ..m }),
                Err(e) => Err(e),
            }
        } else if text::lower(k) == "label"@ && t.len() > 0 {
            match layer_of(t[0]) {
                Ok(l) => Ok(RolesView { labels: m.labels.push(l), ..m }),
                Err(e) => Err(e),
            }
        } else {
            Err(
                "unknown/!malformed rule: "@ + text::debug_text(text::lowercase_text(k)) + " "@
                    + text::debug_text(v),
            )
        }
    }
}

/// No roles.
pub open spec fn no_roles() -> RolesView {
    RolesView { routing: Map::empty(), vias: Seq::empty(), labels: Seq::empty() }
}

/// The map that the first `n` lines give.
pub open spec fn roles_upto(lines: Seq<Seq<char>>, n: int) -> Result<RolesView, Seq<char>>
    decreases n,
{
    if n <= 0 {
        Ok(no_roles())
    } else {
        match roles_upto(lines, n - 1) {
            Err(e) => Err(e),
            Ok(m) => role_line(m, lines[n - 1]),
        }
    }
}

/// The map that a text gives; one without a routing layer is an error.
pub open spec fn roles(source: Seq<char>) -> Result<RolesView, Seq<char>> {
    let lines = text::lines(source);
    match roles_upto(lines, lines.len() as int) {
        Err(e) => Err(e),
        Ok(m) => if m.routing == Map::<(int, int), Seq<char>>::empty() {
            Err("layer map has no `routing:` layers"@)
        } else {
            Ok(m)
        },
    }
}

proof fn lemma_roles_stuck(lines: Seq<Seq<char>>, i: int, n: int)
    requires
        0 < i <= n,
        roles_upto(lines, i) is Err,
    ensures
        roles_upto(lines, n) == roles_upto(lines, i),
    decreases n - i,
{
    if i < n {
        lemma_roles_stuck(lines, i, n - 1);
    }
}

fn parse_short(v: &Vec<char>) -> (r: Option<i16>)
    ensures
        match (r, short(v@)) {
            (Some(a), Some(b)) => a == b,
            (None, None) => true,
            _ => false,
        },
{
    match text::parse_int(&text::trimmed(v)) {
        Some(n) => if -32_768 <= n && n <= 32_767 {
            Some(n as i16)
        } else {
            None
        },
        None => None,
    }
}

/// The layer and datatype that a word spells.
fn parse_ld(s: &Vec<char>) -> (r: Result<Ld, GdsError>)
    ensures
        match (r, layer_of(s@)) {
            (Ok(a), Ok(b)) => ld(a) == b,
            (Err(e), Err(m)) => e.0@ == m,
            _ => false,
        },
{
    let t = text::trimmed(s);
    let at: usize = text::find_at(&t, '/', 0);
    let (a, b) = if at < t.len() {
        (text::part(&t, 0, at), text::part(&t, at + 1, t.len()))
    } else {
        (t, text::chars_of("0"))
    };
    match (parse_short(&a), parse_short(&b)) {
        (Some(l), Some(d)) => Ok((l, d)),
        _ => {
            let mut m = "bad layer/datatype ".to_owned();
            m.append(text::debug_string(text::string_of(s).as_str()).as_str());
            Err(GdsError(m))
        },
    }
}

impl View for LayerMap {
    type V = RolesView;

    closed spec fn view(&self) -> RolesView {
        RolesView {
            routing: self.routing_upto(self.routing@.len() as int),
            vias: lds(self.vias@),
            labels: lds(self.labels@),
        }
    }
}

impl LayerMap {
    spec fn routing_upto(self, n: int) -> Map<(int, int), Seq<char>>
        decreases n,
    {
        if n <= 0 {
            Map::empty()
        } else {
            self.routing_upto(n - 1).insert(ld(self.routing@[n - 1].0), self.routing@[n - 1].1@)
        }
    }

    proof fn lemma_routing(self, other: Self, n: int)
        requires
            n <= self.routing@.len(),
            n <= other.routing@.len(),
            forall|i: int| 0 <= i < n ==> self.routing@[i] == other.routing@[i],
        ensures
            self.routing_upto(n) == other.routing_upto(n),
        decreases n,
    {
        if n > 0 {
            self.lemma_routing(other, n - 1);
        }
    }

    fn add_routing(&mut self, l: Ld, name: String)
        ensures
            final(self)@ == (RolesView {
                routing: old(self)@.routing.insert(ld(l), name@),
                ..old(self)@
            }),
    {
        let ghost before = *self;
        self.routing.push((l, name));
        proof {
            self.lemma_routing(before, before.routing@.len() as int);
        }
    }

    fn add_via(&mut self, l: Ld)
        ensures
            final(self)@ == (RolesView { vias: old(self)@.vias.push(ld(l)), ..old(self)@ }),
    {
        let ghost before = *self;
        self.vias.push(l);
        proof {
            self.lemma_routing(before, before.routing@.len() as int);
            assert(lds(self.vias@) == lds(before.vias@).push(ld(l)));
        }
    }

    fn add_label(&mut self, l: Ld)
        ensures
            final(self)@ == (RolesView { labels: old(self)@.labels.push(ld(l)), ..old(self)@ }),
    {
        let ghost before = *self;
        self.labels.push(l);
        proof {
            self.lemma_routing(before, before.routing@.len() as int);
            assert(lds(self.labels@) == lds(before.labels@).push(ld(l)));
        }
    }

    fn role_line(&mut self, raw: &Vec<char>) -> (r: Result<(), GdsError>)
        ensures
            match (r, role_line(old(self)@, raw@)) {
                (Ok(_), Ok(m)) => final(self)@ == m,
                (Err(e), Err(m)) => e.0@ == m,
                _ => false,
            },
    {
        let cut: usize = text::find_at(raw, '#', 0);
        let line = text::trimmed(&text::part(raw, 0, cut));
        if line.len() == 0 {
            return Ok(());
        }
        let at: usize = text::find_at(&line, ':', 0);
        if at >= line.len() {
            let mut m = "expected 'key: value', got ".to_owned();
            m.append(text::debug_string(text::string_of(&line).as_str()).as_str());
            return Err(GdsError(m));
        }
        let k = text::trimmed(&text::part(&line, 0, at));
        let v = text::part(&line, at + 1, line.len());
        let t = text::split_words(&v);
        let ghost tv = text::seqs(t@);
        assert(t@.len() > 0 ==> tv[0] == t@[0]@);
        assert(t@.len() > 1 ==> tv[1] == t@[1]@);
        let key = text::lowered(&k);
        if text::is_text(&key, "routing") && t.len() == 2 {
            match parse_ld(&t[0]) {
                Ok(l) => {
                    self.add_routing(l, text::string_of(&t[1]));
                },
                Err(e) => {
                    return Err(e);
                },
            }
        } else if text::is_text(&key, "via") && t.len() > 0 {
            match parse_ld(&t[0]) {
                Ok(l) => {
                    self.add_via(l);
                },
                Err(e) => {
                    return Err(e);
                },
            }
        } else if text::is_text(&key, "label") && t.len() > 0 {
            match parse_ld(&t[0]) {
                Ok(l) => {
                    self.add_label(l);
                },
                Err(e) => {
                    return Err(e);
                },
            }
        } else {
            let low = text::lowercase_string(text::string_of(&k).as_str());
            let mut m = "unknown/!malformed rule: ".to_owned();
            m.append(text::debug_string(low.as_str()).as_str());
            m.append(" ");
            m.append(text::debug_string(text::string_of(&v).as_str()).as_str());
            return Err(GdsError(m));
        }
        Ok(())
    }

    /// Reads a layer map.
    pub fn parse(source: &str) -> (r: Result<LayerMap, GdsError>)
        ensures
            match (r, roles(source@)) {
                (Ok(m), Ok(v)) => m@ == v,
                (Err(e), Err(v)) => e.0@ == v,
                _ => false,
            },
    {
        let lines = text::split_lines(&text::chars_of(source));
        let ghost lv = text::seqs(lines@);
        let mut m = LayerMap { routing: Vec::new(), vias: Vec::new(), labels: Vec::new() };
        assert(m@ == no_roles());
        for i in 0..lines.len()
            invariant
                lv == text::seqs(lines@),
                lv == text::lines(source@),
                roles_upto(lv, i as int) == Ok::<RolesView, Seq<char>>(m@),
        {
            assert(lv[i as int] == lines@[i as int]@);
            match m.role_line(&lines[i]) {
                Ok(_) => {},
                Err(e) => {
                    proof {
                        lemma_roles_stuck(lv, i + 1, lv.len() as int);
                    }
                    return Err(e);
                },
            }
        }
        if m.routing.len() == 0 {
            return Err(GdsError("layer map has no `routing:` layers".to_owned()));
        }
        proof {
            let n = m.routing@.len() as int;
            assert(m@.routing.contains_key(ld(m.routing@[n - 1].0)));
        }
        Ok(m)
    }

    /// The name of a routing layer.
    pub fn routing_name(&self, l: Ld) -> (r: Option<&String>)
        ensures
            match r {
                Some(s) => self@.routing.contains_key(ld(l)) && s@ == self@.routing[ld(l)],
                None => !self@.routing.contains_key(ld(l)),
            },
    {
        let mut k: usize = self.routing.len();
        while k > 0
            invariant
                k <= self.routing@.len(),
                self.routing_upto(k as int).contains_key(ld(l)) == self@.routing.contains_key(
                    ld(l),
                ),
                self@.routing.contains_key(ld(l)) ==> self.routing_upto(k as int)[ld(l)]
                    == self@.routing[ld(l)],
            decreases k,
        {
            let e = &self.routing[k - 1];
            if (e.0).0 == l.0 && (e.0).1 == l.1 {
                return Some(&e.1);
            }
            k = k - 1;
        }
        None
    }

    /// Whether a layer is a cut.
    pub fn is_via(&self, l: Ld) -> (r: bool)
        ensures
            r == self@.vias.contains(ld(l)),
    {
        holds(&self.vias, l)
    }

    /// Whether a layer holds labels.
    pub fn is_label(&self, l: Ld) -> (r: bool)
        ensures
            r == self@.labels.contains(ld(l)),
    {
        holds(&self.labels, l)
    }
}

fn holds(v: &Vec<Ld>, l: Ld) -> (r: bool)
    ensures
        r == lds(v@).contains(ld(l)),
{
    for i in 0..v.len()
        invariant
            forall|j: int| 0 <= j < i ==> lds(v@)[j] != ld(l),
    {
        if v[i].0 == l.0 && v[i].1 == l.1 {
            assert(lds(v@)[i as int] == ld(l));
            return true;
        }
    }
    false
}

/// A rectangle of a layout, in database units.
#[derive(Clone, Copy, Debug)]
pub struct Box2 {
    pub x0: i32,
    pub y0: i32,
    pub x1: i32,
    pub y1: i32,
}

/// A rectangle on a layer.
#[derive(Clone, Copy, Debug)]
pub struct Shape {
    pub layer: Ld,
    pub area: Box2,
}

/// Shapes by their roles: those of each routing layer, the layers in ascending
/// order, and the cuts.
#[derive(Debug)]
pub struct Sorted {
    pub layers: Vec<(Ld, Vec<Box2>)>,
    pub cuts: Vec<Box2>,
}

/// The views of shapes by layer.
pub open spec fn by_layer_view(v: Seq<(Ld, Vec<Box2>)>) -> Seq<((int, int), Seq<Box2>)> {
    Seq::new(v.len(), |i: int| (ld(v[i].0), v[i].1@))
}

pub open spec fn ld_lt(p: (int, int), q: (int, int)) -> bool {
    p.0 < q.0 || (p.0 == q.0 && p.1 < q.1)
}

/// The shapes by layer, the layers in ascending order, with one shape more.
pub open spec fn file_under(
    s: Seq<((int, int), Seq<Box2>)>,
    l: (int, int),
    b: Box2,
) -> Seq<((int, int), Seq<Box2>)>
    decreases s.len(),
{
    if s.len() == 0 || ld_lt(s.last().0, l) {
        s.push((l, seq![b]))
    } else if s.last().0 == l {
        s.drop_last().push((l, s.last().1.push(b)))
    } else {
        file_under(s.drop_last(), l, b).push(s.last())
    }
}

/// The routing shapes among the first `n`, by layer.
pub open spec fn filed_upto(
    roles: RolesView,
    shapes: Seq<Shape>,
    n: int,
) -> Seq<((int, int), Seq<Box2>)>
    decreases n,
{
    if n <= 0 {
        Seq::empty()
    } else {
        let before = filed_upto(roles, shapes, n - 1);
        let s = shapes[n - 1];
        if roles.routing.contains_key(ld(s.layer)) {
            file_under(before, ld(s.layer), s.area)
        } else {
            before
        }
    }
}

/// The cuts among the first `n` shapes. A routing layer is no cut.
pub open spec fn cuts_upto(roles: RolesView, shapes: Seq<Shape>, n: int) -> Seq<Box2>
    decreases n,
{
    if n <= 0 {
        Seq::empty()
    } else {
        let before = cuts_upto(roles, shapes, n - 1);
        let s = shapes[n - 1];
        if !roles.routing.contains_key(ld(s.layer)) && roles.vias.contains(ld(s.layer)) {
            before.push(s.area)
        } else {
            before
        }
    }
}

proof fn lemma_file_at(
    s: Seq<((int, int), Seq<Box2>)>,
    l: (int, int),
    b: Box2,
    k: int,
)
    requires
        0 <= k <= s.len(),
        forall|i: int| k <= i < s.len() ==> !ld_lt((#[trigger] s[i]).0, l) && s[i].0 != l,
        k > 0 ==> ld_lt(s[k - 1].0, l),
    ensures
        file_under(s, l, b) == s.insert(k, (l, seq![b])),
    decreases s.len(),
{
    if k < s.len() {
        lemma_file_at(s.drop_last(), l, b, k);
        assert(s.drop_last().insert(k, (l, seq![b])).push(s.last()) == s.insert(k, (l, seq![b])));
    } else {
        assert(s.push((l, seq![b])) == s.insert(k, (l, seq![b])));
    }
}

proof fn lemma_file_found(
    s: Seq<((int, int), Seq<Box2>)>,
    l: (int, int),
    b: Box2,
    k: int,
)
    requires
        0 <= k < s.len(),
        forall|i: int| k < i < s.len() ==> !ld_lt((#[trigger] s[i]).0, l) && s[i].0 != l,
        s[k].0 == l,
    ensures
        file_under(s, l, b) == s.update(k, (l, s[k].1.push(b))),
    decreases s.len(),
{
    if k < s.len() - 1 {
        lemma_file_found(s.drop_last(), l, b, k);
        assert(s.drop_last().update(k, (l, s[k].1.push(b))).push(s.last()) == s.update(
            k,
            (l, s[k].1.push(b)),
        ));
    } else {
        assert(s.drop_last().push((l, s.last().1.push(b))) == s.update(k, (l, s[k].1.push(b))));
    }
}

fn file(v: &mut Vec<(Ld, Vec<Box2>)>, l: Ld, b: Box2)
    ensures
        by_layer_view(final(v)@) == file_under(by_layer_view(old(v)@), ld(l), b),
{
    let ghost s = by_layer_view(v@);
    let mut k: usize = v.len();
    while k > 0
        invariant
            k <= v@.len(),
            v@ == old(v)@,
            s == by_layer_view(v@),
            forall|i: int| k <= i < s.len() ==> !ld_lt((#[trigger] s[i]).0, ld(l)) && s[i].0 != ld(l),
        ensures
            k <= v@.len(),
            v@ == old(v)@,
            s == by_layer_view(v@),
            forall|i: int| k <= i < s.len() ==> !ld_lt((#[trigger] s[i]).0, ld(l)) && s[i].0 != ld(l),
            k > 0 ==> ld_lt(s[k - 1].0, ld(l)),
        decreases k,
    {
        let q: Ld = v[k - 1].0;
        assert(s[k - 1].0 == ld(q));
        if q.0 == l.0 && q.1 == l.1 {
            proof {
                lemma_file_found(s, ld(l), b, k - 1);
            }
            let ghost kept = v@[k - 1].1@;
            v[k - 1].1.push(b);
            assert(by_layer_view(v@) == s.update(k - 1, (ld(l), kept.push(b))));
            return;
        }
        if q.0 < l.0 || (q.0 == l.0 && q.1 < l.1) {
            break;
        }
        k = k - 1;
    }
    proof {
        lemma_file_at(s, ld(l), b, k as int);
    }
    let mut one: Vec<Box2> = Vec::new();
    one.push(b);
    assert(one@ == seq![b]);
    v.insert(k, (l, one));
    assert(by_layer_view(v@) == s.insert(k as int, (ld(l), seq![b])));
}

/// Sorts shapes by their roles.
pub fn sort_shapes(map: &LayerMap, shapes: &Vec<Shape>) -> (r: Sorted)
    ensures
        by_layer_view(r.layers@) == filed_upto(map@, shapes@, shapes@.len() as int),
        r.cuts@ == cuts_upto(map@, shapes@, shapes@.len() as int),
{
    let mut layers: Vec<(Ld, Vec<Box2>)> = Vec::new();
    let mut cuts: Vec<Box2> = Vec::new();
    assert(by_layer_view(layers@) == Seq::<((int, int), Seq<Box2>)>::empty());
    for i in 0..shapes.len()
        invariant
            by_layer_view(layers@) == filed_upto(map@, shapes@, i as int),
            cuts@ == cuts_upto(map@, shapes@, i as int),
    {
        let s = shapes[i];
        if map.routing_name(s.layer).is_some() {
            file(&mut layers, s.layer, s.area);
        } else if map.is_via(s.layer) {
            cuts.push(s.area);
        }
    }
    Sorted { layers, cuts }
}

/// A coordinate in database units as picometres.
pub open spec fn to_pm<N: Real>(v: int, dbu_per_um: N) -> int {
    N::spec_micro(v * 1_000_000).spec_over(dbu_per_um).spec_millionths()
}

/// The middle of two coordinates in database units as picometres.
pub open spec fn middle_pm<N: Real>(a: int, b: int, dbu_per_um: N) -> int {
    N::spec_micro((a + b) * 1_000_000).spec_over(N::spec_count(2)).spec_over(
        dbu_per_um,
    ).spec_millionths()
}

/// The wire of a routing rectangle: the centerline along its longer side.
pub open spec fn centerline<N: Real>(layer: Seq<char>, r: Box2, dbu_per_um: N) -> SegmentView {
    if r.x1 - r.x0 >= r.y1 - r.y0 {
        let y = middle_pm(r.y0 as int, r.y1 as int, dbu_per_um);
        SegmentView {
            layer,
            x0: to_pm(r.x0 as int, dbu_per_um),
            y0: y,
            x1: to_pm(r.x1 as int, dbu_per_um),
            y1: y,
            width: 0,
        }
    } else {
        let x = middle_pm(r.x0 as int, r.x1 as int, dbu_per_um);
        SegmentView {
            layer,
            x0: x,
            y0: to_pm(r.y0 as int, dbu_per_um),
            x1: x,
            y1: to_pm(r.y1 as int, dbu_per_um),
            width: 0,
        }
    }
}

/// A centerline is straight: it runs along one of the axes.
pub proof fn a_centerline_is_straight<N: Real>(layer: Seq<char>, r: Box2, dbu_per_um: N)
    ensures
        centerline(layer, r, dbu_per_um).horizontal() || centerline(
            layer,
            r,
            dbu_per_um,
        ).vertical(),
{
}

/// The wire of a routing rectangle.
pub fn rect_to_segment<N: Real>(layer: &str, r: &Box2, dbu_per_um: N) -> (s: Segment)
    ensures
        s@ == centerline(layer@, *r, dbu_per_um),
{
    let w: i64 = r.x1 as i64 - r.x0 as i64;
    let h: i64 = r.y1 as i64 - r.y0 as i64;
    let two: N = N::count(2);
    if w >= h {
        let sum: i128 = r.y0 as i128 + r.y1 as i128;
        let y: i64 = N::micro(sum * 1_000_000).over(two).over(dbu_per_um).millionths();
        let x0: i64 = N::micro(r.x0 as i128 * 1_000_000).over(dbu_per_um).millionths();
        let x1: i64 = N::micro(r.x1 as i128 * 1_000_000).over(dbu_per_um).millionths();
        Segment::wire(layer, x0, y, x1, y)
    } else {
        let sum: i128 = r.x0 as i128 + r.x1 as i128;
        let x: i64 = N::micro(sum * 1_000_000).over(two).over(dbu_per_um).millionths();
        let y0: i64 = N::micro(r.y0 as i128 * 1_000_000).over(dbu_per_um).millionths();
        let y1: i64 = N::micro(r.y1 as i128 * 1_000_000).over(dbu_per_um).millionths();
        Segment::wire(layer, x, y0, x, y1)
    }
}

/// A piece of connected metal on one layer, and the number of its net.
#[derive(Debug)]
pub struct Prim {
    pub layer: Ld,
    pub rects: Vec<Box2>,
    pub net: usize,
}

/// What a tracer of connected metal found: the pieces, and for each net its
/// name, if a label gives it one, and the number of its cuts.
#[derive(Debug)]
pub struct Trace {
    pub prims: Vec<Prim>,
    pub names: Vec<Option<String>>,
    pub cuts: Vec<usize>,
}

impl Trace {
    /// Whether every piece belongs to a net that has a name entry and a count.
    pub open spec fn wf(self) -> bool {
        &&& self.names@.len() == self.cuts@.len()
        &&& forall|i: int| 0 <= i < self.prims@.len() ==> (#[trigger] self.prims@[i]).net < self.names@.len()
    }
}

/// The pieces on routing layers among the first `n` that belong to a net.
pub open spec fn members(roles: RolesView, prims: Seq<Prim>, net: int, n: int) -> Seq<int>
    decreases n,
{
    if n <= 0 {
        Seq::empty()
    } else {
        let before = members(roles, prims, net, n - 1);
        if prims[n - 1].net == net && roles.routing.contains_key(ld(prims[n - 1].layer)) {
            before.push(n - 1)
        } else {
            before
        }
    }
}

/// The wires of a piece.
pub open spec fn piece_wires<N: Real>(roles: RolesView, p: Prim, dbu_per_um: N) -> Seq<SegmentView> {
    Seq::new(
        p.rects@.len(),
        |i: int| centerline(roles.routing[ld(p.layer)], p.rects@[i], dbu_per_um),
    )
}

/// The wires of the first `n` of a list of pieces.
pub open spec fn wires_upto<N: Real>(
    roles: RolesView,
    prims: Seq<Prim>,
    list: Seq<int>,
    n: int,
    dbu_per_um: N,
) -> Seq<SegmentView>
    decreases n,
{
    if n <= 0 {
        Seq::empty()
    } else {
        wires_upto(roles, prims, list, n - 1, dbu_per_um) + piece_wires(
            roles,
            prims[list[n - 1]],
            dbu_per_um,
        )
    }
}

/// The number of nets below `k` that have metal and no name.
pub open spec fn unnamed_upto(roles: RolesView, t: Trace, k: int) -> nat
    decreases k,
{
    if k <= 0 {
        0
    } else if members(roles, t.prims@, k - 1, t.prims@.len() as int).len() > 0
        && t.names@[k - 1] is None {
        unnamed_upto(roles, t, k - 1) + 1
    } else {
        unnamed_upto(roles, t, k - 1)
    }
}

/// The net with a number: its label for a name, or else one that counts the
/// nets without; its wires; its cuts for vias.
pub open spec fn traced_net<N: Real>(roles: RolesView, t: Trace, id: int, dbu_per_um: N) -> NetView {
    let list = members(roles, t.prims@, id, t.prims@.len() as int);
    NetView {
        name: match t.names@[id] {
            Some(s) => s@,
            None => "gnet_"@ + text::nat_text(unnamed_upto(roles, t, id) + 1),
        },
        pins: Seq::empty(),
        segments: wires_upto(roles, t.prims@, list, list.len() as int, dbu_per_um),
        vias: t.cuts@[id] as nat,
        via_points: Seq::empty(),
    }
}

/// Those of the nets below `k` that have metal on a routing layer.
pub open spec fn traced_upto<N: Real>(roles: RolesView, t: Trace, k: int, dbu_per_um: N) -> Seq<
    NetView,
>
    decreases k,
{
    if k <= 0 {
        Seq::empty()
    } else {
        let before = traced_upto(roles, t, k - 1, dbu_per_um);
        if members(roles, t.prims@, k - 1, t.prims@.len() as int).len() > 0 {
            before.push(traced_net(roles, t, k - 1, dbu_per_um))
        } else {
            before
        }
    }
}

/// The names of the nets, each beside an empty one.
pub open spec fn sort_names(list: Seq<NetView>) -> Seq<(Seq<char>, Seq<char>)> {
    Seq::new(list.len(), |i: int| (list[i].name, Seq::empty()))
}

/// Whether `out` is `list` in the order of the names of the nets, where nets of
/// equal names keep their order.
pub open spec fn in_name_order(out: Seq<NetView>, list: Seq<NetView>) -> bool {
    exists|order: Seq<usize>| #[trigger]
        sort::orders(order, sort_names(list)) && out == Seq::new(
            list.len(),
            |i: int| list[order[i] as int],
        )
}

spec fn ints(v: Seq<usize>) -> Seq<int> {
    Seq::new(v.len(), |i: int| v[i] as int)
}

fn push_member(lists: &mut Vec<Vec<usize>>, at: usize, i: usize)
    requires
        at < old(lists)@.len(),
    ensures
        final(lists)@.len() == old(lists)@.len(),
        forall|j: int|
            0 <= j < old(lists)@.len() && j != at ==> final(lists)@[j] == old(lists)@[j],
        ints(final(lists)@[at as int]@) == ints(old(lists)@[at as int]@).push(i as int),
{
    let ghost before = lists@[at as int]@;
    lists[at].push(i);
    assert(lists@[at as int]@ == before.push(i));
    assert(ints(before.push(i)) == ints(before).push(i as int));
}

proof fn lemma_members_valid(roles: RolesView, prims: Seq<Prim>, net: int, n: int)
    requires
        0 <= n <= prims.len(),
    ensures
        forall|j: int|
            0 <= j < members(roles, prims, net, n).len() ==> 0 <= #[trigger] members(
                roles,
                prims,
                net,
                n,
            )[j] < n && roles.routing.contains_key(
                ld(prims[members(roles, prims, net, n)[j]].layer),
            ),
    decreases n,
{
    if n > 0 {
        lemma_members_valid(roles, prims, net, n - 1);
        let b = members(roles, prims, net, n - 1);
        let m = members(roles, prims, net, n);
        assert forall|j: int| 0 <= j < m.len() implies 0 <= #[trigger] m[j] < n
            && roles.routing.contains_key(ld(prims[m[j]].layer)) by {
            if j < b.len() {
                assert(m[j] == b[j]);
            }
        }
    }
}

/// The pieces of each net.
fn members_of(map: &LayerMap, t: &Trace) -> (r: Vec<Vec<usize>>)
    requires
        t.wf(),
    ensures
        r@.len() == t.names@.len(),
        forall|id: int|
            0 <= id < r@.len() ==> ints((#[trigger] r@[id])@) == members(
                map@,
                t.prims@,
                id,
                t.prims@.len() as int,
            ),
{
    let mut lists: Vec<Vec<usize>> = Vec::new();
    for i in 0..t.names.len()
        invariant
            lists@.len() == i,
            forall|id: int| 0 <= id < i ==> ints((#[trigger] lists@[id])@) == Seq::<int>::empty(),
    {
        let none: Vec<usize> = Vec::new();
        assert(ints(none@) == Seq::<int>::empty());
        lists.push(none);
    }
    for i in 0..t.prims.len()
        invariant
            t.wf(),
            lists@.len() == t.names@.len(),
            forall|id: int|
                0 <= id < lists@.len() ==> ints((#[trigger] lists@[id])@) == members(
                    map@,
                    t.prims@,
                    id,
                    i as int,
                ),
    {
        let ghost before = lists@;
        let p = &t.prims[i];
        assert(t.prims@[i as int].net < t.names@.len());
        if map.routing_name(p.layer).is_some() {
            push_member(&mut lists, p.net, i);
        }
        assert forall|id: int| 0 <= id < lists@.len() implies ints((#[trigger] lists@[id])@)
            == members(map@, t.prims@, id, i + 1) by {
            assert(ints(before[id]@) == members(map@, t.prims@, id, i as int));
        }
    }
    lists
}

fn wires_of<N: Real>(map: &LayerMap, t: &Trace, list: &Vec<usize>, dbu_per_um: N) -> (r: Vec<
    Segment,
>)
    requires
        forall|j: int|
            0 <= j < list@.len() ==> (#[trigger] list@[j]) < t.prims@.len()
                && map@.routing.contains_key(ld(t.prims@[list@[j] as int].layer)),
    ensures
        geom::segments_view(r@) == wires_upto(
            map@,
            t.prims@,
            ints(list@),
            list@.len() as int,
            dbu_per_um,
        ),
{
    let ghost lv = ints(list@);
    let mut out: Vec<Segment> = Vec::new();
    assert(geom::segments_view(out@) == Seq::<SegmentView>::empty());
    for k in 0..list.len()
        invariant
            lv == ints(list@),
            forall|j: int|
                0 <= j < list@.len() ==> (#[trigger] list@[j]) < t.prims@.len()
                    && map@.routing.contains_key(ld(t.prims@[list@[j] as int].layer)),
            geom::segments_view(out@) == wires_upto(map@, t.prims@, lv, k as int, dbu_per_um),
    {
        assert(lv[k as int] == list@[k as int]);
        let p = &t.prims[list[k]];
        let ghost done = geom::segments_view(out@);
        let ghost all = piece_wires(map@, *p, dbu_per_um);
        if let Some(name) = map.routing_name(p.layer) {
            for i in 0..p.rects.len()
                invariant
                    map@.routing.contains_key(ld(p.layer)),
                    name@ == map@.routing[ld(p.layer)],
                    all == piece_wires(map@, *p, dbu_per_um),
                    geom::segments_view(out@) == done + all.take(i as int),
            {
                let s = rect_to_segment(name.as_str(), &p.rects[i], dbu_per_um);
                let ghost v = s@;
                let ghost before = geom::segments_view(out@);
                out.push(s);
                assert(geom::segments_view(out@) == before.push(v));
                assert(done + all.take(i + 1) == (done + all.take(i as int)).push(all[i as int]));
            }
            assert(all.take(p.rects@.len() as int) == all);
        }
    }
    out
}

fn copy_net(n: &DefNet) -> (r: DefNet)
    requires
        n.pins@.len() == 0,
        n.via_points@.len() == 0,
    ensures
        r@ == n@,
{
    let mut segments: Vec<Segment> = Vec::new();
    for i in 0..n.segments.len()
        invariant
            segments@.len() == i,
            forall|j: int| 0 <= j < i ==> (#[trigger] segments@[j])@ == n.segments@[j]@,
    {
        let s = &n.segments[i];
        segments.push(
            Segment {
                layer: s.layer.clone(),
                x0: s.x0,
                y0: s.y0,
                x1: s.x1,
                y1: s.y1,
                width: s.width,
            },
        );
    }
    assert(geom::segments_view(segments@) == geom::segments_view(n.segments@));
    let r = DefNet {
        name: n.name.clone(),
        pins: Vec::new(),
        segments,
        vias: n.vias,
        via_points: Vec::new(),
    };
    assert(geom::pins_view(r.pins@) == geom::pins_view(n.pins@));
    assert(geom::vias_view(r.via_points@) == geom::vias_view(n.via_points@));
    r
}

/// Reduces traced metal to nets, in the order of their names.
pub fn reduce<N: Real>(map: &LayerMap, t: &Trace, dbu_per_um: N) -> (r: Vec<DefNet>)
    requires
        t.wf(),
    ensures
        in_name_order(
            geom::nets_view(r@),
            traced_upto(map@, *t, t.names@.len() as int, dbu_per_um),
        ),
{
    let lists = members_of(map, t);
    let mut nets: Vec<DefNet> = Vec::new();
    let mut anon: usize = 0;
    assert(geom::nets_view(nets@) == Seq::<NetView>::empty());
    for id in 0..t.names.len()
        invariant
            t.wf(),
            lists@.len() == t.names@.len(),
            forall|id: int|
                0 <= id < lists@.len() ==> ints((#[trigger] lists@[id])@) == members(
                    map@,
                    t.prims@,
                    id,
                    t.prims@.len() as int,
                ),
            anon <= id,
            anon == unnamed_upto(map@, *t, id as int),
            geom::nets_view(nets@) == traced_upto(map@, *t, id as int, dbu_per_um),
            forall|j: int|
                0 <= j < nets@.len() ==> (#[trigger] nets@[j]).pins@.len() == 0
                    && nets@[j].via_points@.len() == 0,
    {
        let list = &lists[id];
        assert(ints(list@) == members(map@, t.prims@, id as int, t.prims@.len() as int));
        assert(ints(list@).len() == list@.len());
        if list.len() > 0 {
            proof {
                lemma_members_valid(map@, t.prims@, id as int, t.prims@.len() as int);
                assert forall|j: int| 0 <= j < list@.len() implies (#[trigger] list@[j])
                    < t.prims@.len() && map@.routing.contains_key(
                    ld(t.prims@[list@[j] as int].layer),
                ) by {
                    assert(ints(list@)[j] == list@[j]);
                }
            }
            let name = match &t.names[id] {
                Some(s) => s.clone(),
                None => {
                    anon = anon + 1;
                    let mut s = "gnet_".to_owned();
                    s.append(text::nat_string(anon as u128).as_str());
                    s
                },
            };
            let net = DefNet {
                name,
                pins: Vec::new(),
                segments: wires_of(map, t, list, dbu_per_um),
                vias: t.cuts[id],
                via_points: Vec::new(),
            };
            let ghost v = net@;
            assert(v.pins == Seq::<(Seq<char>, Seq<char>)>::empty());
            assert(v.via_points == Seq::<crate::def::ViaView>::empty());
            assert(v == traced_net(map@, *t, id as int, dbu_per_um));
            let ghost before = geom::nets_view(nets@);
            nets.push(net);
            assert(geom::nets_view(nets@) == before.push(v));
        }
    }
    let ghost lv = geom::nets_view(nets@);
    let mut keys: Vec<sort::NamePair> = Vec::new();
    for i in 0..nets.len()
        invariant
            keys@.len() == i,
            forall|j: int| 0 <= j < i ==> (#[trigger] keys@[j]).a@ == nets@[j].name@
                && keys@[j].b@.len() == 0,
    {
        keys.push(
            sort::NamePair { a: text::chars_of(nets[i].name.as_str()), b: Vec::new() },
        );
    }
    let order = sort::order_of(&keys);
    proof {
        sort::lemma_arranged_len(order@, keys@.len() as int);
        assert forall|i: int| 0 <= i < order@.len() implies order@[i] < nets@.len() by {
            assert(order@.contains(order@[i]));
        }
    }
    let mut out: Vec<DefNet> = Vec::new();
    for i in 0..order.len()
        invariant
            lv == geom::nets_view(nets@),
            order@.len() == nets@.len(),
            forall|i: int| 0 <= i < order@.len() ==> order@[i] < nets@.len(),
            forall|j: int|
                0 <= j < nets@.len() ==> (#[trigger] nets@[j]).pins@.len() == 0
                    && nets@[j].via_points@.len() == 0,
            out@.len() == i,
            forall|j: int| 0 <= j < i ==> (#[trigger] out@[j])@ == lv[order@[j] as int],
    {
        out.push(copy_net(&nets[order[i]]));
    }
    let ghost ov = geom::nets_view(out@);
    assert(ov == Seq::new(lv.len(), |i: int| lv[order@[i] as int]));
    proof {
        let names = sort_names(lv);
        assert forall|i: int| 0 <= i < keys@.len() implies ((#[trigger] keys@[i]).a@, keys@[i].b@)
            == names[i] by {
            assert(keys@[i].b@ == Seq::<char>::empty());
        }
        sort::lemma_orders(keys@, order@, names);
    }
    out
}

} // verus!

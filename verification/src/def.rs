//! The part of a DEF file that extraction needs: the database scale, the `NETS`
//! section, the non-default rules that give its wires their widths, and the power
//! rails.
//!
//! Of each net the reader takes its pins, its wire runs and its vias. `( * y )`
//! and `( x * )` repeat the coordinate of the point before. A wire has the width
//! of the net's non-default rule, of the rule that `TAPERRULE` names, or none of
//! its own. Any other routing decoration (`RECT`, `MASK`, ...) is skipped with its
//! argument, and so is every `+` attribute that starts no routing; `NEW` goes on
//! with the routing after it.
use crate::ndr;
use crate::ndr::{RuleWidth, RuleWidthView};
use crate::number::Real;
use crate::rails;
use crate::text;
use vstd::prelude::*;

pub use crate::geom::{DefNet, NetView, Segment, SegmentView, ViaPoint, ViaView};

verus! {

/// A design: the database units of one micrometre, its nets, and its power
/// rails.
#[derive(Debug)]
pub struct Def<N: Real> {
    pub units_per_um: N,
    pub nets: Vec<DefNet>,
    pub rails: Vec<Segment>,
}

/// Why a DEF file was not read.
#[derive(Debug)]
pub struct DefError(pub String);

impl DefError {
    /// The error as a message.
    pub fn message(&self) -> (r: String)
        ensures
            r@ == "def error: "@ + self.0@,
    {
        let mut out = "def error: ".to_owned();
        out.append(self.0.as_str());
        out
    }
}

/// Whether the character is a token of its own.
pub open spec fn is_mark(c: char) -> bool {
    c == '(' || c == ')' || c == ';'
}

/// The end of the token that starts at `i`.
pub open spec fn token_end(s: Seq<char>, i: int) -> int
    decreases s.len() - i,
{
    if 0 <= i < s.len() && !text::is_space(s[i]) && !is_mark(s[i]) {
        token_end(s, i + 1)
    } else {
        i
    }
}

pub proof fn lemma_token_end(s: Seq<char>, i: int)
    requires
        0 <= i <= s.len(),
    ensures
        i <= token_end(s, i) <= s.len(),
        i < s.len() && !text::is_space(s[i]) && !is_mark(s[i]) ==> i < token_end(s, i),
    decreases s.len() - i,
{
    if i < s.len() && !text::is_space(s[i]) && !is_mark(s[i]) {
        lemma_token_end(s, i + 1);
    }
}

/// The tokens of the text from `i` on: each of `(`, `)` and `;` by itself, and
/// the runs between them and the spaces.
pub open spec fn tokens_from(s: Seq<char>, i: int) -> Seq<Seq<char>>
    decreases s.len() - i,
{
    if i < 0 || i >= s.len() {
        Seq::empty()
    } else if text::is_space(s[i]) {
        tokens_from(s, i + 1)
    } else if is_mark(s[i]) {
        seq![s.subrange(i, i + 1)] + tokens_from(s, i + 1)
    } else {
        let e = token_end(s, i);
        proof {
            lemma_token_end(s, i);
        }
        if e > i {
            seq![s.subrange(i, e)] + tokens_from(s, e)
        } else {
            Seq::empty()
        }
    }
}

/// The tokens of a text.
pub open spec fn tokens(s: Seq<char>) -> Seq<Seq<char>> {
    tokens_from(s, 0)
}

/// Splits a DEF text into its tokens.
pub fn tokenize(v: &Vec<char>) -> (r: Vec<Vec<char>>)
    ensures
        text::seqs(r@) == tokens(v@),
{
    let mut out: Vec<Vec<char>> = Vec::new();
    let mut i: usize = 0;
    assert(text::seqs(out@) + tokens_from(v@, 0) == tokens(v@));
    while i < v.len()
        invariant
            i <= v@.len(),
            text::seqs(out@) + tokens_from(v@, i as int) == tokens(v@),
        decreases v@.len() - i,
    {
        let c: char = v[i];
        if text::is_space_char(c) {
            i = i + 1;
        } else {
            let mut e: usize = i + 1;
            if !(c == '(' || c == ')' || c == ';') {
                proof {
                    lemma_token_end(v@, i as int);
                }
                while e < v.len() && !text::is_space_char(v[e]) && !(v[e] == '(' || v[e] == ')'
                    || v[e] == ';')
                    invariant
                        i < e <= v@.len(),
                        token_end(v@, e as int) == token_end(v@, i as int),
                    decreases v@.len() - e,
                {
                    e = e + 1;
                }
            }
            let ghost old_out = text::seqs(out@);
            let ghost tok = v@.subrange(i as int, e as int);
            out.push(text::part(v, i, e));
            assert(text::seqs(out@) == old_out.push(tok));
            assert(old_out + (seq![tok] + tokens_from(v@, e as int)) == old_out.push(tok)
                + tokens_from(v@, e as int));
            i = e;
        }
    }
    assert(text::seqs(out@) + tokens_from(v@, i as int) == text::seqs(out@));
    out
}

/// The token at `i`, or nothing past the end.
pub open spec fn token_at(t: Seq<Seq<char>>, i: int) -> Option<Seq<char>> {
    if 0 <= i < t.len() {
        Some(t[i])
    } else {
        None
    }
}

/// Whether the token at `i` is `s`.
pub open spec fn is_at(t: Seq<Seq<char>>, i: int, s: Seq<char>) -> bool {
    0 <= i < t.len() && t[i] == s
}

/// The index `i`, or the end of the tokens where it lies past that.
pub open spec fn upto(t: Seq<Seq<char>>, i: int) -> int {
    if i < t.len() {
        i
    } else {
        t.len() as int
    }
}

/// The first index at or after `i` of the token `s`, or the end.
pub open spec fn find_token(t: Seq<Seq<char>>, s: Seq<char>, i: int) -> int
    decreases t.len() - i,
{
    if 0 <= i < t.len() && t[i] != s {
        find_token(t, s, i + 1)
    } else {
        i
    }
}

pub(crate) fn token_is(t: &Vec<Vec<char>>, i: usize, s: &str) -> (r: bool)
    ensures
        r == is_at(text::seqs(t@), i as int, s@),
{
    i < t.len() && text::is_text(&t[i], s)
}

pub(crate) fn find_token_at(t: &Vec<Vec<char>>, s: &str, from: usize) -> (r: usize)
    requires
        from <= t@.len(),
    ensures
        r == find_token(text::seqs(t@), s@, from as int),
        from <= r <= t@.len(),
{
    let key = text::chars_of(s);
    let mut i: usize = from;
    while i < t.len() && !text::same_chars(&t[i], &key)
        invariant
            from <= i <= t@.len(),
            key@ == s@,
            find_token(text::seqs(t@), s@, i as int) == find_token(text::seqs(t@), s@, from as int),
        decreases t@.len() - i,
    {
        assert(text::seqs(t@)[i as int] == t@[i as int]@);
        i = i + 1;
    }
    assert(i < t@.len() ==> text::seqs(t@)[i as int] == t@[i as int]@);
    i
}

/// The database units of one micrometre after the first `n` token positions:
/// the last well-formed `UNITS DISTANCE MICRONS` there, or a thousand.
pub open spec fn scale_upto<N: Real>(t: Seq<Seq<char>>, n: int) -> N
    decreases n,
{
    if n <= 0 {
        N::spec_micro(1_000_000_000)
    } else {
        let before = scale_upto::<N>(t, n - 1);
        if is_at(t, n - 1, "UNITS"@) && is_at(t, n, "DISTANCE"@) && is_at(t, n + 1, "MICRONS"@) && n
            + 2 < t.len() {
            match N::spec_parse(t[n + 2]) {
                Some(v) => v,
                None => before,
            }
        } else {
            before
        }
    }
}

/// The database units of one micrometre.
pub open spec fn scale<N: Real>(t: Seq<Seq<char>>) -> N {
    scale_upto::<N>(t, t.len() as int)
}

fn scale_of<N: Real>(t: &Vec<Vec<char>>) -> (r: N)
    ensures
        r == scale::<N>(text::seqs(t@)),
{
    let mut r: N = N::micro(1_000_000_000);
    for i in 0..t.len()
        invariant
            r == scale_upto::<N>(text::seqs(t@), i as int),
    {
        if t.len() - i > 3 && token_is(t, i, "UNITS") && token_is(t, i + 1, "DISTANCE") && token_is(
            t,
            i + 2,
            "MICRONS",
        ) {
            assert(text::seqs(t@)[i + 3] == t@[i + 3]@);
            if let Some(v) = N::parse(&t[i + 3]) {
                r = v;
            }
        }
    }
    r
}

/// What the tokens of a net are read as.
#[derive(Clone, Copy, Debug, PartialEq, Eq, Structural)]
pub enum Mode {
    /// Its pins, before the first attribute.
    Pins,
    /// Wire runs.
    Routing,
    /// An attribute that is of no interest.
    Attribute,
}

/// What the tokens of a net are read by: the database units of one micrometre,
/// and the widths of the non-default rules.
#[verifier::ext_equal]
pub struct FrameView<N: Real> {
    pub scale: N,
    pub widths: Seq<RuleWidthView>,
}

struct Frame<N: Real> {
    scale: N,
    widths: Vec<RuleWidth>,
}

impl<N: Real> Frame<N> {
    spec fn frame(self) -> FrameView<N> {
        FrameView { scale: self.scale, widths: ndr::widths_view(self.widths@) }
    }
}

/// A net while it is read: what is known of it, whether its routing has begun,
/// its non-default rule, and the layer, the rule and the last point of the wire
/// run.
#[verifier::ext_equal]
pub struct Reading {
    pub net: NetView,
    pub mode: Mode,
    pub routed: bool,
    pub net_rule: Option<Seq<char>>,
    pub layer: Option<Seq<char>>,
    pub rule: Option<Seq<char>>,
    pub prev: Option<(int, int)>,
}

struct Reader {
    net: DefNet,
    mode: Mode,
    routed: bool,
    net_rule: Option<String>,
    layer: Option<String>,
    rule: Option<String>,
    prev: Option<(i64, i64)>,
}

/// The view of a text that may be missing.
pub open spec fn opt_view(s: Option<String>) -> Option<Seq<char>> {
    match s {
        Some(l) => Some(l@),
        None => None,
    }
}

fn opt_copy(s: &Option<String>) -> (r: Option<String>)
    ensures
        opt_view(r) == opt_view(*s),
{
    match s {
        Some(l) => Some(l.clone()),
        None => None,
    }
}

impl Reader {
    spec fn reading(self) -> Reading {
        Reading {
            net: self.net@,
            mode: self.mode,
            routed: self.routed,
            net_rule: opt_view(self.net_rule),
            layer: opt_view(self.layer),
            rule: opt_view(self.rule),
            prev: match self.prev {
                Some((x, y)) => Some((x as int, y as int)),
                None => None,
            },
        }
    }
}

/// Whether a token names a way in which wire is routed.
pub open spec fn is_status(s: Seq<char>) -> bool {
    s == "ROUTED"@ || s == "FIXED"@ || s == "COVER"@ || s == "NOSHIELD"@
}

/// Whether a token is a routing decoration: it carries no wire and is no via.
pub open spec fn is_decoration(s: Seq<char>) -> bool {
    ||| s == "TAPER"@
    ||| s == "TAPERRULE"@
    ||| s == "RECT"@
    ||| s == "MASK"@
    ||| s == "STYLE"@
    ||| s == "VIRTUAL"@
    ||| s == "ORIENT"@
}

/// Where reading goes on after the decoration at `i`: `TAPER` stands alone,
/// `RECT` and `VIRTUAL` have a group for argument, the others one token.
pub open spec fn after_decoration(t: Seq<Seq<char>>, i: int) -> int {
    if t[i] == "TAPER"@ {
        i + 1
    } else if t[i] == "RECT"@ || t[i] == "VIRTUAL"@ {
        if is_at(t, i + 1, "("@) {
            upto(t, find_token(t, ")"@, i + 2) + 1)
        } else {
            i + 1
        }
    } else if i + 1 < t.len() && t[i + 1] != ";"@ {
        i + 2
    } else {
        i + 1
    }
}

/// One coordinate in picometres: `*` repeats the one before.
pub open spec fn coordinate<N: Real>(s: Seq<char>, prev: int, scale: N) -> Result<int, Seq<char>> {
    if s == "*"@ {
        Ok(prev)
    } else {
        match N::spec_parse(s) {
            Some(v) => Ok(v.spec_over(scale).spec_millionths()),
            None => Err("bad coordinate "@ + text::debug_text(s)),
        }
    }
}

/// The width of its own that a wire on `layer` has in the run: that of the run's
/// rule, or zero.
pub open spec fn run_width(r: Reading, layer: Seq<char>, ws: Seq<RuleWidthView>) -> int {
    match r.rule {
        Some(rule) => ndr::width_under(ws, rule, layer),
        None => 0,
    }
}

/// The net with the wire from its last point to `(x, y)`.
pub open spec fn run_to(r: Reading, x: int, y: int, ws: Seq<RuleWidthView>) -> Reading {
    let net = match (r.layer, r.prev) {
        (Some(l), Some((px, py))) => if px != x || py != y {
            NetView {
                segments: r.net.segments.push(
                    SegmentView {
                        layer: l,
                        x0: px,
                        y0: py,
                        x1: x,
                        y1: y,
                        width: run_width(r, l, ws),
                    },
                ),
                ..r.net
            }
        } else {
            r.net
        },
        _ => r.net,
    };
    Reading { net, prev: Some((x, y)), ..r }
}

/// What the group of tokens from `a` up to `b` does.
pub open spec fn group<N: Real>(
    t: Seq<Seq<char>>,
    a: int,
    b: int,
    r: Reading,
    f: FrameView<N>,
) -> Result<Reading, Seq<char>> {
    if b - a < 2 {
        Ok(r)
    } else {
        match r.mode {
            Mode::Pins => Ok(
                Reading { net: NetView { pins: r.net.pins.push((t[a], t[a + 1])), ..r.net }, ..r },
            ),
            Mode::Attribute => Ok(r),
            Mode::Routing => {
                let (px, py) = match r.prev {
                    Some(p) => p,
                    None => (0, 0),
                };
                match coordinate(t[a], px, f.scale) {
                    Err(e) => Err(e),
                    Ok(x) => match coordinate(t[a + 1], py, f.scale) {
                        Err(e) => Err(e),
                        Ok(y) => Ok(run_to(r, x, y, f.widths)),
                    },
                }
            },
        }
    }
}

/// The net with one via more, named `name`, at its last point.
pub open spec fn land(r: Reading, name: Seq<char>) -> Reading {
    let via_points = match (r.layer, r.prev) {
        (Some(l), Some((x, y))) => r.net.via_points.push(ViaView { x, y, layer: l, name }),
        _ => r.net.via_points,
    };
    Reading { net: NetView { vias: r.net.vias + 1, via_points, ..r.net }, ..r }
}

/// The run after the decoration at `i`: `TAPER` takes its rule away, and
/// `TAPERRULE` gives it another.
pub open spec fn decorated(t: Seq<Seq<char>>, i: int, r: Reading) -> Reading {
    if t[i] == "TAPER"@ {
        Reading { rule: None, ..r }
    } else if t[i] == "TAPERRULE"@ && i + 1 < t.len() && t[i + 1] != ";"@ {
        Reading { rule: Some(t[i + 1]), ..r }
    } else {
        r
    }
}

/// What the item that starts at token `i` does, and where the next one starts.
pub open spec fn item<N: Real>(t: Seq<Seq<char>>, i: int, r: Reading, f: FrameView<N>) -> Result<
    (Reading, int),
    Seq<char>,
> {
    if t[i] == "+"@ {
        if i + 1 < t.len() && is_status(t[i + 1]) {
            Ok(
                (
                    Reading {
                        mode: Mode::Routing,
                        routed: true,
                        layer: token_at(t, i + 2),
                        rule: r.net_rule,
                        prev: None,
                        ..r
                    },
                    upto(t, i + 3),
                ),
            )
        } else {
            Ok((Reading { mode: Mode::Attribute, ..r }, i + 1))
        }
    } else if t[i] == "NEW"@ {
        let mode = if r.routed {
            Mode::Routing
        } else {
            r.mode
        };
        let layer = token_at(t, i + 1);
        Ok((Reading { mode, layer, rule: r.net_rule, prev: None, ..r }, upto(t, i + 2)))
    } else if t[i] == "("@ {
        let e = find_token(t, ")"@, i + 1);
        match group(t, i + 1, e, r, f) {
            Ok(r2) => Ok((r2, upto(t, e + 1))),
            Err(m) => Err(m),
        }
    } else if is_decoration(t[i]) {
        Ok((decorated(t, i, r), after_decoration(t, i)))
    } else if r.mode is Routing {
        Ok((land(r, t[i]), i + 1))
    } else {
        Ok((r, i + 1))
    }
}

pub proof fn lemma_find_token(t: Seq<Seq<char>>, s: Seq<char>, i: int)
    requires
        0 <= i,
    ensures
        i <= find_token(t, s, i),
        i <= t.len() ==> find_token(t, s, i) <= t.len(),
    decreases t.len() - i,
{
    if i < t.len() && t[i] != s {
        lemma_find_token(t, s, i + 1);
    }
}

pub proof fn lemma_item_moves<N: Real>(t: Seq<Seq<char>>, i: int, r: Reading, f: FrameView<N>)
    requires
        0 <= i < t.len(),
    ensures
        item(t, i, r, f) matches Ok((_, j)) ==> i < j <= t.len(),
{
    lemma_find_token(t, ")"@, i + 1);
    lemma_find_token(t, ")"@, i + 2);
}

/// The items from token `i` up to the `;` that ends the net: what they make of
/// it, and the index of that `;`.
pub open spec fn items<N: Real>(t: Seq<Seq<char>>, i: int, r: Reading, f: FrameView<N>) -> Result<
    (Reading, int),
    Seq<char>,
>
    decreases t.len() - i,
{
    if i < 0 || i >= t.len() || t[i] == ";"@ {
        Ok((r, i))
    } else {
        match item(t, i, r, f) {
            Err(m) => Err(m),
            Ok((r2, j)) => {
                proof {
                    lemma_item_moves(t, i, r, f);
                }
                if j > i {
                    items(t, j, r2, f)
                } else {
                    Ok((r2, j))
                }
            },
        }
    }
}

/// The non-default rule that the attributes of a net name, from token `i` up to
/// the `;` that ends the net.
pub open spec fn net_rule(t: Seq<Seq<char>>, i: int) -> Option<Seq<char>>
    decreases t.len() - i,
{
    if i < 0 || i >= t.len() || t[i] == ";"@ {
        None
    } else if t[i] == "+"@ && is_at(t, i + 1, "NONDEFAULTRULE"@) {
        token_at(t, i + 2)
    } else {
        net_rule(t, i + 1)
    }
}

/// The net that starts at the `-` at token `i`, before its items are read.
pub open spec fn opened(t: Seq<Seq<char>>, i: int) -> Reading {
    Reading {
        net: NetView {
            name: if i + 1 < t.len() {
                t[i + 1]
            } else {
                Seq::empty()
            },
            pins: Seq::empty(),
            segments: Seq::empty(),
            vias: 0,
            via_points: Seq::empty(),
        },
        mode: Mode::Pins,
        routed: false,
        net_rule: net_rule(t, upto(t, i + 2)),
        layer: None,
        rule: None,
        prev: None,
    }
}

pub proof fn lemma_items_move<N: Real>(t: Seq<Seq<char>>, i: int, r: Reading, f: FrameView<N>)
    requires
        0 <= i <= t.len(),
    ensures
        items(t, i, r, f) matches Ok((_, j)) ==> i <= j <= t.len(),
    decreases t.len() - i,
{
    if i < t.len() && t[i] != ";"@ {
        if let Ok((r2, j)) = item(t, i, r, f) {
            lemma_item_moves(t, i, r, f);
            lemma_items_move(t, j, r2, f);
        }
    }
}

/// The nets from token `i` up to `END`.
pub open spec fn nets_from<N: Real>(t: Seq<Seq<char>>, i: int, f: FrameView<N>) -> Result<
    Seq<NetView>,
    Seq<char>,
>
    decreases t.len() - i,
{
    if i < 0 || i >= t.len() || t[i] == "END"@ {
        Ok(Seq::empty())
    } else if t[i] != "-"@ {
        nets_from(t, i + 1, f)
    } else {
        match items(t, upto(t, i + 2), opened(t, i), f) {
            Err(m) => Err(m),
            Ok((r, j)) => {
                proof {
                    lemma_items_move(t, upto(t, i + 2), opened(t, i), f);
                }
                if upto(t, j + 1) > i {
                    match nets_from(t, upto(t, j + 1), f) {
                        Err(m) => Err(m),
                        Ok(rest) => Ok(seq![r.net] + rest),
                    }
                } else {
                    Ok(Seq::empty())
                }
            },
        }
    }
}

/// What the nets of a token sequence are read by.
pub open spec fn frame<N: Real>(t: Seq<Seq<char>>) -> FrameView<N> {
    FrameView { scale: scale::<N>(t), widths: ndr::rule_widths(t, scale::<N>(t)) }
}

/// The nets of a token sequence: those after the `;` that ends the `NETS`
/// header, or none where there is no such section.
pub open spec fn nets<N: Real>(t: Seq<Seq<char>>) -> Result<Seq<NetView>, Seq<char>> {
    let p = find_token(t, "NETS"@, 0);
    if p >= t.len() {
        Ok(Seq::empty())
    } else {
        nets_from(t, upto(t, find_token(t, ";"@, p) + 1), frame::<N>(t))
    }
}

pub(crate) fn coordinate_of<N: Real>(s: &Vec<char>, prev: i64, scale: N) -> (r: Result<i64, DefError>)
    ensures
        match (r, coordinate(s@, prev as int, scale)) {
            (Ok(a), Ok(b)) => a == b,
            (Err(a), Err(b)) => a.0@ == b,
            _ => false,
        },
{
    if text::is_text(s, "*") {
        Ok(prev)
    } else {
        match N::parse(s) {
            Some(v) => Ok(v.over(scale).millionths()),
            None => {
                let mut m = "bad coordinate ".to_owned();
                m.append(text::debug_string(text::string_of(s).as_str()).as_str());
                Err(DefError(m))
            },
        }
    }
}

pub(crate) fn token_text(t: &Vec<Vec<char>>, i: usize) -> (r: Option<String>)
    ensures
        match (r, token_at(text::seqs(t@), i as int)) {
            (Some(a), Some(b)) => a@ == b,
            (None, None) => true,
            _ => false,
        },
{
    if i < t.len() {
        assert(text::seqs(t@)[i as int] == t@[i as int]@);
        Some(text::string_of(&t[i]))
    } else {
        None
    }
}

pub(crate) fn is_status_token(s: &Vec<char>) -> (r: bool)
    ensures
        r == is_status(s@),
{
    text::is_text(s, "ROUTED") || text::is_text(s, "FIXED") || text::is_text(s, "COVER")
        || text::is_text(s, "NOSHIELD")
}

pub(crate) fn is_decoration_token(s: &Vec<char>) -> (r: bool)
    ensures
        r == is_decoration(s@),
{
    text::is_text(s, "TAPER") || text::is_text(s, "TAPERRULE") || text::is_text(s, "RECT")
        || text::is_text(s, "MASK") || text::is_text(s, "STYLE") || text::is_text(s, "VIRTUAL")
        || text::is_text(s, "ORIENT")
}

pub(crate) fn skip_decoration(t: &Vec<Vec<char>>, i: usize) -> (r: usize)
    requires
        i < t@.len(),
    ensures
        r == after_decoration(text::seqs(t@), i as int),
        i < r <= t@.len(),
{
    let n: usize = t.len();
    assert(text::seqs(t@)[i as int] == t@[i as int]@);
    assert(i + 1 < t@.len() ==> text::seqs(t@)[i + 1] == t@[i + 1]@);
    if text::is_text(&t[i], "TAPER") {
        i + 1
    } else if text::is_text(&t[i], "RECT") || text::is_text(&t[i], "VIRTUAL") {
        if token_is(t, i + 1, "(") {
            let e: usize = find_token_at(t, ")", i + 2);
            if e < t.len() {
                e + 1
            } else {
                e
            }
        } else {
            i + 1
        }
    } else if i + 1 < n && !text::is_text(&t[i + 1], ";") {
        i + 2
    } else {
        i + 1
    }
}

impl Reader {
    fn run_to(&mut self, x: i64, y: i64, ws: &Vec<RuleWidth>)
        ensures
            final(self).reading() == run_to(
                old(self).reading(),
                x as int,
                y as int,
                ndr::widths_view(ws@),
            ),
    {
        if let Some((px, py)) = self.prev {
            if px != x || py != y {
                if let Some(l) = &self.layer {
                    let ghost before = self.net@;
                    let width: i64 = match &self.rule {
                        Some(rule) => ndr::lookup(ws, rule.as_str(), l.as_str()),
                        None => 0,
                    };
                    let s = Segment { layer: l.clone(), x0: px, y0: py, x1: x, y1: y, width };
                    let ghost v = s@;
                    self.net.segments.push(s);
                    assert(self.net@.segments == before.segments.push(v));
                    assert(self.net@ == NetView { segments: before.segments.push(v), ..before });
                }
            }
        }
        self.prev = Some((x, y));
    }

    fn land(&mut self, name: &Vec<char>)
        requires
            old(self).net.vias < usize::MAX,
        ensures
            final(self).reading() == land(old(self).reading(), name@),
    {
        let ghost before = self.net@;
        self.net.vias = self.net.vias + 1;
        if let Some((x, y)) = self.prev {
            if let Some(l) = &self.layer {
                let p = ViaPoint { x, y, layer: l.clone(), name: text::string_of(name) };
                let ghost v = p@;
                self.net.via_points.push(p);
                assert(self.net@.via_points == before.via_points.push(v));
            }
        }
        assert(self.reading() == land(old(self).reading(), name@));
    }

    fn group<N: Real>(&mut self, t: &Vec<Vec<char>>, a: usize, b: usize, f: &Frame<N>) -> (r: Result<
        (),
        DefError,
    >)
        requires
            a <= b <= t@.len(),
        ensures
            final(self).net.vias == old(self).net.vias,
            match (
                r,
                group(text::seqs(t@), a as int, b as int, old(self).reading(), f.frame()),
            ) {
                (Ok(_), Ok(v)) => final(self).reading() == v,
                (Err(m), Err(v)) => m.0@ == v,
                _ => false,
            },
    {
        if b - a < 2 {
            return Ok(());
        }
        assert(text::seqs(t@)[a as int] == t@[a as int]@);
        assert(text::seqs(t@)[a + 1] == t@[a + 1]@);
        match self.mode {
            Mode::Pins => {
                let ghost before = self.net@;
                let p = (text::string_of(&t[a]), text::string_of(&t[a + 1]));
                let ghost v = (p.0@, p.1@);
                self.net.pins.push(p);
                assert(self.net@.pins == before.pins.push(v));
                assert(self.net@ == NetView { pins: before.pins.push(v), ..before });
                Ok(())
            },
            Mode::Attribute => Ok(()),
            Mode::Routing => {
                let (px, py) = match self.prev {
                    Some(p) => p,
                    None => (0i64, 0i64),
                };
                match coordinate_of(&t[a], px, f.scale) {
                    Err(e) => Err(e),
                    Ok(x) => match coordinate_of(&t[a + 1], py, f.scale) {
                        Err(e) => Err(e),
                        Ok(y) => {
                            self.run_to(x, y, &f.widths);
                            Ok(())
                        },
                    },
                }
            },
        }
    }

    fn item<N: Real>(&mut self, t: &Vec<Vec<char>>, i: usize, f: &Frame<N>) -> (r: Result<
        usize,
        DefError,
    >)
        requires
            i < t@.len(),
            old(self).net.vias <= i,
        ensures
            match (r, item(text::seqs(t@), i as int, old(self).reading(), f.frame())) {
                (Ok(j), Ok((v, k))) => j == k && final(self).reading() == v && i < j <= t@.len()
                    && final(self).net.vias <= j,
                (Err(m), Err(v)) => m.0@ == v,
                _ => false,
            },
    {
        let ghost tv = text::seqs(t@);
        let n: usize = t.len();
        assert(tv[i as int] == t@[i as int]@);
        assert(i + 1 < t@.len() ==> tv[i + 1] == t@[i + 1]@);
        if text::is_text(&t[i], "+") {
            if n - i > 1 && is_status_token(&t[i + 1]) {
                self.mode = Mode::Routing;
                self.routed = true;
                self.rule = opt_copy(&self.net_rule);
                self.layer = if n - i > 2 {
                    token_text(t, i + 2)
                } else {
                    None
                };
                self.prev = None;
                Ok(
                    if n - i > 3 {
                        i + 3
                    } else {
                        t.len()
                    },
                )
            } else {
                self.mode = Mode::Attribute;
                Ok(i + 1)
            }
        } else if text::is_text(&t[i], "NEW") {
            if self.routed {
                self.mode = Mode::Routing;
            }
            self.layer = token_text(t, i + 1);
            self.rule = opt_copy(&self.net_rule);
            self.prev = None;
            Ok(
                if n - i > 2 {
                    i + 2
                } else {
                    t.len()
                },
            )
        } else if text::is_text(&t[i], "(") {
            let e: usize = find_token_at(t, ")", i + 1);
            match self.group(t, i + 1, e, f) {
                Ok(_) => Ok(
                    if e < t.len() {
                        e + 1
                    } else {
                        e
                    },
                ),
                Err(m) => Err(m),
            }
        } else if is_decoration_token(&t[i]) {
            if text::is_text(&t[i], "TAPER") {
                self.rule = None;
            } else if text::is_text(&t[i], "TAPERRULE") && n - i > 1 && !text::is_text(
                &t[i + 1],
                ";",
            ) {
                self.rule = Some(text::string_of(&t[i + 1]));
            }
            Ok(skip_decoration(t, i))
        } else {
            match self.mode {
                Mode::Routing => {
                    self.land(&t[i]);
                },
                _ => {},
            }
            Ok(i + 1)
        }
    }
}

fn net_rule_of(t: &Vec<Vec<char>>, from: usize) -> (r: Option<String>)
    requires
        from <= t@.len(),
    ensures
        opt_view(r) == net_rule(text::seqs(t@), from as int),
{
    let ghost tv = text::seqs(t@);
    let mut i: usize = from;
    while i < t.len() && !token_is(t, i, ";")
        invariant
            from <= i <= t@.len(),
            tv == text::seqs(t@),
            net_rule(tv, i as int) == net_rule(tv, from as int),
        decreases t@.len() - i,
    {
        if t.len() - i > 1 && token_is(t, i, "+") && token_is(t, i + 1, "NONDEFAULTRULE") {
            return token_text(t, i + 2);
        }
        i = i + 1;
    }
    None
}

fn read_net<N: Real>(t: &Vec<Vec<char>>, at: usize, f: &Frame<N>) -> (r: Result<
    (DefNet, usize),
    DefError,
>)
    requires
        at < t@.len(),
    ensures
        match (
            r,
            items(
                text::seqs(t@),
                upto(text::seqs(t@), at + 2),
                opened(text::seqs(t@), at as int),
                f.frame(),
            ),
        ) {
            (Ok((net, j)), Ok((v, k))) => net@ == v.net && j == k && at < j <= t@.len(),
            (Err(m), Err(v)) => m.0@ == v,
            _ => false,
        },
{
    let ghost tv = text::seqs(t@);
    let n: usize = t.len();
    let start: usize = if n - at > 2 {
        at + 2
    } else {
        t.len()
    };
    let name = match token_text(t, at + 1) {
        Some(n) => n,
        None => String::new(),
    };
    let mut reader = Reader {
        net: DefNet {
            name,
            pins: Vec::new(),
            segments: Vec::new(),
            vias: 0,
            via_points: Vec::new(),
        },
        mode: Mode::Pins,
        routed: false,
        net_rule: net_rule_of(t, start),
        layer: None,
        rule: None,
        prev: None,
    };
    assert(reader.reading() == opened(tv, at as int));
    let mut i: usize = start;
    while i < t.len() && !token_is(t, i, ";")
        invariant
            at < i <= t@.len(),
            tv == text::seqs(t@),
            reader.net.vias <= i,
            items(tv, i as int, reader.reading(), f.frame()) == items(
                tv,
                upto(tv, at + 2),
                opened(tv, at as int),
                f.frame(),
            ),
        decreases t@.len() - i,
    {
        match reader.item(t, i, f) {
            Err(m) => {
                return Err(m);
            },
            Ok(j) => {
                i = j;
            },
        }
    }
    Ok((reader.net, i))
}

/// Reads a DEF text.
pub fn parse<N: Real>(source: &str) -> (r: Result<Def<N>, DefError>)
    ensures
        match (r, nets::<N>(tokens(source@))) {
            (Ok(d), Ok(v)) => d.units_per_um == scale::<N>(tokens(source@))
                && crate::geom::nets_view(d.nets@) == v && crate::geom::segments_view(d.rails@)
                == rails::rails(tokens(source@), scale::<N>(tokens(source@))),
            (Err(m), Err(v)) => m.0@ == v,
            _ => false,
        },
{
    let t = tokenize(&text::chars_of(source));
    let ghost tv = text::seqs(t@);
    let scale: N = scale_of(&t);
    let f = Frame { scale, widths: ndr::read(&t, scale) };
    let ghost fv = f.frame();
    let rails = rails::read(&t, scale);
    let mut out: Vec<DefNet> = Vec::new();
    let p: usize = find_token_at(&t, "NETS", 0);
    if p >= t.len() {
        assert(crate::geom::nets_view(out@) == Seq::<NetView>::empty());
        return Ok(Def { units_per_um: scale, nets: out, rails });
    }
    let semi: usize = find_token_at(&t, ";", p);
    let mut i: usize = if semi < t.len() {
        semi + 1
    } else {
        semi
    };
    let ghost start = i as int;
    assert(nets_from(tv, start, fv) is Ok ==> crate::geom::nets_view(out@) + nets_from(
        tv,
        start,
        fv,
    )->Ok_0 == nets_from(tv, start, fv)->Ok_0);
    while i < t.len() && !token_is(&t, i, "END")
        invariant
            i <= t@.len(),
            tv == text::seqs(t@),
            tv == tokens(source@),
            fv == f.frame(),
            nets::<N>(tv) == nets_from(tv, start, fv),
            match (nets_from(tv, i as int, fv), nets_from(tv, start, fv)) {
                (Ok(a), Ok(b)) => crate::geom::nets_view(out@) + a == b,
                (Err(a), Err(b)) => a == b,
                _ => false,
            },
        decreases t@.len() - i,
    {
        if token_is(&t, i, "-") {
            match read_net(&t, i, &f) {
                Err(m) => {
                    return Err(m);
                },
                Ok((net, j)) => {
                    let ghost before = crate::geom::nets_view(out@);
                    let ghost v = net@;
                    out.push(net);
                    assert(crate::geom::nets_view(out@) == before.push(v));
                    let k: usize = if j < t.len() {
                        j + 1
                    } else {
                        j
                    };
                    assert(nets_from(tv, k as int, fv) is Ok ==> before.push(v) + nets_from(
                        tv,
                        k as int,
                        fv,
                    )->Ok_0 == before + (seq![v] + nets_from(tv, k as int, fv)->Ok_0));
                    i = k;
                },
            }
        } else {
            i = i + 1;
        }
    }
    assert(nets_from(tv, i as int, fv) == Ok::<Seq<NetView>, Seq<char>>(Seq::empty()));
    assert(crate::geom::nets_view(out@) + Seq::<NetView>::empty() == crate::geom::nets_view(out@));
    Ok(Def { units_per_um: scale, nets: out, rails })
}

} // verus!

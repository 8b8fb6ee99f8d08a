//! Power rails: the wires of the `SPECIALNETS` section of a DEF file. They are
//! metal that blocks sight and couples to nothing.
//!
//! A special wire states its width, as in `+ ROUTED met1 480 + SHAPE FOLLOWPIN
//! ( 0 0 ) ( 9000 0 )`. What the reader does not know it passes over.
use crate::def;
use crate::geom;
use crate::geom::{Segment, SegmentView};
use crate::ndr;
use crate::number::Real;
use crate::text;
use vstd::prelude::*;

verus! {

/// A special net while it is read: whether wire is being routed, its layer and
/// width, and its last point.
#[verifier::ext_equal]
pub struct RailReading {
    pub on: bool,
    pub layer: Option<Seq<char>>,
    pub width: int,
    pub prev: Option<(int, int)>,
}

/// No wire is being routed.
pub open spec fn idle() -> RailReading {
    RailReading { on: false, layer: None, width: 0, prev: None }
}

/// A run of wire that starts with its layer at token `i` and its width after it.
pub open spec fn started<N: Real>(t: Seq<Seq<char>>, i: int, scale: N) -> RailReading {
    RailReading {
        on: true,
        layer: def::token_at(t, i),
        width: match def::token_at(t, i + 1) {
            Some(s) => match ndr::width_of(s, scale) {
                Some(w) => w,
                None => 0,
            },
            None => 0,
        },
        prev: None,
    }
}

/// Whether a token names what a run of special wire may state of itself.
pub open spec fn is_trait(s: Seq<char>) -> bool {
    s == "SHAPE"@ || s == "STYLE"@ || s == "MASK"@
}

/// The point that the group of tokens from `a` up to `b` gives, where it gives
/// one.
pub open spec fn point<N: Real>(
    t: Seq<Seq<char>>,
    a: int,
    b: int,
    prev: Option<(int, int)>,
    scale: N,
) -> Option<(int, int)> {
    let (px, py) = match prev {
        Some(p) => p,
        None => (0, 0),
    };
    if b - a < 2 {
        None
    } else {
        match (def::coordinate(t[a], px, scale), def::coordinate(t[a + 1], py, scale)) {
            (Ok(x), Ok(y)) => Some((x, y)),
            _ => None,
        }
    }
}

/// The wire from the last point to `p`.
pub open spec fn rail_to(r: RailReading, p: (int, int)) -> Seq<SegmentView> {
    match (r.layer, r.prev) {
        (Some(layer), Some((x0, y0))) => if x0 != p.0 || y0 != p.1 {
            seq![SegmentView { layer, x0, y0, x1: p.0, y1: p.1, width: r.width }]
        } else {
            Seq::empty()
        },
        _ => Seq::empty(),
    }
}

/// What the item that starts at token `i` makes of the reading, the wire it
/// draws, and where the next item starts.
pub open spec fn step<N: Real>(t: Seq<Seq<char>>, i: int, r: RailReading, scale: N) -> (
    RailReading,
    Seq<SegmentView>,
    int,
) {
    let none = Seq::<SegmentView>::empty();
    if t[i] == ";"@ {
        (idle(), none, i + 1)
    } else if t[i] == "+"@ {
        if i + 1 < t.len() && def::is_status(t[i + 1]) {
            (started(t, i + 2, scale), none, def::upto(t, i + 4))
        } else if i + 1 < t.len() && is_trait(t[i + 1]) {
            (r, none, def::upto(t, i + 3))
        } else {
            (RailReading { on: false, ..r }, none, i + 1)
        }
    } else if t[i] == "NEW"@ {
        (started(t, i + 1, scale), none, def::upto(t, i + 3))
    } else if t[i] == "("@ {
        let e = def::find_token(t, ")"@, i + 1);
        match point(t, i + 1, e, r.prev, scale) {
            Some(p) => if r.on {
                (RailReading { prev: Some(p), ..r }, rail_to(r, p), def::upto(t, e + 1))
            } else {
                (r, none, def::upto(t, e + 1))
            },
            None => (r, none, def::upto(t, e + 1)),
        }
    } else if def::is_decoration(t[i]) {
        (r, none, def::after_decoration(t, i))
    } else {
        (r, none, i + 1)
    }
}

pub proof fn lemma_step_moves<N: Real>(t: Seq<Seq<char>>, i: int, r: RailReading, scale: N)
    requires
        0 <= i < t.len(),
    ensures
        i < step(t, i, r, scale).2 <= t.len(),
{
    def::lemma_find_token(t, ")"@, i + 1);
    def::lemma_find_token(t, ")"@, i + 2);
}

/// The wires from token `i` up to `END`.
pub open spec fn rails_from<N: Real>(t: Seq<Seq<char>>, i: int, r: RailReading, scale: N) -> Seq<
    SegmentView,
>
    decreases t.len() - i,
{
    if i < 0 || i >= t.len() || t[i] == "END"@ {
        Seq::empty()
    } else {
        let (r2, drawn, j) = step(t, i, r, scale);
        proof {
            lemma_step_moves(t, i, r, scale);
        }
        if j > i {
            drawn + rails_from(t, j, r2, scale)
        } else {
            drawn
        }
    }
}

/// The power rails of a token sequence.
pub open spec fn rails<N: Real>(t: Seq<Seq<char>>, scale: N) -> Seq<SegmentView> {
    rails_from(t, def::find_token(t, "SPECIALNETS"@, 0), idle(), scale)
}

struct RailReader {
    on: bool,
    layer: Option<String>,
    width: i64,
    prev: Option<(i64, i64)>,
}

impl RailReader {
    spec fn reading(self) -> RailReading {
        RailReading {
            on: self.on,
            layer: match self.layer {
                Some(l) => Some(l@),
                None => None,
            },
            width: self.width as int,
            prev: match self.prev {
                Some((x, y)) => Some((x as int, y as int)),
                None => None,
            },
        }
    }

    fn idle() -> (r: RailReader)
        ensures
            r.reading() == idle(),
    {
        RailReader { on: false, layer: None, width: 0, prev: None }
    }

    fn started<N: Real>(t: &Vec<Vec<char>>, i: usize, scale: N) -> (r: RailReader)
        requires
            i <= t@.len(),
        ensures
            r.reading() == started(text::seqs(t@), i as int, scale),
    {
        let width: i64 = if t.len() - i > 1 {
            assert(text::seqs(t@)[i + 1] == t@[i + 1]@);
            match ndr::read_width(&t[i + 1], scale) {
                Some(w) => w,
                None => 0,
            }
        } else {
            0
        };
        RailReader { on: true, layer: def::token_text(t, i), width, prev: None }
    }
}

fn point_of<N: Real>(
    t: &Vec<Vec<char>>,
    a: usize,
    b: usize,
    prev: Option<(i64, i64)>,
    scale: N,
) -> (r: Option<(i64, i64)>)
    requires
        a <= b <= t@.len(),
    ensures
        ({
            let pv = match prev {
                Some((x, y)) => Some((x as int, y as int)),
                None => None,
            };
            match (r, point(text::seqs(t@), a as int, b as int, pv, scale)) {
                (Some((x, y)), Some(q)) => x == q.0 && y == q.1,
                (None, None) => true,
                _ => false,
            }
        }),
{
    if b - a < 2 {
        return None;
    }
    assert(text::seqs(t@)[a as int] == t@[a as int]@);
    assert(text::seqs(t@)[a + 1] == t@[a + 1]@);
    let (px, py) = match prev {
        Some(p) => p,
        None => (0i64, 0i64),
    };
    match (def::coordinate_of(&t[a], px, scale), def::coordinate_of(&t[a + 1], py, scale)) {
        (Ok(x), Ok(y)) => Some((x, y)),
        _ => None,
    }
}

/// The index `i`, or the end of the tokens.
fn upto_end(t: &Vec<Vec<char>>, i: usize, more: usize) -> (r: usize)
    requires
        i <= t@.len(),
    ensures
        r == def::upto(text::seqs(t@), i + more),
{
    if t.len() - i > more {
        i + more
    } else {
        t.len()
    }
}

/// Reads the power rails.
pub fn read<N: Real>(t: &Vec<Vec<char>>, scale: N) -> (out: Vec<Segment>)
    ensures
        geom::segments_view(out@) == rails(text::seqs(t@), scale),
{
    let ghost tv = text::seqs(t@);
    let mut out: Vec<Segment> = Vec::new();
    let mut r = RailReader::idle();
    let mut i: usize = def::find_token_at(t, "SPECIALNETS", 0);
    let ghost all = rails(tv, scale);
    assert(geom::segments_view(out@) + rails_from(tv, i as int, r.reading(), scale) == all);
    while i < t.len() && !def::token_is(t, i, "END")
        invariant
            i <= t@.len(),
            tv == text::seqs(t@),
            geom::segments_view(out@) + rails_from(tv, i as int, r.reading(), scale) == all,
        decreases t@.len() - i,
    {
        let ghost was = r.reading();
        let ghost before = geom::segments_view(out@);
        let ghost (after, drawn, next) = step(tv, i as int, was, scale);
        proof {
            lemma_step_moves(tv, i as int, was, scale);
            assert(tv[i as int] == t@[i as int]@);
            assert(i + 1 < t@.len() ==> tv[i + 1] == t@[i + 1]@);
            assert(before + (drawn + rails_from(tv, next, after, scale)) == (before + drawn)
                + rails_from(tv, next, after, scale));
            assert(before + Seq::<SegmentView>::empty() == before);
        }
        let j: usize;
        if def::token_is(t, i, ";") {
            r = RailReader::idle();
            j = i + 1;
        } else if def::token_is(t, i, "+") {
            if t.len() - i > 1 && def::is_status_token(&t[i + 1]) {
                r = RailReader::started(t, i + 2, scale);
                j = upto_end(t, i, 4);
            } else if t.len() - i > 1 && (text::is_text(&t[i + 1], "SHAPE") || text::is_text(
                &t[i + 1],
                "STYLE",
            ) || text::is_text(&t[i + 1], "MASK")) {
                j = upto_end(t, i, 3);
            } else {
                r.on = false;
                j = i + 1;
            }
        } else if def::token_is(t, i, "NEW") {
            r = RailReader::started(t, i + 1, scale);
            j = upto_end(t, i, 3);
        } else if def::token_is(t, i, "(") {
            let e: usize = def::find_token_at(t, ")", i + 1);
            if let Some((x, y)) = point_of(t, i + 1, e, r.prev, scale) {
                if r.on {
                    if let Some((x0, y0)) = r.prev {
                        if x0 != x || y0 != y {
                            if let Some(l) = &r.layer {
                                let s = Segment {
                                    layer: l.clone(),
                                    x0,
                                    y0,
                                    x1: x,
                                    y1: y,
                                    width: r.width,
                                };
                                let ghost v = s@;
                                out.push(s);
                                assert(geom::segments_view(out@) == before.push(v));
                                assert(before.push(v) == before + seq![v]);
                            }
                        }
                    }
                    r.prev = Some((x, y));
                }
            }
            j = upto_end(t, e, 1);
        } else if def::is_decoration_token(&t[i]) {
            j = def::skip_decoration(t, i);
        } else {
            j = i + 1;
        }
        assert(j == next);
        assert(r.reading() == after);
        assert(geom::segments_view(out@) == before + drawn);
        i = j;
    }
    assert(rails_from(tv, i as int, r.reading(), scale) == Seq::<SegmentView>::empty());
    assert(geom::segments_view(out@) + Seq::<SegmentView>::empty() == geom::segments_view(out@));
    out
}

} // verus!

//! The part of a tech LEF that extraction needs: the default routing width and
//! the thickness of each layer, and the layers that each via joins.
//!
//! A width is declared with one value, as in `WIDTH 0.14 ;`. A row with more before
//! its semicolon, as the spacing tables of a layer have them, declares none.
use crate::number;
use crate::number::Real;
use crate::strmap::StrMap;
use crate::text;
use crate::tree;
use vstd::prelude::*;

verus! {

/// The widths and thicknesses (um) of the layers, and the layers of the vias.
#[derive(Debug)]
pub struct Lef<N: Real> {
    pub widths: StrMap<N>,
    pub thicknesses: StrMap<N>,
    pub vias: StrMap<Vec<String>>,
}

/// Why a LEF was not read.
#[derive(Debug)]
pub struct LefError(pub String);

impl LefError {
    /// The error as a message.
    pub fn message(&self) -> (r: String)
        ensures
            r@ == "lef error: "@ + self.0@,
    {
        let mut out = "lef error: ".to_owned();
        out.append(self.0.as_str());
        out
    }
}

/// A LEF while it is read: the tables, the open layer with what it has declared,
/// and the open via with its layers.
#[verifier::ext_equal]
pub struct LefReading<N: Real> {
    pub widths: Map<Seq<char>, N>,
    pub thicknesses: Map<Seq<char>, N>,
    pub vias: Map<Seq<char>, Seq<Seq<char>>>,
    pub layer: Option<Seq<char>>,
    pub width: Option<N>,
    pub thickness: Option<N>,
    pub via: Option<(Seq<char>, Seq<Seq<char>>)>,
}

/// Nothing read yet.
pub open spec fn nothing_read<N: Real>() -> LefReading<N> {
    LefReading {
        widths: Map::empty(),
        thicknesses: Map::empty(),
        vias: Map::empty(),
        layer: None,
        width: None,
        thickness: None,
        via: None,
    }
}

/// A word without the semicolons at its end.
pub open spec fn without_semicolons(s: Seq<char>) -> Seq<char>
    decreases s.len(),
{
    if s.len() > 0 && s.last() == ';' {
        without_semicolons(s.drop_last())
    } else {
        s
    }
}

/// Whether a line declares one value: a keyword, the value, and then the end of
/// the line or the semicolon, whatever may follow that.
pub open spec fn declares(t: Seq<Seq<char>>, key: Seq<char>) -> bool {
    t.len() >= 2 && t[0] == key && (t.len() == 2 || (t[1].len() > 0 && t[1].last() == ';')
        || t[2] == ";"@)
}

/// The via block with one more layer, where one is open.
pub open spec fn with_via_layer(
    via: Option<(Seq<char>, Seq<Seq<char>>)>,
    layer: Seq<char>,
) -> Option<(Seq<char>, Seq<Seq<char>>)> {
    match via {
        Some((name, layers)) => Some((name, layers.push(without_semicolons(layer)))),
        None => None,
    }
}

/// The open layer with its declarations closed, where `name` names it.
pub open spec fn end_layer<N: Real>(r: LefReading<N>, name: Seq<char>) -> LefReading<N> {
    if r.layer == Some(name) {
        LefReading {
            widths: match r.width {
                Some(w) => r.widths.insert(name, w),
                None => r.widths,
            },
            thicknesses: match r.thickness {
                Some(v) => r.thicknesses.insert(name, v),
                None => r.thicknesses,
            },
            layer: None,
            width: None,
            thickness: None,
            ..r
        }
    } else {
        r
    }
}

/// The open via closed, where `name` names it.
pub open spec fn end_via<N: Real>(r: LefReading<N>, name: Seq<char>) -> LefReading<N> {
    match r.via {
        Some((via, layers)) => if via == name {
            LefReading { vias: r.vias.insert(name, layers), via: None, ..r }
        } else {
            r
        },
        None => r,
    }
}

/// What the words of a line do.
pub open spec fn read_line<N: Real>(r: LefReading<N>, t: Seq<Seq<char>>) -> LefReading<N> {
    if t.len() >= 2 && t[0] == "LAYER"@ {
        LefReading {
            layer: Some(t[1]),
            width: None,
            thickness: None,
            via: with_via_layer(r.via, t[1]),
            ..r
        }
    } else if t.len() >= 2 && t[0] == "VIA"@ {
        LefReading { via: Some((t[1], Seq::empty())), ..r }
    } else if declares(t, "WIDTH"@) {
        LefReading { width: N::spec_parse(without_semicolons(t[1])), ..r }
    } else if t.len() >= 2 && t[0] == "THICKNESS"@ {
        LefReading { thickness: N::spec_parse(without_semicolons(t[1])), ..r }
    } else if t.len() >= 2 && t[0] == "END"@ {
        end_via(end_layer(r, t[1]), t[1])
    } else {
        r
    }
}

/// What the first `n` lines say.
pub open spec fn read_upto<N: Real>(lines: Seq<Seq<char>>, n: int) -> LefReading<N>
    decreases n,
{
    if n <= 0 {
        nothing_read()
    } else {
        read_line(
            read_upto(lines, n - 1),
            text::words(text::before(lines[n - 1], '#')),
        )
    }
}

/// What a LEF says.
pub open spec fn reading<N: Real>(source: Seq<char>) -> LefReading<N> {
    let lines = text::lines(source);
    read_upto(lines, lines.len() as int)
}

fn strip_semicolons(v: &Vec<char>) -> (r: Vec<char>)
    ensures
        r@ == without_semicolons(v@),
{
    let mut k: usize = v.len();
    assert(v@.take(k as int) == v@);
    while k > 0 && v[k - 1] == ';'
        invariant
            k <= v@.len(),
            without_semicolons(v@.take(k as int)) == without_semicolons(v@),
        decreases k,
    {
        assert(v@.take(k as int).drop_last() == v@.take(k - 1));
        k = k - 1;
    }
    assert(v@.take(k as int) == v@.subrange(0, k as int));
    text::part(v, 0, k)
}

fn declares_one(t: &Vec<Vec<char>>, key: &str) -> (r: bool)
    ensures
        r == declares(text::seqs(t@), key@),
{
    let ghost tv = text::seqs(t@);
    if t.len() < 2 {
        return false;
    }
    assert(tv[0] == t@[0]@);
    assert(tv[1] == t@[1]@);
    assert(t@.len() > 2 ==> tv[2] == t@[2]@);
    let ended: bool = t[1].len() > 0 && t[1][t[1].len() - 1] == ';';
    text::is_text(&t[0], key) && (t.len() == 2 || ended || text::is_text(&t[2], ";"))
}

impl<N: Real> Lef<N> {
    /// No layers.
    pub fn empty() -> (r: Self)
        ensures
            r.widths@ == Map::<Seq<char>, N>::empty(),
            r.thicknesses@ == Map::<Seq<char>, N>::empty(),
            tree::named_layers(r.vias@) == Map::<Seq<char>, Seq<Seq<char>>>::empty(),
    {
        let r = Lef { widths: StrMap::new(), thicknesses: StrMap::new(), vias: StrMap::new() };
        assert(tree::named_layers(r.vias@) == Map::<Seq<char>, Seq<Seq<char>>>::empty());
        r
    }

    /// Reads a LEF. What it does not know it passes over.
    pub fn parse(source: &str) -> (r: Result<Self, LefError>)
        ensures
            r is Ok,
            r->Ok_0.widths@ == reading::<N>(source@).widths,
            r->Ok_0.thicknesses@ == reading::<N>(source@).thicknesses,
            tree::named_layers(r->Ok_0.vias@) == reading::<N>(source@).vias,
    {
        let lines = text::split_lines(&text::chars_of(source));
        let ghost lv = text::seqs(lines@);
        let mut out: Lef<N> = Lef::empty();
        let mut layer: Option<Vec<char>> = None;
        let mut width: Option<N> = None;
        let mut thickness: Option<N> = None;
        let mut via: Option<(Vec<char>, Vec<String>)> = None;
        for i in 0..lines.len()
            invariant
                lv == text::seqs(lines@),
                read_upto::<N>(lv, i as int) == (LefReading {
                    widths: out.widths@,
                    thicknesses: out.thicknesses@,
                    vias: tree::named_layers(out.vias@),
                    layer: match layer {
                        Some(l) => Some(l@),
                        None => None,
                    },
                    width,
                    thickness,
                    via: match via {
                        Some((name, layers)) => Some((name@, text::texts(layers@))),
                        None => None,
                    },
                }),
        {
            let line = &lines[i];
            assert(lv[i as int] == line@);
            let cut: usize = text::find_at(line, '#', 0);
            let t = text::split_words(&text::part(line, 0, cut));
            let ghost tv = text::seqs(t@);
            assert(t@.len() > 0 ==> tv[0] == t@[0]@);
            assert(t@.len() > 1 ==> tv[1] == t@[1]@);
            if t.len() >= 2 && text::is_text(&t[0], "LAYER") {
                layer = Some(text::part(&t[1], 0, t[1].len()));
                assert(layer->0@ == tv[1]);
                width = None;
                thickness = None;
                if let Some((name, layers)) = via {
                    let mut layers = layers;
                    let l = text::string_of(&strip_semicolons(&t[1]));
                    let ghost before = text::texts(layers@);
                    let ghost v = l@;
                    layers.push(l);
                    assert(text::texts(layers@) == before.push(v));
                    via = Some((name, layers));
                }
            } else if t.len() >= 2 && text::is_text(&t[0], "VIA") {
                let name = text::part(&t[1], 0, t[1].len());
                let layers: Vec<String> = Vec::new();
                assert(name@ == tv[1]);
                assert(text::texts(layers@) == Seq::<Seq<char>>::empty());
                via = Some((name, layers));
            } else if declares_one(&t, "WIDTH") {
                width = N::parse(&strip_semicolons(&t[1]));
            } else if t.len() >= 2 && text::is_text(&t[0], "THICKNESS") {
                thickness = N::parse(&strip_semicolons(&t[1]));
            } else if t.len() >= 2 && text::is_text(&t[0], "END") {
                let closes: bool = match &layer {
                    Some(l) => text::same_chars(l, &t[1]),
                    None => false,
                };
                if closes {
                    if let Some(w) = width {
                        out.widths.insert_chars(&t[1], w);
                    }
                    if let Some(v) = thickness {
                        out.thicknesses.insert_chars(&t[1], v);
                    }
                    layer = None;
                    width = None;
                    thickness = None;
                }
                let ends: bool = match &via {
                    Some((name, _)) => text::same_chars(name, &t[1]),
                    None => false,
                };
                if ends {
                    if let Some((_, layers)) = via {
                        let ghost before = out.vias@;
                        let ghost v = layers;
                        out.vias.insert_chars(&t[1], layers);
                        assert(tree::named_layers(out.vias@) == tree::named_layers(before).insert(
                            t@[1]@,
                            text::texts(v@),
                        ));
                    }
                    via = None;
                }
            }
        }
        Ok(out)
    }

    /// The default routing width (um) of a layer; zero where it is unknown.
    pub fn width(&self, layer: &str) -> (r: N)
        ensures
            r == (if self.widths@.contains_key(layer@) {
                self.widths@[layer@]
            } else {
                number::zero()
            }),
    {
        match self.widths.get(layer) {
            Some(w) => *w,
            None => number::zero_of(),
        }
    }
}

} // verus!

//! The RC rules deck: the technology coefficients that extraction applies.
//!
//! A deck is a table of words, one rule a line; `#` starts a comment.
//!
//! ```text
//! # layer  res(ohm/um)  cap(fF/um)  [coupling(fF/um)  [s_ref(um)]]
//! met1     0.125        0.078       0.050
//! via      5.0                       # ohm of one via
//! rsheet   met1 0.125                # ohm/square
//! couple_shape met1 0.14:1.0 0.28:0.77
//! ```
use crate::number;
use crate::number::Real;
use crate::strmap::StrMap;
use crate::text;
use vstd::prelude::*;

verus! {

/// The coefficients of one layer: resistance (ohm/um), grounded capacitance
/// (fF/um), coupling (fF/um of parallel run) and the spacing (um) at which the
/// coupling is specified.
#[derive(Clone, Copy, Debug)]
pub struct LayerRc<N: Real> {
    pub res_per_um: N,
    pub cap_per_um: N,
    pub coupling_per_um: N,
    pub s_ref: N,
}

/// Coefficients of unordered pairs of layers.
#[derive(Debug)]
pub struct PairTable<N: Real> {
    entries: Vec<(String, String, N)>,
}

/// A rules deck.
#[derive(Debug)]
pub struct RcRules<N: Real> {
    pub layers: StrMap<LayerRc<N>>,
    /// Ohm of one via cut.
    pub via_res: N,
    /// The gap (um) beyond which lateral coupling is ignored.
    pub couple_cutoff: N,
    /// The effective permittivity of the field kernel; zero or less switches it
    /// off.
    pub eps_r: N,
    /// Per layer, the fall-off of coupling: `(spacing um, factor)`, ascending.
    pub couple_shapes: StrMap<Vec<(N, N)>>,
    /// The part of a net's coupling that its grounded capacitance loses.
    pub shield_k: N,
    /// Per layer, the height (um) over the ground plane.
    pub heights: StrMap<N>,
    /// Areal coupling (fF/um^2) between two layers that cross.
    pub interlayer: PairTable<N>,
    /// Per layer, the sheet resistance (ohm/square).
    pub rsheet: StrMap<N>,
}

/// What an [`RcRules`] is.
#[verifier::ext_equal]
pub struct RulesView<N: Real> {
    pub layers: Map<Seq<char>, LayerRc<N>>,
    pub via_res: N,
    pub couple_cutoff: N,
    pub eps_r: N,
    pub couple_shapes: Map<Seq<char>, Seq<(N, N)>>,
    pub shield_k: N,
    pub heights: Map<Seq<char>, N>,
    pub interlayer: Map<(Seq<char>, Seq<char>), N>,
    pub rsheet: Map<Seq<char>, N>,
}

/// Why a deck was not read.
#[derive(Debug)]
pub struct RulesError(pub String);

impl RulesError {
    /// The error as a message.
    pub fn message(&self) -> (r: String)
        ensures
            r@ == "rules error: "@ + self.0@,
    {
        let mut out = "rules error: ".to_owned();
        out.append(self.0.as_str());
        out
    }
}

/// A pair of layers with the lesser name first.
pub open spec fn pair_key(a: Seq<char>, b: Seq<char>) -> (Seq<char>, Seq<char>) {
    if text::text_lt(b, a) {
        (b, a)
    } else {
        (a, b)
    }
}

impl<N: Real> PairTable<N> {
    spec fn upto(self, n: int) -> Map<(Seq<char>, Seq<char>), N>
        decreases n,
    {
        if n <= 0 {
            Map::empty()
        } else {
            let e = self.entries@[n - 1];
            self.upto(n - 1).insert((e.0@, e.1@), e.2)
        }
    }

    pub fn new() -> (r: Self)
        ensures
            r@ == Map::<(Seq<char>, Seq<char>), N>::empty(),
    {
        PairTable { entries: Vec::new() }
    }

    proof fn lemma_upto(self, other: Self, n: int)
        requires
            0 <= n <= self.entries@.len(),
            n <= other.entries@.len(),
            forall|i: int| 0 <= i < n ==> self.entries@[i] == other.entries@[i],
        ensures
            self.upto(n) == other.upto(n),
        decreases n,
    {
        if n > 0 {
            self.lemma_upto(other, n - 1);
        }
    }

    /// Gives an unordered pair of layers a coefficient.
    pub fn insert(&mut self, a: &str, b: &str, v: N)
        ensures
            final(self)@ == old(self)@.insert(pair_key(a@, b@), v),
    {
        let ghost before = *self;
        let e = if text::comes_before(&text::chars_of(b), &text::chars_of(a)) {
            (b.to_owned(), a.to_owned(), v)
        } else {
            (a.to_owned(), b.to_owned(), v)
        };
        self.entries.push(e);
        proof {
            self.lemma_upto(before, before.entries@.len() as int);
        }
    }

    /// The coefficient of an unordered pair of layers.
    pub fn get(&self, a: &str, b: &str) -> (r: Option<N>)
        ensures
            r == (if self@.contains_key(pair_key(a@, b@)) {
                Some(self@[pair_key(a@, b@)])
            } else {
                None
            }),
    {
        let swap: bool = text::comes_before(&text::chars_of(b), &text::chars_of(a));
        let ghost key = pair_key(a@, b@);
        let mut k: usize = self.entries.len();
        while k > 0
            invariant
                k <= self.entries@.len(),
                key == pair_key(a@, b@),
                swap == text::text_lt(b@, a@),
                self.upto(k as int).contains_key(key) == self@.contains_key(key),
                self@.contains_key(key) ==> self.upto(k as int)[key] == self@[key],
            decreases k,
        {
            let e = &self.entries[k - 1];
            let hit: bool = if swap {
                text::same_text(e.0.as_str(), b) && text::same_text(e.1.as_str(), a)
            } else {
                text::same_text(e.0.as_str(), a) && text::same_text(e.1.as_str(), b)
            };
            if hit {
                return Some(e.2);
            }
            k = k - 1;
        }
        None
    }
}

impl<N: Real> View for PairTable<N> {
    type V = Map<(Seq<char>, Seq<char>), N>;

    closed spec fn view(&self) -> Map<(Seq<char>, Seq<char>), N> {
        self.upto(self.entries@.len() as int)
    }
}

/// The curves of a table, by layer.
pub open spec fn shapes_view<N: Real>(m: Map<Seq<char>, Vec<(N, N)>>) -> Map<
    Seq<char>,
    Seq<(N, N)>,
> {
    Map::new(|k: Seq<char>| m.contains_key(k), |k: Seq<char>| m[k]@)
}

impl<N: Real> View for RcRules<N> {
    type V = RulesView<N>;

    open spec fn view(&self) -> RulesView<N> {
        RulesView {
            layers: self.layers@,
            via_res: self.via_res,
            couple_cutoff: self.couple_cutoff,
            eps_r: self.eps_r,
            couple_shapes: shapes_view(self.couple_shapes@),
            shield_k: self.shield_k,
            heights: self.heights@,
            interlayer: self.interlayer@,
            rsheet: self.rsheet@,
        }
    }
}

/// The spacing (um) at which a layer's coupling is specified where the deck
/// does not say.
pub open spec fn default_s_ref<N: Real>() -> N {
    N::spec_micro(200_000)
}

/// The coupling cutoff (um) where the deck does not say.
pub open spec fn default_cutoff<N: Real>() -> N {
    N::spec_micro(2_000_000)
}

/// A deck without rules.
pub open spec fn no_rules<N: Real>() -> RulesView<N> {
    RulesView {
        layers: Map::empty(),
        via_res: number::zero(),
        couple_cutoff: default_cutoff(),
        eps_r: number::zero(),
        couple_shapes: Map::empty(),
        shield_k: number::zero(),
        heights: Map::empty(),
        interlayer: Map::empty(),
        rsheet: Map::empty(),
    }
}

/// The word at a place of a line, or the empty one.
pub open spec fn nth(t: Seq<Seq<char>>, i: int) -> Seq<char> {
    if 0 <= i < t.len() {
        t[i]
    } else {
        Seq::empty()
    }
}

/// The number that a word spells, or the message that it spells none.
pub open spec fn number<N: Real>(tok: Seq<char>, what: Seq<char>) -> Result<N, Seq<char>> {
    match N::spec_parse(tok) {
        Some(v) => Ok(v),
        None => Err(what + ": not a number: "@ + text::debug_text(tok)),
    }
}

/// The points that the words of a `couple_shape` line give from word `i` on.
pub open spec fn points<N: Real>(layer: Seq<char>, t: Seq<Seq<char>>, i: int) -> Result<
    Seq<(N, N)>,
    Seq<char>,
>
    decreases i,
{
    if i <= 2 {
        Ok(Seq::empty())
    } else {
        match points::<N>(layer, t, i - 1) {
            Err(m) => Err(m),
            Ok(s) => {
                let w = t[i - 1];
                if !text::has_char(w, ':') {
                    Err(
                        "couple_shape "@ + layer + ": expected `spacing:factor`, got "@
                            + text::debug_text(w),
                    )
                } else {
                    match number::<N>(text::before(w, ':'), layer + " couple_shape spacing"@) {
                        Err(m) => Err(m),
                        Ok(a) => match number::<N>(
                            text::after(w, ':'),
                            layer + " couple_shape factor"@,
                        ) {
                            Err(m) => Err(m),
                            Ok(b) => Ok(number::insert_ranked(s, (a, b))),
                        },
                    }
                }
            },
        }
    }
}

/// The coefficients that a layer line gives.
pub open spec fn layer_row<N: Real>(t: Seq<Seq<char>>) -> Result<LayerRc<N>, Seq<char>> {
    match number::<N>(t[1], t[0] + " res"@) {
        Err(m) => Err(m),
        Ok(res_per_um) => match number::<N>(t[2], t[0] + " cap"@) {
            Err(m) => Err(m),
            Ok(cap_per_um) => {
                let coupling = if t.len() > 3 {
                    number::<N>(t[3], t[0] + " coupling"@)
                } else {
                    Ok(number::zero())
                };
                match coupling {
                    Err(m) => Err(m),
                    Ok(coupling_per_um) => {
                        let reference = if t.len() > 4 {
                            number::<N>(t[4], t[0] + " s_ref"@)
                        } else {
                            Ok(default_s_ref())
                        };
                        match reference {
                            Err(m) => Err(m),
                            Ok(s_ref) => Ok(
                                LayerRc { res_per_um, cap_per_um, coupling_per_um, s_ref },
                            ),
                        }
                    },
                }
            },
        },
    }
}

/// The words of a deck line: without its comment, and without a leading
/// `layer`.
pub open spec fn rule_words(line: Seq<char>) -> Seq<Seq<char>> {
    let t = text::words(text::before(line, '#'));
    if t.len() > 0 && text::lower(t[0]) == "layer"@ {
        t.drop_first()
    } else {
        t
    }
}

/// The deck after the rule that the words of a line state.
pub open spec fn rule<N: Real>(r: RulesView<N>, t: Seq<Seq<char>>) -> Result<
    RulesView<N>,
    Seq<char>,
> {
    if t.len() == 0 {
        Ok(r)
    } else {
        let key = text::lower(t[0]);
        if key == "via"@ {
            match number(nth(t, 1), "via res"@) {
                Ok(via_res) => Ok(RulesView { via_res, ..r }),
                Err(m) => Err(m),
            }
        } else if key == "couple_cutoff"@ {
            match number(nth(t, 1), "couple_cutoff"@) {
                Ok(couple_cutoff) => Ok(RulesView { couple_cutoff, ..r }),
                Err(m) => Err(m),
            }
        } else if key == "eps_r"@ {
            match number(nth(t, 1), "eps_r"@) {
                Ok(eps_r) => Ok(RulesView { eps_r, ..r }),
                Err(m) => Err(m),
            }
        } else if key == "shield_k"@ {
            match number(nth(t, 1), "shield_k"@) {
                Ok(shield_k) => Ok(RulesView { shield_k, ..r }),
                Err(m) => Err(m),
            }
        } else if key == "couple_shape"@ {
            if t.len() < 3 {
                Err("couple_shape needs `layer <spacing>:<factor> ...`"@)
            } else {
                match points::<N>(t[1], t, t.len() as int) {
                    Ok(s) => Ok(
                        RulesView { couple_shapes: r.couple_shapes.insert(t[1], s), ..r },
                    ),
                    Err(m) => Err(m),
                }
            }
        } else if key == "rsheet"@ {
            if t.len() < 2 {
                Err("rsheet needs `layer <ohm/square>`"@)
            } else {
                match number(nth(t, 2), "rsheet"@) {
                    Ok(v) => Ok(RulesView { rsheet: r.rsheet.insert(t[1], v), ..r }),
                    Err(m) => Err(m),
                }
            }
        } else if key == "height"@ {
            if t.len() < 2 {
                Err("height needs `layer <um>`"@)
            } else {
                match number(nth(t, 2), "height"@) {
                    Ok(v) => Ok(RulesView { heights: r.heights.insert(t[1], v), ..r }),
                    Err(m) => Err(m),
                }
            }
        } else if key == "interlayer"@ {
            if t.len() < 3 {
                Err("interlayer needs `layerA layerB fF/um2`"@)
            } else {
                match number(nth(t, 3), "interlayer coeff"@) {
                    Ok(v) => Ok(
                        RulesView { interlayer: r.interlayer.insert(pair_key(t[1], t[2]), v), ..r },
                    ),
                    Err(m) => Err(m),
                }
            }
        } else if t.len() < 3 {
            Err(
                "layer "@ + text::debug_text(t[0])
                    + ": expected `name res cap [coupling [s_ref]]`"@,
            )
        } else {
            match layer_row::<N>(t) {
                Ok(l) => Ok(RulesView { layers: r.layers.insert(t[0], l), ..r }),
                Err(m) => Err(m),
            }
        }
    }
}

/// The deck that the first `n` lines state, or the message of the first line
/// that states no rule.
pub open spec fn deck_upto<N: Real>(lines: Seq<Seq<char>>, n: int) -> Result<
    RulesView<N>,
    Seq<char>,
>
    decreases n,
{
    if n <= 0 {
        Ok(no_rules())
    } else {
        match deck_upto(lines, n - 1) {
            Err(m) => Err(m),
            Ok(r) => rule(r, rule_words(lines[n - 1])),
        }
    }
}

/// The deck that a text states.
pub open spec fn deck<N: Real>(source: Seq<char>) -> Result<RulesView<N>, Seq<char>> {
    let lines = text::lines(source);
    match deck_upto::<N>(lines, lines.len() as int) {
        Err(m) => Err(m),
        Ok(r) => if r.layers == Map::<Seq<char>, LayerRc<N>>::empty() {
            Err("no layers defined"@)
        } else {
            Ok(r)
        },
    }
}

/// Whether an executable result is the specified one.
pub open spec fn agrees<N: Real>(r: Result<N, RulesError>, s: Result<N, Seq<char>>) -> bool {
    match (r, s) {
        (Ok(a), Ok(b)) => a == b,
        (Err(a), Err(b)) => a.0@ == b,
        _ => false,
    }
}

fn number_of<N: Real>(tok: &Vec<char>, what: String) -> (r: Result<N, RulesError>)
    ensures
        agrees(r, number::<N>(tok@, what@)),
{
    match N::parse(tok) {
        Some(v) => Ok(v),
        None => {
            let mut m = what;
            m.append(": not a number: ");
            m.append(text::debug_string(text::string_of(tok).as_str()).as_str());
            Err(RulesError(m))
        },
    }
}

/// The number in the word at `i`.
fn number_at<N: Real>(t: &Vec<Vec<char>>, i: usize, what: &str) -> (r: Result<N, RulesError>)
    ensures
        agrees(r, number::<N>(nth(text::seqs(t@), i as int), what@)),
{
    if i < t.len() {
        number_of(&t[i], what.to_owned())
    } else {
        let none: Vec<char> = Vec::new();
        assert(none@ == Seq::<char>::empty());
        number_of(&none, what.to_owned())
    }
}

fn labelled(name: &Vec<char>, what: &str) -> (r: String)
    ensures
        r@ == name@ + what@,
{
    let mut m = text::string_of(name);
    m.append(what);
    m
}

fn point<N: Real>(layer: &Vec<char>, w: &Vec<char>) -> (r: Result<(N, N), RulesError>)
    ensures
        !text::has_char(w@, ':') ==> r is Err && r->Err_0.0@ == "couple_shape "@ + layer@
            + ": expected `spacing:factor`, got "@ + text::debug_text(w@),
        text::has_char(w@, ':') ==> match (
            number::<N>(text::before(w@, ':'), layer@ + " couple_shape spacing"@),
            number::<N>(text::after(w@, ':'), layer@ + " couple_shape factor"@),
        ) {
            (Err(m), _) => r is Err && r->Err_0.0@ == m,
            (Ok(_), Err(m)) => r is Err && r->Err_0.0@ == m,
            (Ok(a), Ok(b)) => r is Ok && r->Ok_0 == (a, b),
        },
{
    let at: usize = text::find_at(w, ':', 0);
    if at >= w.len() {
        let mut m = "couple_shape ".to_owned();
        m.append(text::string_of(layer).as_str());
        m.append(": expected `spacing:factor`, got ");
        m.append(text::debug_string(text::string_of(w).as_str()).as_str());
        return Err(RulesError(m));
    }
    let a = number_of::<N>(&text::part(w, 0, at), labelled(layer, " couple_shape spacing"));
    match a {
        Err(e) => Err(e),
        Ok(x) => match number_of::<N>(
            &text::part(w, at + 1, w.len()),
            labelled(layer, " couple_shape factor"),
        ) {
            Err(e) => Err(e),
            Ok(y) => Ok((x, y)),
        },
    }
}

fn points_of<N: Real>(t: &Vec<Vec<char>>) -> (r: Result<Vec<(N, N)>, RulesError>)
    requires
        t@.len() >= 3,
    ensures
        match (r, points::<N>(t@[1]@, text::seqs(t@), t@.len() as int)) {
            (Ok(a), Ok(b)) => a@ == b,
            (Err(a), Err(b)) => a.0@ == b,
            _ => false,
        },
{
    let ghost tv = text::seqs(t@);
    let mut out: Vec<(N, N)> = Vec::new();
    let mut i: usize = 2;
    assert(out@ == Seq::<(N, N)>::empty());
    while i < t.len()
        invariant
            2 <= i <= t@.len(),
            tv == text::seqs(t@),
            points::<N>(t@[1]@, tv, i as int) == Ok::<Seq<(N, N)>, Seq<char>>(out@),
        decreases t@.len() - i,
    {
        assert(tv[i as int] == t@[i as int]@);
        match point::<N>(&t[1], &t[i]) {
            Err(e) => {
                proof {
                    lemma_points_stuck::<N>(t@[1]@, tv, i + 1, t@.len() as int);
                }
                return Err(e);
            },
            Ok(p) => {
                number::place_ranked(&mut out, p);
            },
        }
        i = i + 1;
    }
    Ok(out)
}

proof fn lemma_points_stuck<N: Real>(layer: Seq<char>, t: Seq<Seq<char>>, i: int, n: int)
    requires
        2 < i <= n,
        points::<N>(layer, t, i) is Err,
    ensures
        points::<N>(layer, t, n) == points::<N>(layer, t, i),
    decreases n - i,
{
    if i < n {
        lemma_points_stuck::<N>(layer, t, i, n - 1);
    }
}

fn layer_row_of<N: Real>(t: &Vec<Vec<char>>) -> (r: Result<LayerRc<N>, RulesError>)
    requires
        t@.len() >= 3,
    ensures
        match (r, layer_row::<N>(text::seqs(t@))) {
            (Ok(a), Ok(b)) => a == b,
            (Err(a), Err(b)) => a.0@ == b,
            _ => false,
        },
{
    let ghost tv = text::seqs(t@);
    assert(tv[0] == t@[0]@ && tv[1] == t@[1]@ && tv[2] == t@[2]@);
    assert(t@.len() > 3 ==> tv[3] == t@[3]@);
    assert(t@.len() > 4 ==> tv[4] == t@[4]@);
    let res_per_um: N = match number_of::<N>(&t[1], labelled(&t[0], " res")) {
        Ok(v) => v,
        Err(e) => {
            return Err(e);
        },
    };
    let cap_per_um: N = match number_of::<N>(&t[2], labelled(&t[0], " cap")) {
        Ok(v) => v,
        Err(e) => {
            return Err(e);
        },
    };
    let coupling_per_um: N = if t.len() > 3 {
        match number_of::<N>(&t[3], labelled(&t[0], " coupling")) {
            Ok(v) => v,
            Err(e) => {
                return Err(e);
            },
        }
    } else {
        number::zero_of()
    };
    let s_ref: N = if t.len() > 4 {
        match number_of::<N>(&t[4], labelled(&t[0], " s_ref")) {
            Ok(v) => v,
            Err(e) => {
                return Err(e);
            },
        }
    } else {
        N::micro(200_000)
    };
    Ok(LayerRc { res_per_um, cap_per_um, coupling_per_um, s_ref })
}

fn rule_words_of(line: &Vec<char>) -> (r: Vec<Vec<char>>)
    ensures
        text::seqs(r@) == rule_words(line@),
{
    let cut: usize = text::find_at(line, '#', 0);
    let mut t = text::split_words(&text::part(line, 0, cut));
    let ghost all = text::seqs(t@);
    if t.len() > 0 {
        assert(all[0] == t@[0]@);
        if text::is_text(&text::lowered(&t[0]), "layer") {
            let _ = t.remove(0);
            assert(text::seqs(t@) == all.drop_first());
        }
    }
    t
}

impl<N: Real> RcRules<N> {
    /// A deck without rules.
    pub fn empty() -> (r: Self)
        ensures
            r@ == no_rules::<N>(),
    {
        let r = RcRules {
            layers: StrMap::new(),
            via_res: number::zero_of(),
            couple_cutoff: N::micro(2_000_000),
            eps_r: number::zero_of(),
            couple_shapes: StrMap::new(),
            shield_k: number::zero_of(),
            heights: StrMap::new(),
            interlayer: PairTable::new(),
            rsheet: StrMap::new(),
        };
        assert(r@ == no_rules::<N>());
        r
    }

    /// Gives a layer a fall-off curve.
    pub fn set_shape(&mut self, layer: &Vec<char>, points: Vec<(N, N)>)
        ensures
            final(self)@ == (RulesView {
                couple_shapes: old(self)@.couple_shapes.insert(layer@, points@),
                ..old(self)@
            }),
    {
        let ghost before = self.couple_shapes@;
        let ghost p = points;
        self.couple_shapes.insert_chars(layer, points);
        assert(shapes_view(before.insert(layer@, p)) == shapes_view(before).insert(layer@, p@));
    }

    /// Takes up the rule that the words of a line state.
    fn rule(&mut self, t: &Vec<Vec<char>>) -> (r: Result<(), RulesError>)
        ensures
            match (r, rule(old(self)@, text::seqs(t@))) {
                (Ok(_), Ok(v)) => final(self)@ == v,
                (Err(m), Err(v)) => m.0@ == v,
                _ => false,
            },
    {
        let ghost tv = text::seqs(t@);
        if t.len() == 0 {
            return Ok(());
        }
        assert(tv[0] == t@[0]@);
        assert(t@.len() > 1 ==> tv[1] == t@[1]@);
        assert(t@.len() > 2 ==> tv[2] == t@[2]@);
        let key = text::lowered(&t[0]);
        if text::is_text(&key, "via") {
            match number_at::<N>(t, 1, "via res") {
                Ok(v) => {
                    self.via_res = v;
                },
                Err(e) => {
                    return Err(e);
                },
            }
        } else if text::is_text(&key, "couple_cutoff") {
            match number_at::<N>(t, 1, "couple_cutoff") {
                Ok(v) => {
                    self.couple_cutoff = v;
                },
                Err(e) => {
                    return Err(e);
                },
            }
        } else if text::is_text(&key, "eps_r") {
            match number_at::<N>(t, 1, "eps_r") {
                Ok(v) => {
                    self.eps_r = v;
                },
                Err(e) => {
                    return Err(e);
                },
            }
        } else if text::is_text(&key, "shield_k") {
            match number_at::<N>(t, 1, "shield_k") {
                Ok(v) => {
                    self.shield_k = v;
                },
                Err(e) => {
                    return Err(e);
                },
            }
        } else if text::is_text(&key, "couple_shape") {
            if t.len() < 3 {
                return Err(
                    RulesError("couple_shape needs `layer <spacing>:<factor> ...`".to_owned()),
                );
            }
            match points_of::<N>(t) {
                Ok(p) => {
                    self.set_shape(&t[1], p);
                },
                Err(e) => {
                    return Err(e);
                },
            }
        } else if text::is_text(&key, "rsheet") {
            if t.len() < 2 {
                return Err(RulesError("rsheet needs `layer <ohm/square>`".to_owned()));
            }
            match number_at::<N>(t, 2, "rsheet") {
                Ok(v) => {
                    self.rsheet.insert_chars(&t[1], v);
                },
                Err(e) => {
                    return Err(e);
                },
            }
        } else if text::is_text(&key, "height") {
            if t.len() < 2 {
                return Err(RulesError("height needs `layer <um>`".to_owned()));
            }
            match number_at::<N>(t, 2, "height") {
                Ok(v) => {
                    self.heights.insert_chars(&t[1], v);
                },
                Err(e) => {
                    return Err(e);
                },
            }
        } else if text::is_text(&key, "interlayer") {
            if t.len() < 3 {
                return Err(RulesError("interlayer needs `layerA layerB fF/um2`".to_owned()));
            }
            match number_at::<N>(t, 3, "interlayer coeff") {
                Ok(v) => {
                    self.interlayer.insert(
                        text::string_of(&t[1]).as_str(),
                        text::string_of(&t[2]).as_str(),
                        v,
                    );
                },
                Err(e) => {
                    return Err(e);
                },
            }
        } else if t.len() < 3 {
            let mut m = "layer ".to_owned();
            m.append(text::debug_string(text::string_of(&t[0]).as_str()).as_str());
            m.append(": expected `name res cap [coupling [s_ref]]`");
            return Err(RulesError(m));
        } else {
            match layer_row_of::<N>(t) {
                Ok(l) => {
                    self.layers.insert_chars(&t[0], l);
                },
                Err(e) => {
                    return Err(e);
                },
            }
        }
        Ok(())
    }

    /// Reads a deck.
    pub fn parse(source: &str) -> (r: Result<Self, RulesError>)
        ensures
            match (r, deck::<N>(source@)) {
                (Ok(d), Ok(v)) => d@ == v,
                (Err(m), Err(v)) => m.0@ == v,
                _ => false,
            },
    {
        let lines = text::split_lines(&text::chars_of(source));
        let ghost lv = text::seqs(lines@);
        let mut out = RcRules::<N>::empty();
        for i in 0..lines.len()
            invariant
                lv == text::seqs(lines@),
                lv == text::lines(source@),
                deck_upto::<N>(lv, i as int) == Ok::<RulesView<N>, Seq<char>>(out@),
        {
            assert(lv[i as int] == lines@[i as int]@);
            let t = rule_words_of(&lines[i]);
            match out.rule(&t) {
                Ok(_) => {},
                Err(e) => {
                    proof {
                        lemma_deck_stuck::<N>(lv, i + 1, lv.len() as int);
                    }
                    return Err(e);
                },
            }
        }
        if out.layers.is_empty() {
            return Err(RulesError("no layers defined".to_owned()));
        }
        Ok(out)
    }

    /// The coefficients of a layer.
    pub fn layer(&self, name: &str) -> (r: Option<&LayerRc<N>>)
        ensures
            r == (if self@.layers.contains_key(name@) {
                Some(&self@.layers[name@])
            } else {
                None
            }),
    {
        self.layers.get(name)
    }

    /// The ohm of a wire `len_um` long and `width_um` wide: by the layer's
    /// sheet resistance where it has one and the width is known, by its
    /// resistance per length otherwise.
    pub fn wire_res(&self, layer: &str, len_um: N, width_um: N) -> (r: Option<N>)
        ensures
            r == wire_res(self@, layer@, len_um, width_um),
    {
        match self.layers.get(layer) {
            None => None,
            Some(l) => match self.rsheet.get(layer) {
                Some(rs) => if number::is_positive(width_um) {
                    Some(rs.times(len_um).over(width_um))
                } else {
                    Some(len_um.times(l.res_per_um))
                },
                None => Some(len_um.times(l.res_per_um)),
            },
        }
    }

    /// The areal coupling of two layers, in either order.
    pub fn interlayer(&self, a: &str, b: &str) -> (r: Option<N>)
        ensures
            r == (if self@.interlayer.contains_key(pair_key(a@, b@)) {
                Some(self@.interlayer[pair_key(a@, b@)])
            } else {
                None
            }),
    {
        self.interlayer.get(a, b)
    }
}

proof fn lemma_deck_stuck<N: Real>(lines: Seq<Seq<char>>, i: int, n: int)
    requires
        0 < i <= n,
        deck_upto::<N>(lines, i) is Err,
    ensures
        deck_upto::<N>(lines, n) == deck_upto::<N>(lines, i),
    decreases n - i,
{
    if i < n {
        lemma_deck_stuck::<N>(lines, i, n - 1);
    }
}

/// The ohm of a wire `len_um` long and `width_um` wide: `rsheet * len / width`
/// where the layer has a sheet resistance and the width is positive, else
/// `len * res`. Nothing for a layer without a rule.
pub open spec fn wire_res<N: Real>(
    r: RulesView<N>,
    layer: Seq<char>,
    len_um: N,
    width_um: N,
) -> Option<N> {
    if !r.layers.contains_key(layer) {
        None
    } else if r.rsheet.contains_key(layer) && number::positive(width_um) {
        Some(r.rsheet[layer].spec_times(len_um).spec_over(width_um))
    } else {
        Some(len_um.spec_times(r.layers[layer].res_per_um))
    }
}

} // verus!

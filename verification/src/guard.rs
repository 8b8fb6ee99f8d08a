//! A deck that lacks numbers is refused.
//!
//! Zero parasitics are no measurement but a missing input. A run over a deck
//! with layers that have no resistance or no capacitance is refused unless it
//! is asked for, and then the result says so.
use crate::cli;
use crate::number::Real;
use crate::rules::{RcRules, RulesView};
use crate::tech;
use crate::text;
use vstd::prelude::*;

verus! {

/// The warnings on layers without resistance and layers without capacitance.
pub open spec fn warning_lines(no_r: Seq<Seq<char>>, no_c: Seq<Seq<char>>) -> Seq<Seq<char>> {
    let first = if no_r.len() > 0 {
        seq![
            "warning: no resistance for ["@ + text::join(no_r, ", "@)
                + "] — the tech LEF is geometry-only; pass --captable <rcx_rules>"@,
        ]
    } else {
        Seq::empty()
    };
    let why = if no_r.len() == 0 {
        "RC is resistance-only"@
    } else {
        "the deck carries neither R nor C for these layers"@
    };
    if no_c.len() > 0 {
        first.push(
            "warning: no capacitance for ["@ + text::join(no_c, ", "@) + "] — "@ + why
                + "; pass --captable for cap"@,
        )
    } else {
        first
    }
}

/// The remark that goes with parasitics from a deck that lacks numbers.
pub open spec fn deck_note(path: Seq<char>, no_r: nat, no_c: nat) -> Seq<char> {
    "RC deck "@ + path + " has "@ + text::nat_text(no_r) + " layer(s) with no resistance and "@
        + text::nat_text(no_c)
        + " with no capacitance; extracted parasitics are understated"@
}

/// The message that a deck is refused.
pub open spec fn refusal_text(path: Seq<char>) -> Seq<char> {
    "error: "@ + path
        + " has layers with no R and/or no C, so extraction would report parasitics that are partly or wholly zero.\n       Supply the missing numbers with --captable <rcx_rules>, or pass --allow-incomplete-rc to extract anyway and accept that the result understates parasitics."@
}

/// What becomes of a run over a deck: what is warned of, the remark that goes
/// with the result, and the message where it is refused.
#[derive(Debug)]
pub struct Guard {
    pub warnings: Vec<String>,
    pub note: Option<String>,
    pub refusal: Option<String>,
}

/// What a [`Guard`] is.
#[verifier::ext_equal]
pub struct GuardView {
    pub warnings: Seq<Seq<char>>,
    pub note: Option<Seq<char>>,
    pub refusal: Option<Seq<char>>,
}

impl View for Guard {
    type V = GuardView;

    open spec fn view(&self) -> GuardView {
        GuardView {
            warnings: text::texts(self.warnings@),
            note: cli::opt(self.note),
            refusal: cli::opt(self.refusal),
        }
    }
}

/// Whether every layer of a deck has resistance and capacitance.
pub open spec fn complete<N: Real>(r: RulesView<N>) -> bool {
    tech::no_res(r).len() == 0 && tech::no_cap(r).len() == 0
}

/// What becomes of a run over a deck.
pub open spec fn guarded<N: Real>(path: Seq<char>, r: RulesView<N>, allowed: bool) -> GuardView {
    let no_r = tech::no_res(r);
    let no_c = tech::no_cap(r);
    GuardView {
        warnings: warning_lines(no_r, no_c),
        note: if complete(r) {
            None
        } else {
            Some(deck_note(path, no_r.len(), no_c.len()))
        },
        refusal: if complete(r) || allowed {
            None
        } else {
            Some(refusal_text(path))
        },
    }
}

/// A run over a complete deck is neither warned of nor refused.
pub proof fn a_complete_deck_is_untouched<N: Real>(
    path: Seq<char>,
    r: RulesView<N>,
    allowed: bool,
)
    requires
        complete(r),
    ensures
        guarded(path, r, allowed) == (GuardView { warnings: Seq::empty(), note: None, refusal: None }),
{
}

/// A run over a deck that lacks numbers is refused unless it is allowed, and
/// where it is allowed the warning and the remark stay.
pub proof fn a_gap_is_never_silent<N: Real>(path: Seq<char>, r: RulesView<N>, allowed: bool)
    requires
        !complete(r),
    ensures
        guarded(path, r, allowed).refusal is Some <==> !allowed,
        guarded(path, r, allowed).note is Some,
        guarded(path, r, allowed).warnings.len() > 0,
{
}

fn warnings_of(no_r: &Vec<String>, no_c: &Vec<String>) -> (r: Vec<String>)
    ensures
        text::texts(r@) == warning_lines(text::texts(no_r@), text::texts(no_c@)),
{
    let ghost rv = text::texts(no_r@);
    let ghost cv = text::texts(no_c@);
    assert(rv.len() == no_r@.len() && cv.len() == no_c@.len());
    let mut out: Vec<String> = Vec::new();
    if no_r.len() > 0 {
        let mut m = "warning: no resistance for [".to_owned();
        m.append(text::join_strings(no_r, ", ").as_str());
        m.append("] — the tech LEF is geometry-only; pass --captable <rcx_rules>");
        out.push(m);
    }
    let ghost first = text::texts(out@);
    assert(first == warning_lines(rv, Seq::empty()));
    if no_c.len() > 0 {
        let mut m = "warning: no capacitance for [".to_owned();
        m.append(text::join_strings(no_c, ", ").as_str());
        m.append("] — ");
        if no_r.len() == 0 {
            m.append("RC is resistance-only");
        } else {
            m.append("the deck carries neither R nor C for these layers");
        }
        m.append("; pass --captable for cap");
        let ghost mv = m@;
        out.push(m);
        assert(text::texts(out@) == first.push(mv));
    }
    assert(text::texts(out@) == warning_lines(rv, cv));
    out
}

/// The warnings on a deck.
pub fn warnings<N: Real>(rules: &RcRules<N>) -> (r: Vec<String>)
    ensures
        text::texts(r@) == warning_lines(tech::no_res(rules@), tech::no_cap(rules@)),
{
    let (no_r, no_c) = rules.incomplete();
    warnings_of(&no_r, &no_c)
}

/// Decides on a run over the deck of a file.
pub fn rc_guard<N: Real>(path: &str, rules: &RcRules<N>, allowed: bool) -> (r: Guard)
    ensures
        r@ == guarded(path@, rules@, allowed),
{
    let (no_r, no_c) = rules.incomplete();
    assert(text::texts(no_r@).len() == no_r@.len());
    assert(text::texts(no_c@).len() == no_c@.len());
    let warnings = warnings_of(&no_r, &no_c);
    if no_r.len() == 0 && no_c.len() == 0 {
        return Guard { warnings, note: None, refusal: None };
    }
    let mut note = "RC deck ".to_owned();
    note.append(path);
    note.append(" has ");
    note.append(text::nat_string(no_r.len() as u128).as_str());
    note.append(" layer(s) with no resistance and ");
    note.append(text::nat_string(no_c.len() as u128).as_str());
    note.append(" with no capacitance; extracted parasitics are understated");
    let refusal: Option<String> = if allowed {
        None
    } else {
        let mut m = "error: ".to_owned();
        m.append(path);
        m.append(
            " has layers with no R and/or no C, so extraction would report parasitics that are partly or wholly zero.\n       Supply the missing numbers with --captable <rcx_rules>, or pass --allow-incomplete-rc to extract anyway and accept that the result understates parasitics.",
        );
        Some(m)
    };
    Guard { warnings, note: Some(note), refusal }
}

/// A character of a text in a JSON string: quotes and backslashes with a
/// backslash before them.
pub open spec fn quoted_char(c: char) -> Seq<char> {
    if c == '\\' || c == '"' {
        seq!['\\', c]
    } else {
        seq![c]
    }
}

/// The first `n` characters of a text in a JSON string.
pub open spec fn quoted_upto(s: Seq<char>, n: int) -> Seq<char>
    decreases n,
{
    if n <= 0 {
        Seq::empty()
    } else {
        quoted_upto(s, n - 1) + quoted_char(s[n - 1])
    }
}

/// Whether the first character that is no space is `c`.
pub open spec fn starts_with(s: Seq<char>, c: char) -> bool {
    text::space_end(s, 0) < s.len() && s[text::space_end(s, 0)] == c
}

/// A JSON object with a remark on its coverage at its head; what is no object
/// stays as it is.
pub open spec fn spliced(json: Seq<char>, note: Seq<char>) -> Seq<char> {
    if starts_with(json, '{') {
        let rest = json.subrange(text::space_end(json, 0) + 1, json.len() as int);
        "{\"coverage\":{\"complete\":false,\"note\":\""@ + quoted_upto(note, note.len() as int)
            + "\"}"@ + (if starts_with(rest, '}') {
            ""@
        } else {
            ","@
        }) + rest
    } else {
        json
    }
}

fn first_char(v: &Vec<char>) -> (r: usize)
    ensures
        r == text::space_end(v@, 0),
        r <= v@.len(),
{
    let mut i: usize = 0;
    while i < v.len() && text::is_space_char(v[i])
        invariant
            i <= v@.len(),
            text::space_end(v@, i as int) == text::space_end(v@, 0),
        decreases v@.len() - i,
    {
        i = i + 1;
    }
    i
}

/// Puts a remark on its coverage at the head of a JSON object.
pub fn splice_coverage(json: &str, note: &str) -> (r: String)
    ensures
        r@ == spliced(json@, note@),
{
    let v = text::chars_of(json);
    let at: usize = first_char(&v);
    if at >= v.len() || v[at] != '{' {
        return json.to_owned();
    }
    let rest = text::part(&v, at + 1, v.len());
    let mut out = "{\"coverage\":{\"complete\":false,\"note\":\"".to_owned();
    let ghost head = out@;
    let n = text::chars_of(note);
    assert(out@ == head + quoted_upto(note@, 0));
    for i in 0..n.len()
        invariant
            n@ == note@,
            out@ == head + quoted_upto(note@, i as int),
    {
        let ghost before = out@;
        if n[i] == '\\' || n[i] == '"' {
            out.push('\\');
        }
        out.push(n[i]);
        assert(out@ == before + quoted_char(note@[i as int]));
        assert(out@ == head + quoted_upto(note@, i + 1));
    }
    out.append("\"}");
    let inner: usize = first_char(&rest);
    let empty: bool = inner < rest.len() && rest[inner] == '}';
    if empty {
        out.append("");
    } else {
        out.append(",");
    }
    out.append(text::string_of(&rest).as_str());
    out
}

} // verus!

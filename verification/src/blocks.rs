//! What the blocks of a LEF declare: the width and the thickness of a layer, and the
//! layers of a via.
use crate::lef;
use crate::number::Real;
use crate::text;
use vstd::prelude::*;

verus! {

/// The words of a line before its comment.
pub open spec fn words_of(line: Seq<char>) -> Seq<Seq<char>> {
    text::words(text::before(line, '#'))
}

/// Whether a line leads with a keyword that something follows.
pub open spec fn leads(line: Seq<char>, key: Seq<char>) -> bool {
    words_of(line).len() >= 2 && words_of(line)[0] == key
}

/// Whether a line closes a block with a name.
pub open spec fn closes(line: Seq<char>, name: Seq<char>) -> bool {
    leads(line, "END"@) && words_of(line)[1] == name
}

/// Whether a line states one width: nothing but a semicolon follows the value.
pub open spec fn states_width(line: Seq<char>) -> bool {
    let t = words_of(line);
    leads(line, "WIDTH"@) && (t.len() == 2 || t[2] == ";"@ || t[1].len() > 0 && t[1].last() == ';')
}

/// Whether a word spells a value, with or without a semicolon after it.
pub open spec fn spells<N: Real>(word: Seq<char>, v: N) -> bool {
    &&& word.len() > 0 && word.last() != ';' ==> N::spec_parse(word) == Some(v)
    &&& forall|w: Seq<char>|
        w.len() > 0 && w.last() != ';' && word == #[trigger] w.push(';') ==> N::spec_parse(w)
            == Some(v)
}

proof fn lemma_keywords()
    ensures
        "LAYER"@ != "VIA"@ && "LAYER"@ != "WIDTH"@ && "LAYER"@ != "THICKNESS"@ && "LAYER"@
            != "END"@,
        "VIA"@ != "WIDTH"@ && "VIA"@ != "THICKNESS"@ && "VIA"@ != "END"@,
        "WIDTH"@ != "THICKNESS"@ && "WIDTH"@ != "END"@ && "THICKNESS"@ != "END"@,
{
    reveal_strlit("LAYER");
    reveal_strlit("VIA");
    reveal_strlit("WIDTH");
    reveal_strlit("THICKNESS");
    reveal_strlit("END");
    assert("LAYER"@.len() == 5 && "VIA"@.len() == 3 && "WIDTH"@.len() == 5 && "THICKNESS"@.len()
        == 9 && "END"@.len() == 3);
    assert("LAYER"@[0] == 'L' && "WIDTH"@[0] == 'W' && "VIA"@[0] == 'V' && "END"@[0] == 'E');
}

/// What an open layer has declared.
#[verifier::rlimit(50)]
proof fn lemma_open<N: Real>(lines: Seq<Seq<char>>, a: int, k: int, n: int)
    requires
        0 <= a < n <= lines.len(),
        leads(lines[a], "LAYER"@),
        forall|j: int|
            a < j < n ==> !leads(#[trigger] lines[j], "LAYER"@) && !closes(
                lines[j],
                words_of(lines[a])[1],
            ),
    ensures
        ({
            let r = lef::read_upto::<N>(lines, n);
            &&& r.layer == Some(words_of(lines[a])[1])
            &&& a < k < n && states_width(lines[k]) && (forall|j: int|
                k < j < n ==> !states_width(#[trigger] lines[j])) ==> r.width == N::spec_parse(
                lef::without_semicolons(words_of(lines[k])[1]),
            )
            &&& a < k < n && leads(lines[k], "THICKNESS"@) && (forall|j: int|
                k < j < n ==> !leads(#[trigger] lines[j], "THICKNESS"@)) ==> r.thickness
                == N::spec_parse(lef::without_semicolons(words_of(lines[k])[1]))
            &&& (forall|j: int| a < j < n ==> !states_width(#[trigger] lines[j])) ==> r.width
                is None
            &&& (forall|j: int| a < j < n ==> !leads(#[trigger] lines[j], "THICKNESS"@))
                ==> r.thickness is None
        }),
    decreases n,
{
    lemma_keywords();
    if n > a + 1 {
        lemma_open::<N>(lines, a, k, n - 1);
        let t = words_of(lines[n - 1]);
        let b = lef::read_upto::<N>(lines, n - 1);
        assert(lef::read_upto::<N>(lines, n) == lef::read_line(b, t));
        assert(!leads(lines[n - 1], "LAYER"@));
        assert(!closes(lines[n - 1], words_of(lines[a])[1]));
        if k == n - 1 {
            assert(states_width(lines[k]) ==> lef::declares(t, "WIDTH"@));
        }
    } else {
        let t = words_of(lines[a]);
        let b = lef::read_upto::<N>(lines, a);
        assert(lef::read_upto::<N>(lines, n) == lef::read_line(b, t));
    }
}

proof fn lemma_spells<N: Real>(word: Seq<char>, v: N)
    requires
        N::spec_parse(lef::without_semicolons(word)) == Some(v),
    ensures
        spells(word, v),
{
    assert forall|w: Seq<char>|
        w.len() > 0 && w.last() != ';' && word == #[trigger] w.push(';') implies N::spec_parse(w)
        == Some(v) by {
        assert(word.drop_last() == w);
        reveal_with_fuel(lef::without_semicolons, 3);
    }
}

/// A layer has the width and the thickness that its block declares last: what stands
/// between `LAYER` and `END` with its name. It keeps them until a block of its name is
/// closed again. What the block does not declare it does not change.
#[verifier::rlimit(50)]
pub proof fn a_layer_has_what_its_block_declares<N: Real>(
    lines: Seq<Seq<char>>,
    a: int,
    b: int,
    k: int,
    n: int,
)
    requires
        0 <= a < b < n <= lines.len(),
        leads(lines[a], "LAYER"@),
        closes(lines[b], words_of(lines[a])[1]),
        forall|j: int|
            a < j < b ==> !leads(#[trigger] lines[j], "LAYER"@) && !closes(
                lines[j],
                words_of(lines[a])[1],
            ),
        forall|j: int| b < j < n ==> !closes(#[trigger] lines[j], words_of(lines[a])[1]),
    ensures
        ({
            let name = words_of(lines[a])[1];
            let before = lef::read_upto::<N>(lines, b);
            let r = lef::read_upto::<N>(lines, n);
            let word = words_of(lines[k])[1];
            &&& a < k < b && states_width(lines[k]) && (forall|j: int|
                k < j < b ==> !states_width(#[trigger] lines[j])) && N::spec_parse(
                lef::without_semicolons(word),
            ) is Some ==> r.widths.contains_key(name) && spells(word, r.widths[name])
            &&& a < k < b && leads(lines[k], "THICKNESS"@) && (forall|j: int|
                k < j < b ==> !leads(#[trigger] lines[j], "THICKNESS"@)) && N::spec_parse(
                lef::without_semicolons(word),
            ) is Some ==> r.thicknesses.contains_key(name) && spells(word, r.thicknesses[name])
            &&& (forall|j: int| a < j < b ==> !states_width(#[trigger] lines[j]))
                ==> r.widths.contains_key(name) == before.widths.contains_key(name)
                && r.widths[name] == before.widths[name]
            &&& (forall|j: int| a < j < b ==> !leads(#[trigger] lines[j], "THICKNESS"@))
                ==> r.thicknesses.contains_key(name) == before.thicknesses.contains_key(name)
                && r.thicknesses[name] == before.thicknesses[name]
        }),
{
    let name = words_of(lines[a])[1];
    let word = words_of(lines[k])[1];
    lemma_keywords();
    lemma_open::<N>(lines, a, k, b);
    let before = lef::read_upto::<N>(lines, b);
    let after = lef::read_upto::<N>(lines, b + 1);
    assert(after == lef::read_line(before, words_of(lines[b])));
    lemma_kept::<N>(lines, b + 1, n, name);
    if N::spec_parse(lef::without_semicolons(word)) is Some {
        lemma_spells(word, N::spec_parse(lef::without_semicolons(word))->0);
    }
}

proof fn lemma_kept<N: Real>(lines: Seq<Seq<char>>, m: int, n: int, name: Seq<char>)
    requires
        0 <= m <= n <= lines.len(),
        forall|j: int| m <= j < n ==> !closes(#[trigger] lines[j], name),
    ensures
        ({
            let (a, b) = (lef::read_upto::<N>(lines, m), lef::read_upto::<N>(lines, n));
            &&& b.widths.contains_key(name) == a.widths.contains_key(name) && b.widths[name]
                == a.widths[name]
            &&& b.thicknesses.contains_key(name) == a.thicknesses.contains_key(name)
                && b.thicknesses[name] == a.thicknesses[name]
            &&& b.vias.contains_key(name) == a.vias.contains_key(name) && b.vias[name]
                == a.vias[name]
        }),
    decreases n - m,
{
    if m < n {
        lemma_kept::<N>(lines, m, n - 1, name);
        lemma_keywords();
        assert(!closes(lines[n - 1], name));
        assert(lef::read_upto::<N>(lines, n) == lef::read_line(
            lef::read_upto::<N>(lines, n - 1),
            words_of(lines[n - 1]),
        ));
    }
}

/// The layers that the lines from `a` up to `n` name.
pub open spec fn named_layers(lines: Seq<Seq<char>>, a: int, n: int) -> Seq<Seq<char>>
    decreases n,
{
    if n <= a || n <= 0 {
        Seq::empty()
    } else if leads(lines[n - 1], "LAYER"@) {
        named_layers(lines, a, n - 1).push(lef::without_semicolons(words_of(lines[n - 1])[1]))
    } else {
        named_layers(lines, a, n - 1)
    }
}

/// A via has the layers that its block names, in order: those of the `LAYER` lines
/// between `VIA` and `END` with its name, until a block of its name is closed again.
pub proof fn a_via_has_the_layers_of_its_block<N: Real>(
    lines: Seq<Seq<char>>,
    a: int,
    b: int,
    n: int,
)
    requires
        0 <= a < b < n <= lines.len(),
        leads(lines[a], "VIA"@),
        closes(lines[b], words_of(lines[a])[1]),
        forall|j: int|
            a < j < b ==> !leads(#[trigger] lines[j], "VIA"@) && !closes(
                lines[j],
                words_of(lines[a])[1],
            ),
        forall|j: int| b < j < n ==> !closes(#[trigger] lines[j], words_of(lines[a])[1]),
    ensures
        ({
            let name = words_of(lines[a])[1];
            let r = lef::read_upto::<N>(lines, n);
            r.vias.contains_key(name) && r.vias[name] == named_layers(lines, a + 1, b)
        }),
{
    let name = words_of(lines[a])[1];
    lemma_keywords();
    lemma_open_via::<N>(lines, a, b);
    let before = lef::read_upto::<N>(lines, b);
    assert(lef::read_upto::<N>(lines, b + 1) == lef::read_line(before, words_of(lines[b])));
    lemma_kept::<N>(lines, b + 1, n, name);
}

proof fn lemma_open_via<N: Real>(lines: Seq<Seq<char>>, a: int, n: int)
    requires
        0 <= a < n <= lines.len(),
        leads(lines[a], "VIA"@),
        forall|j: int|
            a < j < n ==> !leads(#[trigger] lines[j], "VIA"@) && !closes(
                lines[j],
                words_of(lines[a])[1],
            ),
    ensures
        lef::read_upto::<N>(lines, n).via == Some(
            (words_of(lines[a])[1], named_layers(lines, a + 1, n)),
        ),
    decreases n,
{
    lemma_keywords();
    if n > a + 1 {
        lemma_open_via::<N>(lines, a, n - 1);
        assert(!leads(lines[n - 1], "VIA"@) && !closes(lines[n - 1], words_of(lines[a])[1]));
        assert(lef::read_upto::<N>(lines, n) == lef::read_line(
            lef::read_upto::<N>(lines, n - 1),
            words_of(lines[n - 1]),
        ));
    } else {
        assert(lef::read_upto::<N>(lines, n) == lef::read_line(
            lef::read_upto::<N>(lines, a),
            words_of(lines[a]),
        ));
    }
}

} // verus!

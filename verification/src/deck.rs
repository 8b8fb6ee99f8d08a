//! Decks written out as text.
use crate::number;
use crate::number::{Fixed, Real};
use crate::rules;
use crate::rules::{LayerRc, RcRules, RulesView};
use crate::strmap;
use crate::text;
use vstd::prelude::*;

verus! {

/// The text of the first `n` lines, each with the line feed that ends it.
pub open spec fn joined_upto(lines: Seq<Seq<char>>, n: int) -> Seq<char>
    decreases n,
{
    if n <= 0 {
        Seq::empty()
    } else {
        joined_upto(lines, n - 1) + lines[n - 1].push('\n')
    }
}

/// The text of lines, each with the line feed that ends it.
pub open spec fn joined(lines: Seq<Seq<char>>) -> Seq<char> {
    joined_upto(lines, lines.len() as int)
}

/// The first `n` words with one space between any two.
pub open spec fn spaced_upto(words: Seq<Seq<char>>, n: int) -> Seq<char>
    decreases n,
{
    if n <= 0 {
        Seq::empty()
    } else if n == 1 {
        words[0]
    } else {
        spaced_upto(words, n - 1).push(' ') + words[n - 1]
    }
}

/// The line of words, with one space between any two.
pub open spec fn spaced(words: Seq<Seq<char>>) -> Seq<char> {
    spaced_upto(words, words.len() as int)
}

/// The comments that a deck begins with.
pub open spec fn heading() -> Seq<Seq<char>> {
    seq![
        "# vyges-extract RC rules — DERIVED from the PDK tech LEF; do not hand-edit."@,
        "# Regenerate with `vyges-extract run <job> --pdk <name> --refresh`."@,
        "# layer  res(ohm/um)  cap(fF/um)  coupling(fF/um)  s_ref(um)"@,
    ]
}

/// The words of a layer's rule.
pub open spec fn layer_words<N: Real>(name: Seq<char>, l: LayerRc<N>) -> Seq<Seq<char>> {
    seq![
        name,
        l.res_per_um.spec_show(),
        l.cap_per_um.spec_show(),
        l.coupling_per_um.spec_show(),
        l.s_ref.spec_show(),
    ]
}

/// The words of the rules of a deck: its layers by name, its via, its cutoff, and
/// its sheet resistances by name.
pub open spec fn deck_words<N: Real>(r: RulesView<N>) -> Seq<Seq<Seq<char>>> {
    let layers = strmap::walk(r.layers);
    let sheets = strmap::walk(r.rsheet);
    Seq::new(layers.len(), |i: int| layer_words(layers[i], r.layers[layers[i]])) + seq![
        seq!["via"@, r.via_res.spec_show()],
        seq!["couple_cutoff"@, r.couple_cutoff.spec_show()],
    ] + Seq::new(
        sheets.len(),
        |i: int| seq!["rsheet"@, sheets[i], r.rsheet[sheets[i]].spec_show()],
    )
}

/// The lines of a deck: the heading, then one for each rule.
pub open spec fn deck_lines<N: Real>(r: RulesView<N>) -> Seq<Seq<char>> {
    let w = deck_words(r);
    heading() + Seq::new(w.len(), |i: int| spaced(w[i]))
}

/// The text of a deck.
pub open spec fn deck_text<N: Real>(r: RulesView<N>) -> Seq<char> {
    joined(deck_lines(r))
}

/// The line of words.
fn spaced_string(words: &Vec<String>) -> (r: String)
    ensures
        r@ == spaced(text::texts(words@)),
{
    let ghost w = text::texts(words@);
    let mut out = String::new();
    assert(out@ == spaced_upto(w, 0));
    for i in 0..words.len()
        invariant
            w == text::texts(words@),
            out@ == spaced_upto(w, i as int),
    {
        if i > 0 {
            out.push(' ');
        } else {
            assert(w[0] == Seq::<char>::empty() + w[0]);
        }
        out.append(words[i].as_str());
    }
    out
}

/// Writes a line after the others.
fn write_line(out: &mut String, line: &str, Ghost(lines): Ghost<Seq<Seq<char>>>)
    requires
        old(out)@ == joined(lines),
    ensures
        final(out)@ == joined(lines.push(line@)),
{
    out.append(line);
    out.push('\n');
    proof {
        lemma_joined_push(lines, line@);
    }
}

proof fn lemma_joined_push(lines: Seq<Seq<char>>, line: Seq<char>)
    ensures
        joined(lines.push(line)) == (joined(lines) + line).push('\n'),
{
    lemma_joined_same(lines.push(line), lines, lines.len() as int);
    assert(joined(lines.push(line)) == joined(lines) + line.push('\n'));
    assert(joined(lines) + line.push('\n') == (joined(lines) + line).push('\n'));
}

proof fn lemma_joined_same(a: Seq<Seq<char>>, b: Seq<Seq<char>>, n: int)
    requires
        0 <= n <= a.len(),
        n <= b.len(),
        forall|i: int| 0 <= i < n ==> a[i] == b[i],
    ensures
        joined_upto(a, n) == joined_upto(b, n),
    decreases n,
{
    if n > 0 {
        lemma_joined_same(a, b, n - 1);
    }
}

impl<N: Real> RcRules<N> {
    /// The deck as text: its layers, its via, its cutoff and its sheet
    /// resistances.
    pub fn to_deck(&self) -> (r: String)
        ensures
            r@ == deck_text(self@),
    {
        let ghost v = self@;
        let ghost all = deck_words(v);
        let ghost lines = deck_lines(v);
        let ghost layers = strmap::walk(v.layers);
        let ghost sheets = strmap::walk(v.rsheet);
        let mut out = String::new();
        assert(out@ == joined(Seq::<Seq<char>>::empty()));
        write_line(
            &mut out,
            "# vyges-extract RC rules — DERIVED from the PDK tech LEF; do not hand-edit.",
            Ghost(Seq::<Seq<char>>::empty()),
        );
        assert(Seq::<Seq<char>>::empty().push(heading()[0]) == heading().take(1));
        write_line(
            &mut out,
            "# Regenerate with `vyges-extract run <job> --pdk <name> --refresh`.",
            Ghost(heading().take(1)),
        );
        assert(heading().take(1).push(heading()[1]) == heading().take(2));
        write_line(
            &mut out,
            "# layer  res(ohm/um)  cap(fF/um)  coupling(fF/um)  s_ref(um)",
            Ghost(heading().take(2)),
        );
        assert(heading().take(2).push(heading()[2]) == lines.take(3));
        let n: usize = self.layers.len();
        for i in 0..n
            invariant
                v == self@,
                all == deck_words(v),
                lines == deck_lines(v),
                layers == strmap::walk(v.layers),
                layers == self.layers.keys(),
                n == layers.len(),
                out@ == joined(lines.take(3 + i)),
        {
            let l = self.layers.value_at(i);
            let words: Vec<String> = vec![
                text::string_of(self.layers.key_at(i)),
                l.res_per_um.show(),
                l.cap_per_um.show(),
                l.coupling_per_um.show(),
                l.s_ref.show(),
            ];
            assert(text::texts(words@) == all[i as int]);
            let line = spaced_string(&words);
            write_line(&mut out, line.as_str(), Ghost(lines.take(3 + i)));
            assert(lines.take(3 + i).push(line@) == lines.take(3 + i + 1));
        }
        let via: Vec<String> = vec!["via".to_owned(), self.via_res.show()];
        assert(text::texts(via@) == all[n as int]);
        let line = spaced_string(&via);
        write_line(&mut out, line.as_str(), Ghost(lines.take(3 + n)));
        assert(lines.take(3 + n).push(line@) == lines.take(3 + n + 1));
        let cutoff: Vec<String> = vec!["couple_cutoff".to_owned(), self.couple_cutoff.show()];
        assert(text::texts(cutoff@) == all[n + 1]);
        let line = spaced_string(&cutoff);
        write_line(&mut out, line.as_str(), Ghost(lines.take(3 + n + 1)));
        assert(lines.take(3 + n + 1).push(line@) == lines.take(3 + n + 2));
        let m: usize = self.rsheet.len();
        for i in 0..m
            invariant
                v == self@,
                all == deck_words(v),
                lines == deck_lines(v),
                layers == strmap::walk(v.layers),
                n == layers.len(),
                sheets == strmap::walk(v.rsheet),
                sheets == self.rsheet.keys(),
                m == sheets.len(),
                out@ == joined(lines.take(3 + n + 2 + i)),
        {
            let words: Vec<String> = vec![
                "rsheet".to_owned(),
                text::string_of(self.rsheet.key_at(i)),
                self.rsheet.value_at(i).show(),
            ];
            assert(text::texts(words@) == all[n + 2 + i]);
            let line = spaced_string(&words);
            write_line(&mut out, line.as_str(), Ghost(lines.take(3 + n + 2 + i)));
            assert(lines.take(3 + n + 2 + i).push(line@) == lines.take(3 + n + 2 + i + 1));
        }
        assert(lines.take(3 + n + 2 + m) == lines);
        out
    }
}

/// Whether a text is one word that a deck takes as it is: no spaces, and
/// nothing that starts a comment.
pub open spec fn is_word(w: Seq<char>) -> bool {
    &&& w.len() > 0
    &&& forall|i: int| 0 <= i < w.len() ==> !text::is_space(#[trigger] w[i]) && w[i] != '#'
}

/// Whether a word, in lower case, starts a rule that is none of a layer.
pub open spec fn is_keyword(w: Seq<char>) -> bool {
    ||| w == "layer"@
    ||| w == "via"@
    ||| w == "couple_cutoff"@
    ||| w == "eps_r"@
    ||| w == "shield_k"@
    ||| w == "couple_shape"@
    ||| w == "rsheet"@
    ||| w == "height"@
    ||| w == "interlayer"@
}

/// Whether the numeral of a value spells the value, and is a word.
pub open spec fn reads_back<N: Real>(v: N) -> bool {
    &&& N::spec_parse(v.spec_show()) == Some(v)
    &&& is_word(v.spec_show())
}

/// Every fixed-point number reads back.
pub proof fn fixed_reads_back(v: Fixed)
    ensures
        reads_back(v),
{
    number::a_numeral_reads_back(v);
    let s = v.spec_show();
    assert forall|i: int| 0 <= i < s.len() implies !text::is_space(#[trigger] s[i]) && s[i]
        != '#' by {
        assert(text::is_digit(s[i]) || s[i] == '.' || s[i] == '-');
    }
}

/// Whether a layer has a name that is a word and no keyword, and values that
/// read back.
pub open spec fn layer_writable<N: Real>(name: Seq<char>, l: LayerRc<N>) -> bool {
    &&& is_word(name)
    &&& !is_keyword(text::lower(name))
    &&& reads_back(l.res_per_um)
    &&& reads_back(l.cap_per_um)
    &&& reads_back(l.coupling_per_um)
    &&& reads_back(l.s_ref)
}

/// Whether a deck can be written: it has a layer, and names and values that can
/// be.
pub open spec fn writable<N: Real>(r: RulesView<N>) -> bool {
    &&& strmap::walks(strmap::walk(r.layers), r.layers)
    &&& strmap::walks(strmap::walk(r.rsheet), r.rsheet)
    &&& exists|k: Seq<char>| r.layers.contains_key(k)
    &&& forall|k: Seq<char>| #[trigger]
        r.layers.contains_key(k) ==> layer_writable(k, r.layers[k])
    &&& forall|k: Seq<char>| #[trigger]
        r.rsheet.contains_key(k) ==> is_word(k) && reads_back(r.rsheet[k])
    &&& reads_back(r.via_res)
    &&& reads_back(r.couple_cutoff)
}

/// What of a deck its text holds.
pub open spec fn written<N: Real>(r: RulesView<N>) -> RulesView<N> {
    RulesView {
        layers: r.layers,
        via_res: r.via_res,
        couple_cutoff: r.couple_cutoff,
        rsheet: r.rsheet,
        ..rules::no_rules()
    }
}

/// A deck that is written out and read again has the layers, the via, the cutoff
/// and the sheet resistances that it had.
pub proof fn a_deck_reads_back<N: Real>(r: RulesView<N>)
    requires
        writable(r),
    ensures
        rules::deck::<N>(deck_text(r)) == Ok::<RulesView<N>, Seq<char>>(written(r)),
{
    let w = deck_words(r);
    let lines = deck_lines(r);
    let a = strmap::walk(r.layers).len() as int;
    let b = strmap::walk(r.rsheet).len() as int;
    lemma_heading();
    assert forall|i: int| 0 <= i < w.len() implies forall|j: int|
        0 <= j < (#[trigger] w[i]).len() ==> is_word(#[trigger] w[i][j]) by {
        lemma_deck_words(r, i);
    }
    assert forall|i: int| 0 <= i < lines.len() implies no_break(#[trigger] lines[i]) by {
        if i >= 3 {
            lemma_spaced_no_break(w[i - 3], w[i - 3].len() as int);
        }
    }
    lemma_lines_joined(lines, 0);
    assert(lines.skip(0) == lines);
    lemma_read_layers(r, a);
    lemma_read_via(r);
    lemma_read_sheets(r, b);
    assert(lines.len() == 3 + a + 2 + b);
    assert(text::lines(deck_text(r)) == lines);
    lemma_upto_all(r.layers);
    lemma_upto_all(r.rsheet);
    assert(rules::deck_upto::<N>(lines, lines.len() as int) == Ok::<RulesView<N>, Seq<char>>(
        written(r),
    ));
    let k = choose|k: Seq<char>| r.layers.contains_key(k);
    assert(r.layers != Map::<Seq<char>, LayerRc<N>>::empty());
}

/// The map of the first `n` keys of a walk.
spec fn first<T>(m: Map<Seq<char>, T>, n: int) -> Map<Seq<char>, T>
    decreases n,
{
    if n <= 0 {
        Map::empty()
    } else {
        first(m, n - 1).insert(strmap::walk(m)[n - 1], m[strmap::walk(m)[n - 1]])
    }
}

proof fn lemma_first<T>(m: Map<Seq<char>, T>, n: int, k: Seq<char>)
    requires
        0 <= n <= strmap::walk(m).len(),
    ensures
        first(m, n).contains_key(k) <==> exists|i: int| 0 <= i < n && #[trigger] strmap::walk(m)[i]
            == k,
        first(m, n).contains_key(k) ==> first(m, n)[k] == m[k],
    decreases n,
{
    if n > 0 {
        lemma_first(m, n - 1, k);
        let s = strmap::walk(m);
        if s[n - 1] == k {
            assert(0 <= n - 1 < n && s[n - 1] == k);
        }
        if exists|i: int| 0 <= i < n && #[trigger] s[i] == k {
            let i = choose|i: int| 0 <= i < n && #[trigger] s[i] == k;
            if i < n - 1 {
                assert(0 <= i < n - 1 && s[i] == k);
            }
        }
    }
}

proof fn lemma_upto_all<T>(m: Map<Seq<char>, T>)
    requires
        strmap::walks(strmap::walk(m), m),
    ensures
        first(m, strmap::walk(m).len() as int) == m,
{
    let s = strmap::walk(m);
    let f = first(m, s.len() as int);
    assert forall|k: Seq<char>| #[trigger] f.contains_key(k) <==> m.contains_key(k) by {
        lemma_first(m, s.len() as int, k);
        if m.contains_key(k) {
            assert(s.contains(k));
            assert(s[s.index_of(k)] == k);
        }
        if exists|i: int| 0 <= i < s.len() && #[trigger] s[i] == k {
            assert(s.contains(k));
        }
    }
    assert forall|k: Seq<char>| f.contains_key(k) implies #[trigger] f[k] == m[k] by {
        lemma_first(m, s.len() as int, k);
    }
    assert(f == m);
}

/// Whether a text is one line.
spec fn no_break(s: Seq<char>) -> bool {
    &&& forall|i: int| 0 <= i < s.len() ==> #[trigger] s[i] != '\n'
    &&& forall|i: int| 0 <= i < s.len() ==> #[trigger] s[i] != '\r'
}

proof fn lemma_heading()
    ensures
        forall|i: int|
            0 <= i < 3 ==> no_break(#[trigger] heading()[i]) && heading()[i].len() > 0
                && heading()[i][0] == '#',
{
    reveal_strlit("# vyges-extract RC rules — DERIVED from the PDK tech LEF; do not hand-edit.");
    reveal_strlit("# Regenerate with `vyges-extract run <job> --pdk <name> --refresh`.");
    reveal_strlit("# layer  res(ohm/um)  cap(fF/um)  coupling(fF/um)  s_ref(um)");
}

proof fn lemma_joined_prefix(lines: Seq<Seq<char>>, k: int, n: int)
    requires
        0 <= k <= n <= lines.len(),
    ensures
        joined_upto(lines, k).len() <= joined_upto(lines, n).len(),
        joined_upto(lines, n).take(joined_upto(lines, k).len() as int) == joined_upto(lines, k),
    decreases n - k,
{
    if k < n {
        lemma_joined_prefix(lines, k, n - 1);
        let j = joined_upto(lines, n - 1);
        let a = joined_upto(lines, k).len() as int;
        assert(joined_upto(lines, n).take(a) == j.take(a));
    }
}

/// The lines of joined lines are these lines.
proof fn lemma_lines_joined(lines: Seq<Seq<char>>, k: int)
    requires
        0 <= k <= lines.len(),
        forall|i: int| 0 <= i < lines.len() ==> no_break(#[trigger] lines[i]),
    ensures
        text::lines_from(joined(lines), joined_upto(lines, k).len() as int) == lines.skip(k),
    decreases lines.len() - k,
{
    let s = joined(lines);
    let p = joined_upto(lines, k).len() as int;
    lemma_joined_prefix(lines, k, lines.len() as int);
    if k < lines.len() {
        lemma_lines_joined(lines, k + 1);
        lemma_joined_prefix(lines, k + 1, lines.len() as int);
        let l = lines[k];
        let q = joined_upto(lines, k + 1).len() as int;
        assert(q == p + l.len() + 1);
        assert(s.subrange(p, q) == l.push('\n')) by {
            let t = s.take(q);
            assert(t == joined_upto(lines, k) + l.push('\n'));
            assert(t.subrange(p, q) == l.push('\n'));
            assert(s.subrange(p, q) == t.subrange(p, q));
        }
        assert forall|i: int| p <= i < q - 1 implies #[trigger] s[i] != '\n' by {
            assert(s[i] == s.subrange(p, q)[i - p]);
            assert(s[i] == l[i - p]);
        }
        assert(s[q - 1] == s.subrange(p, q)[q - 1 - p]);
        text::lemma_find_is(s, '\n', p, q - 1);
        assert(s.subrange(p, q - 1) == l) by {
            assert forall|i: int| 0 <= i < l.len() implies s.subrange(p, q - 1)[i] == l[i] by {
                assert(s.subrange(p, q)[i] == l[i]);
            }
        }
        if l.len() > 0 {
            assert(l[l.len() - 1] != '\r');
        }
        assert(text::chomp(l) == l);
        assert(lines.skip(k) == seq![l] + lines.skip(k + 1));
    } else {
        assert(lines.skip(k) == Seq::<Seq<char>>::empty());
    }
}

proof fn lemma_spaced_no_break(words: Seq<Seq<char>>, n: int)
    requires
        0 <= n <= words.len(),
        forall|i: int| 0 <= i < words.len() ==> is_word(#[trigger] words[i]),
    ensures
        no_break(spaced_upto(words, n)),
        forall|i: int| 0 <= i < spaced_upto(words, n).len() ==> spaced_upto(words, n)[i] != '#',
    decreases n,
{
    if n > 0 {
        lemma_spaced_no_break(words, n - 1);
        let w = words[n - 1];
        assert(is_word(w));
        let s = spaced_upto(words, n);
        if n == 1 {
            assert forall|i: int| 0 <= i < s.len() implies #[trigger] s[i] != '\n' && s[i] != '\r'
                && s[i] != '#' by {
                assert(!text::is_space(w[i]));
            }
        } else {
            let t = spaced_upto(words, n - 1);
            assert forall|i: int| 0 <= i < s.len() implies #[trigger] s[i] != '\n' && s[i] != '\r'
                && s[i] != '#' by {
                if i < t.len() {
                    assert(s[i] == t[i]);
                } else if i > t.len() {
                    assert(s[i] == w[i - t.len() - 1]);
                    assert(!text::is_space(w[i - t.len() - 1]));
                }
            }
        }
    }
}

/// The words of spaced words are these words.
proof fn lemma_words_spaced(words: Seq<Seq<char>>, k: int)
    requires
        0 <= k <= words.len(),
        forall|i: int| 0 <= i < words.len() ==> is_word(#[trigger] words[i]),
    ensures
        text::words_from(spaced(words), spaced_upto(words, k).len() as int) == words.skip(k),
    decreases words.len() - k,
{
    let s = spaced(words);
    let n = words.len() as int;
    let p = spaced_upto(words, k).len() as int;
    lemma_spaced_prefix(words, k, n);
    if k < n {
        lemma_words_spaced(words, k + 1);
        lemma_spaced_prefix(words, k + 1, n);
        let w = words[k];
        assert(is_word(w));
        let q = spaced_upto(words, k + 1).len() as int;
        let a = q - w.len();
        let t = s.take(q);
        assert(t == spaced_upto(words, k + 1));
        assert(t.subrange(a, q) == w);
        assert(s.subrange(a, q) == t.subrange(a, q));
        if k > 0 {
            assert(a == p + 1);
            assert(t[p] == ' ');
            assert(s[p] == t[p]);
        }
        assert(s[a] == s.subrange(a, q)[0]);
        assert(!text::is_space(w[0]));
        lemma_space_end_at(s, p, a);
        assert forall|i: int| a <= i < q implies !text::is_space(#[trigger] s[i]) by {
            assert(s[i] == s.subrange(a, q)[i - a]);
            assert(!text::is_space(w[i - a]));
        }
        if q < s.len() {
            lemma_spaced_prefix(words, k + 2, n);
            assert(s[q] == s.take(spaced_upto(words, k + 2).len() as int)[q]);
            assert(spaced_upto(words, k + 2)[q] == ' ');
        }
        lemma_word_end_at(s, a, q);
        assert(words.skip(k) == seq![w] + words.skip(k + 1));
    } else {
        assert(text::space_end(s, p) == p);
        assert(words.skip(k) == Seq::<Seq<char>>::empty());
    }
}

proof fn lemma_spaced_prefix(words: Seq<Seq<char>>, k: int, n: int)
    requires
        0 <= k <= n <= words.len(),
    ensures
        spaced_upto(words, k).len() <= spaced_upto(words, n).len(),
        spaced_upto(words, n).take(spaced_upto(words, k).len() as int) == spaced_upto(words, k),
        k == n || k + 1 <= n,
        0 < k < n ==> spaced_upto(words, k).len() < spaced_upto(words, n).len(),
    decreases n - k,
{
    if k < n {
        lemma_spaced_prefix(words, k, n - 1);
        let a = spaced_upto(words, k).len() as int;
        if n > 1 {
            let t = spaced_upto(words, n - 1);
            assert(spaced_upto(words, n).take(a) == t.take(a));
        } else {
            assert(spaced_upto(words, n).take(0) == Seq::<char>::empty());
        }
    } else {
        assert(spaced_upto(words, n).take(spaced_upto(words, n).len() as int) == spaced_upto(
            words,
            n,
        ));
    }
}

proof fn lemma_space_end_at(s: Seq<char>, i: int, e: int)
    requires
        0 <= i <= e < s.len(),
        forall|j: int| i <= j < e ==> text::is_space(s[j]),
        !text::is_space(s[e]),
    ensures
        text::space_end(s, i) == e,
    decreases e - i,
{
    if i < e {
        lemma_space_end_at(s, i + 1, e);
    }
}

proof fn lemma_word_end_at(s: Seq<char>, i: int, e: int)
    requires
        0 <= i <= e <= s.len(),
        forall|j: int| i <= j < e ==> !text::is_space(s[j]),
        e < s.len() ==> text::is_space(s[e]),
    ensures
        text::word_end(s, i) == e,
    decreases e - i,
{
    if i < e {
        lemma_word_end_at(s, i + 1, e);
    }
}

/// The words of the rule on a line of words.
proof fn lemma_rule_words(words: Seq<Seq<char>>)
    requires
        words.len() > 0,
        forall|i: int| 0 <= i < words.len() ==> is_word(#[trigger] words[i]),
        text::lower(words[0]) != "layer"@,
    ensures
        rules::rule_words(spaced(words)) == words,
{
    let s = spaced(words);
    lemma_spaced_no_break(words, words.len() as int);
    text::lemma_find_is(s, '#', 0, s.len() as int);
    assert(text::before(s, '#') == s);
    lemma_words_spaced(words, 0);
    assert(words.skip(0) == words);
}

/// A comment states no rule.
proof fn lemma_comment(line: Seq<char>)
    requires
        line.len() > 0,
        line[0] == '#',
    ensures
        rules::rule_words(line) == Seq::<Seq<char>>::empty(),
{
    text::lemma_find_is(line, '#', 0, 0);
    assert(text::before(line, '#') == Seq::<char>::empty());
}

proof fn lemma_keywords()
    ensures
        is_word("via"@),
        is_word("couple_cutoff"@),
        is_word("rsheet"@),
        text::lower("via"@) == "via"@,
        text::lower("couple_cutoff"@) == "couple_cutoff"@,
        text::lower("rsheet"@) == "rsheet"@,
        "couple_cutoff"@ != "via"@,
        "rsheet"@ != "via"@ && "rsheet"@ != "couple_cutoff"@ && "rsheet"@ != "eps_r"@ && "rsheet"@
            != "shield_k"@ && "rsheet"@ != "couple_shape"@,
        "via"@ != "layer"@ && "couple_cutoff"@ != "layer"@ && "rsheet"@ != "layer"@,
{
    reveal_strlit("via");
    reveal_strlit("couple_cutoff");
    reveal_strlit("rsheet");
    reveal_strlit("couple_shape");
    reveal_strlit("layer");
    reveal_strlit("eps_r");
    reveal_strlit("shield_k");
    assert("rsheet"@[0] == 'r' && "layer"@[0] == 'l' && "via"@[0] == 'v');
}

proof fn lemma_deck_words<N: Real>(r: RulesView<N>, i: int)
    requires
        writable(r),
        0 <= i < deck_words(r).len(),
    ensures
        forall|j: int|
            0 <= j < deck_words(r)[i].len() ==> is_word(#[trigger] deck_words(r)[i][j]),
{
    lemma_keywords();
    let layers = strmap::walk(r.layers);
    let sheets = strmap::walk(r.rsheet);
    let a = layers.len() as int;
    let w = deck_words(r)[i];
    if i < a {
        let name = layers[i];
        assert(layers.contains(name));
        assert(r.layers.contains_key(name));
        assert(w == layer_words(name, r.layers[name]));
    } else if i < a + 2 {
    } else {
        let name = sheets[i - a - 2];
        assert(sheets.contains(name));
        assert(r.rsheet.contains_key(name));
    }
}

/// The rules that a deck states, read as far as `a` layers and `b` sheet
/// resistances.
spec fn part_read<N: Real>(r: RulesView<N>, a: int, via: bool, b: int) -> RulesView<N> {
    RulesView {
        layers: first(r.layers, a),
        via_res: if via {
            r.via_res
        } else {
            number::zero()
        },
        couple_cutoff: if via {
            r.couple_cutoff
        } else {
            rules::default_cutoff()
        },
        rsheet: first(r.rsheet, b),
        ..rules::no_rules()
    }
}

proof fn lemma_read_layers<N: Real>(r: RulesView<N>, n: int)
    requires
        writable(r),
        0 <= n <= strmap::walk(r.layers).len(),
    ensures
        rules::deck_upto::<N>(deck_lines(r), 3 + n) == Ok::<RulesView<N>, Seq<char>>(
            part_read(r, n, false, 0),
        ),
    decreases n,
{
    let lines = deck_lines(r);
    let layers = strmap::walk(r.layers);
    if n == 0 {
        lemma_heading();
        assert(lines[0] == heading()[0] && lines[1] == heading()[1] && lines[2] == heading()[2]);
        lemma_comment(heading()[0]);
        lemma_comment(heading()[1]);
        lemma_comment(heading()[2]);
        reveal_with_fuel(rules::deck_upto, 4);
        assert(part_read(r, 0, false, 0) == rules::no_rules::<N>());
    } else {
        lemma_read_layers(r, n - 1);
        let name = layers[n - 1];
        assert(layers.contains(name));
        assert(r.layers.contains_key(name));
        let l = r.layers[name];
        let w = layer_words(name, l);
        assert(deck_words(r)[n - 1] == w);
        lemma_deck_words(r, n - 1);
        assert(lines[3 + n - 1] == spaced(w));
        lemma_rule_words(w);
        let p = part_read(r, n - 1, false, 0);
        assert(rules::layer_row::<N>(w) == Ok::<LayerRc<N>, Seq<char>>(l));
        assert(rules::rule(p, w) == Ok::<RulesView<N>, Seq<char>>(
            part_read(r, n, false, 0),
        ));
    }
}

proof fn lemma_read_via<N: Real>(r: RulesView<N>)
    requires
        writable(r),
    ensures
        rules::deck_upto::<N>(deck_lines(r), (3 + strmap::walk(r.layers).len() + 2) as int) == Ok::<
            RulesView<N>,
            Seq<char>,
        >(part_read(r, strmap::walk(r.layers).len() as int, true, 0)),
{
    let n = strmap::walk(r.layers).len() as int;
    lemma_read_layers(r, n);
    lemma_keywords();
    let lines = deck_lines(r);
    let via = seq!["via"@, r.via_res.spec_show()];
    let cutoff = seq!["couple_cutoff"@, r.couple_cutoff.spec_show()];
    assert(deck_words(r)[n] == via);
    assert(deck_words(r)[n + 1] == cutoff);
    assert(lines[3 + n] == spaced(via));
    assert(lines[3 + n + 1] == spaced(cutoff));
    lemma_rule_words(via);
    lemma_rule_words(cutoff);
    let p = part_read(r, n, false, 0);
    let q = RulesView { via_res: r.via_res, ..p };
    assert(rules::rule(p, via) == Ok::<RulesView<N>, Seq<char>>(q));
    assert(rules::rule(q, cutoff) == Ok::<RulesView<N>, Seq<char>>(part_read(r, n, true, 0)));
    assert(rules::deck_upto::<N>(lines, 3 + n + 1) == Ok::<RulesView<N>, Seq<char>>(q));
}

proof fn lemma_read_sheets<N: Real>(r: RulesView<N>, m: int)
    requires
        writable(r),
        0 <= m <= strmap::walk(r.rsheet).len(),
    ensures
        rules::deck_upto::<N>(deck_lines(r), 3 + strmap::walk(r.layers).len() + 2 + m) == Ok::<
            RulesView<N>,
            Seq<char>,
        >(part_read(r, strmap::walk(r.layers).len() as int, true, m)),
    decreases m,
{
    let n = strmap::walk(r.layers).len() as int;
    if m == 0 {
        lemma_read_via(r);
    } else {
        lemma_read_sheets(r, m - 1);
        lemma_keywords();
        let sheets = strmap::walk(r.rsheet);
        let name = sheets[m - 1];
        assert(sheets.contains(name));
        assert(r.rsheet.contains_key(name));
        let w = seq!["rsheet"@, name, r.rsheet[name].spec_show()];
        let i = n + 2 + m - 1;
        assert(deck_words(r)[i] == w);
        assert(deck_lines(r)[3 + i] == spaced(w));
        lemma_rule_words(w);
        let p = part_read(r, n, true, m - 1);
        assert(rules::rule(p, w) == Ok::<RulesView<N>, Seq<char>>(part_read(r, n, true, m)));
    }
}

} // verus!

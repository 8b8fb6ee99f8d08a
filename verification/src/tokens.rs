//! How a DEF text falls into tokens: at its spaces, and around its marks.
use crate::def;
use crate::text;
use vstd::prelude::*;

verus! {

/// Whether a character ends a token: a space, a bracket or a semicolon.
pub open spec fn parts(c: char) -> bool {
    text::is_space(c) || c == '(' || c == ')' || c == ';'
}

proof fn lemma_end_before(a: Seq<char>, c: char, b: Seq<char>, i: int)
    requires
        0 <= i <= a.len(),
        parts(c),
    ensures
        def::token_end(a + seq![c] + b, i) == def::token_end(a, i),
    decreases a.len() - i,
{
    let s = a + seq![c] + b;
    if i < a.len() {
        assert(s[i] == a[i]);
        lemma_end_before(a, c, b, i + 1);
    } else {
        assert(s[i] == c);
    }
}

proof fn lemma_end_after(a: Seq<char>, b: Seq<char>, i: int)
    requires
        0 <= i <= b.len(),
    ensures
        def::token_end(a + b, a.len() + i) == a.len() + def::token_end(b, i),
    decreases b.len() - i,
{
    if i < b.len() {
        assert((a + b)[a.len() + i] == b[i]);
        lemma_end_after(a, b, i + 1);
    }
}

/// The tokens of a text from the end of a part on.
proof fn lemma_after(a: Seq<char>, b: Seq<char>, i: int)
    requires
        0 <= i <= b.len(),
    ensures
        def::tokens_from(a + b, a.len() + i) == def::tokens_from(b, i),
    decreases b.len() - i,
{
    let s = a + b;
    let k = a.len() + i;
    if i < b.len() {
        assert(s[k] == b[i]);
        if text::is_space(b[i]) {
            lemma_after(a, b, i + 1);
        } else if def::is_mark(b[i]) {
            lemma_after(a, b, i + 1);
            assert(s.subrange(k, k + 1) =~= b.subrange(i, i + 1));
        } else {
            def::lemma_token_end(b, i);
            lemma_end_after(a, b, i);
            let e = def::token_end(b, i);
            lemma_after(a, b, e);
            assert(s.subrange(k, a.len() + e) =~= b.subrange(i, e));
        }
    }
}

/// The tokens of a text up to a character that ends tokens, and from it on.
proof fn lemma_before(a: Seq<char>, c: char, b: Seq<char>, i: int)
    requires
        0 <= i <= a.len(),
        parts(c),
    ensures
        def::tokens_from(a + seq![c] + b, i) == def::tokens_from(a, i) + def::tokens_from(
            a + seq![c] + b,
            a.len() as int,
        ),
    decreases a.len() - i,
{
    let s = a + seq![c] + b;
    let n = a.len() as int;
    let rest = def::tokens_from(s, n);
    if i == n {
        assert(def::tokens_from(a, i) =~= Seq::<Seq<char>>::empty());
        assert(Seq::<Seq<char>>::empty() + rest =~= rest);
    } else {
        assert(s[i] == a[i]);
        if text::is_space(a[i]) {
            lemma_before(a, c, b, i + 1);
        } else if def::is_mark(a[i]) {
            lemma_before(a, c, b, i + 1);
            let own = seq![a.subrange(i, i + 1)];
            assert(s.subrange(i, i + 1) =~= a.subrange(i, i + 1));
            assert(own + (def::tokens_from(a, i + 1) + rest) =~= own + def::tokens_from(a, i + 1)
                + rest);
        } else {
            def::lemma_token_end(a, i);
            lemma_end_before(a, c, b, i);
            let e = def::token_end(a, i);
            lemma_before(a, c, b, e);
            let own = seq![a.subrange(i, e)];
            assert(s.subrange(i, e) =~= a.subrange(i, e));
            assert(own + (def::tokens_from(a, e) + rest) =~= own + def::tokens_from(a, e) + rest);
        }
    }
}

/// A text falls into tokens at each space, which is part of none, and around each bracket
/// and semicolon, which is one by itself.
pub proof fn a_text_falls_apart_at_spaces_and_marks(a: Seq<char>, c: char, b: Seq<char>)
    ensures
        text::is_space(c) ==> def::tokens(a + seq![c] + b) == def::tokens(a) + def::tokens(b),
        c == '(' || c == ')' || c == ';' ==> def::tokens(a + seq![c] + b) == def::tokens(a) + seq![
            seq![c],
        ] + def::tokens(b),
{
    if parts(c) {
        let s = a + seq![c] + b;
        let n = a.len() as int;
        lemma_before(a, c, b, 0);
        assert(s[n] == c);
        let head = a + seq![c];
        assert(head + b =~= s);
        lemma_after(head, b, 0);
        assert(def::tokens_from(s, n + 1) == def::tokens_from(b, 0));
        if !text::is_space(c) {
            assert(s.subrange(n, n + 1) =~= seq![c]);
            assert(def::tokens(a) + (seq![seq![c]] + def::tokens(b)) =~= def::tokens(a) + seq![
                seq![c],
            ] + def::tokens(b));
        } else {
            assert(def::tokens_from(s, n) == def::tokens_from(s, n + 1));
        }
        assert(!text::is_space('(') && !text::is_space(')') && !text::is_space(';'));
    }
}

/// A word without spaces and marks is one token, and nothing is none.
pub proof fn a_word_is_one_token(w: Seq<char>)
    requires
        forall|i: int| 0 <= i < w.len() ==> !parts(#[trigger] w[i]),
    ensures
        w.len() > 0 ==> def::tokens(w) == seq![w],
        w.len() == 0 ==> def::tokens(w).len() == 0,
{
    if w.len() > 0 {
        lemma_whole(w, 0);
        assert(!parts(w[0]));
        assert(w.subrange(0, w.len() as int) =~= w);
        assert(def::tokens_from(w, w.len() as int) =~= Seq::<Seq<char>>::empty());
        assert(seq![w] + Seq::<Seq<char>>::empty() =~= seq![w]);
    }
}

proof fn lemma_whole(w: Seq<char>, i: int)
    requires
        0 <= i <= w.len(),
        forall|i: int| 0 <= i < w.len() ==> !parts(#[trigger] w[i]),
    ensures
        def::token_end(w, i) == w.len(),
    decreases w.len() - i,
{
    if i < w.len() {
        assert(!parts(w[i]));
        lemma_whole(w, i + 1);
    }
}

} // verus!

//! Character-level text handling: words, lines, trimming, decimal integers and
//! the lexicographic order on strings.
//!
//! Executable code works on `Vec<char>`, so that a character index is a plain
//! index and every function has a direct statement over `Seq<char>`.
use vstd::prelude::*;

verus! {

/// `String::push` appends one character.
pub assume_specification[ String::push ](s: &mut String, c: char)
    ensures
        final(s)@ == old(s)@.push(c),
;

/// The text of a string in `Debug` form: in double quotes, with escapes.
pub uninterp spec fn debug_text(s: Seq<char>) -> Seq<char>;

/// `str`'s `Debug` formatting. Which characters it escapes, and how, is not
/// stated; the result is a function of the string.
#[verifier::external_body]
pub(crate) fn debug_string(s: &str) -> (r: String)
    ensures
        r@ == debug_text(s@),
{
    format!("{s:?}")
}

/// Whether every character is ASCII.
pub open spec fn is_ascii(s: Seq<char>) -> bool {
    forall|i: int| 0 <= i < s.len() ==> (#[trigger] s[i] as u32) < 128
}

/// The lower-case form of a string by the rules of Unicode.
pub uninterp spec fn lowercase_text(s: Seq<char>) -> Seq<char>;

/// `str::to_lowercase`. On ASCII it is the ASCII lower-case form; which other
/// characters it changes, and how, is not stated.
#[verifier::external_body]
pub(crate) fn lowercase_string(s: &str) -> (r: String)
    ensures
        r@ == lowercase_text(s@),
        is_ascii(s@) ==> r@ == lower(s@),
{
    s.to_lowercase()
}

/// The characters that separate words: Unicode `White_Space`.
pub open spec fn is_space(c: char) -> bool {
    let n = c as u32;
    ||| 9 <= n <= 13
    ||| n == 0x20
    ||| n == 0x85
    ||| n == 0xA0
    ||| n == 0x1680
    ||| 0x2000 <= n <= 0x200A
    ||| n == 0x2028
    ||| n == 0x2029
    ||| n == 0x202F
    ||| n == 0x205F
    ||| n == 0x3000
}

/// The ASCII lower-case form of a character.
pub open spec fn lower_char(c: char) -> char {
    if 'A' <= c && c <= 'Z' {
        ((c as u32) + 32) as char
    } else {
        c
    }
}

/// The ASCII lower-case form of a text.
pub open spec fn lower(s: Seq<char>) -> Seq<char> {
    Seq::new(s.len(), |i: int| lower_char(s[i]))
}

/// The first index at or after `i` that holds no space.
pub open spec fn space_end(s: Seq<char>, i: int) -> int
    decreases s.len() - i,
{
    if 0 <= i < s.len() && is_space(s[i]) {
        space_end(s, i + 1)
    } else {
        i
    }
}

/// The first index at or after `i` that holds a space, or the end of the text.
pub open spec fn word_end(s: Seq<char>, i: int) -> int
    decreases s.len() - i,
{
    if 0 <= i < s.len() && !is_space(s[i]) {
        word_end(s, i + 1)
    } else {
        i
    }
}

/// The last index at or before `i` that follows no space.
pub open spec fn space_start(s: Seq<char>, i: int) -> int
    decreases i,
{
    if 0 < i <= s.len() && is_space(s[i - 1]) {
        space_start(s, i - 1)
    } else {
        i
    }
}

/// The text without the spaces at its two ends.
pub open spec fn trim(s: Seq<char>) -> Seq<char> {
    let a = space_end(s, 0);
    if a >= s.len() {
        Seq::empty()
    } else {
        s.subrange(a, space_start(s, s.len() as int))
    }
}

pub proof fn lemma_space_end(s: Seq<char>, i: int)
    requires
        0 <= i <= s.len(),
    ensures
        i <= space_end(s, i) <= s.len(),
        space_end(s, i) < s.len() ==> !is_space(s[space_end(s, i)]),
    decreases s.len() - i,
{
    if i < s.len() && is_space(s[i]) {
        lemma_space_end(s, i + 1);
    }
}

pub proof fn lemma_word_end(s: Seq<char>, i: int)
    requires
        0 <= i <= s.len(),
    ensures
        i <= word_end(s, i) <= s.len(),
        i < s.len() && !is_space(s[i]) ==> i < word_end(s, i),
    decreases s.len() - i,
{
    if i < s.len() && !is_space(s[i]) {
        lemma_word_end(s, i + 1);
    }
}

pub(crate) proof fn lemma_space_start(s: Seq<char>, a: int, i: int)
    requires
        0 <= a < i <= s.len(),
        !is_space(s[a]),
    ensures
        a < space_start(s, i) <= i,
    decreases i,
{
    if is_space(s[i - 1]) {
        lemma_space_start(s, a, i - 1);
    }
}

/// The words of the text from index `i` on, in order: maximal runs of
/// characters that are no space.
pub open spec fn words_from(s: Seq<char>, i: int) -> Seq<Seq<char>>
    decreases s.len() - i,
{
    if 0 <= i <= s.len() {
        let a = space_end(s, i);
        if a >= s.len() {
            Seq::empty()
        } else {
            let b = word_end(s, a);
            proof {
                lemma_space_end(s, i);
                lemma_word_end(s, a);
            }
            if b > i {
                seq![s.subrange(a, b)] + words_from(s, b)
            } else {
                Seq::empty()
            }
        }
    } else {
        Seq::empty()
    }
}

/// The words of a text.
pub open spec fn words(s: Seq<char>) -> Seq<Seq<char>> {
    words_from(s, 0)
}

/// The first index at or after `i` that holds `c`, or the end of the text.
pub open spec fn find_from(s: Seq<char>, c: char, i: int) -> int
    decreases s.len() - i,
{
    if 0 <= i < s.len() && s[i] != c {
        find_from(s, c, i + 1)
    } else {
        i
    }
}

pub proof fn lemma_find_from(s: Seq<char>, c: char, i: int)
    requires
        0 <= i <= s.len(),
    ensures
        i <= find_from(s, c, i) <= s.len(),
        find_from(s, c, i) < s.len() ==> s[find_from(s, c, i)] == c,
        forall|j: int| i <= j < find_from(s, c, i) ==> s[j] != c,
    decreases s.len() - i,
{
    if i < s.len() && s[i] != c {
        lemma_find_from(s, c, i + 1);
    }
}

/// The first place of a character.
pub proof fn lemma_find_is(s: Seq<char>, c: char, i: int, e: int)
    requires
        0 <= i <= e <= s.len(),
        forall|j: int| i <= j < e ==> s[j] != c,
        e < s.len() ==> s[e] == c,
    ensures
        find_from(s, c, i) == e,
    decreases e - i,
{
    if i < e {
        lemma_find_is(s, c, i + 1, e);
    }
}

/// The text up to the first `c`, or all of it.
pub open spec fn before(s: Seq<char>, c: char) -> Seq<char> {
    s.subrange(0, find_from(s, c, 0))
}

/// Whether the text holds `c`.
pub open spec fn has_char(s: Seq<char>, c: char) -> bool {
    find_from(s, c, 0) < s.len()
}

/// The text after the first `c`.
pub open spec fn after(s: Seq<char>, c: char) -> Seq<char>
    recommends
        has_char(s, c),
{
    s.subrange(find_from(s, c, 0) + 1, s.len() as int)
}

/// A line without the carriage return that ends it.
pub open spec fn chomp(s: Seq<char>) -> Seq<char> {
    if s.len() > 0 && s.last() == '\r' {
        s.drop_last()
    } else {
        s
    }
}

/// The lines of the text from index `i` on. A line ends in a line feed, which
/// is not part of it, and neither is a carriage return before it; an empty
/// rest after the last line feed is no line.
pub open spec fn lines_from(s: Seq<char>, i: int) -> Seq<Seq<char>>
    decreases s.len() - i,
{
    if 0 <= i < s.len() {
        let e = find_from(s, '\n', i);
        proof {
            lemma_find_from(s, '\n', i);
        }
        if e >= s.len() {
            seq![s.subrange(i, s.len() as int)]
        } else {
            seq![chomp(s.subrange(i, e))] + lines_from(s, e + 1)
        }
    } else {
        Seq::empty()
    }
}

/// The lines of a text.
pub open spec fn lines(s: Seq<char>) -> Seq<Seq<char>> {
    lines_from(s, 0)
}

/// The views of a vector of character vectors.
pub open spec fn seqs(v: Seq<Vec<char>>) -> Seq<Seq<char>> {
    Seq::new(v.len(), |i: int| v[i]@)
}

/// The views of a vector of strings.
pub open spec fn texts(v: Seq<String>) -> Seq<Seq<char>> {
    Seq::new(v.len(), |i: int| v[i]@)
}

/// The strict lexicographic order by character code.
pub open spec fn text_lt(a: Seq<char>, b: Seq<char>) -> bool
    decreases a.len(),
{
    if b.len() == 0 {
        false
    } else if a.len() == 0 {
        true
    } else if a[0] != b[0] {
        a[0] < b[0]
    } else {
        text_lt(a.drop_first(), b.drop_first())
    }
}

pub proof fn lemma_text_lt_irreflexive(a: Seq<char>)
    ensures
        !text_lt(a, a),
    decreases a.len(),
{
    if a.len() > 0 {
        lemma_text_lt_irreflexive(a.drop_first());
    }
}

pub proof fn lemma_text_lt_trans(a: Seq<char>, b: Seq<char>, c: Seq<char>)
    requires
        text_lt(a, b),
        text_lt(b, c),
    ensures
        text_lt(a, c),
    decreases a.len(),
{
    if a.len() > 0 && b.len() > 0 && c.len() > 0 && a[0] == b[0] && b[0] == c[0] {
        lemma_text_lt_trans(a.drop_first(), b.drop_first(), c.drop_first());
    }
}

pub proof fn lemma_text_lt_total(a: Seq<char>, b: Seq<char>)
    ensures
        text_lt(a, b) || text_lt(b, a) || a == b,
    decreases a.len(),
{
    if a.len() > 0 && b.len() > 0 && a[0] == b[0] {
        lemma_text_lt_total(a.drop_first(), b.drop_first());
        if a.drop_first() == b.drop_first() {
            assert(a == seq![a[0]] + a.drop_first());
            assert(b == seq![b[0]] + b.drop_first());
        }
    } else if a.len() == 0 && b.len() == 0 {
        assert(a == b);
    }
}

/// The decimal digit of a value below ten.
pub open spec fn digit(n: int) -> char {
    ((48 + n) as u32) as char
}

/// The decimal text of a natural number, without leading zeros.
pub open spec fn nat_text(n: nat) -> Seq<char>
    decreases n,
{
    if n < 10 {
        seq![digit(n as int)]
    } else {
        nat_text(n / 10).push(digit((n % 10) as int))
    }
}

/// The decimal text of an integer.
pub open spec fn int_text(n: int) -> Seq<char> {
    if n < 0 {
        seq!['-'] + nat_text((-n) as nat)
    } else {
        nat_text(n as nat)
    }
}

/// Whether the character is a decimal digit.
pub open spec fn is_digit(c: char) -> bool {
    '0' <= c && c <= '9'
}

/// Whether the text consists of decimal digits, at least one of them.
pub open spec fn is_digits(s: Seq<char>) -> bool {
    s.len() > 0 && forall|i: int| 0 <= i < s.len() ==> is_digit(#[trigger] s[i])
}

/// The value of a text of decimal digits.
pub open spec fn digits_value(s: Seq<char>) -> nat
    decreases s.len(),
{
    if s.len() == 0 {
        0
    } else {
        digits_value(s.drop_last()) * 10 + ((s.last() as u32) - 48) as nat
    }
}

/// The integer that a text spells: an optional sign, then decimal digits.
pub open spec fn int_value(s: Seq<char>) -> Option<int> {
    if s.len() > 0 && (s[0] == '-' || s[0] == '+') {
        if is_digits(s.drop_first()) {
            Some(
                if s[0] == '-' {
                    -(digits_value(s.drop_first()) as int)
                } else {
                    digits_value(s.drop_first()) as int
                },
            )
        } else {
            None
        }
    } else if is_digits(s) {
        Some(digits_value(s) as int)
    } else {
        None
    }
}

/// The characters of a string.
pub fn chars_of(s: &str) -> (r: Vec<char>)
    ensures
        r@ == s@,
{
    let mut out: Vec<char> = Vec::new();
    for c in it: s.chars()
        invariant
            out@ == it.seq().take(it.index()),
            it.seq() == s@,
    {
        out.push(c);
    }
    out
}

/// The string of a vector of characters.
pub fn string_of(v: &Vec<char>) -> (r: String)
    ensures
        r@ == v@,
{
    let mut out = String::new();
    for i in 0..v.len()
        invariant
            out@ == v@.take(i as int),
    {
        out.push(v[i]);
    }
    assert(v@.take(v@.len() as int) == v@);
    out
}

/// The characters from `a` up to `b`.
pub fn part(v: &Vec<char>, a: usize, b: usize) -> (r: Vec<char>)
    requires
        a <= b <= v@.len(),
    ensures
        r@ == v@.subrange(a as int, b as int),
{
    let mut out: Vec<char> = Vec::new();
    let mut i: usize = a;
    while i < b
        invariant
            a <= i <= b <= v@.len(),
            out@ == v@.subrange(a as int, i as int),
        decreases b - i,
    {
        out.push(v[i]);
        i = i + 1;
    }
    out
}

pub fn is_space_char(c: char) -> (r: bool)
    ensures
        r == is_space(c),
{
    let n: u32 = c as u32;
    (9 <= n && n <= 13) || n == 0x20 || n == 0x85 || n == 0xA0 || n == 0x1680 || (0x2000 <= n && n
        <= 0x200A) || n == 0x2028 || n == 0x2029 || n == 0x202F || n == 0x205F || n == 0x3000
}

fn space_end_at(v: &Vec<char>, from: usize) -> (r: usize)
    requires
        from <= v@.len(),
    ensures
        r == space_end(v@, from as int),
        from <= r <= v@.len(),
{
    let mut i: usize = from;
    while i < v.len() && is_space_char(v[i])
        invariant
            from <= i <= v@.len(),
            space_end(v@, i as int) == space_end(v@, from as int),
        decreases v@.len() - i,
    {
        i = i + 1;
    }
    i
}

fn word_end_at(v: &Vec<char>, from: usize) -> (r: usize)
    requires
        from <= v@.len(),
    ensures
        r == word_end(v@, from as int),
        from <= r <= v@.len(),
{
    let mut i: usize = from;
    while i < v.len() && !is_space_char(v[i])
        invariant
            from <= i <= v@.len(),
            word_end(v@, i as int) == word_end(v@, from as int),
        decreases v@.len() - i,
    {
        i = i + 1;
    }
    i
}

/// The first index at or after `from` that holds `c`, or the end.
pub fn find_at(v: &Vec<char>, c: char, from: usize) -> (r: usize)
    requires
        from <= v@.len(),
    ensures
        r == find_from(v@, c, from as int),
        from <= r <= v@.len(),
{
    let mut i: usize = from;
    while i < v.len() && v[i] != c
        invariant
            from <= i <= v@.len(),
            find_from(v@, c, i as int) == find_from(v@, c, from as int),
        decreases v@.len() - i,
    {
        i = i + 1;
    }
    i
}

/// The text without the spaces at its two ends.
pub fn trimmed(v: &Vec<char>) -> (r: Vec<char>)
    ensures
        r@ == trim(v@),
{
    let a: usize = space_end_at(v, 0);
    if a >= v.len() {
        return Vec::new();
    }
    proof {
        lemma_space_end(v@, 0);
        lemma_space_start(v@, a as int, v@.len() as int);
    }
    let mut b: usize = v.len();
    while b > 0 && is_space_char(v[b - 1])
        invariant
            b <= v@.len(),
            space_start(v@, b as int) == space_start(v@, v@.len() as int),
        decreases b,
    {
        b = b - 1;
    }
    part(v, a, b)
}

/// The words of a text.
pub fn split_words(v: &Vec<char>) -> (r: Vec<Vec<char>>)
    ensures
        seqs(r@) == words(v@),
{
    let mut out: Vec<Vec<char>> = Vec::new();
    let mut i: usize = 0;
    let mut more: bool = true;
    assert(seqs(out@) + words_from(v@, 0) == words(v@));
    while more
        invariant
            i <= v@.len(),
            more ==> seqs(out@) + words_from(v@, i as int) == words(v@),
            !more ==> seqs(out@) == words(v@),
        decreases v@.len() - i, if more { 1int } else { 0int },
    {
        proof {
            lemma_space_end(v@, i as int);
        }
        let a: usize = space_end_at(v, i);
        if a >= v.len() {
            more = false;
            assert(seqs(out@) == words(v@));
        } else {
            proof {
                lemma_word_end(v@, a as int);
            }
            let b: usize = word_end_at(v, a);
            let ghost before = seqs(out@);
            out.push(part(v, a, b));
            assert(seqs(out@) == before.push(v@.subrange(a as int, b as int)));
            assert(before + (seq![v@.subrange(a as int, b as int)] + words_from(v@, b as int))
                == before.push(v@.subrange(a as int, b as int)) + words_from(v@, b as int));
            i = b;
        }
    }
    out
}

/// The lines of a text.
pub fn split_lines(v: &Vec<char>) -> (r: Vec<Vec<char>>)
    ensures
        seqs(r@) == lines(v@),
{
    let mut out: Vec<Vec<char>> = Vec::new();
    let mut i: usize = 0;
    assert(seqs(out@) + lines_from(v@, 0) == lines(v@));
    while i < v.len()
        invariant
            i <= v@.len(),
            seqs(out@) + lines_from(v@, i as int) == lines(v@),
        decreases v@.len() - i,
    {
        let e: usize = find_at(v, '\n', i);
        let ghost before = seqs(out@);
        if e >= v.len() {
            out.push(part(v, i, v.len()));
            assert(lines_from(v@, i as int) == seq![v@.subrange(i as int, v@.len() as int)]);
            assert(seqs(out@) == before + lines_from(v@, i as int));
            i = v.len();
            assert(seqs(out@) + lines_from(v@, i as int) == seqs(out@));
        } else {
            let ghost raw = v@.subrange(i as int, e as int);
            if e > i && v[e - 1] == '\r' {
                out.push(part(v, i, e - 1));
                assert(raw.drop_last() == v@.subrange(i as int, e - 1));
            } else {
                out.push(part(v, i, e));
            }
            assert(out@.last()@ == chomp(raw));
            assert(seqs(out@) == before.push(chomp(raw)));
            assert(before + (seq![chomp(raw)] + lines_from(v@, e + 1)) == before.push(chomp(raw))
                + lines_from(v@, e + 1));
            i = e + 1;
        }
    }
    assert(seqs(out@) + lines_from(v@, i as int) == seqs(out@));
    out
}

/// Whether a text equals a string literal.
pub fn is_text(v: &Vec<char>, s: &str) -> (r: bool)
    ensures
        r == (v@ == s@),
{
    same_chars(v, &chars_of(s))
}

/// Whether two texts are equal.
pub fn same_chars(v: &Vec<char>, w: &Vec<char>) -> (r: bool)
    ensures
        r == (v@ == w@),
{
    if v.len() != w.len() {
        return false;
    }
    let mut i: usize = 0;
    while i < v.len()
        invariant
            i <= v@.len(),
            v@.len() == w@.len(),
            v@.take(i as int) == w@.take(i as int),
        decreases v@.len() - i,
    {
        if v[i] != w[i] {
            return false;
        }
        assert(v@.take(i + 1) == v@.take(i as int).push(v@[i as int]));
        assert(w@.take(i + 1) == w@.take(i as int).push(w@[i as int]));
        i = i + 1;
    }
    assert(v@.take(v@.len() as int) == v@);
    assert(w@.take(w@.len() as int) == w@);
    true
}

/// Whether two strings are equal.
pub fn same_text(a: &str, b: &str) -> (r: bool)
    ensures
        r == (a@ == b@),
{
    same_chars(&chars_of(a), &chars_of(b))
}

/// Whether `a` comes before `b`.
pub fn comes_before(a: &Vec<char>, b: &Vec<char>) -> (r: bool)
    ensures
        r == text_lt(a@, b@),
{
    let mut i: usize = 0;
    assert(a@.skip(0) == a@);
    assert(b@.skip(0) == b@);
    while i < a.len() && i < b.len()
        invariant
            i <= a@.len(),
            i <= b@.len(),
            text_lt(a@.skip(i as int), b@.skip(i as int)) == text_lt(a@, b@),
        decreases a@.len() - i,
    {
        if a[i] != b[i] {
            return a[i] < b[i];
        }
        assert(a@.skip(i as int).drop_first() == a@.skip(i + 1));
        assert(b@.skip(i as int).drop_first() == b@.skip(i + 1));
        i = i + 1;
    }
    i < b.len()
}

pub fn lower_of(c: char) -> (r: char)
    ensures
        r == lower_char(c),
{
    if 'A' <= c && c <= 'Z' {
        let n: u8 = c as u8;
        (n + 32) as char
    } else {
        c
    }
}

/// The ASCII lower-case form of a text.
pub fn lowered(v: &Vec<char>) -> (r: Vec<char>)
    ensures
        r@ == lower(v@),
{
    let mut out: Vec<char> = Vec::new();
    for i in 0..v.len()
        invariant
            out@ == lower(v@).take(i as int),
    {
        out.push(lower_of(v[i]));
    }
    out
}

/// The decimal text of a number.
pub fn nat_string(n: u128) -> (r: String)
    ensures
        r@ == nat_text(n as nat),
    decreases n,
{
    if n < 10 {
        let mut out = String::new();
        out.push((48 + n as u8) as char);
        assert(out@ == nat_text(n as nat));
        out
    } else {
        let mut out = nat_string(n / 10);
        out.push((48 + (n % 10) as u8) as char);
        out
    }
}

/// The decimal text of a signed number.
pub fn int_string(n: i64) -> (r: String)
    ensures
        r@ == int_text(n as int),
{
    if n < 0 {
        let mut out = String::new();
        out.push('-');
        let m: u64 = if n == i64::MIN {
            0x8000_0000_0000_0000
        } else {
            (-n) as u64
        };
        out.append(nat_string(m as u128).as_str());
        assert(out@ == int_text(n as int));
        out
    } else {
        nat_string(n as u128)
    }
}

proof fn lemma_digits_prefix(s: Seq<char>, i: int)
    requires
        0 <= i < s.len(),
    ensures
        digits_value(s.take(i + 1)) == digits_value(s.take(i)) * 10 + ((s[i] as u32) - 48) as nat,
{
    assert(s.take(i + 1).drop_last() == s.take(i));
}

proof fn lemma_digits_grow(s: Seq<char>, i: int)
    requires
        0 <= i <= s.len(),
        is_digits(s),
    ensures
        digits_value(s.take(i)) <= digits_value(s),
    decreases s.len() - i,
{
    if i < s.len() {
        lemma_digits_prefix(s, i);
        assert(is_digit(s[i]));
        lemma_digits_grow(s, i + 1);
    } else {
        assert(s.take(i) == s);
    }
}

/// The value of a run of decimal digits, if it is one and fits.
pub fn parse_digits(v: &Vec<char>) -> (r: Option<u64>)
    ensures
        r == if is_digits(v@) && digits_value(v@) <= u64::MAX {
            Some(digits_value(v@) as u64)
        } else {
            None
        },
{
    if v.len() == 0 {
        return None;
    }
    let mut total: u64 = 0;
    let mut fits: bool = true;
    let mut i: usize = 0;
    while i < v.len()
        invariant
            i <= v@.len(),
            forall|j: int| 0 <= j < i ==> is_digit(#[trigger] v@[j]),
            fits ==> total == digits_value(v@.take(i as int)),
            !fits ==> digits_value(v@.take(i as int)) > u64::MAX,
        decreases v@.len() - i,
    {
        let c: char = v[i];
        if c < '0' || c > '9' {
            assert(!is_digit(v@[i as int]));
            return None;
        }
        proof {
            lemma_digits_prefix(v@, i as int);
        }
        let d: u64 = (c as u32 - 48) as u64;
        if fits {
            match total.checked_mul(10) {
                None => {
                    fits = false;
                },
                Some(t) => match t.checked_add(d) {
                    None => {
                        fits = false;
                    },
                    Some(u) => {
                        total = u;
                    },
                },
            }
        }
        i = i + 1;
    }
    assert(v@.take(v@.len() as int) == v@);
    if fits {
        Some(total)
    } else {
        None
    }
}

/// The integer that a text spells, if it spells one that fits.
pub fn parse_int(v: &Vec<char>) -> (r: Option<i64>)
    ensures
        r == match int_value(v@) {
            Some(n) => if i64::MIN <= n <= i64::MAX {
                Some(n as i64)
            } else {
                None
            },
            None => None,
        },
{
    if v.len() > 0 && (v[0] == '-' || v[0] == '+') {
        let rest = part(v, 1, v.len());
        assert(rest@ == v@.drop_first());
        match parse_digits(&rest) {
            None => None,
            Some(n) => {
                if v[0] == '-' {
                    if n < 0x8000_0000_0000_0000 {
                        Some(-(n as i64))
                    } else if n == 0x8000_0000_0000_0000 {
                        Some(i64::MIN)
                    } else {
                        None
                    }
                } else if n <= i64::MAX as u64 {
                    Some(n as i64)
                } else {
                    None
                }
            },
        }
    } else {
        match parse_digits(v) {
            None => None,
            Some(n) => if n <= i64::MAX as u64 {
                Some(n as i64)
            } else {
                None
            },
        }
    }
}

/// The first `n` texts with a separator between any two.
pub open spec fn join_upto(list: Seq<Seq<char>>, sep: Seq<char>, n: int) -> Seq<char>
    decreases n,
{
    if n <= 0 {
        Seq::empty()
    } else if n == 1 {
        list[0]
    } else {
        join_upto(list, sep, n - 1) + sep + list[n - 1]
    }
}

/// The texts with a separator between any two.
pub open spec fn join(list: Seq<Seq<char>>, sep: Seq<char>) -> Seq<char> {
    join_upto(list, sep, list.len() as int)
}

/// The texts with a separator between any two.
pub fn join_strings(list: &Vec<String>, sep: &str) -> (r: String)
    ensures
        r@ == join(texts(list@), sep@),
{
    let ghost lv = texts(list@);
    let mut out = String::new();
    assert(out@ == join_upto(lv, sep@, 0));
    for i in 0..list.len()
        invariant
            lv == texts(list@),
            out@ == join_upto(lv, sep@, i as int),
    {
        if i > 0 {
            out.append(sep);
        } else {
            assert(lv[0] == Seq::<char>::empty() + lv[0]);
        }
        out.append(list[i].as_str());
    }
    out
}

/// The texts of a list in `Debug` form.
pub open spec fn debug_texts(list: Seq<Seq<char>>) -> Seq<Seq<char>> {
    Seq::new(list.len(), |i: int| debug_text(list[i]))
}

/// A list of texts in `Debug` form: in square brackets, with commas between.
pub open spec fn debug_list(list: Seq<Seq<char>>) -> Seq<char> {
    "["@ + join(debug_texts(list), ", "@) + "]"@
}

/// A list of texts in `Debug` form.
pub fn debug_list_string(list: &Vec<String>) -> (r: String)
    ensures
        r@ == debug_list(texts(list@)),
{
    let mut shown: Vec<String> = Vec::new();
    for i in 0..list.len()
        invariant
            shown@.len() == i,
            forall|j: int| 0 <= j < i ==> (#[trigger] shown@[j])@ == debug_text(list@[j]@),
    {
        shown.push(debug_string(list[i].as_str()));
    }
    assert(texts(shown@) == debug_texts(texts(list@)));
    let mut out = "[".to_owned();
    out.append(join_strings(&shown, ", ").as_str());
    out.append("]");
    out
}

} // verus!

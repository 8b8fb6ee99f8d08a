//! The numbers that electrical values are computed in.
//!
//! Geometry is integer throughout the library. Resistances, capacitances and
//! deck coefficients are values of a type that implements [`Real`], so that one
//! extraction works with whatever arithmetic its caller brings: binary floating
//! point, or the decimal fixed point of [`Fixed`]. Every contract states which
//! operation is applied to which operands and in which order; none relies on an
//! algebraic law of the arithmetic.
use crate::text;
use vstd::prelude::*;

verus! {

/// An arithmetic. Each operation computes the function of the same name with
/// `spec_` before it. [`Fixed`] gives both. The defaults are closed: of the
/// functions of a type that keeps them nothing can be told, and the proofs hold of
/// such a type as far as its operations are functions of their operands.
pub trait Real: Copy + Sized {
    /// `n` millionths.
    closed spec fn spec_micro(n: int) -> Self {
        arbitrary()
    }

    /// The count `n`.
    closed spec fn spec_count(n: nat) -> Self {
        arbitrary()
    }

    closed spec fn spec_plus(self, other: Self) -> Self {
        arbitrary()
    }

    closed spec fn spec_minus(self, other: Self) -> Self {
        arbitrary()
    }

    closed spec fn spec_times(self, other: Self) -> Self {
        arbitrary()
    }

    closed spec fn spec_over(self, other: Self) -> Self {
        arbitrary()
    }

    /// The exponential of the value.
    closed spec fn spec_exp(self) -> Self {
        arbitrary()
    }

    /// Whether the value is less than `other`.
    closed spec fn spec_below(self, other: Self) -> bool {
        arbitrary()
    }

    /// Whether the value equals `other`.
    closed spec fn spec_same(self, other: Self) -> bool {
        arbitrary()
    }

    /// The whole number of millionths nearest to the value.
    closed spec fn spec_millionths(self) -> int {
        arbitrary()
    }

    /// The value that a numeral spells, if it spells one.
    closed spec fn spec_parse(s: Seq<char>) -> Option<Self> {
        arbitrary()
    }

    /// The shortest numeral of the value.
    closed spec fn spec_show(self) -> Seq<char> {
        arbitrary()
    }

    /// The numeral of the value in a netlist: its significant figures.
    closed spec fn spec_numeral(self) -> Seq<char> {
        arbitrary()
    }

    /// The numeral of the value with `k` decimals.
    closed spec fn spec_places(self, k: nat) -> Seq<char> {
        arbitrary()
    }

    fn micro(n: i128) -> (r: Self)
        ensures
            r == Self::spec_micro(n as int),
    ;

    fn count(n: usize) -> (r: Self)
        ensures
            r == Self::spec_count(n as nat),
    ;

    fn plus(self, other: Self) -> (r: Self)
        ensures
            r == self.spec_plus(other),
    ;

    fn minus(self, other: Self) -> (r: Self)
        ensures
            r == self.spec_minus(other),
    ;

    fn times(self, other: Self) -> (r: Self)
        ensures
            r == self.spec_times(other),
    ;

    fn over(self, other: Self) -> (r: Self)
        ensures
            r == self.spec_over(other),
    ;

    fn exp(self) -> (r: Self)
        ensures
            r == self.spec_exp(),
    ;

    fn below(self, other: Self) -> (r: bool)
        ensures
            r == self.spec_below(other),
    ;

    fn same(self, other: Self) -> (r: bool)
        ensures
            r == self.spec_same(other),
    ;

    fn millionths(self) -> (r: i64)
        ensures
            r == self.spec_millionths(),
    ;

    fn parse(s: &Vec<char>) -> (r: Option<Self>)
        ensures
            r == Self::spec_parse(s@),
    ;

    fn show(self) -> (r: String)
        ensures
            r@ == self.spec_show(),
    ;

    fn numeral(self) -> (r: String)
        ensures
            r@ == self.spec_numeral(),
    ;

    fn places(self, k: u64) -> (r: String)
        requires
            k <= 9,
        ensures
            r@ == self.spec_places(k as nat),
    ;
}

/// Zero.
pub open spec fn zero<N: Real>() -> N {
    N::spec_micro(0)
}

/// Whether the value is above zero.
pub open spec fn positive<N: Real>(v: N) -> bool {
    zero::<N>().spec_below(v)
}

/// The greater of two values; `a` where neither is below the other.
pub open spec fn greater<N: Real>(a: N, b: N) -> N {
    if a.spec_below(b) {
        b
    } else {
        a
    }
}

/// The sum of the values from the first to the last, starting from zero.
pub open spec fn total<N: Real>(s: Seq<N>) -> N
    decreases s.len(),
{
    if s.len() == 0 {
        zero::<N>()
    } else {
        total(s.drop_last()).spec_plus(s.last())
    }
}

/// The pairs with one more among them, after those whose first value does not
/// exceed its own and before the others.
pub open spec fn insert_ranked<N: Real, T>(s: Seq<(N, T)>, p: (N, T)) -> Seq<(N, T)>
    decreases s.len(),
{
    if s.len() > 0 && p.0.spec_below(s.last().0) {
        insert_ranked(s.drop_last(), p).push(s.last())
    } else {
        s.push(p)
    }
}

/// The pairs in ascending order of their first values; equal ones keep their
/// order.
pub open spec fn ranked<N: Real, T>(s: Seq<(N, T)>) -> Seq<(N, T)>
    decreases s.len(),
{
    if s.len() == 0 {
        s
    } else {
        insert_ranked(ranked(s.drop_last()), s.last())
    }
}

proof fn lemma_insert_ranked<N: Real, T>(s: Seq<(N, T)>, p: (N, T), k: int)
    requires
        0 <= k <= s.len(),
        forall|i: int| k <= i < s.len() ==> p.0.spec_below(#[trigger] s[i].0),
        k > 0 ==> !p.0.spec_below(s[k - 1].0),
    ensures
        insert_ranked(s, p) == s.insert(k, p),
    decreases s.len(),
{
    if k < s.len() {
        lemma_insert_ranked(s.drop_last(), p, k);
        assert(s.drop_last().insert(k, p).push(s.last()) == s.insert(k, p));
    } else {
        assert(s.push(p) == s.insert(k, p));
    }
}

/// Puts a pair in its place among pairs in ascending order.
pub fn place_ranked<N: Real, T>(v: &mut Vec<(N, T)>, p: (N, T))
    ensures
        final(v)@ == insert_ranked(old(v)@, p),
{
    let mut k: usize = v.len();
    while k > 0 && p.0.below(v[k - 1].0)
        invariant
            k <= v@.len(),
            v@ == old(v)@,
            forall|i: int| k <= i < v@.len() ==> p.0.spec_below(#[trigger] v@[i].0),
        decreases k,
    {
        k = k - 1;
    }
    proof {
        lemma_insert_ranked(v@, p, k as int);
    }
    v.insert(k, p);
}

/// The sum of a list of values.
pub fn total_of<N: Real>(v: &Vec<N>) -> (r: N)
    ensures
        r == total(v@),
{
    let mut sum: N = zero_of();
    assert(v@.take(0) == Seq::<N>::empty());
    for i in 0..v.len()
        invariant
            sum == total(v@.take(i as int)),
    {
        assert(v@.take(i + 1).drop_last() == v@.take(i as int));
        sum = sum.plus(v[i]);
    }
    assert(v@.take(v@.len() as int) == v@);
    sum
}

pub fn zero_of<N: Real>() -> (r: N)
    ensures
        r == zero::<N>(),
{
    N::micro(0)
}

pub fn is_positive<N: Real>(v: N) -> (r: bool)
    ensures
        r == positive(v),
{
    zero_of::<N>().below(v)
}

pub fn greater_of<N: Real>(a: N, b: N) -> (r: N)
    ensures
        r == greater(a, b),
{
    if a.below(b) {
        b
    } else {
        a
    }
}

/// A decimal fixed-point number: a whole number of billionths. Results that fit no
/// `i64` saturate. There is no `nan` among them.
#[derive(Clone, Copy, Debug, PartialEq, Eq, Structural)]
pub struct Fixed {
    pub nano: i64,
}

/// The nearest value that a [`Fixed`] can hold.
pub open spec fn clamp(n: int) -> Fixed {
    Fixed {
        nano: if n > i64::MAX {
            i64::MAX
        } else if n < i64::MIN {
            i64::MIN
        } else {
            n as i64
        },
    }
}

fn clamped(n: i128) -> (r: Fixed)
    ensures
        r == clamp(n as int),
{
    if n > i64::MAX as i128 {
        Fixed { nano: i64::MAX }
    } else if n < i64::MIN as i128 {
        Fixed { nano: i64::MIN }
    } else {
        Fixed { nano: n as i64 }
    }
}

/// The series of the exponential from its `k`th factor on, up to the fifteenth:
/// `1 + x/k * (1 + x/(k+1) * (...))`.
pub open spec fn series(x: Fixed, k: int) -> Fixed
    decreases 16 - k,
{
    let one = Fixed { nano: 1_000_000_000 };
    if k > 15 {
        one
    } else {
        one.spec_plus(x.spec_times(series(x, k + 1)).spec_over(clamp(k * 1_000_000_000)))
    }
}

/// The value squared `k` times over.
pub open spec fn squares(x: Fixed, k: nat) -> Fixed
    decreases k,
{
    if k == 0 {
        x
    } else {
        squares(x.spec_times(x), (k - 1) as nat)
    }
}

/// The exponential of a fixed-point number, nearly: that of its sixteenth by the
/// series, raised to the sixteenth power. What is below a billionth counts as zero.
pub open spec fn exponential(x: Fixed) -> Fixed {
    if x.nano < -21_000_000_000 {
        Fixed { nano: 0 }
    } else {
        squares(series(x.spec_over(Fixed { nano: 16_000_000_000 }), 1), 4)
    }
}

fn series_of(x: Fixed, k: i64) -> (r: Fixed)
    requires
        1 <= k <= 16,
    ensures
        r == series(x, k as int),
    decreases 16 - k,
{
    let one = Fixed { nano: 1_000_000_000 };
    if k > 15 {
        one
    } else {
        one.plus(x.times(series_of(x, k + 1)).over(Fixed { nano: k * 1_000_000_000 }))
    }
}

fn squares_of(x: Fixed, k: u64) -> (r: Fixed)
    ensures
        r == squares(x, k as nat),
    decreases k,
{
    if k == 0 {
        x
    } else {
        squares_of(x.times(x), k - 1)
    }
}

/// Floor division by a positive divisor.
pub fn floor_div(a: i128, b: i128) -> (r: i128)
    requires
        b > 0,
    ensures
        r == a as int / b as int,
{
    proof {
        vstd::arithmetic::div_mod::lemma_div_is_ordered(a as int, i128::MAX as int, b as int);
        vstd::arithmetic::div_mod::lemma_div_is_ordered(i128::MIN as int, a as int, b as int);
        assert(i128::MIN <= i128::MIN as int / b as int && i128::MAX as int / b as int <= i128::MAX)
            by (nonlinear_arith)
            requires
                b > 0,
        ;
    }
    match a.checked_div_euclid(b) {
        Some(q) => q,
        None => 0,
    }
}

/// The digits of the fraction of a numeral, as a number of billionths: the
/// first nine count, and missing ones are zeros.
pub open spec fn fraction_value(f: Seq<char>) -> nat {
    text::digits_value((f + seq!['0', '0', '0', '0', '0', '0', '0', '0', '0']).take(9))
}

/// The magnitude, in billionths, of a numeral without sign and exponent.
pub open spec fn plain_magnitude(s: Seq<char>) -> Option<nat> {
    let whole = text::before(s, '.');
    if text::has_char(s, '.') {
        let f = text::after(s, '.');
        if (whole.len() == 0 || text::is_digits(whole)) && (f.len() == 0 || text::is_digits(f)) && (
        whole.len() + f.len() > 0) {
            Some(text::digits_value(whole) * 1_000_000_000 + fraction_value(f))
        } else {
            None
        }
    } else if text::is_digits(s) {
        Some(text::digits_value(s) * 1_000_000_000)
    } else {
        None
    }
}

/// The digits of a numeral without sign and exponent, those of its fraction last.
pub open spec fn mantissa(s: Seq<char>) -> Seq<char> {
    if text::has_char(s, '.') {
        text::before(s, '.') + text::after(s, '.')
    } else {
        s
    }
}

/// How many digits the fraction of a numeral without exponent has.
pub open spec fn fraction_len(s: Seq<char>) -> int {
    if text::has_char(s, '.') {
        text::after(s, '.').len() as int
    } else {
        0
    }
}

/// The value of digits times ten to the power `p`, without what is left behind the
/// point.
pub open spec fn shifted(d: Seq<char>, p: int) -> nat {
    if p >= 0 {
        text::digits_value(d) * tens(p as nat)
    } else if d.len() + p > 0 {
        text::digits_value(d.take(d.len() + p))
    } else {
        0
    }
}

/// The magnitude, in billionths, of a numeral without sign: digits with a point
/// among them, and perhaps an exponent of ten behind `e`. Infinity is more than can
/// be held; what is less than a billionth is left out.
pub open spec fn magnitude(s: Seq<char>) -> Option<nat> {
    let t = text::lower(s);
    if t == "inf"@ || t == "infinity"@ {
        Some(BEYOND as nat)
    } else if text::has_char(t, 'e') {
        let m = text::before(t, 'e');
        match text::int_value(text::after(t, 'e')) {
            Some(e) => if text::is_digits(mantissa(m)) {
                Some(shifted(mantissa(m), 9 - fraction_len(m) + e))
            } else {
                None
            },
            None => None,
        }
    } else {
        plain_magnitude(t)
    }
}

/// A number of billionths beyond what a [`Fixed`] holds.
pub const BEYOND: i128 = 0x1_0000_0000_0000_0000_0000;

/// The number of billionths, possibly too large to hold, that a numeral spells.
pub open spec fn numeral_value(s: Seq<char>) -> Option<int> {
    if s.len() > 0 && (s[0] == '-' || s[0] == '+') {
        match magnitude(s.drop_first()) {
            Some(m) => Some(
                if s[0] == '-' {
                    -(m as int)
                } else {
                    m as int
                },
            ),
            None => None,
        }
    } else {
        match magnitude(s) {
            Some(m) => Some(m as int),
            None => None,
        }
    }
}

/// The decimal digits of `n`, padded with zeros on the left to `k` characters.
pub open spec fn padded(n: nat, k: nat) -> Seq<char>
    decreases k,
{
    if k == 0 {
        Seq::empty()
    } else {
        padded(n / 10, (k - 1) as nat).push(text::digit((n % 10) as int))
    }
}

/// The text without the zeros at its end.
pub open spec fn drop_zeros(s: Seq<char>) -> Seq<char>
    decreases s.len(),
{
    if s.len() > 0 && s.last() == '0' {
        drop_zeros(s.drop_last())
    } else {
        s
    }
}

/// The sign of a number in front of a text.
pub open spec fn signed(n: int, s: Seq<char>) -> Seq<char> {
    if n < 0 {
        seq!['-'] + s
    } else {
        s
    }
}

pub open spec fn abs(n: int) -> nat {
    if n < 0 {
        (-n) as nat
    } else {
        n as nat
    }
}

/// The shortest numeral of a number of billionths.
pub open spec fn show_nano(n: int) -> Seq<char> {
    let m = abs(n);
    let f = drop_zeros(padded(m % 1_000_000_000, 9));
    let whole = text::nat_text(m / 1_000_000_000);
    signed(
        n,
        if f.len() == 0 {
            whole
        } else {
            whole.push('.') + f
        },
    )
}

/// Ten to the power `k`.
pub open spec fn tens(k: nat) -> nat
    decreases k,
{
    if k == 0 {
        1
    } else {
        10 * tens((k - 1) as nat)
    }
}

/// The numeral with `k` decimals, at most nine, of a number of billionths,
/// rounded half away from zero.
pub open spec fn decimals(n: int, k: nat) -> Seq<char> {
    let unit = tens((9 - k) as nat);
    let m = (abs(n) + unit / 2) / unit;
    let whole = text::nat_text((m / tens(k)) as nat);
    signed(
        n,
        if k == 0 {
            whole
        } else {
            whole.push('.') + padded((m % tens(k)) as nat, k)
        },
    )
}

fn tens_of(k: u64) -> (r: u64)
    requires
        k <= 9,
    ensures
        r == tens(k as nat),
        1 <= r <= 1_000_000_000,
    decreases k,
{
    proof {
        reveal_with_fuel(tens, 10);
    }
    if k == 0 {
        1
    } else {
        10 * tens_of(k - 1)
    }
}

pub fn padded_string(n: u64, k: u64) -> (r: String)
    ensures
        r@ == padded(n as nat, k as nat),
    decreases k,
{
    if k == 0 {
        let r = String::new();
        assert(r@ == padded(n as nat, 0));
        r
    } else {
        let mut r = padded_string(n / 10, k - 1);
        r.push((48 + (n % 10) as u8) as char);
        r
    }
}

fn without_zeros(v: &Vec<char>) -> (r: Vec<char>)
    ensures
        r@ == drop_zeros(v@),
{
    let mut k: usize = v.len();
    assert(v@.take(k as int) == v@);
    while k > 0 && v[k - 1] == '0'
        invariant
            k <= v@.len(),
            drop_zeros(v@.take(k as int)) == drop_zeros(v@),
        decreases k,
    {
        assert(v@.take(k as int).drop_last() == v@.take(k - 1));
        k = k - 1;
    }
    assert(v@.take(k as int) == v@.subrange(0, k as int));
    text::part(v, 0, k)
}

fn magnitude_of(n: i64) -> (r: u64)
    ensures
        r == abs(n as int),
{
    if n == i64::MIN {
        0x8000_0000_0000_0000
    } else if n < 0 {
        (-n) as u64
    } else {
        n as u64
    }
}

/// The digits of a run that may be empty, where it is none but digits;
/// saturates at a bound that no caller can reach.
fn digits_or_empty(v: &Vec<char>) -> (r: Option<u64>)
    ensures
        r is Some <==> (v@.len() == 0 || text::is_digits(v@)),
        r is Some ==> r->0 == (if text::digits_value(v@) <= u64::MAX {
            text::digits_value(v@) as u64
        } else {
            u64::MAX
        }),
{
    if v.len() == 0 {
        assert(text::digits_value(v@) == 0);
        return Some(0);
    }
    match text::parse_digits(v) {
        Some(n) => Some(n),
        None => {
            let mut i: usize = 0;
            while i < v.len()
                invariant
                    i <= v@.len(),
                    forall|j: int| 0 <= j < i ==> text::is_digit(#[trigger] v@[j]),
                decreases v@.len() - i,
            {
                if v[i] < '0' || v[i] > '9' {
                    assert(!text::is_digit(v@[i as int]));
                    return None;
                }
                i = i + 1;
            }
            Some(u64::MAX)
        },
    }
}

proof fn lemma_value_bound(s: Seq<char>)
    requires
        forall|i: int| 0 <= i < s.len() ==> text::is_digit(#[trigger] s[i]),
        s.len() <= 9,
    ensures
        text::digits_value(s) < 1_000_000_000,
{
    reveal_with_fuel(text::digits_value, 10);
    lemma_small(s, s.len() as int);
}

proof fn lemma_small(s: Seq<char>, k: int)
    requires
        0 <= k <= 9,
        k == s.len(),
        forall|i: int| 0 <= i < s.len() ==> text::is_digit(#[trigger] s[i]),
    ensures
        text::digits_value(s) < tens(k as nat),
        tens(k as nat) <= 1_000_000_000,
    decreases k,
{
    reveal_with_fuel(tens, 11);
    if k > 0 {
        assert forall|i: int| 0 <= i < k - 1 implies text::is_digit(#[trigger] s.drop_last()[i]) by {
            assert(text::is_digit(s[i]));
        }
        lemma_small(s.drop_last(), k - 1);
        assert(text::is_digit(s[k - 1]));
    }
}

fn fraction_of(f: &Vec<char>) -> (r: u64)
    requires
        f@.len() == 0 || text::is_digits(f@),
    ensures
        r == fraction_value(f@),
        r < 1_000_000_000,
{
    let ghost zeros = seq!['0', '0', '0', '0', '0', '0', '0', '0', '0'];
    let ghost all = (f@ + zeros).take(9);
    let mut total: u64 = 0;
    let mut i: usize = 0;
    proof {
        assert forall|j: int| 0 <= j < 9 implies text::is_digit(#[trigger] all[j]) by {
            if j < f@.len() {
                assert(text::is_digit(f@[j]));
            }
        }
    }
    while i < 9
        invariant
            i <= 9,
            all == (f@ + zeros).take(9),
            all.len() == 9,
            zeros == seq!['0', '0', '0', '0', '0', '0', '0', '0', '0'],
            forall|j: int| 0 <= j < 9 ==> text::is_digit(#[trigger] all[j]),
            total == text::digits_value(all.take(i as int)),
            total < 1_000_000_000,
        decreases 9 - i,
    {
        let c: char = if i < f.len() {
            f[i]
        } else {
            '0'
        };
        assert(c == all[i as int]);
        assert(text::is_digit(all[i as int]));
        assert(all.take(i + 1).drop_last() == all.take(i as int));
        let d: u64 = (c as u32 - 48) as u64;
        proof {
            assert forall|j: int| 0 <= j < i + 1 implies text::is_digit(
                #[trigger] all.take(i + 1)[j],
            ) by {
                assert(text::is_digit(all[j]));
            }
            lemma_value_bound(all.take(i + 1));
        }
        total = total * 10 + d;
        i = i + 1;
    }
    assert(all.take(9) == all);
    total
}

/// The value of the first `n` digits, or [`BEYOND`] where it is more.
fn capped_value(v: &Vec<char>, n: usize) -> (r: i128)
    requires
        n <= v@.len(),
        forall|i: int| 0 <= i < v@.len() ==> text::is_digit(#[trigger] v@[i]),
    ensures
        r == least(text::digits_value(v@.take(n as int)) as int, BEYOND as int),
{
    let mut total: i128 = 0;
    let mut i: usize = 0;
    while i < n
        invariant
            i <= n <= v@.len(),
            forall|i: int| 0 <= i < v@.len() ==> text::is_digit(#[trigger] v@[i]),
            total == least(text::digits_value(v@.take(i as int)) as int, BEYOND as int),
        decreases n - i,
    {
        assert(text::is_digit(v@[i as int]));
        assert(v@.take(i + 1).drop_last() == v@.take(i as int));
        assert(v@.take(i + 1).last() == v@[i as int]);
        let d: i128 = (v[i] as u32 - 48) as i128;
        let next: i128 = total * 10 + d;
        total = if next > BEYOND {
            BEYOND
        } else {
            next
        };
        i = i + 1;
    }
    total
}

spec fn least(a: int, b: int) -> int {
    if a < b {
        a
    } else {
        b
    }
}

proof fn lemma_tens_grow(i: nat, p: nat)
    requires
        i <= p,
    ensures
        1 <= tens(i) <= tens(p),
    decreases p,
{
    if i < p {
        lemma_tens_grow(i, (p - 1) as nat);
    } else if i > 0 {
        lemma_tens_grow((i - 1) as nat, (i - 1) as nat);
    }
}

/// The value of shifted digits, or [`BEYOND`] where it is more.
fn shifted_value(v: &Vec<char>, p: i128) -> (r: i128)
    requires
        forall|i: int| 0 <= i < v@.len() ==> text::is_digit(#[trigger] v@[i]),
    ensures
        r == least(shifted(v@, p as int) as int, BEYOND as int),
{
    if p < 0 {
        let n: i128 = v.len() as i128;
        return if p > -n {
            capped_value(v, (n + p) as usize)
        } else {
            0
        };
    }
    let ghost d = text::digits_value(v@);
    assert(v@.take(v@.len() as int) == v@);
    let mut total: i128 = capped_value(v, v.len());
    let mut i: i128 = 0;
    assert(d * tens(0) == d) by (nonlinear_arith)
        requires
            tens(0) == 1,
    ;
    while i < p && 0 < total && total < BEYOND
        invariant
            0 <= i <= p,
            0 <= total <= BEYOND,
            total == least((d * tens(i as nat)) as int, BEYOND as int),
        decreases p - i,
    {
        assert(d * tens((i + 1) as nat) == 10 * (d * tens(i as nat))) by (nonlinear_arith)
            requires
                tens((i + 1) as nat) == 10 * tens(i as nat),
        ;
        let next: i128 = total * 10;
        total = if next > BEYOND {
            BEYOND
        } else {
            next
        };
        i = i + 1;
    }
    proof {
        let (a, b) = (tens(i as nat), tens(p as nat));
        lemma_tens_grow(i as nat, p as nat);
        assert(d * a <= d * b) by (nonlinear_arith)
            requires
                a <= b,
        ;
        assert(d * a == 0 ==> d * b == 0) by (nonlinear_arith)
            requires
                a >= 1,
        ;
    }
    total
}

/// The value of a run of digits, or [`BEYOND`] where it is more; nothing where it
/// is no such run.
fn exponent_digits(v: &Vec<char>) -> (r: Option<i128>)
    ensures
        r is Some <==> text::is_digits(v@),
        r is Some ==> r->0 == least(text::digits_value(v@) as int, BEYOND as int),
{
    if v.len() == 0 || digits_or_empty(v).is_none() {
        return None;
    }
    assert(v@.take(v@.len() as int) == v@);
    Some(capped_value(v, v.len()))
}

/// The exponent that a text spells, cut at [`BEYOND`] either way.
fn exponent_of(v: &Vec<char>) -> (r: Option<i128>)
    ensures
        r is Some <==> text::int_value(v@) is Some,
        r is Some ==> ({
            let e = text::int_value(v@)->0;
            &&& -BEYOND <= r->0 <= BEYOND
            &&& -BEYOND <= e <= BEYOND ==> r->0 == e
            &&& e > BEYOND ==> r->0 == BEYOND
            &&& e < -BEYOND ==> r->0 == -BEYOND
        }),
{
    if v.len() > 0 && (v[0] == '-' || v[0] == '+') {
        let rest = text::part(v, 1, v.len());
        assert(rest@ == v@.drop_first());
        match exponent_digits(&rest) {
            Some(n) => Some(
                if v[0] == '-' {
                    -n
                } else {
                    n
                },
            ),
            None => None,
        }
    } else {
        exponent_digits(v)
    }
}

/// Digits shifted by so much that they all stand on one side of what counts.
proof fn lemma_far(d: Seq<char>, p: int)
    requires
        d.len() <= usize::MAX,
        text::digits_value(d) > 0,
        p >= 30,
    ensures
        shifted(d, p) >= BEYOND,
{
    lemma_tens_grow(30, p as nat);
    reveal_with_fuel(tens, 31);
    let (v, t) = (text::digits_value(d), tens(p as nat));
    assert(v * t >= BEYOND) by (nonlinear_arith)
        requires
            v >= 1,
            t >= BEYOND,
    ;
}

fn scientific(t: &Vec<char>, at: usize) -> (r: Option<i128>)
    requires
        at < t@.len(),
        at == text::find_from(t@, 'e', 0),
    ensures
        ({
            let m = text::before(t@, 'e');
            let want = match text::int_value(text::after(t@, 'e')) {
                Some(e) => if text::is_digits(mantissa(m)) {
                    Some(shifted(mantissa(m), 9 - fraction_len(m) + e))
                } else {
                    None
                },
                None => None,
            };
            &&& r is Some <==> want is Some
            &&& r is Some ==> r->0 == least(want->0 as int, BEYOND as int)
        }),
{
    let n: usize = t.len();
    let m = text::part(t, 0, at);
    let after = text::part(t, at + 1, n);
    let dot: usize = text::find_at(&m, '.', 0);
    let (digits, behind) = if dot < m.len() {
        let mut d = text::part(&m, 0, dot);
        let mut f = text::part(&m, dot + 1, m.len());
        let behind: usize = f.len();
        d.append(&mut f);
        (d, behind)
    } else {
        (text::part(&m, 0, m.len()), 0)
    };
    assert(digits@ == mantissa(m@));
    assert(behind == fraction_len(m@));
    let e: i128 = match exponent_of(&after) {
        Some(e) => e,
        None => {
            return None;
        },
    };
    if digits.len() == 0 || digits_or_empty(&digits).is_none() {
        return None;
    }
    let p: i128 = 9 - behind as i128 + e;
    proof {
        let x = text::int_value(after@)->0;
        let q = 9 - behind + x;
        if x > BEYOND {
            if text::digits_value(digits@) > 0 {
                lemma_far(digits@, p as int);
                lemma_far(digits@, q);
            } else {
                assert(0 * tens(p as nat) == 0 && 0 * tens(q as nat) == 0) by (nonlinear_arith);
            }
        }
    }
    Some(shifted_value(&digits, p))
}

/// The magnitude of a numeral without sign, cut at a bound beyond what a
/// [`Fixed`] holds.
fn parse_magnitude(v: &Vec<char>) -> (r: Option<i128>)
    ensures
        r is Some <==> magnitude(v@) is Some,
        r is Some ==> 0 <= r->0 && clamp(r->0 as int) == clamp(magnitude(v@)->0 as int) && clamp(
            -(r->0 as int),
        ) == clamp(-(magnitude(v@)->0 as int)),
{
    let t = text::lowered(v);
    if text::is_text(&t, "inf") || text::is_text(&t, "infinity") {
        return Some(BEYOND);
    }
    let at: usize = text::find_at(&t, 'e', 0);
    if at < t.len() {
        scientific(&t, at)
    } else {
        parse_plain(&t)
    }
}

/// The magnitude of a numeral without sign and exponent, cut at a bound beyond
/// what a [`Fixed`] holds.
fn parse_plain(v: &Vec<char>) -> (r: Option<i128>)
    ensures
        r is Some <==> plain_magnitude(v@) is Some,
        r is Some ==> 0 <= r->0 && clamp(r->0 as int) == clamp(plain_magnitude(v@)->0 as int)
            && clamp(-(r->0 as int)) == clamp(-(plain_magnitude(v@)->0 as int)),
{
    let d: usize = text::find_at(v, '.', 0);
    if d < v.len() {
        let whole = text::part(v, 0, d);
        let f = text::part(v, d + 1, v.len());
        match (digits_or_empty(&whole), digits_or_empty(&f)) {
            (Some(w), Some(_)) => {
                if whole.len() == 0 && f.len() == 0 {
                    return None;
                }
                let frac: u64 = fraction_of(&f);
                Some(w as i128 * 1_000_000_000 + frac as i128)
            },
            _ => None,
        }
    } else {
        if v.len() == 0 {
            return None;
        }
        match digits_or_empty(v) {
            Some(w) => Some(w as i128 * 1_000_000_000),
            None => None,
        }
    }
}

impl Real for Fixed {
    open spec fn spec_micro(n: int) -> Self {
        clamp(n * 1000)
    }

    open spec fn spec_count(n: nat) -> Self {
        clamp(n as int * 1_000_000_000)
    }

    open spec fn spec_plus(self, other: Self) -> Self {
        clamp(self.nano + other.nano)
    }

    open spec fn spec_minus(self, other: Self) -> Self {
        clamp(self.nano - other.nano)
    }

    open spec fn spec_times(self, other: Self) -> Self {
        clamp((self.nano * other.nano) / 1_000_000_000)
    }

    open spec fn spec_over(self, other: Self) -> Self {
        if other.nano > 0 {
            clamp((self.nano * 1_000_000_000) / (other.nano as int))
        } else if other.nano < 0 {
            clamp((-self.nano * 1_000_000_000) / (-other.nano as int))
        } else if self.nano > 0 {
            Fixed { nano: i64::MAX }
        } else if self.nano < 0 {
            Fixed { nano: i64::MIN }
        } else {
            Fixed { nano: 0 }
        }
    }

    open spec fn spec_exp(self) -> Self {
        exponential(self)
    }

    open spec fn spec_below(self, other: Self) -> bool {
        self.nano < other.nano
    }

    open spec fn spec_same(self, other: Self) -> bool {
        self.nano == other.nano
    }

    open spec fn spec_millionths(self) -> int {
        (self.nano + 500) / 1000
    }

    open spec fn spec_parse(s: Seq<char>) -> Option<Self> {
        match numeral_value(s) {
            Some(n) => Some(clamp(n)),
            None => None,
        }
    }

    open spec fn spec_show(self) -> Seq<char> {
        show_nano(self.nano as int)
    }

    open spec fn spec_numeral(self) -> Seq<char> {
        show_nano(self.nano as int)
    }

    open spec fn spec_places(self, k: nat) -> Seq<char> {
        decimals(self.nano as int, k)
    }

    fn micro(n: i128) -> (r: Self) {
        if n > i64::MAX as i128 {
            Fixed { nano: i64::MAX }
        } else if n < i64::MIN as i128 {
            Fixed { nano: i64::MIN }
        } else {
            clamped(n * 1000)
        }
    }

    fn count(n: usize) -> (r: Self) {
        clamped(n as i128 * 1_000_000_000)
    }

    fn plus(self, other: Self) -> (r: Self) {
        clamped(self.nano as i128 + other.nano as i128)
    }

    fn minus(self, other: Self) -> (r: Self) {
        clamped(self.nano as i128 - other.nano as i128)
    }

    fn times(self, other: Self) -> (r: Self) {
        let a: i128 = self.nano as i128;
        let b: i128 = other.nano as i128;
        assert(-0x4000_0000_0000_0000_0000_0000_0000_0000 <= a * b
            <= 0x4000_0000_0000_0000_0000_0000_0000_0000) by (nonlinear_arith)
            requires
                -0x8000_0000_0000_0000 <= a <= 0x8000_0000_0000_0000,
                -0x8000_0000_0000_0000 <= b <= 0x8000_0000_0000_0000,
        ;
        clamped(floor_div(a * b, 1_000_000_000))
    }

    fn over(self, other: Self) -> (r: Self) {
        let a: i128 = self.nano as i128;
        let b: i128 = other.nano as i128;
        if b > 0 {
            clamped(floor_div(a * 1_000_000_000, b))
        } else if b < 0 {
            clamped(floor_div(-a * 1_000_000_000, -b))
        } else if a > 0 {
            Fixed { nano: i64::MAX }
        } else if a < 0 {
            Fixed { nano: i64::MIN }
        } else {
            Fixed { nano: 0 }
        }
    }

    fn exp(self) -> (r: Self) {
        if self.nano < -21_000_000_000 {
            return Fixed { nano: 0 };
        }
        let part: Fixed = self.over(Fixed { nano: 16_000_000_000 });
        squares_of(series_of(part, 1), 4)
    }

    fn below(self, other: Self) -> (r: bool) {
        self.nano < other.nano
    }

    fn same(self, other: Self) -> (r: bool) {
        self.nano == other.nano
    }

    fn millionths(self) -> (r: i64) {
        floor_div(self.nano as i128 + 500, 1000) as i64
    }

    fn parse(s: &Vec<char>) -> (r: Option<Self>) {
        if s.len() > 0 && (s[0] == '-' || s[0] == '+') {
            let rest = text::part(s, 1, s.len());
            assert(rest@ == s@.drop_first());
            match parse_magnitude(&rest) {
                Some(m) => if s[0] == '-' {
                    Some(clamped(-m))
                } else {
                    Some(clamped(m))
                },
                None => None,
            }
        } else {
            match parse_magnitude(s) {
                Some(m) => Some(clamped(m)),
                None => None,
            }
        }
    }

    fn show(self) -> (r: String) {
        let m: u64 = magnitude_of(self.nano);
        let digits = text::chars_of(padded_string(m % 1_000_000_000, 9).as_str());
        let f = without_zeros(&digits);
        let mut out = String::new();
        if self.nano < 0 {
            out.push('-');
        }
        let ghost sign = out@;
        out.append(text::nat_string((m / 1_000_000_000) as u128).as_str());
        if f.len() > 0 {
            out.push('.');
            out.append(text::string_of(&f).as_str());
        }
        assert(out@ == show_nano(self.nano as int));
        out
    }

    fn numeral(self) -> (r: String) {
        self.show()
    }

    fn places(self, k: u64) -> (r: String) {
        let unit: u64 = tens_of(9 - k);
        let m: u64 = ((magnitude_of(self.nano) as u128 + (unit / 2) as u128) / unit as u128) as u64;
        let point: u64 = tens_of(k);
        let mut out = String::new();
        if self.nano < 0 {
            out.push('-');
        }
        out.append(text::nat_string((m / point) as u128).as_str());
        if k > 0 {
            out.push('.');
            out.append(padded_string(m % point, k).as_str());
        }
        assert(out@ == decimals(self.nano as int, k as nat));
        out
    }
}

/// Whether every character is a digit, a point or a sign.
pub open spec fn is_numeric(s: Seq<char>) -> bool {
    forall|i: int|
        0 <= i < s.len() ==> text::is_digit(#[trigger] s[i]) || s[i] == '.' || s[i] == '-'
}

/// The shortest numeral of a fixed-point number spells the number.
pub proof fn a_numeral_reads_back(v: Fixed)
    ensures
        Fixed::spec_parse(v.spec_show()) == Some(v),
        v.spec_show().len() > 0,
        is_numeric(v.spec_show()),
{
    let n = v.nano as int;
    let m = abs(n);
    let p = padded(m % 1_000_000_000, 9);
    let f = drop_zeros(p);
    let whole = text::nat_text(m / 1_000_000_000);
    let body = if f.len() == 0 {
        whole
    } else {
        whole.push('.') + f
    };
    lemma_nat_text(m / 1_000_000_000);
    lemma_padded(m % 1_000_000_000, 9);
    reveal_with_fuel(tens, 10);
    lemma_drop_zeros(p);
    assert forall|i: int| 0 <= i < whole.len() implies #[trigger] whole[i] != '.' by {
        assert(text::is_digit(whole[i]));
    }
    assert(text::is_digit(whole[0]));
    assert forall|i: int| 0 <= i < f.len() implies text::is_digit(#[trigger] f[i]) by {
        assert(f[i] == p[i]);
    }
    assert(plain_magnitude(body) == Some(m)) by {
        if f.len() == 0 {
            text::lemma_find_is(whole, '.', 0, whole.len() as int);
            assert(p == f + zeros((p.len() - f.len()) as nat));
            lemma_zeros_value(9);
            assert(p == zeros(9));
        } else {
            assert forall|i: int| 0 <= i < whole.len() implies #[trigger] body[i] != '.' by {
                assert(body[i] == whole[i]);
            }
            text::lemma_find_is(body, '.', 0, whole.len() as int);
            assert(text::before(body, '.') == whole);
            assert(text::after(body, '.') == f);
            assert((f + seq!['0', '0', '0', '0', '0', '0', '0', '0', '0']).take(9) == p);
        }
    }
    assert(magnitude(body) == Some(m)) by {
        assert forall|i: int| 0 <= i < body.len() implies text::is_digit(#[trigger] body[i])
            || body[i] == '.' by {
            if i < whole.len() {
                assert(body[i] == whole[i]);
            } else if i > whole.len() {
                assert(body[i] == f[i - whole.len() - 1]);
            }
        }
        assert(text::lower(body) == body);
        reveal_strlit("inf");
        reveal_strlit("infinity");
        assert(text::is_digit(body[0]) || body[0] == '.');
        text::lemma_find_is(body, 'e', 0, body.len() as int);
    }
    assert(body[0] == whole[0]);
    assert forall|i: int| 0 <= i < body.len() implies text::is_digit(#[trigger] body[i]) || body[i]
        == '.' by {
        if i < whole.len() {
            assert(body[i] == whole[i]);
        } else if i > whole.len() {
            assert(body[i] == f[i - whole.len() - 1]);
        }
    }
    let s = v.spec_show();
    if n < 0 {
        assert(s == seq!['-'] + body);
        assert(s.drop_first() == body);
        assert forall|i: int| 0 <= i < s.len() implies text::is_digit(#[trigger] s[i]) || s[i] == '.'
            || s[i] == '-' by {
            if i > 0 {
                assert(s[i] == body[i - 1]);
            }
        }
    } else {
        assert(s == body);
    }
}

spec fn zeros(k: nat) -> Seq<char> {
    Seq::new(k, |i: int| '0')
}

proof fn lemma_zeros_value(k: nat)
    ensures
        text::digits_value(zeros(k)) == 0,
    decreases k,
{
    if k > 0 {
        lemma_zeros_value((k - 1) as nat);
        assert(zeros(k).drop_last() == zeros((k - 1) as nat));
    }
}

proof fn lemma_drop_zeros(s: Seq<char>)
    ensures
        drop_zeros(s).len() <= s.len(),
        s == drop_zeros(s) + zeros((s.len() - drop_zeros(s).len()) as nat),
    decreases s.len(),
{
    if s.len() > 0 && s.last() == '0' {
        lemma_drop_zeros(s.drop_last());
        assert(s == s.drop_last().push('0'));
    }
}

pub(crate) proof fn lemma_nat_text(n: nat)
    ensures
        text::is_digits(text::nat_text(n)),
        text::digits_value(text::nat_text(n)) == n,
    decreases n,
{
    let t = text::nat_text(n);
    if n < 10 {
        assert(t.drop_last() == Seq::<char>::empty());
        reveal_with_fuel(text::digits_value, 2);
    } else {
        lemma_nat_text(n / 10);
        let u = text::nat_text(n / 10);
        assert(t.drop_last() == u);
        assert forall|i: int| 0 <= i < t.len() implies text::is_digit(#[trigger] t[i]) by {
            if i < u.len() {
                assert(t[i] == u[i]);
            }
        }
    }
}

proof fn lemma_padded(n: nat, k: nat)
    ensures
        padded(n, k).len() == k,
        forall|i: int| 0 <= i < k ==> text::is_digit(#[trigger] padded(n, k)[i]),
        n < tens(k) ==> text::digits_value(padded(n, k)) == n,
    decreases k,
{
    let t = padded(n, k);
    if k > 0 {
        lemma_padded(n / 10, (k - 1) as nat);
        let u = padded(n / 10, (k - 1) as nat);
        assert(t.drop_last() == u);
        assert forall|i: int| 0 <= i < k implies text::is_digit(#[trigger] t[i]) by {
            if i < u.len() {
                assert(t[i] == u[i]);
            }
        }
    }
}

/// Whether no two values are each below the other.
pub open spec fn asymmetric<N: Real>() -> bool {
    forall|a: N, b: N| #[trigger] a.spec_below(b) ==> !b.spec_below(a)
}

/// Whether no pair has a first value below that of the pair before it.
pub open spec fn ascends<N: Real, T>(s: Seq<(N, T)>) -> bool {
    forall|i: int| 0 < i < s.len() ==> !(#[trigger] s[i]).0.spec_below(s[i - 1].0)
}

/// Ranked pairs ascend, whatever the order in which they came, and none is lost
/// or made up.
pub proof fn ranking_ascends<N: Real, T>(s: Seq<(N, T)>)
    requires
        asymmetric::<N>(),
    ensures
        ascends(ranked(s)),
        ranked(s).to_multiset() == s.to_multiset(),
    decreases s.len(),
{
    broadcast use vstd::seq_lib::group_to_multiset_ensures;

    if s.len() > 0 {
        ranking_ascends(s.drop_last());
        lemma_insert_ascends(ranked(s.drop_last()), s.last());
        assert(s == s.drop_last().push(s.last()));
    }
}

proof fn lemma_insert_ascends<N: Real, T>(s: Seq<(N, T)>, p: (N, T))
    requires
        asymmetric::<N>(),
        ascends(s),
    ensures
        ascends(insert_ranked(s, p)),
        insert_ranked(s, p).len() == s.len() + 1,
        insert_ranked(s, p).last() == p || (s.len() > 0 && insert_ranked(s, p).last() == s.last()
            && p.0.spec_below(s.last().0)),
        insert_ranked(s, p).to_multiset() == s.to_multiset().insert(p),
    decreases s.len(),
{
    broadcast use vstd::seq_lib::group_to_multiset_ensures;

    let r = insert_ranked(s, p);
    if s.len() > 0 && p.0.spec_below(s.last().0) {
        let d = s.drop_last();
        assert forall|i: int| 0 < i < d.len() implies !(#[trigger] d[i]).0.spec_below(d[i - 1].0) by {
            assert(!s[i].0.spec_below(s[i - 1].0));
        }
        lemma_insert_ascends(d, p);
        let q = insert_ranked(d, p);
        assert(r == q.push(s.last()));
        assert(s == d.push(s.last()));
        assert forall|i: int| 0 < i < r.len() implies !(#[trigger] r[i]).0.spec_below(r[i - 1].0) by {
            if i < q.len() {
                assert(r[i] == q[i] && r[i - 1] == q[i - 1]);
            } else if q.last() != p {
                assert(q.last() == d.last());
                assert(!s[s.len() - 1].0.spec_below(s[s.len() - 2].0));
            }
        }
    } else {
        assert(r == s.push(p));
        assert forall|i: int| 0 < i < r.len() implies !(#[trigger] r[i]).0.spec_below(r[i - 1].0) by {
            if i < s.len() {
                assert(r[i] == s[i] && r[i - 1] == s[i - 1]);
            }
        }
    }
}

} // verus!

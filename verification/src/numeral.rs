//! Decimal numerals as the plan script writes them.
//!
//! A numeral is an optional minus sign followed by decimal digits with at
//! most one decimal point and at least one digit, such as `6000`, `-0.5`,
//! `12.` or `.75`: the numbers that the script's number reader keeps.

use vstd::prelude::*;
use crate::text::{chars_of, copy_range, string_of};

verus! {

/// A decimal digit.
pub open spec fn is_digit(c: char) -> bool {
    '0' <= c <= '9'
}

/// A character that may be part of a number in the script.
pub open spec fn is_numeral_char(c: char) -> bool {
    is_digit(c) || c == '.' || c == '-'
}

/// The numeral without its minus sign.
pub open spec fn unsigned_part(t: Seq<char>) -> Seq<char> {
    if t.len() > 0 && t[0] == '-' {
        t.drop_first()
    } else {
        t
    }
}

/// `t` is a well-formed numeral: an optional minus sign, then digits and at
/// most one decimal point, with at least one digit.
pub open spec fn is_numeral(t: Seq<char>) -> bool {
    let b = unsigned_part(t);
    &&& forall|i: int| 0 <= i < b.len() ==> is_digit(#[trigger] b[i]) || b[i] == '.'
    &&& forall|i: int, j: int|
        0 <= i < b.len() && 0 <= j < b.len() && #[trigger] b[i] == '.' && #[trigger] b[j] == '.'
            ==> i == j
    &&& exists|i: int| 0 <= i < b.len() && is_digit(#[trigger] b[i])
}

/// `t` as a one-element list when it is a numeral, else the empty list.
pub open spec fn keep_numeral(t: Seq<char>) -> Seq<Seq<char>> {
    if is_numeral(t) {
        seq![t]
    } else {
        seq![]
    }
}

/// The numerals among the runs of number characters in `s`, from the run
/// that starts at `start`, with `start..i` already known to be such a run.
pub open spec fn numbers_from(s: Seq<char>, start: int, i: int) -> Seq<Seq<char>>
    decreases s.len() - i,
{
    if i >= s.len() {
        keep_numeral(s.subrange(start, s.len() as int))
    } else if is_numeral_char(s[i]) {
        numbers_from(s, start, i + 1)
    } else {
        keep_numeral(s.subrange(start, i)) + numbers_from(s, i + 1, i + 1)
    }
}

/// The numbers written in `s`, in order: `s` is cut at every character that
/// cannot be part of a number, and the pieces that are numerals are kept.
pub open spec fn numbers_in(s: Seq<char>) -> Seq<Seq<char>> {
    numbers_from(s, 0, 0)
}

/// A decimal numeral of the plan script.
#[derive(Debug)]
pub struct Numeral {
    text: Vec<char>,
}

impl View for Numeral {
    type V = Seq<char>;

    closed spec fn view(&self) -> Seq<char> {
        self.text@
    }
}

impl Clone for Numeral {
    fn clone(&self) -> (r: Numeral)
        ensures
            r@ == self@,
    {
        self.duplicate()
    }
}

impl Numeral {
    #[verifier::type_invariant]
    closed spec fn well_formed(self) -> bool {
        is_numeral(self.text@)
    }

    /// The numeral written as `s`, if `s` is one.
    pub fn parse(s: &str) -> (r: Option<Numeral>)
        ensures
            r matches Some(n) ==> n@ == s@,
            r is Some <==> is_numeral(s@),
    {
        let chars = chars_of(s);
        Self::from_chars(&chars)
    }

    /// The numeral written as `chars`, if they form one.
    pub fn from_chars(chars: &[char]) -> (r: Option<Numeral>)
        ensures
            r matches Some(n) ==> n@ == chars@,
            r is Some <==> is_numeral(chars@),
    {
        if is_numeral_exec(chars) {
            let text = copy_range(chars, 0, chars.len());
            proof {
                assert(chars@.subrange(0, chars.len() as int) == chars@);
            }
            Some(Numeral { text })
        } else {
            None
        }
    }

    /// The numeral's text, which is always a well-formed numeral.
    pub fn to_text(&self) -> (s: String)
        ensures
            s@ == self@,
            is_numeral(s@),
    {
        proof {
            use_type_invariant(self);
        }
        string_of(self.text.as_slice())
    }

    /// A numeral equal to this one.
    pub fn duplicate(&self) -> (r: Numeral)
        ensures
            r@ == self@,
    {
        proof {
            use_type_invariant(self);
        }
        let text = copy_range(self.text.as_slice(), 0, self.text.len());
        proof {
            assert(self.text@.subrange(0, self.text.len() as int) == self.text@);
        }
        Numeral { text }
    }
}

/// Whether `c` is a decimal digit.
pub fn is_digit_char(c: char) -> (r: bool)
    ensures
        r == is_digit(c),
{
    '0' <= c && c <= '9'
}

/// Whether `c` may be part of a number.
pub fn is_numeral_char_exec(c: char) -> (r: bool)
    ensures
        r == is_numeral_char(c),
{
    is_digit_char(c) || c == '.' || c == '-'
}

/// Whether `t` is a well-formed numeral.
pub fn is_numeral_exec(t: &[char]) -> (r: bool)
    ensures
        r == is_numeral(t@),
{
    let start: usize = if t.len() > 0 && t[0] == '-' { 1 } else { 0 };
    let ghost b = unsigned_part(t@);
    proof {
        assert(b == t@.skip(start as int));
    }
    let mut dot: Option<usize> = None;
    let mut digit = false;
    let mut i: usize = start;
    while i < t.len()
        invariant
            start <= i <= t.len(),
            start <= 1,
            b == t@.skip(start as int),
            b == unsigned_part(t@),
            forall|k: int| 0 <= k < i - start ==> is_digit(#[trigger] b[k]) || b[k] == '.',
            forall|k: int| 0 <= k < i - start && #[trigger] b[k] == '.' ==> dot == Some((k + start) as usize),
            dot matches Some(d) ==> start <= d < i && b[d - start] == '.',
            digit <==> exists|k: int| 0 <= k < i - start && is_digit(#[trigger] b[k]),
        decreases t.len() - i,
    {
        let c = t[i];
        proof {
            assert(b[i - start] == c);
        }
        if is_digit_char(c) {
            digit = true;
        } else if c == '.' {
            if let Some(d) = dot {
                proof {
                    let x = d - start;
                    let y = i - start;
                    assert(b[x] == '.' && b[y] == '.' && x != y);
                    assert(!is_numeral(t@));
                }
                return false;
            }
            dot = Some(i);
        } else {
            proof {
                let y = i - start;
                assert(!(is_digit(b[y]) || b[y] == '.'));
                assert(!is_numeral(t@));
            }
            return false;
        }
        i = i + 1;
    }
    proof {
        assert(b.len() == t.len() - start);
    }
    digit
}

/// The numbers written in `s`, in order.
pub fn numbers_in_exec(s: &[char]) -> (r: Vec<Numeral>)
    ensures
        r@.map_values(|n: Numeral| n@) == numbers_in(s@),
{
    let mut r: Vec<Numeral> = Vec::new();
    let mut start: usize = 0;
    let mut i: usize = 0;
    while i < s.len()
        invariant
            start <= i <= s.len(),
            numbers_in(s@) == r@.map_values(|n: Numeral| n@) + numbers_from(
                s@,
                start as int,
                i as int,
            ),
        decreases s.len() - i,
    {
        if !is_numeral_char_exec(s[i]) {
            let piece = copy_range(s, start, i);
            let ghost before = r@.map_values(|n: Numeral| n@);
            if let Some(n) = Numeral::from_chars(piece.as_slice()) {
                r.push(n);
                proof {
                    assert(r@.map_values(|n: Numeral| n@) == before.push(piece@));
                    assert(before + numbers_from(s@, start as int, i as int) == before.push(
                        piece@,
                    ) + numbers_from(s@, i + 1, i + 1));
                }
            } else {
                proof {
                    assert(before + numbers_from(s@, start as int, i as int) == before
                        + numbers_from(s@, i + 1, i + 1));
                }
            }
            start = i + 1;
        }
        i = i + 1;
    }
    let piece = copy_range(s, start, s.len());
    let ghost before = r@.map_values(|n: Numeral| n@);
    if let Some(n) = Numeral::from_chars(piece.as_slice()) {
        r.push(n);
        proof {
            assert(r@.map_values(|n: Numeral| n@) == before.push(piece@));
        }
    } else {
        proof {
            assert(before + numbers_from(s@, start as int, i as int) == before);
        }
    }
    r
}

/// Ten to the power `n`.
pub open spec fn pow10(n: nat) -> nat
    decreases n,
{
    if n == 0 {
        1
    } else {
        10 * pow10((n - 1) as nat)
    }
}

/// The value of a decimal digit.
pub open spec fn digit_value(c: char) -> int {
    c as int - 48
}

/// The natural number that the digits `s` write.
pub open spec fn digits_nat(s: Seq<char>) -> int
    decreases s.len(),
{
    if s.len() == 0 {
        0
    } else {
        digits_nat(s.drop_last()) * 10 + digit_value(s.last())
    }
}

/// The position of the first decimal point of `b` at or after `i`, or the
/// length of `b` when there is none.
pub open spec fn dot_from(b: Seq<char>, i: int) -> int
    decreases b.len() - i,
{
    if i >= b.len() {
        b.len() as int
    } else if b[i] == '.' {
        i
    } else {
        dot_from(b, i + 1)
    }
}

/// The digits of a numeral, without sign and decimal point.
pub open spec fn significand(t: Seq<char>) -> Seq<char> {
    let b = unsigned_part(t);
    let d = dot_from(b, 0);
    if d < b.len() {
        b.take(d) + b.skip(d + 1)
    } else {
        b
    }
}

/// The number of digits after a numeral's decimal point.
pub open spec fn scale(t: Seq<char>) -> nat {
    let b = unsigned_part(t);
    let d = dot_from(b, 0);
    if d < b.len() {
        (b.len() - d - 1) as nat
    } else {
        0
    }
}

/// The numeral starts with a minus sign.
pub open spec fn is_negative(t: Seq<char>) -> bool {
    t.len() > 0 && t[0] == '-'
}

/// The numerator of a numeral's value over `10^scale`.
pub open spec fn numerator(t: Seq<char>) -> int {
    if is_negative(t) {
        -digits_nat(significand(t))
    } else {
        digits_nat(significand(t))
    }
}

/// The value of numeral `a` is less than the value of numeral `b`, the
/// value of a numeral being `numerator / 10^scale`.
pub open spec fn value_lt(a: Seq<char>, b: Seq<char>) -> bool {
    numerator(a) * pow10(scale(b)) < numerator(b) * pow10(scale(a))
}

/// All of `s` are decimal digits.
pub open spec fn all_digits(s: Seq<char>) -> bool {
    forall|i: int| 0 <= i < s.len() ==> is_digit(#[trigger] s[i])
}

/// `k` zeros.
pub open spec fn zeros(k: nat) -> Seq<char> {
    Seq::new(k, |i: int| '0')
}

pub proof fn lemma_pow10(a: nat, b: nat)
    ensures
        pow10(a + b) == pow10(a) * pow10(b),
        pow10(a) >= 1,
    decreases a,
{
    if a > 0 {
        lemma_pow10((a - 1) as nat, b);
        assert((a + b - 1) as nat == ((a - 1) as nat + b) as nat);
        assert(pow10(a + b) == 10 * pow10(((a - 1) as nat + b) as nat));
        let x = pow10((a - 1) as nat);
        let y = pow10(b);
        assert(pow10(a) == 10 * x);
        assert(10 * (x * y) == (10 * x) * y) by (nonlinear_arith);
    } else {
        assert(pow10(0) == 1);
        assert(a + b == b);
    }
}

/// Digits written after others scale those by a power of ten.
pub proof fn lemma_digits_append(s: Seq<char>, t: Seq<char>)
    ensures
        digits_nat(s + t) == digits_nat(s) * pow10(t.len()) + digits_nat(t),
    decreases t.len(),
{
    if t.len() == 0 {
        assert(s + t == s);
        assert(pow10(0) == 1);
        assert(digits_nat(t) == 0);
    } else {
        let t1 = t.drop_last();
        assert((s + t).drop_last() == s + t1);
        assert((s + t).last() == t.last());
        lemma_digits_append(s, t1);
        let a = digits_nat(s);
        let p = pow10(t1.len());
        let r = digits_nat(t1);
        let d = digit_value(t.last());
        assert(pow10(t.len()) == 10 * p);
        assert(digits_nat(t) == r * 10 + d);
        assert((a * p + r) * 10 + d == a * (10 * p) + (r * 10 + d)) by (nonlinear_arith);
    }
}

/// Digits write a number below ten to the power of their count, and not
/// below zero.
pub proof fn lemma_digits_bound(s: Seq<char>)
    requires
        all_digits(s),
    ensures
        0 <= digits_nat(s) < pow10(s.len()),
    decreases s.len(),
{
    if s.len() > 0 {
        let s1 = s.drop_last();
        assert(is_digit(s[s.len() - 1]));
        assert(all_digits(s1)) by {
            assert forall|i: int| 0 <= i < s1.len() implies is_digit(#[trigger] s1[i]) by {
                assert(s1[i] == s[i]);
            }
        }
        lemma_digits_bound(s1);
    }
}

/// Zeros write zero.
pub proof fn lemma_zeros(k: nat)
    ensures
        digits_nat(zeros(k)) == 0,
        all_digits(zeros(k)),
    decreases k,
{
    if k > 0 {
        assert(zeros(k).drop_last() == zeros((k - 1) as nat));
        lemma_zeros((k - 1) as nat);
    }
}

/// Digits that start with a nonzero digit write at least ten to the power
/// of their count less one.
pub proof fn lemma_digits_leading(s: Seq<char>)
    requires
        all_digits(s),
        s.len() > 0,
        s[0] != '0',
    ensures
        digits_nat(s) >= pow10((s.len() - 1) as nat),
{
    let h = s.take(1);
    let r = s.skip(1);
    assert(s == h + r);
    lemma_digits_append(h, r);
    assert(h.drop_last().len() == 0);
    assert(digits_nat(h.drop_last()) == 0);
    assert(h.last() == s[0]);
    assert(digits_nat(h) == digit_value(s[0]));
    assert(is_digit(s[0]));
    assert(all_digits(r)) by {
        assert forall|i: int| 0 <= i < r.len() implies is_digit(#[trigger] r[i]) by {
            assert(r[i] == s[i + 1]);
        }
    }
    lemma_digits_bound(r);
    let p = pow10(r.len());
    assert(digit_value(s[0]) * p >= p) by (nonlinear_arith)
        requires
            digit_value(s[0]) >= 1,
            p >= 1,
    ;
    lemma_pow10(0, r.len());
}

/// Two digit strings of one length that agree before position `k` and
/// differ at `k` are ordered as their digits at `k`.
pub proof fn lemma_digits_lex(s: Seq<char>, t: Seq<char>, k: int)
    requires
        all_digits(s),
        all_digits(t),
        s.len() == t.len(),
        0 <= k < s.len(),
        s.take(k) == t.take(k),
        digit_value(s[k]) < digit_value(t[k]),
    ensures
        digits_nat(s) < digits_nat(t),
{
    let n = s.len();
    let hs = s.take(k + 1);
    let ht = t.take(k + 1);
    let rs = s.skip(k + 1);
    let rt = t.skip(k + 1);
    assert(s == hs + rs);
    assert(t == ht + rt);
    lemma_digits_append(hs, rs);
    lemma_digits_append(ht, rt);
    assert(hs.drop_last() == s.take(k));
    assert(ht.drop_last() == t.take(k));
    assert(all_digits(rs)) by {
        assert forall|i: int| 0 <= i < rs.len() implies is_digit(#[trigger] rs[i]) by {
            assert(rs[i] == s[i + k + 1]);
        }
    }
    assert(all_digits(rt)) by {
        assert forall|i: int| 0 <= i < rt.len() implies is_digit(#[trigger] rt[i]) by {
            assert(rt[i] == t[i + k + 1]);
        }
    }
    lemma_digits_bound(rs);
    lemma_digits_bound(rt);
    let q = digits_nat(s.take(k));
    let a = q * 10 + digit_value(s[k]);
    let b = q * 10 + digit_value(t[k]);
    let p = pow10(rs.len());
    let x = digits_nat(rs);
    let y = digits_nat(rt);
    assert(a * p + x < b * p + y) by (nonlinear_arith)
        requires
            a + 1 <= b,
            0 <= x < p,
            0 <= y,
    ;
}

/// Comparing at a common scale: `a / 10^sa < b / 10^sb` exactly when
/// `a * 10^(e - sa) < b * 10^(e - sb)`, for `e` the greater scale.
pub proof fn lemma_common_scale(a: int, sa: nat, b: int, sb: nat)
    ensures
        ({
            let e: nat = if sa < sb {
                sb
            } else {
                sa
            };
            (a * pow10(sb) < b * pow10(sa)) == (a * pow10((e - sa) as nat) < b * pow10(
                (e - sb) as nat,
            ))
        }),
{
    let e: nat = if sa < sb {
        sb
    } else {
        sa
    };
    let k: nat = if sa < sb {
        sa
    } else {
        sb
    };
    let pa = pow10((e - sa) as nat);
    let pb = pow10((e - sb) as nat);
    let pk = pow10(k);
    lemma_pow10((e - sa) as nat, k);
    lemma_pow10((e - sb) as nat, k);
    lemma_pow10(k, 0);
    assert(((e - sa) as nat + k) as nat == sb);
    assert(((e - sb) as nat + k) as nat == sa);
    assert((a * (pa * pk) < b * (pb * pk)) == (a * pa < b * pb)) by (nonlinear_arith)
        requires
            pk >= 1,
    ;
}

/// The significand and scale of a numeral.
fn significand_exec(t: &[char]) -> (r: (Vec<char>, usize))
    requires
        is_numeral(t@),
    ensures
        r.0@ == significand(t@),
        r.1 == scale(t@),
        all_digits(r.0@),
{
    let start: usize = if t.len() > 0 && t[0] == '-' { 1 } else { 0 };
    let ghost b = unsigned_part(t@);
    proof {
        assert(b == t@.skip(start as int));
    }
    let mut out: Vec<char> = Vec::new();
    let mut dot: Option<usize> = None;
    let mut i: usize = 0;
    let n: usize = t.len() - start;
    proof {
        assert(b.take(0) =~= Seq::<char>::empty());
    }
    while i < n
        invariant
            start <= 1,
            n == t.len() - start,
            b == t@.skip(start as int),
            b == unsigned_part(t@),
            b.len() == n,
            is_numeral(t@),
            i <= n,
            dot is None ==> dot_from(b, 0) == dot_from(b, i as int) && out@ == b.take(i as int),
            dot matches Some(d) ==> d < i && dot_from(b, 0) == d && b[d as int] == '.' && out@
                == b.take(d as int) + b.subrange(d + 1, i as int),
            all_digits(out@),
        decreases n - i,
    {
        let c = t[start + i];
        assert(b[i as int] == c);
        if c == '.' {
            proof {
                if let Some(d) = dot {
                    assert(b[d as int] == '.' && b[i as int] == '.');
                    assert(false);
                }
            }
            dot = Some(i);
        } else {
            assert(is_digit(b[i as int]));
            let ghost before = out@;
            out.push(c);
            proof {
                if let Some(d) = dot {
                    assert(b.subrange(d + 1, i + 1) == b.subrange(d + 1, i as int).push(c));
                    assert(out@ == b.take(d as int) + b.subrange(d + 1, i + 1));
                } else {
                    assert(b.take(i + 1) == b.take(i as int).push(c));
                }
                assert forall|k: int| 0 <= k < out@.len() implies is_digit(#[trigger] out@[k]) by {
                    if k < before.len() {
                        assert(out@[k] == before[k]);
                    }
                }
            }
        }
        i = i + 1;
    }
    match dot {
        Some(d) => {
            proof {
                assert(b.subrange(d + 1, n as int) == b.skip(d + 1));
            }
            (out, n - d - 1)
        },
        None => {
            proof {
                assert(b.take(n as int) == b);
            }
            (out, 0)
        },
    }
}

/// `v` with `k` zeros written after it.
fn pad_zeros(v: &mut Vec<char>, k: usize)
    ensures
        final(v)@ == old(v)@ + zeros(k as nat),
{
    let ghost v0 = v@;
    let mut j: usize = 0;
    proof {
        assert(v0 + zeros(0) == v0);
    }
    while j < k
        invariant
            j <= k,
            v@ == v0 + zeros(j as nat),
        decreases k - j,
    {
        v.push('0');
        proof {
            assert(v0 + zeros((j + 1) as nat) == (v0 + zeros(j as nat)).push('0'));
        }
        j = j + 1;
    }
}

/// The number of zeros that `s` starts with.
fn leading_zeros(s: &[char]) -> (r: usize)
    requires
        all_digits(s@),
    ensures
        r <= s.len(),
        s@ == zeros(r as nat) + s@.skip(r as int),
        digits_nat(s@) == digits_nat(s@.skip(r as int)),
        all_digits(s@.skip(r as int)),
        r < s.len() ==> s@[r as int] != '0',
{
    let mut i: usize = 0;
    while i < s.len() && s[i] == '0'
        invariant
            i <= s.len(),
            forall|j: int| 0 <= j < i ==> s@[j] == '0',
        decreases s.len() - i,
    {
        i = i + 1;
    }
    proof {
        assert(s@ == zeros(i as nat) + s@.skip(i as int));
        lemma_digits_append(zeros(i as nat), s@.skip(i as int));
        lemma_zeros(i as nat);
        assert forall|j: int| 0 <= j < s@.skip(i as int).len() implies is_digit(
            #[trigger] s@.skip(i as int)[j],
        ) by {
            assert(s@.skip(i as int)[j] == s@[j + i]);
        }
    }
    i
}

/// Digits without leading zeros that outnumber others write a greater
/// number.
proof fn lemma_longer_is_greater(xs: Seq<char>, ys: Seq<char>)
    requires
        all_digits(xs),
        all_digits(ys),
        xs.len() < ys.len(),
        ys[0] != '0',
    ensures
        digits_nat(xs) < digits_nat(ys),
{
    let lx = xs.len();
    let ly = ys.len();
    lemma_digits_bound(xs);
    lemma_digits_leading(ys);
    lemma_pow10(lx as nat, (ly - 1 - lx) as nat);
    lemma_pow10((ly - 1 - lx) as nat, 0);
    assert((lx + (ly - 1 - lx)) as nat == (ly - 1) as nat);
    let p = pow10(lx as nat);
    let q = pow10((ly - 1 - lx) as nat);
    assert(p * q >= p) by (nonlinear_arith)
        requires
            p >= 0,
            q >= 1,
    ;
}

/// The order of the numbers that two digit strings write: negative, zero or
/// positive as the first is less than, equal to or greater than the second.
fn compare_digits(x: &[char], y: &[char]) -> (r: i8)
    requires
        all_digits(x@),
        all_digits(y@),
    ensures
        (r < 0) == (digits_nat(x@) < digits_nat(y@)),
        (r == 0) == (digits_nat(x@) == digits_nat(y@)),
{
    let ix = leading_zeros(x);
    let iy = leading_zeros(y);
    let lx = x.len() - ix;
    let ly = y.len() - iy;
    let ghost xs = x@.skip(ix as int);
    let ghost ys = y@.skip(iy as int);
    proof {
        lemma_digits_bound(xs);
        lemma_digits_bound(ys);
    }
    if lx != ly {
        proof {
            if lx < ly {
                assert(ys[0] == y@[iy as int]);
                lemma_longer_is_greater(xs, ys);
            } else {
                assert(xs[0] == x@[ix as int]);
                lemma_longer_is_greater(ys, xs);
            }
        }
        return if lx < ly {
            -1
        } else {
            1
        };
    }
    let xr = &x[ix..x.len()];
    let yr = &y[iy..y.len()];
    proof {
        assert(xr@ == xs);
        assert(yr@ == ys);
    }
    compare_same_length(xr, yr)
}

/// The order of the numbers that two digit strings of one length write.
fn compare_same_length(xs: &[char], ys: &[char]) -> (r: i8)
    requires
        all_digits(xs@),
        all_digits(ys@),
        xs@.len() == ys@.len(),
    ensures
        (r < 0) == (digits_nat(xs@) < digits_nat(ys@)),
        (r == 0) == (digits_nat(xs@) == digits_nat(ys@)),
{
    let n = xs.len();
    let mut k: usize = 0;
    while k < n
        invariant
            n == xs@.len(),
            n == ys@.len(),
            all_digits(xs@),
            all_digits(ys@),
            k <= n,
            xs@.take(k as int) == ys@.take(k as int),
        decreases n - k,
    {
        let a = xs[k];
        let b = ys[k];
        if a != b {
            proof {
                if a < b {
                    lemma_digits_lex(xs@, ys@, k as int);
                } else {
                    lemma_digits_lex(ys@, xs@, k as int);
                }
            }
            return if a < b {
                -1
            } else {
                1
            };
        }
        proof {
            assert(xs@.take(k + 1) == xs@.take(k as int).push(a));
            assert(ys@.take(k + 1) == ys@.take(k as int).push(b));
        }
        k = k + 1;
    }
    proof {
        assert(xs@.take(n as int) == xs@);
        assert(ys@.take(n as int) == ys@);
    }
    0
}

/// Whether the digits write zero.
fn is_zero_digits(s: &[char]) -> (r: bool)
    requires
        all_digits(s@),
    ensures
        r == (digits_nat(s@) == 0),
{
    let i = leading_zeros(s);
    proof {
        let rest = s@.skip(i as int);
        if i == s.len() {
            assert(rest =~= Seq::<char>::empty());
        } else {
            lemma_digits_leading(rest);
            lemma_pow10((rest.len() - 1) as nat, 0);
        }
    }
    i == s.len()
}

impl Numeral {
    /// Whether this numeral's value is less than `other`'s.
    pub fn less_than(&self, other: &Numeral) -> (r: bool)
        ensures
            r == value_lt(self@, other@),
    {
        proof {
            use_type_invariant(self);
            use_type_invariant(other);
        }
        let (mut da, sa) = significand_exec(self.text.as_slice());
        let (mut db, sb) = significand_exec(other.text.as_slice());
        let ghost ga = da@;
        let ghost gb = db@;
        let na = self.text.len() > 0 && self.text[0] == '-';
        let nb = other.text.len() > 0 && other.text[0] == '-';
        let e: usize = if sa < sb { sb } else { sa };
        if sa < sb {
            pad_zeros(&mut da, sb - sa);
        } else {
            pad_zeros(&mut db, sa - sb);
        }
        proof {
            lemma_zeros((e - sa) as nat);
            lemma_zeros((e - sb) as nat);
            if sa < sb {
                assert(db@ == gb + zeros(0));
            } else {
                assert(da@ == ga + zeros(0));
            }
            lemma_digits_append(ga, zeros((e - sa) as nat));
            lemma_digits_append(gb, zeros((e - sb) as nat));
            lemma_common_scale(numerator(self@), sa as nat, numerator(other@), sb as nat);
            assert forall|i: int| 0 <= i < da@.len() implies is_digit(#[trigger] da@[i]) by {
                if i < ga.len() {
                    assert(da@[i] == ga[i]);
                } else {
                    assert(da@[i] == zeros((e - sa) as nat)[i - ga.len()]);
                }
            }
            assert forall|i: int| 0 <= i < db@.len() implies is_digit(#[trigger] db@[i]) by {
                if i < gb.len() {
                    assert(db@[i] == gb[i]);
                } else {
                    assert(db@[i] == zeros((e - sb) as nat)[i - gb.len()]);
                }
            }
            lemma_digits_bound(ga);
            lemma_digits_bound(gb);
            let pa = pow10((e - sa) as nat);
            let pb = pow10((e - sb) as nat);
            lemma_pow10((e - sa) as nat, 0);
            lemma_pow10((e - sb) as nat, 0);
            let xa = digits_nat(ga);
            let xb = digits_nat(gb);
            assert((-xa) * pa == -(xa * pa)) by (nonlinear_arith);
            assert((-xb) * pb == -(xb * pb)) by (nonlinear_arith);
            assert(xa * pa == 0 <==> xa == 0) by (nonlinear_arith)
                requires
                    pa >= 1,
                    xa >= 0,
            ;
            assert(xb * pb == 0 <==> xb == 0) by (nonlinear_arith)
                requires
                    pb >= 1,
                    xb >= 0,
            ;
            assert(xa * pa >= 0 && xb * pb >= 0) by (nonlinear_arith)
                requires
                    pa >= 1,
                    xa >= 0,
                    pb >= 1,
                    xb >= 0,
            ;
        }
        let c = compare_digits(da.as_slice(), db.as_slice());
        let za = is_zero_digits(da.as_slice());
        let zb = is_zero_digits(db.as_slice());
        let a_neg = na && !za;
        let b_neg = nb && !zb;
        if a_neg && !b_neg {
            true
        } else if !a_neg && b_neg {
            false
        } else if !a_neg {
            c < 0
        } else {
            c > 0
        }
    }
}

} // verus!

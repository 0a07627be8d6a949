use vstd::prelude::*;
use crate::error::Error;
use vstd::arithmetic::div_mod::{lemma_div_by_multiple, lemma_div_denominator, lemma_hoist_over_denominator};

verus! {

/// `10` to the power `k`.
pub open spec fn pow10(k: nat) -> nat
    decreases k,
{
    if k == 0 {
        1
    } else {
        10 * pow10((k - 1) as nat)
    }
}

/// The number that a sequence of decimal digits writes, most significant first.
pub open spec fn digits_value(ds: Seq<u8>) -> nat
    decreases ds.len(),
{
    if ds.len() == 0 {
        0
    } else {
        digits_value(ds.drop_last()) * 10 + ds.last() as nat
    }
}

pub open spec fn all_digits(ds: Seq<u8>) -> bool {
    forall|i: int| 0 <= i < ds.len() ==> ds[i] <= 9
}

pub open spec fn is_digit_char(c: char) -> bool {
    '0' <= c && c <= '9'
}

pub open spec fn digit_of(c: char) -> u8 {
    (c as u32 - 48) as u8
}

pub open spec fn digits_of(cs: Seq<char>) -> Seq<u8> {
    cs.map_values(|c: char| digit_of(c))
}

/// Length of the optional leading sign of a numeral.
pub open spec fn sign_len(s: Seq<char>) -> int {
    if s.len() > 0 && (s[0] == '+' || s[0] == '-') {
        1
    } else {
        0
    }
}

pub open spec fn is_negative(s: Seq<char>) -> bool {
    s.len() > 0 && s[0] == '-'
}

/// Position of the decimal point, or the length when there is none.
pub open spec fn point_index(s: Seq<char>) -> int {
    if exists|i: int| sign_len(s) <= i < s.len() && s[i] == '.' {
        choose|i: int| sign_len(s) <= i < s.len() && s[i] == '.'
    } else {
        s.len() as int
    }
}

/// Digits before the decimal point.
pub open spec fn int_part(s: Seq<char>) -> Seq<u8> {
    digits_of(s.subrange(sign_len(s), point_index(s)))
}

/// Digits after the decimal point.
pub open spec fn frac_part(s: Seq<char>) -> Seq<u8> {
    if point_index(s) < s.len() {
        digits_of(s.subrange(point_index(s) + 1, s.len() as int))
    } else {
        Seq::empty()
    }
}

/// An optional sign, then digits with at most one decimal point among them,
/// at least one digit in all (`1`, `0.5`, `.5`, `+1.`, `-0.25`).
pub open spec fn is_numeral(s: Seq<char>) -> bool {
    &&& forall|i: int| sign_len(s) <= i < s.len() ==> is_digit_char(s[i]) || s[i] == '.'
    &&& forall|i: int, j: int|
        sign_len(s) <= i < j < s.len() && s[i] == '.' ==> s[j] != '.'
    &&& int_part(s).len() + frac_part(s).len() > 0
}

/// Numerator of the numeral's magnitude over `numeral_den`.
pub open spec fn numeral_num(s: Seq<char>) -> nat {
    digits_value(int_part(s)) * pow10(frac_part(s).len()) + digits_value(frac_part(s))
}

pub open spec fn numeral_den(s: Seq<char>) -> nat {
    pow10(frac_part(s).len())
}

/// `b` spells the word whose letters are `lower`, each letter in either case.
pub open spec fn same_letters(b: Seq<char>, lower: Seq<char>, upper: Seq<char>) -> bool {
    &&& b.len() == lower.len()
    &&& forall|i: int| 0 <= i < b.len() ==> b[i] == lower[i] || b[i] == upper[i]
}

/// An optional sign, then `inf`, `infinity` or `nan` in any case: a number
/// that is not finite.
pub open spec fn is_float_name(s: Seq<char>) -> bool {
    let b = s.subrange(sign_len(s), s.len() as int);
    ||| same_letters(b, seq!['i', 'n', 'f'], seq!['I', 'N', 'F'])
    ||| same_letters(
        b,
        seq!['i', 'n', 'f', 'i', 'n', 'i', 't', 'y'],
        seq!['I', 'N', 'F', 'I', 'N', 'I', 'T', 'Y'],
    )
    ||| same_letters(b, seq!['n', 'a', 'n'], seq!['N', 'A', 'N'])
}

pub open spec fn is_exp_marker(c: char) -> bool {
    c == 'e' || c == 'E'
}

/// Position of the first exponent marker after the sign, or the length when
/// there is none.
pub open spec fn exp_index(s: Seq<char>) -> int {
    if exists|i: int|
        sign_len(s) <= i < s.len() && is_exp_marker(s[i]) && forall|j: int|
            sign_len(s) <= j < i ==> !is_exp_marker(#[trigger] s[j]) {
        choose|i: int|
            sign_len(s) <= i < s.len() && is_exp_marker(s[i]) && forall|j: int|
                sign_len(s) <= j < i ==> !is_exp_marker(#[trigger] s[j])
    } else {
        s.len() as int
    }
}

pub open spec fn has_exponent(s: Seq<char>) -> bool {
    exp_index(s) < s.len()
}

/// The sign and decimal numeral before the exponent.
pub open spec fn mantissa(s: Seq<char>) -> Seq<char> {
    s.subrange(0, exp_index(s))
}

/// What follows the exponent marker.
pub open spec fn exponent_text(s: Seq<char>) -> Seq<char> {
    s.subrange(exp_index(s) + 1, s.len() as int)
}

/// An optional sign, then at least one digit.
pub open spec fn is_exponent(x: Seq<char>) -> bool {
    &&& x.len() > sign_len(x)
    &&& forall|i: int| sign_len(x) <= i < x.len() ==> is_digit_char(x[i])
}

pub open spec fn exponent_digits(x: Seq<char>) -> Seq<u8> {
    digits_of(x.subrange(sign_len(x), x.len() as int))
}

pub open spec fn exponent_value(s: Seq<char>) -> int {
    if has_exponent(s) {
        let x = exponent_text(s);
        if is_negative(x) {
            -(digits_value(exponent_digits(x)) as int)
        } else {
            digits_value(exponent_digits(x)) as int
        }
    } else {
        0
    }
}

/// A decimal numeral, optionally followed by `e` or `E` and a signed integer
/// exponent (`0.5`, `5e-1`, `.25E+0`).
pub open spec fn is_scale_literal(s: Seq<char>) -> bool {
    &&& is_numeral(mantissa(s))
    &&& has_exponent(s) ==> is_exponent(exponent_text(s))
}

/// Numerator of the literal's magnitude over `literal_den`.
pub open spec fn literal_num(s: Seq<char>) -> nat {
    let e = exponent_value(s);
    numeral_num(mantissa(s)) * pow10(if e >= 0 { e as nat } else { 0 })
}

pub open spec fn literal_den(s: Seq<char>) -> nat {
    let e = exponent_value(s);
    numeral_den(mantissa(s)) * pow10(if e < 0 { (-e) as nat } else { 0 })
}

/// The literal's value lies in `(0, 1]`.
pub open spec fn literal_in_range(s: Seq<char>) -> bool {
    !is_negative(s) && 0 < literal_num(s) <= literal_den(s)
}

/// A scale factor in `(0, 1]`, held exactly: its digits over a power of ten.
pub struct ScaleFactor {
    digits: Vec<u8>,
    shift: Ghost<nat>,
    shift_sat: u128,
    one: bool,
}

impl ScaleFactor {
    /// Numerator of the factor over `den`.
    pub closed spec fn num(&self) -> nat {
        digits_value(self.digits@)
    }

    pub closed spec fn den(&self) -> nat {
        pow10(self.shift@)
    }

    pub closed spec fn wf(&self) -> bool {
        &&& all_digits(self.digits@)
        &&& self.shift_sat == if self.shift@ < self.digits@.len() + 10 {
            self.shift@
        } else {
            (self.digits@.len() + 10) as nat
        }
        &&& 0 < self.num() <= self.den()
        &&& self.one == (self.num() == self.den())
    }

    /// A well-formed factor lies in `(0, 1]`.
    pub proof fn lemma_in_unit_interval(&self)
        requires
            self.wf(),
        ensures
            0 < self.num() <= self.den(),
    {
    }
}

/// `floor(dim * num / den)`.
pub open spec fn scaled(dim: nat, num: nat, den: nat) -> nat {
    dim * num / den
}

pub proof fn lemma_pow10_positive(k: nat)
    ensures
        pow10(k) >= 1,
    decreases k,
{
    if k > 0 {
        lemma_pow10_positive((k - 1) as nat);
    }
}

pub proof fn lemma_digits_value_bound(ds: Seq<u8>)
    requires
        all_digits(ds),
    ensures
        digits_value(ds) < pow10(ds.len()),
    decreases ds.len(),
{
    if ds.len() > 0 {
        lemma_digits_value_bound(ds.drop_last());
    }
}

/// Splitting off the leading digit.
pub proof fn lemma_digits_value_first(ds: Seq<u8>)
    requires
        ds.len() > 0,
    ensures
        digits_value(ds) == ds[0] as nat * pow10((ds.len() - 1) as nat) + digits_value(
            ds.drop_first(),
        ),
    decreases ds.len(),
{
    if ds.len() > 1 {
        let dl = ds.drop_last();
        lemma_digits_value_first(dl);
        assert(dl.drop_first() =~= ds.drop_first().drop_last());
        let p = pow10((ds.len() - 2) as nat);
        let a = ds[0] as nat;
        let r = digits_value(dl.drop_first());
        assert(dl[0] == ds[0]);
        assert(digits_value(dl) == a * p + r);
        assert(ds.drop_first().last() == ds.last());
        assert(digits_value(ds.drop_first()) == r * 10 + ds.last() as nat);
        assert(pow10((ds.len() - 1) as nat) == 10 * p);
        assert((a * p + r) * 10 + ds.last() as nat == a * (10 * p) + (r * 10 + ds.last() as nat))
            by (nonlinear_arith);
        assert(digits_value(ds) == digits_value(dl) * 10 + ds.last() as nat);
        assert(digits_value(ds) == a * pow10((ds.len() - 1) as nat) + digits_value(ds.drop_first()));
    } else {
        assert(ds.drop_first().len() == 0);
        assert(ds.drop_last().len() == 0);
        assert(ds.last() == ds[0]);
        assert(pow10(0) == 1);
        assert(digits_value(ds.drop_first()) == 0);
        assert(digits_value(ds.drop_last()) == 0);
        assert(digits_value(ds) == ds[0] as nat);
        assert((ds.len() - 1) as nat == 0);
        assert(ds[0] as nat * 1 == ds[0] as nat);
    }
}

pub proof fn lemma_pow10_add(a: nat, b: nat)
    ensures
        pow10(a + b) == pow10(a) * pow10(b),
    decreases a,
{
    if a > 0 {
        lemma_pow10_add((a - 1) as nat, b);
        assert(pow10(a) == 10 * pow10((a - 1) as nat));
        assert((a + b - 1) as nat == ((a - 1) as nat + b) as nat);
        assert(pow10(a + b) == 10 * pow10((a - 1 + b) as nat));
        assert(10 * (pow10((a - 1) as nat) * pow10(b)) == (10 * pow10((a - 1) as nat)) * pow10(b))
            by (nonlinear_arith);
    } else {
        assert(pow10(0) == 1);
        assert(a + b == b);
    }
}

pub proof fn lemma_pow10_mono(a: nat, b: nat)
    requires
        a <= b,
    ensures
        pow10(a) <= pow10(b),
{
    lemma_pow10_add(a, (b - a) as nat);
    lemma_pow10_positive((b - a) as nat);
    lemma_pow10_positive(a);
    assert(pow10(a) <= pow10(a) * pow10((b - a) as nat)) by (nonlinear_arith)
        requires
            pow10((b - a) as nat) >= 1,
    ;
}

/// The value of digits written one after the other.
pub proof fn lemma_digits_value_concat(x: Seq<u8>, y: Seq<u8>)
    ensures
        digits_value(x + y) == digits_value(x) * pow10(y.len()) + digits_value(y),
    decreases y.len(),
{
    if y.len() == 0 {
        assert(x + y =~= x);
        assert(pow10(0) == 1);
        assert(digits_value(y) == 0);
        assert(digits_value(x) * 1 == digits_value(x));
    } else {
        let yl = y.drop_last();
        lemma_digits_value_concat(x, yl);
        assert((x + y).drop_last() =~= x + yl);
        assert((x + y).last() == y.last());
        assert((x + y).len() > 0);
        assert(digits_value(x + y) == digits_value(x + yl) * 10 + y.last() as nat);
        assert(digits_value(y) == digits_value(yl) * 10 + y.last() as nat);
        let p = pow10(yl.len());
        assert(pow10(y.len()) == 10 * p);
        assert((digits_value(x) * p + digits_value(yl)) * 10 + y.last() as nat == digits_value(x)
            * (10 * p) + (digits_value(yl) * 10 + y.last() as nat)) by (nonlinear_arith);
    }
}

/// `min(digits_value(ds[from..to]), cap)`, read left to right without overflow.
fn saturated_value(ds: &Vec<u8>, from: usize, to: usize, cap: u128) -> (r: u128)
    requires
        all_digits(ds@),
        from <= to <= ds@.len(),
        1 <= cap <= 1_000_000_000_000_000_000_000_000,
    ensures
        r == if digits_value(ds@.subrange(from as int, to as int)) < cap {
            digits_value(ds@.subrange(from as int, to as int))
        } else {
            cap as nat
        },
{
    let mut acc: u128 = 0;
    let mut k: usize = from;
    assert(ds@.subrange(from as int, from as int).len() == 0);
    while k < to
        invariant
            from <= k <= to <= ds@.len(),
            all_digits(ds@),
            1 <= cap <= 1_000_000_000_000_000_000_000_000,
            acc == if digits_value(ds@.subrange(from as int, k as int)) < cap {
                digits_value(ds@.subrange(from as int, k as int))
            } else {
                cap as nat
            },
        decreases to - k,
    {
        let ghost prev = ds@.subrange(from as int, k as int);
        let ghost next = ds@.subrange(from as int, k as int + 1);
        assert(next.drop_last() =~= prev);
        assert(digits_value(next) == digits_value(prev) * 10 + ds@[k as int] as nat);
        if acc < cap {
            let v: u128 = acc * 10 + ds[k] as u128;
            acc = if v < cap { v } else { cap };
        } else {
            assert(digits_value(next) >= cap) by (nonlinear_arith)
                requires
                    digits_value(next) == digits_value(prev) * 10 + ds@[k as int] as nat,
                    digits_value(prev) >= cap,
            ;
        }
        k = k + 1;
    }
    acc
}

/// Reads the decimal numeral that takes up `text` before `end`: its sign, and
/// its digits before and after the point.
fn read_mantissa(text: &str, end: usize) -> (r: Option<(bool, Vec<u8>, Vec<u8>)>)
    requires
        end <= text@.len(),
    ensures
        r is None <==> !is_numeral(text@.subrange(0, end as int)),
        r matches Some((negative, int_digits, frac_digits)) ==> {
            &&& negative == is_negative(text@.subrange(0, end as int))
            &&& int_digits@ == int_part(text@.subrange(0, end as int))
            &&& frac_digits@ == frac_part(text@.subrange(0, end as int))
            &&& all_digits(int_digits@)
            &&& all_digits(frac_digits@)
        },
{
    let ghost s = text@.subrange(0, end as int);
    let n: usize = end;
    let mut start: usize = 0;
    let mut negative = false;
    if n > 0 {
        let c0 = text.get_char(0);
        if c0 == '-' {
            negative = true;
            start = 1;
        } else if c0 == '+' {
            start = 1;
        }
    }
    assert(start == sign_len(s));
    assert(negative == is_negative(s));
    let mut int_digits: Vec<u8> = Vec::new();
    let mut frac_digits: Vec<u8> = Vec::new();
    let mut seen_point = false;
    let mut point: usize = n;
    let mut i: usize = start;
    while i < n
        invariant
            n == s.len(),
            s == text@.subrange(0, end as int),
            end <= text@.len(),
            start == sign_len(s),
            start <= i <= n,
            forall|k: int| start <= k < i ==> is_digit_char(s[k]) || s[k] == '.',
            forall|k: int, j: int| start <= k < j < i && s[k] == '.' ==> s[j] != '.',
            all_digits(int_digits@),
            all_digits(frac_digits@),
            !seen_point ==> point == n,
            !seen_point ==> forall|k: int| start <= k < i ==> s[k] != '.',
            !seen_point ==> int_digits@ == digits_of(s.subrange(start as int, i as int)),
            !seen_point ==> frac_digits@.len() == 0,
            seen_point ==> start <= point < i && s[point as int] == '.',
            seen_point ==> int_digits@ == digits_of(s.subrange(start as int, point as int)),
            seen_point ==> frac_digits@ == digits_of(s.subrange(point + 1, i as int)),
        decreases n - i,
    {
        let c = text.get_char(i);
        assert(s[i as int] == c);
        if '0' <= c && c <= '9' {
            let d: u8 = (c as u32 - 48) as u8;
            if seen_point {
                assert(s.subrange(point + 1, i + 1) =~= s.subrange(point + 1, i as int).push(c));
                frac_digits.push(d);
                assert(frac_digits@ =~= digits_of(s.subrange(point + 1, i + 1)));
            } else {
                assert(s.subrange(start as int, i + 1) =~= s.subrange(start as int, i as int).push(c));
                int_digits.push(d);
                assert(int_digits@ =~= digits_of(s.subrange(start as int, i + 1)));
            }
        } else if c == '.' && !seen_point {
            seen_point = true;
            point = i;
            assert(frac_digits@ =~= digits_of(s.subrange(point + 1, i + 1)));
        } else {
            if c == '.' {
                assert(s[point as int] == '.' && point < i);
            }
            return None;
        }
        i = i + 1;
    }
    proof {
        if seen_point {
            let q = point_index(s);
            assert(sign_len(s) <= point < s.len() && s[point as int] == '.');
            assert(sign_len(s) <= q < s.len() && s[q] == '.');
            assert(q == point);
        } else {
            assert(point_index(s) == s.len());
        }
        assert(int_digits@ == int_part(s));
        assert(frac_digits@ == frac_part(s));
    }
    if int_digits.len() == 0 && frac_digits.len() == 0 {
        return None;
    }
    Some((negative, int_digits, frac_digits))
}

/// Position of the first exponent marker at or after `start`, or the length.
fn find_exponent_marker(text: &str, start: usize) -> (r: usize)
    requires
        start == sign_len(text@),
    ensures
        r == exp_index(text@),
        start <= r <= text@.len(),
{
    let ghost s = text@;
    let n: usize = text.unicode_len();
    let mut i: usize = start;
    while i < n
        invariant
            n == s.len(),
            s == text@,
            start == sign_len(s),
            start <= i <= n,
            forall|j: int| start <= j < i ==> !is_exp_marker(#[trigger] s[j]),
        decreases n - i,
    {
        let c = text.get_char(i);
        if c == 'e' || c == 'E' {
            proof {
                let q = exp_index(s);
                assert(sign_len(s) <= q < s.len() && is_exp_marker(s[q]) && forall|j: int|
                    sign_len(s) <= j < q ==> !is_exp_marker(#[trigger] s[j]));
                if q < i {
                    assert(!is_exp_marker(s[q]));
                }
                if i < q {
                    assert(!is_exp_marker(s[i as int]));
                }
            }
            return i;
        }
        i = i + 1;
    }
    i
}

/// Largest exponent magnitude told apart; larger ones act alike.
const EXPONENT_CAP: u128 = 1_000_000_000_000_000_000_000;

/// Reads the exponent in `text` after `from`: its sign, and its magnitude
/// capped at `EXPONENT_CAP`.
fn read_exponent(text: &str, from: usize) -> (r: Option<(bool, u128)>)
    requires
        from <= text@.len(),
    ensures
        r is None <==> !is_exponent(text@.subrange(from as int, text@.len() as int)),
        r matches Some((negative, magnitude)) ==> {
            let x = text@.subrange(from as int, text@.len() as int);
            &&& negative == is_negative(x)
            &&& magnitude == if digits_value(exponent_digits(x)) < EXPONENT_CAP {
                digits_value(exponent_digits(x))
            } else {
                EXPONENT_CAP as nat
            }
        },
{
    let ghost x = text@.subrange(from as int, text@.len() as int);
    let n: usize = text.unicode_len();
    let mut start: usize = from;
    let mut negative = false;
    if from < n {
        let c0 = text.get_char(from);
        if c0 == '-' {
            negative = true;
            start = from + 1;
        } else if c0 == '+' {
            start = from + 1;
        }
    }
    assert(start - from == sign_len(x));
    if start >= n {
        return None;
    }
    let mut digits: Vec<u8> = Vec::new();
    let mut i: usize = start;
    while i < n
        invariant
            n == text@.len(),
            x == text@.subrange(from as int, n as int),
            from <= start <= i <= n,
            start - from == sign_len(x),
            forall|k: int| start <= k < i ==> is_digit_char(text@[k]),
            digits@ == digits_of(text@.subrange(start as int, i as int)),
            all_digits(digits@),
        decreases n - i,
    {
        let c = text.get_char(i);
        if !('0' <= c && c <= '9') {
            assert(!is_digit_char(x[i - from]));
            return None;
        }
        assert(text@.subrange(start as int, i + 1) =~= text@.subrange(start as int, i as int).push(
            c,
        ));
        digits.push((c as u32 - 48) as u8);
        assert(digits@ =~= digits_of(text@.subrange(start as int, i + 1)));
        i = i + 1;
    }
    assert(x.subrange(sign_len(x), x.len() as int) =~= text@.subrange(start as int, n as int));
    let magnitude = saturated_value(&digits, 0, digits.len(), EXPONENT_CAP);
    assert(digits@.subrange(0, digits@.len() as int) =~= digits@);
    Some((negative, magnitude))
}

/// Whether `text`, from `start` on, spells the word `lower` / `upper`.
fn matches_word(text: &str, start: usize, lower: &Vec<char>, upper: &Vec<char>) -> (r: bool)
    requires
        start <= text@.len(),
        lower@.len() == upper@.len(),
    ensures
        r == same_letters(text@.subrange(start as int, text@.len() as int), lower@, upper@),
{
    let ghost b = text@.subrange(start as int, text@.len() as int);
    let n: usize = text.unicode_len();
    if n - start != lower.len() {
        return false;
    }
    let mut i: usize = 0;
    while i < lower.len()
        invariant
            n == text@.len(),
            start <= n,
            b == text@.subrange(start as int, n as int),
            b.len() == lower@.len(),
            lower@.len() == upper@.len(),
            i <= lower@.len(),
            forall|k: int| 0 <= k < i ==> b[k] == lower@[k] || b[k] == upper@[k],
        decreases lower@.len() - i,
    {
        let c = text.get_char(start + i);
        if c != lower[i] && c != upper[i] {
            return false;
        }
        i = i + 1;
    }
    true
}

proof fn lemma_exponent_too_large(n: nat, k: nat, e: int, num: nat, den: nat)
    requires
        n >= 1,
        e > k,
        num == n * pow10(if e >= 0 { e as nat } else { 0 }),
        den == pow10(k) * pow10(if e < 0 { (-e) as nat } else { 0 }),
    ensures
        num > den,
{
    lemma_pow10_mono((k + 1) as nat, e as nat);
    lemma_pow10_positive(e as nat);
    lemma_pow10_positive(k);
    assert(pow10((k + 1) as nat) == 10 * pow10(k));
    assert(pow10(0) == 1);
    assert(num == n * pow10(e as nat));
    assert(den == pow10(k) * 1);
    assert(n * pow10(e as nat) >= pow10(e as nat)) by (nonlinear_arith)
        requires
            n >= 1,
    ;
}

/// With `q = k - e`, the value `n / 10^k * 10^e` is at most one exactly when
/// `n <= 10^q`, and it equals `n / 10^q`.
proof fn lemma_shifted_range(n: nat, k: nat, e: int, q: nat, num: nat, den: nat)
    requires
        q == k - e,
        num == n * pow10(if e >= 0 { e as nat } else { 0 }),
        den == pow10(k) * pow10(if e < 0 { (-e) as nat } else { 0 }),
    ensures
        (num <= den) <==> (n <= pow10(q)),
        n * den == num * pow10(q),
{
    assert(pow10(0) == 1);
    if e >= 0 {
        lemma_pow10_add(q, e as nat);
        lemma_pow10_positive(e as nat);
        assert(q + e as nat == k);
        assert(den == pow10(k) * 1);
        let pq = pow10(q);
        let pe = pow10(e as nat);
        assert(den == pq * pe);
        assert((n <= pq) <==> (n * pe <= pq * pe)) by (nonlinear_arith)
            requires
                pe >= 1,
        ;
        assert(n * (pq * pe) == (n * pe) * pq) by (nonlinear_arith);
    } else {
        lemma_pow10_add(k, (-e) as nat);
        assert(k + (-e) as nat == q);
        assert(num == n * 1);
        assert(den == pow10(q));
    }
}

/// How digits `x` followed by `q` digits `y` compare with `10^q`.
proof fn lemma_split_range(x: Seq<u8>, y: Seq<u8>)
    requires
        all_digits(x + y),
    ensures
        ({
            let n = digits_value(x + y);
            let p = pow10(y.len());
            &&& digits_value(x) == 0 ==> n < p
            &&& digits_value(x) == 1 && digits_value(y) == 0 ==> n == p
            &&& digits_value(x) == 1 && digits_value(y) > 0 ==> n > p
            &&& digits_value(x) >= 2 ==> n > p
        }),
{
    lemma_digits_value_concat(x, y);
    assert(all_digits(y)) by {
        assert forall|i: int| 0 <= i < y.len() implies y[i] <= 9 by {
            assert((x + y)[x.len() + i] == y[i]);
        }
    }
    lemma_digits_value_bound(y);
    lemma_pow10_positive(y.len());
    let p = pow10(y.len());
    let dx = digits_value(x);
    let dy = digits_value(y);
    assert(dx >= 2 ==> dx * p + dy > p) by (nonlinear_arith)
        requires
            p >= 1,
    ;
    assert(dx == 1 ==> dx * p == p) by (nonlinear_arith);
    assert(dx == 0 ==> dx * p == 0) by (nonlinear_arith);
}

/// Reads a scale factor: a decimal numeral with an optional exponent, whose
/// value is kept exactly with every digit given, or the name of a number that
/// is not finite.
#[verifier::rlimit(50)]
pub fn parse_scale(text: &str) -> (r: Result<ScaleFactor, Error>)
    ensures
        !is_scale_literal(text@) && !is_float_name(text@) ==> r == Err::<ScaleFactor, Error>(
            Error::InvalidNumber,
        ),
        is_float_name(text@) ==> r == Err::<ScaleFactor, Error>(Error::InvalidRange),
        is_scale_literal(text@) && !literal_in_range(text@) ==> r == Err::<ScaleFactor, Error>(
            Error::InvalidRange,
        ),
        is_scale_literal(text@) && literal_in_range(text@) ==> r is Ok,
        r matches Ok(sf) ==> sf.wf() && sf.num() * literal_den(text@) == literal_num(text@)
            * sf.den(),
{
    let ghost s = text@;
    let n: usize = text.unicode_len();
    let mut start: usize = 0;
    if n > 0 {
        let c0 = text.get_char(0);
        if c0 == '-' || c0 == '+' {
            start = 1;
        }
    }
    let inf_lower: Vec<char> = vec!['i', 'n', 'f'];
    let inf_upper: Vec<char> = vec!['I', 'N', 'F'];
    let infinity_lower: Vec<char> = vec!['i', 'n', 'f', 'i', 'n', 'i', 't', 'y'];
    let infinity_upper: Vec<char> = vec!['I', 'N', 'F', 'I', 'N', 'I', 'T', 'Y'];
    let nan_lower: Vec<char> = vec!['n', 'a', 'n'];
    let nan_upper: Vec<char> = vec!['N', 'A', 'N'];
    assert(inf_lower@ =~= seq!['i', 'n', 'f'] && inf_upper@ =~= seq!['I', 'N', 'F']);
    assert(infinity_lower@ =~= seq!['i', 'n', 'f', 'i', 'n', 'i', 't', 'y']);
    assert(infinity_upper@ =~= seq!['I', 'N', 'F', 'I', 'N', 'I', 'T', 'Y']);
    assert(nan_lower@ =~= seq!['n', 'a', 'n'] && nan_upper@ =~= seq!['N', 'A', 'N']);
    if matches_word(text, start, &inf_lower, &inf_upper) || matches_word(
        text,
        start,
        &infinity_lower,
        &infinity_upper,
    ) || matches_word(text, start, &nan_lower, &nan_upper) {
        return Err(Error::InvalidRange);
    }
    let marker = find_exponent_marker(text, start);
    let ghost m = mantissa(s);
    let (negative, int_digits, frac_digits) = match read_mantissa(text, marker) {
        Some(parts) => parts,
        None => {
            return Err(Error::InvalidNumber);
        },
    };
    assert(m.len() > 0);
    assert(m[0] == s[0]);
    let has_exp = marker < n;
    let mut exp_negative = false;
    let mut exp_magnitude: u128 = 0;
    if has_exp {
        match read_exponent(text, marker + 1) {
            Some((neg, mag)) => {
                exp_negative = neg;
                exp_magnitude = mag;
            },
            None => {
                return Err(Error::InvalidNumber);
            },
        }
    }
    assert(is_scale_literal(s));
    // All digits of the numeral, point dropped.
    let k: usize = frac_digits.len();
    let mut digits = int_digits;
    let ghost int_seq = digits@;
    let mut j: usize = 0;
    while j < k
        invariant
            j <= k == frac_digits@.len(),
            digits@ == int_seq + frac_digits@.subrange(0, j as int),
            all_digits(int_seq),
            all_digits(frac_digits@),
        decreases k - j,
    {
        assert(frac_digits@.subrange(0, j + 1) =~= frac_digits@.subrange(0, j as int).push(
            frac_digits@[j as int],
        ));
        digits.push(frac_digits[j]);
        assert(digits@ =~= int_seq + frac_digits@.subrange(0, j + 1));
        j = j + 1;
    }
    assert(frac_digits@.subrange(0, k as int) =~= frac_digits@);
    assert(all_digits(digits@));
    let ghost big_n = digits_value(digits@);
    let ghost e = exponent_value(s);
    proof {
        lemma_digits_value_concat(int_seq, frac_digits@);
        assert(big_n == numeral_num(m));
        lemma_digits_value_bound(digits@);
        lemma_pow10_positive(k as nat);
    }
    let ghost mag = if e < 0 { -e } else { e };
    assert(has_exp ==> exponent_text(s) == text@.subrange(marker + 1, text@.len() as int));
    assert(exp_magnitude == if mag < EXPONENT_CAP { mag } else { EXPONENT_CAP as int });
    let r = factor_from_parts(negative, digits, k, exp_negative, exp_magnitude, Ghost(e));
    assert(negative == is_negative(s));
    r
}

pub open spec fn literal_num_of(n: nat, e: int) -> nat {
    n * pow10(if e >= 0 { e as nat } else { 0 })
}

pub open spec fn literal_den_of(k: nat, e: int) -> nat {
    pow10(k) * pow10(if e < 0 { (-e) as nat } else { 0 })
}

/// Checks the range of `digits / 10^k * 10^e` and builds the factor.
#[verifier::rlimit(50)]
fn factor_from_parts(
    negative: bool,
    digits: Vec<u8>,
    k: usize,
    exp_negative: bool,
    exp_magnitude: u128,
    Ghost(e): Ghost<int>,
) -> (r: Result<ScaleFactor, Error>)
    requires
        all_digits(digits@),
        k <= digits@.len(),
        e > 0 ==> !exp_negative,
        e < 0 ==> exp_negative,
        exp_magnitude == if (if e < 0 { -e } else { e }) < EXPONENT_CAP {
            if e < 0 { -e } else { e }
        } else {
            EXPONENT_CAP as int
        },
    ensures
        ({
            let n = digits_value(digits@);
            let num = literal_num_of(n, e);
            let den = literal_den_of(k as nat, e);
            &&& (negative || !(0 < num <= den)) ==> r == Err::<ScaleFactor, Error>(Error::InvalidRange)
            &&& !(negative || !(0 < num <= den)) ==> r is Ok
            &&& r matches Ok(sf) ==> sf.wf() && sf.num() * den == num * sf.den()
        }),
{
    let len: usize = digits.len();
    let ghost big_n = digits_value(digits@);
    proof {
        lemma_digits_value_bound(digits@);
    }
    let nonzero = saturated_value(&digits, 0, len, 1);
    assert(digits@.subrange(0, len as int) =~= digits@);
    if negative || nonzero == 0 {
        proof {
            let pe = pow10(if e >= 0 { e as nat } else { 0 });
            assert(literal_num_of(big_n, e) == big_n * pe);
            assert(big_n == 0 ==> big_n * pe == 0) by (nonlinear_arith);
        }
        return Err(Error::InvalidRange);
    }
    let bound: u128 = len as u128 + 10;
    let shift_sat: u128;
    let ghost q: int;
    if !exp_negative {
        if exp_magnitude > k as u128 {
            proof {
                lemma_exponent_too_large(big_n, k as nat, e, literal_num_of(big_n, e), literal_den_of(k as nat, e));
            }
            return Err(Error::InvalidRange);
        }
        shift_sat = k as u128 - exp_magnitude;
        proof {
            q = k - e;
        }
    } else {
        proof {
            q = k - e;
        }
        assert(len <= u64::MAX);
        if exp_magnitude >= bound {
            shift_sat = bound;
        } else if k as u128 + exp_magnitude >= bound {
            shift_sat = bound;
        } else {
            shift_sat = k as u128 + exp_magnitude;
        }
    }
    assert(q >= 0);
    assert(shift_sat == if q < len + 10 { q } else { len + 10 });
    proof {
        lemma_shifted_range(big_n, k as nat, e, q as nat, literal_num_of(big_n, e), literal_den_of(k as nat, e));
    }
    let one: bool;
    if shift_sat >= len as u128 {
        proof {
            lemma_pow10_mono(len as nat, q as nat);
        }
        one = false;
    } else {
        let split: usize = len - shift_sat as usize;
        let high = saturated_value(&digits, 0, split, 2);
        let low = saturated_value(&digits, split, len, 1);
        proof {
            let x = digits@.subrange(0, split as int);
            let y = digits@.subrange(split as int, len as int);
            assert(digits@ =~= x + y);
            lemma_split_range(x, y);
        }
        if high == 0 {
            one = false;
        } else if high == 1 && low == 0 {
            one = true;
        } else {
            return Err(Error::InvalidRange);
        }
    }
    assert(0 < big_n <= pow10(q as nat));
    assert(one == (big_n == pow10(q as nat)));
    proof {
        let pe = pow10(if e >= 0 { e as nat } else { 0 });
        lemma_pow10_positive(if e >= 0 { e as nat } else { 0 });
        assert(big_n * pe > 0) by (nonlinear_arith)
            requires
                big_n > 0,
                pe >= 1,
        ;
    }
    Ok(ScaleFactor { digits, shift: Ghost(q as nat), shift_sat, one })
}

proof fn lemma_pow10_ten()
    ensures
        pow10(10) == 10_000_000_000,
{
    reveal_with_fuel(pow10, 11);
}

/// `floor(dim * factor)`, computed exactly from the factor's digits.
pub fn scale_dimension(dim: u32, factor: &ScaleFactor) -> (r: u32)
    requires
        factor.wf(),
    ensures
        r == scaled(dim as nat, factor.num(), factor.den()),
        r <= dim,
{
    let len: usize = factor.digits.len();
    let ghost ds = factor.digits@;
    let ghost big_n = digits_value(ds);
    proof {
        lemma_pow10_positive(factor.shift@);
    }
    if factor.one {
        proof {
            lemma_div_by_multiple(dim as int, pow10(factor.shift@) as int);
        }
        return dim;
    }
    // Horner's rule from the last digit: after `i` steps, `v` is the floor of
    // `dim` times the last `i` digits over `10^i`.
    let mut v: u64 = 0;
    let mut i: u128 = 0;
    assert(ds.subrange(len as int, len as int) =~= Seq::<u8>::empty());
    assert(digits_value(Seq::<u8>::empty()) == 0);
    assert(pow10(0) == 1);
    assert(dim as nat * 0 == 0);
    while i < factor.shift_sat
        invariant
            factor.wf(),
            ds == factor.digits@,
            big_n == digits_value(ds),
            len == ds.len(),
            i <= factor.shift_sat,
            v <= dim,
            v == dim as nat * digits_value(
                ds.subrange(if i < len { len - i } else { 0 }, len as int),
            ) / pow10(i as nat),
        decreases factor.shift_sat - i,
    {
        let ghost p = pow10(i as nat);
        proof {
            lemma_pow10_positive(i as nat);
        }
        if i < len as u128 {
            let idx: usize = len - 1 - i as usize;
            let d: u64 = factor.digits[idx] as u64;
            let ghost suffix = ds.subrange(idx as int, len as int);
            let ghost sv = digits_value(ds.subrange(idx + 1, len as int));
            proof {
                lemma_digits_value_first(suffix);
                assert(suffix.drop_first() =~= ds.subrange(idx + 1, len as int));
                assert(digits_value(suffix) == d * p + sv);
                lemma_hoist_over_denominator((dim * sv) as int, (dim * d) as int, p);
                lemma_div_denominator((dim * sv + dim * d * p) as int, p as int, 10);
                assert(dim * sv + dim * d * p == dim * (d * p + sv)) by (nonlinear_arith);
                assert(pow10((i + 1) as nat) == p * 10);
                assert(dim * d <= dim * 9) by (nonlinear_arith)
                    requires
                        d <= 9,
                ;
            }
            assert(ds.subrange(if i < len { len - i } else { 0 }, len as int) == ds.subrange(idx + 1, len as int));
            assert(ds.subrange(if i + 1 < len { len - (i + 1) } else { 0 }, len as int) == suffix);
            v = (v + dim as u64 * d) / 10;
            assert(v == dim as nat * digits_value(suffix) / pow10((i + 1) as nat));
        } else {
            proof {
                lemma_div_denominator((dim * big_n) as int, p as int, 10);
                assert(pow10((i + 1) as nat) == p * 10);
                assert(ds.subrange(0, len as int) =~= ds);
                assert(ds.subrange(if i < len { len - i } else { 0 }, len as int) == ds);
                assert(ds.subrange(if i + 1 < len { len - (i + 1) } else { 0 }, len as int) == ds);
            }
            v = v / 10;
            assert(v == dim as nat * digits_value(ds) / pow10((i + 1) as nat));
        }
        i = i + 1;
    }
    proof {
        let q = factor.shift@;
        let p = pow10(q);
        assert(big_n < p);
        if q < len + 10 {
            if q < len {
                let x = ds.subrange(0, len - q);
                let y = ds.subrange(len - q, len as int);
                assert(ds =~= x + y);
                lemma_digits_value_concat(x, y);
                lemma_digits_value_bound(y);
                assert(digits_value(x) * p < p);
                assert(digits_value(x) == 0) by (nonlinear_arith)
                    requires
                        digits_value(x) * p < p,
                ;
                assert(digits_value(x) * p == 0) by (nonlinear_arith)
                    requires
                        digits_value(x) == 0,
                ;
                assert(big_n == digits_value(y));
                assert(v == dim as nat * big_n / p);
            } else {
                assert(ds.subrange(0, len as int) =~= ds);
            }
        } else {
            assert(ds.subrange(0, len as int) =~= ds);
            let s = factor.shift_sat as nat;
            lemma_pow10_ten();
            lemma_pow10_add(len as nat, 10);
            lemma_pow10_mono(s, q);
            lemma_digits_value_bound(ds);
            let pl = pow10(len as nat);
            assert(dim * big_n < pow10(s)) by (nonlinear_arith)
                requires
                    big_n < pl,
                    dim < 10_000_000_000,
                    pow10(s) == pl * 10_000_000_000,
            ;
            lemma_pow10_positive(s);
            let x = (dim * big_n) as nat;
            assert(x / pow10(s) == 0) by (nonlinear_arith)
                requires
                    x < pow10(s),
            ;
            assert(x / p == 0) by (nonlinear_arith)
                requires
                    x < p,
            ;
        }
    }
    v as u32
}

} // verus!

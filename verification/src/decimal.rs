//! Decimal fixed-point numbers with nine fractional digits.
//!
//! A [`Decimal`] counts billionths in a signed 128-bit integer. Sample values,
//! timestamps (seconds since the epoch) and axis bounds are all of this type.

use vstd::prelude::*;
use vstd::string::*;

verus! {

/// Billionths in the number one.
pub const ONE: i128 = 1_000_000_000;

/// A number with nine decimal places, held as a count of billionths.
#[derive(Clone, Copy, Debug, PartialEq, Eq, Structural)]
pub struct Decimal {
    pub units: i128,
}

/// Why a text is not a [`Decimal`].
#[derive(Clone, Copy, Debug, PartialEq, Eq, Structural)]
pub enum DecimalError {
    /// The text is not an optional sign, digits with at most one decimal
    /// point, and at most an exponent behind them.
    Malformed,
    /// The text is a number whose size no [`Decimal`] can hold.
    OutOfRange,
}

/// Whether `c` is one of the ten decimal digits.
pub open spec fn is_digit(c: char) -> bool {
    '0' <= c <= '9'
}

/// The number that the digit `c` stands for.
pub open spec fn digit_value(c: char) -> nat {
    (c as int - '0' as int) as nat
}

/// Whether `s` holds decimal digits only.
pub open spec fn all_digits(s: Seq<char>) -> bool {
    forall|i: int| 0 <= i < s.len() ==> is_digit(#[trigger] s[i])
}

/// The number that the digit string `s` writes, most significant digit first.
pub open spec fn digits_value(s: Seq<char>) -> nat
    decreases s.len(),
{
    if s.len() == 0 {
        0
    } else {
        digits_value(s.drop_last()) * 10 + digit_value(s.last())
    }
}

/// How many characters of `s` are taken by a leading sign.
pub open spec fn sign_len(s: Seq<char>) -> int {
    if s.len() > 0 && (s[0] == '+' || s[0] == '-') {
        1
    } else {
        0
    }
}

/// What stands between the sign and the decimal point.
pub open spec fn int_digits(s: Seq<char>) -> Seq<char> {
    let body = s.skip(sign_len(s));
    match body.index_of_first('.') {
        Some(p) => body.take(p),
        None => body,
    }
}

/// What stands behind the decimal point.
pub open spec fn frac_digits(s: Seq<char>) -> Seq<char> {
    let body = s.skip(sign_len(s));
    match body.index_of_first('.') {
        Some(p) => body.skip(p + 1),
        None => Seq::empty(),
    }
}

/// Whether `m` writes the digits of a number: an optional sign, then digits
/// with at most one decimal point among them, and at least one digit in all.
pub open spec fn is_mantissa(m: Seq<char>) -> bool {
    &&& all_digits(int_digits(m))
    &&& all_digits(frac_digits(m))
    &&& int_digits(m).len() + frac_digits(m).len() > 0
}

/// Whether `c` opens the exponent of a number.
pub open spec fn is_exp_mark(c: char) -> bool {
    c == 'e' || c == 'E'
}

/// The place of the first `e` or `E` of `s`, or the length of `s` where it
/// has neither.
pub open spec fn mark_at(s: Seq<char>) -> int
    decreases s.len(),
{
    if s.len() == 0 || is_exp_mark(s[0]) {
        0
    } else {
        1 + mark_at(s.drop_first())
    }
}

/// What stands before the exponent mark of `s`.
pub open spec fn mantissa(s: Seq<char>) -> Seq<char> {
    s.take(mark_at(s))
}

/// Whether `s` has an exponent mark.
pub open spec fn has_exponent(s: Seq<char>) -> bool {
    mark_at(s) < s.len()
}

/// What stands behind the exponent mark of `s`.
pub open spec fn exponent_text(s: Seq<char>) -> Seq<char> {
    s.skip(mark_at(s) + 1)
}

/// Whether `x` writes a whole number: an optional sign and at least one
/// digit.
pub open spec fn is_integer(x: Seq<char>) -> bool {
    &&& x.skip(sign_len(x)).len() > 0
    &&& all_digits(x.skip(sign_len(x)))
}

/// The whole number that `x` writes.
pub open spec fn integer_value(x: Seq<char>) -> int {
    if x.len() > 0 && x[0] == '-' {
        -(digits_value(x.skip(sign_len(x))) as int)
    } else {
        digits_value(x.skip(sign_len(x))) as int
    }
}

/// The power of ten that `s` asks its digits to be multiplied by: what its
/// exponent writes, or zero where it has none.
pub open spec fn exponent(s: Seq<char>) -> int {
    if has_exponent(s) {
        integer_value(exponent_text(s))
    } else {
        0
    }
}

/// Whether `s` writes a decimal number: an optional sign, then digits with
/// at most one decimal point among them and at least one digit in all, and
/// then, if anything, `e` or `E`, an optional sign and at least one digit.
pub open spec fn is_decimal(s: Seq<char>) -> bool {
    &&& is_mantissa(mantissa(s))
    &&& has_exponent(s) ==> is_integer(exponent_text(s))
}

/// `n` times ten to the power `shift`, rounded down to a whole number.
pub open spec fn scaled(n: nat, shift: int) -> nat {
    if shift >= 0 {
        n * pow10(shift as nat)
    } else {
        n / pow10((-shift) as nat)
    }
}

/// The size, in billionths, of the number that `s` writes: its digits as
/// one whole number, moved by the exponent and by the place of the decimal
/// point. What lies behind the ninth decimal place is dropped.
pub open spec fn decimal_magnitude(s: Seq<char>) -> nat {
    let m = mantissa(s);
    scaled(
        digits_value(int_digits(m) + frac_digits(m)),
        9 + exponent(s) - frac_digits(m).len(),
    )
}

/// The number that `s` writes, in billionths.
pub open spec fn decimal_value(s: Seq<char>) -> int {
    if s.len() > 0 && s[0] == '-' {
        -(decimal_magnitude(s) as int)
    } else {
        decimal_magnitude(s) as int
    }
}

/// What reading `s` as a decimal number gives: the number, or why there is
/// none.
pub open spec fn parsed(s: Seq<char>) -> Result<Decimal, DecimalError> {
    if !is_decimal(s) {
        Err(DecimalError::Malformed)
    } else if decimal_magnitude(s) > i128::MAX {
        Err(DecimalError::OutOfRange)
    } else {
        Ok(Decimal { units: decimal_value(s) as i128 })
    }
}

/// The character that writes the digit `d`.
pub open spec fn digit_char(d: int) -> char {
    if d == 0 {
        '0'
    } else if d == 1 {
        '1'
    } else if d == 2 {
        '2'
    } else if d == 3 {
        '3'
    } else if d == 4 {
        '4'
    } else if d == 5 {
        '5'
    } else if d == 6 {
        '6'
    } else if d == 7 {
        '7'
    } else if d == 8 {
        '8'
    } else {
        '9'
    }
}

/// The decimal digits of `n`, without leading zeros.
pub open spec fn digits_text(n: nat) -> Seq<char>
    decreases n,
{
    if n < 10 {
        seq![digit_char(n as int)]
    } else {
        digits_text(n / 10).push(digit_char(n as int % 10))
    }
}

/// The size of `units` in hundredths, rounded to the nearest one; a half
/// goes to the even neighbour.
pub open spec fn hundredths(units: int) -> nat {
    let m = if units < 0 {
        -units
    } else {
        units
    };
    let q = m / 10_000_000;
    let r = m % 10_000_000;
    if r > 5_000_000 || (r == 5_000_000 && q % 2 == 1) {
        (q + 1) as nat
    } else {
        q as nat
    }
}

/// The number of `units` billionths, written with two decimal places.
pub open spec fn text_2dp(units: int) -> Seq<char> {
    let h = hundredths(units);
    let sign = if units < 0 {
        seq!['-']
    } else {
        Seq::<char>::empty()
    };
    sign + digits_text(h / 100) + seq![
        '.',
        digit_char(h as int / 10 % 10),
        digit_char(h as int % 10),
    ]
}

/// Ten to the power `n`.
pub open spec fn pow10(n: nat) -> nat
    decreases n,
{
    if n == 0 {
        1
    } else {
        10 * pow10((n - 1) as nat)
    }
}

/// The largest size that a [`Decimal`] can hold.
const LIMIT: u128 = 170_141_183_460_469_231_731_687_303_715_884_105_727;

/// A tenth of `LIMIT`, rounded down.
const LIMIT_TENTH: u128 = 17_014_118_346_046_923_173_168_730_371_588_410_572;

/// A power of ten is at least one.
proof fn lemma_pow10_positive(n: nat)
    ensures
        pow10(n) > 0,
    decreases n,
{
    if n > 0 {
        lemma_pow10_positive((n - 1) as nat);
    }
}

/// A greater power of ten is a greater number.
proof fn lemma_pow10_grows(a: nat, b: nat)
    requires
        a <= b,
    ensures
        pow10(a) <= pow10(b),
    decreases b,
{
    if a < b {
        lemma_pow10_grows(a, (b - 1) as nat);
        lemma_pow10_positive((b - 1) as nat);
    }
}

/// All but the last of a string of digits are digits.
proof fn lemma_digits_drop_last(d: Seq<char>)
    requires
        all_digits(d),
        d.len() > 0,
    ensures
        all_digits(d.drop_last()),
        is_digit(d.last()),
        digit_value(d.last()) <= 9,
{
    assert forall|i: int| 0 <= i < d.drop_last().len() implies is_digit(
        #[trigger] d.drop_last()[i],
    ) by {
        assert(d.drop_last()[i] == d[i]);
    }
    assert(is_digit(d[d.len() - 1]));
}

/// A string of `n` digits writes a number below ten to the `n`.
proof fn lemma_digits_below_pow10(d: Seq<char>)
    requires
        all_digits(d),
    ensures
        digits_value(d) < pow10(d.len()),
    decreases d.len(),
{
    if d.len() > 0 {
        lemma_digits_drop_last(d);
        lemma_digits_below_pow10(d.drop_last());
    }
}

/// The first `k` of a string of digits write the whole number divided by ten
/// for each digit left out.
proof fn lemma_take_divides(d: Seq<char>, k: int)
    requires
        all_digits(d),
        0 <= k <= d.len(),
    ensures
        digits_value(d.take(k)) == digits_value(d) / pow10((d.len() - k) as nat),
    decreases d.len(),
{
    if k == d.len() {
        assert(d.take(k) =~= d);
        assert(pow10(0) == 1);
        assert(digits_value(d) / 1 == digits_value(d));
    } else {
        let e = d.drop_last();
        lemma_digits_drop_last(d);
        assert(e.take(k) =~= d.take(k));
        lemma_take_divides(e, k);
        let v = digits_value(e) as int;
        let c = digit_value(d.last()) as int;
        let n = digits_value(d) as int;
        let p = pow10((e.len() - k) as nat) as int;
        let q = pow10((d.len() - k) as nat) as int;
        lemma_pow10_positive((e.len() - k) as nat);
        assert(n == v * 10 + c);
        assert((d.len() - k - 1) as nat == (e.len() - k) as nat);
        assert(q == 10 * p);
        assert(n / 10 == v);
        vstd::arithmetic::div_mod::lemma_div_denominator(n, 10, p);
        assert((n / 10) / p == n / (10 * p));
        assert(n / q == v / p);
        assert(digits_value(d.take(k)) as int == v / p);
    }
}

/// How many of `len` digits are kept where `keep` are asked for.
spec fn kept_of(keep: int, len: int) -> int {
    if keep < len {
        keep
    } else {
        len
    }
}

/// What the digits `whole` before the point and `frac` behind it come to
/// with the exponent `e`: nothing, or the number of the digits kept with
/// zeros behind them.
proof fn lemma_scaled(whole: Seq<char>, frac: Seq<char>, e: int)
    requires
        all_digits(whole),
        all_digits(frac),
    ensures
        ({
            let keep = whole.len() + 9 + e;
            let from_whole = kept_of(keep, whole.len() as int);
            let from_frac = kept_of(keep - from_whole, frac.len() as int);
            let t = scaled(digits_value(whole + frac), 9 + e - frac.len());
            &&& keep <= 0 ==> t == 0
            &&& keep > 0 ==> t == digits_value(whole.take(from_whole) + frac.take(from_frac))
                * pow10((keep - from_whole - from_frac) as nat)
        }),
{
    let d = whole + frac;
    let keep = whole.len() + 9 + e;
    let from_whole = kept_of(keep, whole.len() as int);
    let from_frac = kept_of(keep - from_whole, frac.len() as int);
    let shift = 9 + e - frac.len();
    let n = digits_value(d);
    let t = scaled(n, shift);
    assert(shift == keep - d.len());
    assert(all_digits(d)) by {
        assert forall|i: int| 0 <= i < d.len() implies is_digit(#[trigger] d[i]) by {
            if i < whole.len() {
                assert(d[i] == whole[i]);
            } else {
                assert(d[i] == frac[i - whole.len()]);
            }
        }
    }
    lemma_digits_below_pow10(d);
    assert(pow10(0) == 1);
    if keep <= 0 {
        if shift < 0 {
            lemma_pow10_grows(d.len(), (-shift) as nat);
            vstd::arithmetic::div_mod::lemma_basic_div(n as int, pow10((-shift) as nat) as int);
            assert(t == 0);
        } else {
            assert(d.len() == 0);
            assert(n == 0);
            assert(t == 0 * pow10(0));
            assert(t == 0);
        }
    } else if keep < d.len() {
        lemma_take_divides(d, keep);
        if keep <= whole.len() {
            assert(frac.take(0) =~= Seq::<char>::empty());
            assert(d.take(keep) =~= whole.take(from_whole) + frac.take(from_frac));
        } else {
            assert(whole.take(from_whole) =~= whole);
            assert(d.take(keep) =~= whole.take(from_whole) + frac.take(from_frac));
        }
        let v = digits_value(d.take(keep));
        assert(t == v);
        assert(v * pow10(0) == v);
    } else {
        assert(whole.take(from_whole) =~= whole);
        assert(frac.take(from_frac) =~= frac);
        assert(t == n * pow10((keep - d.len()) as nat));
    }
}

/// With forty zeros or more behind it, a number is nothing or too large.
proof fn lemma_far_shift(v: nat, z: nat)
    requires
        z >= 40,
    ensures
        v == 0 ==> v * pow10(z) == 0 && v * pow10(40) == 0,
        v > 0 ==> v * pow10(z) > LIMIT && v * pow10(40) > LIMIT,
{
    let p = pow10(40) as int;
    let q = pow10(z) as int;
    lemma_pow10_grows(40, z);
    assert(p > LIMIT) by {
        reveal_with_fuel(pow10, 41);
    }
    if v > 0 {
        assert(v * q > LIMIT) by (nonlinear_arith)
            requires
                v >= 1,
                q >= p,
                p > LIMIT,
        ;
        assert(v * p > LIMIT) by (nonlinear_arith)
            requires
                v >= 1,
                p > LIMIT,
        ;
    } else {
        assert(v * q == 0) by (nonlinear_arith)
            requires
                v == 0,
        ;
        assert(v * p == 0) by (nonlinear_arith)
            requires
                v == 0,
        ;
    }
}

/// The exponent mark is the first `e` or `E`.
proof fn lemma_mark_is_first(s: Seq<char>)
    ensures
        0 <= mark_at(s) <= s.len(),
        forall|j: int| 0 <= j < mark_at(s) ==> !is_exp_mark(#[trigger] s[j]),
        mark_at(s) < s.len() ==> is_exp_mark(s[mark_at(s)]),
    decreases s.len(),
{
    if !(s.len() == 0 || is_exp_mark(s[0])) {
        let t = s.drop_first();
        lemma_mark_is_first(t);
        assert forall|j: int| 0 <= j < mark_at(s) implies !is_exp_mark(#[trigger] s[j]) by {
            if j > 0 {
                assert(s[j] == t[j - 1]);
            }
        }
        if mark_at(s) < s.len() {
            assert(s[mark_at(s)] == t[mark_at(t)]);
        }
    }
}

/// A place with no `e` or `E` before it, and with one on it unless it is
/// the end, is the exponent mark.
proof fn lemma_mark_found(s: Seq<char>, p: int)
    requires
        0 <= p <= s.len(),
        forall|j: int| 0 <= j < p ==> !is_exp_mark(#[trigger] s[j]),
        p < s.len() ==> is_exp_mark(s[p]),
    ensures
        mark_at(s) == p,
{
    lemma_mark_is_first(s);
    let k = mark_at(s);
    if k < p {
        assert(!is_exp_mark(s[k]));
    }
}

/// A place with no `e` or `E` on it or before it lies before the exponent
/// mark.
proof fn lemma_mark_beyond(s: Seq<char>, i: int)
    requires
        0 <= i < s.len(),
        forall|j: int| 0 <= j <= i ==> !is_exp_mark(#[trigger] s[j]),
    ensures
        i < mark_at(s) <= s.len(),
{
    lemma_mark_is_first(s);
    let k = mark_at(s);
    if k <= i {
        assert(!is_exp_mark(s[k]));
    }
}

/// The place of the first decimal point fixes the two digit strings.
proof fn lemma_split_at(s: Seq<char>, p: int)
    requires
        sign_len(s) <= p <= s.len(),
        forall|j: int| sign_len(s) <= j < p ==> s[j] != '.',
        p < s.len() ==> s[p] == '.',
    ensures
        int_digits(s) == s.subrange(sign_len(s), p),
        frac_digits(s) == if p < s.len() {
            s.subrange(p + 1, s.len() as int)
        } else {
            Seq::<char>::empty()
        },
{
    let sl = sign_len(s);
    let body = s.skip(sl);
    body.index_of_first_ensures('.');
    if p < s.len() {
        assert(body[p - sl] == '.');
        assert(body.contains('.'));
        let q = body.index_of_first('.')->0;
        if q < p - sl {
            assert(s[q + sl] == body[q]);
        }
        assert(q == p - sl);
        assert(body.take(q) =~= s.subrange(sl, p));
        assert(body.skip(q + 1) =~= s.subrange(p + 1, s.len() as int));
    } else {
        if body.contains('.') {
            let k = choose|k: int| 0 <= k < body.len() && body[k] == '.';
            assert(s[k + sl] == '.');
        }
        assert(body =~= s.subrange(sl, p));
    }
}

/// A character behind the sign that is neither a digit nor the first
/// decimal point keeps `m` from writing the digits of a number.
proof fn lemma_stray_char(m: Seq<char>, i: int)
    requires
        sign_len(m) <= i < m.len(),
        !is_digit(m[i]),
        m[i] == '.' ==> exists|j: int| sign_len(m) <= j < i && m[j] == '.',
    ensures
        !is_mantissa(m),
{
    let sl = sign_len(m);
    let body = m.skip(sl);
    let k = i - sl;
    assert(body[k] == m[i]);
    body.index_of_first_ensures('.');
    match body.index_of_first('.') {
        Some(q) => {
            if k < q {
                assert(int_digits(m)[k] == body[k]);
            } else if k == q {
                let j = choose|j: int| sign_len(m) <= j < i && m[j] == '.';
                assert(body[j - sl] == '.');
            } else {
                assert(frac_digits(m)[k - q - 1] == body[k]);
            }
        },
        None => {
            assert(int_digits(m)[k] == body[k]);
        },
    }
}

/// A character before the exponent mark that is neither a digit nor the
/// first decimal point keeps `s` from being a decimal number.
proof fn lemma_stray_in_mantissa(s: Seq<char>, i: int)
    requires
        sign_len(s) <= i < s.len(),
        forall|j: int| 0 <= j <= i ==> !is_exp_mark(#[trigger] s[j]),
        !is_digit(s[i]),
        s[i] == '.' ==> exists|j: int| sign_len(s) <= j < i && s[j] == '.',
    ensures
        !is_decimal(s),
{
    lemma_mark_beyond(s, i);
    let m = mantissa(s);
    assert(m[i] == s[i]);
    assert(m[0] == s[0]);
    if s[i] == '.' {
        let j = choose|j: int| sign_len(s) <= j < i && s[j] == '.';
        assert(m[j] == '.');
    }
    lemma_stray_char(m, i);
}

/// Neither a sign nor a digit nor a decimal point is an exponent mark.
proof fn lemma_plain_before(s: Seq<char>, start: int, point: int, first: int, end: int)
    requires
        start == sign_len(s),
        start <= point <= first <= end <= s.len(),
        all_digits(s.subrange(start, point)),
        all_digits(s.subrange(first, end)),
        first == point || (first == point + 1 && s[point] == '.'),
    ensures
        forall|j: int| 0 <= j < end ==> !is_exp_mark(#[trigger] s[j]),
{
    assert forall|j: int| 0 <= j < end implies !is_exp_mark(#[trigger] s[j]) by {
        if start <= j < point {
            assert(s.subrange(start, point)[j - start] == s[j]);
        } else if first <= j {
            assert(s.subrange(first, end)[j - first] == s[j]);
        }
    }
}

/// A decimal number is written in ASCII.
proof fn lemma_decimal_is_ascii(s: Seq<char>)
    requires
        is_decimal(s),
    ensures
        vstd::utf8::is_ascii_chars(s),
{
    lemma_mark_is_first(s);
    let k = mark_at(s);
    assert forall|i: int| 0 <= i < s.len() implies '\0' <= #[trigger] s[i] <= '\u{7f}' by {
        if !('\0' <= s[i] <= '\u{7f}') {
            if i < k {
                let m = mantissa(s);
                assert(m[i] == s[i]);
                lemma_stray_char(m, i);
            } else if i > k {
                let x = exponent_text(s);
                let at = i - k - 1;
                assert(x[at] == s[i]);
                assert(x.skip(sign_len(x))[at - sign_len(x)] == x[at]);
            }
        }
    }
}

/// The nearest value to `v` that a [`Decimal`] can hold.
pub open spec fn saturate(v: int) -> int {
    if v < i128::MIN {
        i128::MIN as int
    } else if v > i128::MAX {
        i128::MAX as int
    } else {
        v
    }
}

/// The point halfway from `a` to `b`, rounded down.
pub open spec fn midpoint_of(a: int, b: int) -> int {
    a + (b - a) / 2
}

/// The distance from `a` up to `b`.
fn distance(a: i128, b: i128) -> (d: u128)
    requires
        a <= b,
    ensures
        d == b - a,
{
    if a >= 0 {
        (b - a) as u128
    } else if b < 0 {
        (b - a) as u128
    } else {
        let below: u128 = (-(a + 1)) as u128;
        b as u128 + below + 1
    }
}

/// The one-character text of the digit `d`.
fn digit_str(d: u8) -> (r: &'static str)
    requires
        d < 10,
    ensures
        r@ == seq![digit_char(d as int)],
{
    proof {
        reveal_strlit("0");
        reveal_strlit("1");
        reveal_strlit("2");
        reveal_strlit("3");
        reveal_strlit("4");
        reveal_strlit("5");
        reveal_strlit("6");
        reveal_strlit("7");
        reveal_strlit("8");
        reveal_strlit("9");
    }
    let r: &'static str = match d {
        0 => "0",
        1 => "1",
        2 => "2",
        3 => "3",
        4 => "4",
        5 => "5",
        6 => "6",
        7 => "7",
        8 => "8",
        _ => "9",
    };
    assert(r@ =~= seq![digit_char(d as int)]);
    r
}

/// Writes the decimal digits of `n` at the end of `out`.
fn push_digits(out: &mut String, n: u128)
    ensures
        final(out)@ == old(out)@ + digits_text(n as nat),
    decreases n,
{
    if n >= 10 {
        push_digits(out, n / 10);
    }
    out.append(digit_str((n % 10) as u8));
    assert(final(out)@ =~= old(out)@ + digits_text(n as nat));
}

/// Whether `bytes` are the characters of the ASCII text `s`, one byte for
/// each.
spec fn spelled(bytes: Seq<u8>, s: Seq<char>) -> bool {
    &&& bytes.len() == s.len()
    &&& forall|k: int|
        0 <= k < s.len() ==> #[trigger] bytes[k] == s[k] as u8 && '\0' <= s[k] <= '\u{7f}'
}

/// Where the digits that stand from `from` on end.
fn digits_end(bytes: &[u8], from: usize, Ghost(s): Ghost<Seq<char>>) -> (end: usize)
    requires
        spelled(bytes@, s),
        from <= s.len(),
    ensures
        from <= end <= s.len(),
        all_digits(s.subrange(from as int, end as int)),
        end < s.len() ==> !is_digit(s[end as int]),
{
    let n: usize = bytes.len();
    let mut i: usize = from;
    while i < n && 48 <= bytes[i] && bytes[i] <= 57
        invariant
            from <= i <= n,
            n == s.len(),
            spelled(bytes@, s),
            all_digits(s.subrange(from as int, i as int)),
        decreases n - i,
    {
        proof {
            assert(is_digit(s[i as int]));
            assert forall|k: int| 0 <= k < i + 1 - from implies is_digit(
                #[trigger] s.subrange(from as int, i + 1)[k],
            ) by {
                if k < i - from {
                    assert(s.subrange(from as int, i as int)[k] == s[from + k]);
                }
            }
        }
        i = i + 1;
    }
    i
}

/// Reads `count` digits from `from` on behind the digits `prefix`, whose
/// number is `acc` unless `over` says that it is above `LIMIT`. Returns the
/// number of all these digits, or that it is above `LIMIT`.
fn take_digits(
    bytes: &[u8],
    from: usize,
    count: usize,
    acc: u128,
    over: bool,
    Ghost(s): Ghost<Seq<char>>,
    Ghost(prefix): Ghost<Seq<char>>,
) -> (r: (u128, bool))
    requires
        spelled(bytes@, s),
        from + count <= s.len(),
        all_digits(s.subrange(from as int, from + count)),
        !over ==> acc == digits_value(prefix) && acc <= LIMIT,
        over ==> digits_value(prefix) > LIMIT,
    ensures
        !r.1 ==> r.0 == digits_value(prefix + s.subrange(from as int, from + count)) && r.0
            <= LIMIT,
        r.1 ==> digits_value(prefix + s.subrange(from as int, from + count)) > LIMIT,
{
    let n: usize = bytes.len();
    let mut cur: u128 = acc;
    let mut gone: bool = over;
    let mut i: usize = 0;
    assert(prefix + s.subrange(from as int, from as int) =~= prefix);
    while i < count
        invariant
            i <= count,
            n == s.len(),
            from + count <= s.len(),
            spelled(bytes@, s),
            all_digits(s.subrange(from as int, from + count)),
            !gone ==> cur == digits_value(prefix + s.subrange(from as int, from + i)) && cur
                <= LIMIT,
            gone ==> digits_value(prefix + s.subrange(from as int, from + i)) > LIMIT,
        decreases count - i,
    {
        let b: u8 = bytes[from + i];
        proof {
            assert(s.subrange(from as int, from + count)[i as int] == s[from + i]);
            assert(is_digit(s[from + i]));
            let next = prefix + s.subrange(from as int, from + i + 1);
            assert(next.drop_last() =~= prefix + s.subrange(from as int, from + i));
            assert(next.last() == s[from + i]);
        }
        let d: u128 = (b - 48) as u128;
        assert(d == digit_value(s[from + i]));
        if !gone {
            if cur > LIMIT_TENTH {
                gone = true;
            } else {
                let next: u128 = cur * 10 + d;
                if next > LIMIT {
                    gone = true;
                } else {
                    cur = next;
                }
            }
        }
        i = i + 1;
    }
    (cur, gone)
}

/// Writes `zeros` zeros behind the number `v`, which is `acc` unless `over`
/// says that it is above `LIMIT`. Returns the new number, or that it is
/// above `LIMIT`.
fn shift_up(acc: u128, over: bool, zeros: u128, Ghost(v): Ghost<nat>) -> (r: (u128, bool))
    requires
        !over ==> acc == v && acc <= LIMIT,
        over ==> v > LIMIT,
    ensures
        !r.1 ==> r.0 == v * pow10(zeros as nat) && r.0 <= LIMIT,
        r.1 ==> v * pow10(zeros as nat) > LIMIT,
{
    let mut cur: u128 = acc;
    let mut gone: bool = over;
    let mut z: u128 = 0;
    assert(v * pow10(0) == v) by {
        assert(pow10(0) == 1);
    }
    while z < zeros && !gone && cur > 0
        invariant
            z <= zeros,
            !gone ==> cur == v * pow10(z as nat) && cur <= LIMIT,
            gone ==> v * pow10(z as nat) > LIMIT,
        decreases zeros - z,
    {
        proof {
            let p = pow10(z as nat) as int;
            assert(pow10((z + 1) as nat) == 10 * p);
            assert(v * (10 * p) == 10 * (v * p)) by (nonlinear_arith);
        }
        if cur > LIMIT_TENTH {
            gone = true;
        } else {
            cur = cur * 10;
        }
        z = z + 1;
    }
    proof {
        lemma_pow10_grows(z as nat, zeros as nat);
        lemma_pow10_positive(z as nat);
        let p = pow10(z as nat) as int;
        let q = pow10(zeros as nat) as int;
        if gone {
            assert(v * p <= v * q) by (nonlinear_arith)
                requires
                    p <= q,
                    0 <= v,
            ;
        } else if z < zeros {
            assert(v == 0) by (nonlinear_arith)
                requires
                    v * p == 0,
                    p > 0,
                    v >= 0,
            ;
            assert(v * q == 0) by (nonlinear_arith)
                requires
                    v == 0,
            ;
        }
    }
    (cur, gone)
}

/// Reads the whole number that stands from `from` to the end of the text:
/// whether it is negative, and its size, or that its size is above `LIMIT`.
/// There is none where no digit stands there or something follows the
/// digits.
fn scan_integer(bytes: &[u8], from: usize, Ghost(s): Ghost<Seq<char>>) -> (r: Option<
    (bool, u128, bool),
>)
    requires
        spelled(bytes@, s),
        from <= s.len(),
    ensures
        match r {
            Some((negative, size, over)) => {
                let x = s.skip(from as int);
                let v = digits_value(x.skip(sign_len(x)));
                &&& is_integer(x)
                &&& negative == (x.len() > 0 && x[0] == '-')
                &&& !over ==> size == v && size <= LIMIT
                &&& over ==> v > LIMIT
            },
            None => !is_integer(s.skip(from as int)),
        },
{
    let n: usize = bytes.len();
    let ghost x = s.skip(from as int);
    let negative: bool = from < n && bytes[from] == 45;
    let first: usize = if from < n && (bytes[from] == 43 || bytes[from] == 45) {
        from + 1
    } else {
        from
    };
    proof {
        if from < n {
            assert(x[0] == s[from as int]);
        }
        assert(first - from == sign_len(x));
        assert(x.skip(sign_len(x)) =~= s.skip(first as int));
    }
    let end: usize = digits_end(bytes, first, Ghost(s));
    if end == first || end < n {
        proof {
            let d = s.skip(first as int);
            if end < n {
                assert(d[end - first] == s[end as int]);
            }
        }
        return None;
    }
    let (size, over) = take_digits(
        bytes,
        first,
        end - first,
        0,
        false,
        Ghost(s),
        Ghost(Seq::<char>::empty()),
    );
    proof {
        assert(s.subrange(first as int, end as int) =~= s.skip(first as int));
        assert(Seq::<char>::empty() + s.subrange(first as int, first + (end - first)) =~= s.skip(
            first as int,
        ));
    }
    Some((negative, size, over))
}

/// The size in billionths of the number whose digits before the point stand
/// from `start` to `point` and whose digits behind it stand from `first` to
/// `end`, with the exponent `e`. The exponent is given by its sign and its
/// size, or by `e_over` where its size is above `LIMIT`. Returns the size, or
/// that it is above `LIMIT`.
fn magnitude_of(
    bytes: &[u8],
    start: usize,
    point: usize,
    first: usize,
    end: usize,
    e_negative: bool,
    e_size: u128,
    e_over: bool,
    Ghost(s): Ghost<Seq<char>>,
    Ghost(e): Ghost<int>,
) -> (r: (u128, bool))
    requires
        spelled(bytes@, s),
        start <= point <= first <= end <= s.len(),
        all_digits(s.subrange(start as int, point as int)),
        all_digits(s.subrange(first as int, end as int)),
        !e_over ==> e_size <= LIMIT && e == if e_negative {
            -(e_size as int)
        } else {
            e_size as int
        },
        e_over ==> if e_negative {
            e < -(LIMIT as int)
        } else {
            e > LIMIT
        },
    ensures
        ({
            let whole = s.subrange(start as int, point as int);
            let frac = s.subrange(first as int, end as int);
            let t = scaled(digits_value(whole + frac), 9 + e - frac.len());
            &&& !r.1 ==> r.0 == t && r.0 <= LIMIT
            &&& r.1 ==> t > LIMIT
        }),
{
    let ghost whole = s.subrange(start as int, point as int);
    let ghost frac = s.subrange(first as int, end as int);
    let whole_len: u128 = (point - start) as u128;
    let frac_len: u128 = (end - first) as u128;
    proof {
        lemma_scaled(whole, frac, e);
    }
    if e_negative && (e_over || e_size >= whole_len + 9) {
        return (0, false);
    }
    // How many digits to keep, or at least how many where the exponent is
    // too large to count.
    let keep: u128 = if e_over {
        whole_len + frac_len + 40
    } else if e_negative {
        whole_len + 9 - e_size
    } else {
        whole_len + 9 + e_size
    };
    let from_whole: u128 = if keep < whole_len {
        keep
    } else {
        whole_len
    };
    let from_frac: u128 = if keep - from_whole < frac_len {
        keep - from_whole
    } else {
        frac_len
    };
    let zeros: u128 = keep - from_whole - from_frac;
    proof {
        assert forall|k: int| 0 <= k < from_whole implies is_digit(
            #[trigger] s.subrange(start as int, start + from_whole)[k],
        ) by {
            assert(whole[k] == s[start + k]);
        }
        assert forall|k: int| 0 <= k < from_frac implies is_digit(
            #[trigger] s.subrange(first as int, first + from_frac)[k],
        ) by {
            assert(frac[k] == s[first + k]);
        }
    }
    let (acc, over) = take_digits(
        bytes,
        start,
        from_whole as usize,
        0,
        false,
        Ghost(s),
        Ghost(Seq::<char>::empty()),
    );
    proof {
        assert(Seq::<char>::empty() + s.subrange(start as int, start + from_whole) =~= whole.take(
            from_whole as int,
        ));
    }
    let (acc, over) = take_digits(
        bytes,
        first,
        from_frac as usize,
        acc,
        over,
        Ghost(s),
        Ghost(whole.take(from_whole as int)),
    );
    let ghost kept = whole.take(from_whole as int) + frac.take(from_frac as int);
    proof {
        assert(s.subrange(first as int, first + from_frac) =~= frac.take(from_frac as int));
    }
    let (acc, over) = shift_up(acc, over, zeros, Ghost(digits_value(kept)));
    proof {
        if e_over {
            let far = whole.len() + 9 + e;
            assert(kept_of(far, whole.len() as int) == from_whole);
            assert(kept_of(far - from_whole, frac.len() as int) == from_frac);
            lemma_far_shift(digits_value(kept), (far - from_whole - from_frac) as nat);
        } else {
            assert(keep == whole.len() + 9 + e);
            assert(kept_of(keep as int, whole.len() as int) == from_whole);
            assert(kept_of(keep - from_whole, frac.len() as int) == from_frac);
        }
    }
    (acc, over)
}

/// Where the parts of the digits of a number stand in a text.
struct Shape {
    /// Where the digits before the point begin: behind the sign, if any.
    start: usize,
    /// Where the digits before the point end.
    point: usize,
    /// Where the digits behind the point begin.
    first: usize,
    /// Where the digits behind the point end.
    end: usize,
    /// Whether the number has a minus sign.
    negative: bool,
}

/// Whether `shape` says where the sign, the digits and the decimal point of
/// `s` stand, up to the first character that is none of them.
spec fn shape_of(s: Seq<char>, shape: Shape) -> bool {
    &&& shape.start == sign_len(s)
    &&& shape.negative == (s.len() > 0 && s[0] == '-')
    &&& shape.start <= shape.point <= shape.first <= shape.end <= s.len()
    &&& all_digits(s.subrange(shape.start as int, shape.point as int))
    &&& all_digits(s.subrange(shape.first as int, shape.end as int))
    &&& if shape.point < s.len() && s[shape.point as int] == '.' {
        shape.first == shape.point + 1
    } else {
        shape.first == shape.point && shape.end == shape.point
    }
    &&& shape.end < s.len() ==> !is_digit(s[shape.end as int])
}

/// Finds the sign, the digits and the decimal point at the start of the
/// text.
fn scan_mantissa(bytes: &[u8], Ghost(s): Ghost<Seq<char>>) -> (shape: Shape)
    requires
        spelled(bytes@, s),
    ensures
        shape_of(s, shape),
{
    let n: usize = bytes.len();
    let negative: bool = n > 0 && bytes[0] == 45;
    let start: usize = if n > 0 && (bytes[0] == 43 || bytes[0] == 45) {
        1
    } else {
        0
    };
    let point: usize = digits_end(bytes, start, Ghost(s));
    if point < n && bytes[point] == 46 {
        let first: usize = point + 1;
        let end: usize = digits_end(bytes, first, Ghost(s));
        Shape { start, point, first, end, negative }
    } else {
        assert(s.subrange(point as int, point as int) =~= Seq::<char>::empty());
        Shape { start, point, first: point, end: point, negative }
    }
}

/// The digits of a number whose shape ends at the exponent mark or at the
/// end of the text.
proof fn lemma_shape_is_mantissa(s: Seq<char>, shape: Shape)
    requires
        shape_of(s, shape),
        shape.end < s.len() ==> is_exp_mark(s[shape.end as int]),
    ensures
        mark_at(s) == shape.end,
        int_digits(mantissa(s)) == s.subrange(shape.start as int, shape.point as int),
        frac_digits(mantissa(s)) == s.subrange(shape.first as int, shape.end as int),
{
    let start = shape.start as int;
    let point = shape.point as int;
    let first = shape.first as int;
    let end = shape.end as int;
    lemma_plain_before(s, start, point, first, end);
    lemma_mark_found(s, end);
    let m = mantissa(s);
    assert(m =~= s.subrange(0, end));
    if end > 0 {
        assert(m[0] == s[0]);
    }
    assert(sign_len(m) == start);
    assert forall|j: int| sign_len(m) <= j < point implies m[j] != '.' by {
        assert(s.subrange(start, point)[j - start] == s[j]);
    }
    if point < end {
        assert(m[point] == s[point]);
    }
    lemma_split_at(m, point);
    assert(m.subrange(start, point) =~= s.subrange(start, point));
    if point < end {
        assert(m.subrange(point + 1, m.len() as int) =~= s.subrange(first, end));
    } else {
        assert(s.subrange(first, end) =~= Seq::<char>::empty());
    }
}

/// A shape that ends on a character that is no exponent mark is that of no
/// decimal number.
proof fn lemma_shape_is_broken(s: Seq<char>, shape: Shape)
    requires
        shape_of(s, shape),
        shape.end < s.len(),
        !is_exp_mark(s[shape.end as int]),
    ensures
        !is_decimal(s),
{
    let start = shape.start as int;
    let point = shape.point as int;
    let first = shape.first as int;
    let end = shape.end as int;
    lemma_plain_before(s, start, point, first, end);
    if s[end] == '.' {
        assert(point < end);
        assert(s[point] == '.');
    }
    lemma_stray_in_mantissa(s, end);
}

impl Decimal {
    /// The decimal that holds `units` billionths.
    pub fn from_units(units: i128) -> (r: Decimal)
        ensures
            r.units == units,
    {
        Decimal { units }
    }

    /// The count of billionths.
    pub fn units(&self) -> (r: i128)
        ensures
            r == self.units,
    {
        self.units
    }

    /// `self + other`, kept within the representable range.
    pub fn saturating_add(self, other: Decimal) -> (r: Decimal)
        ensures
            r.units == saturate(self.units + other.units),
    {
        let a: i128 = self.units;
        let b: i128 = other.units;
        if b > 0 && a > i128::MAX - b {
            Decimal { units: i128::MAX }
        } else if b < 0 && a < i128::MIN - b {
            Decimal { units: i128::MIN }
        } else {
            Decimal { units: a + b }
        }
    }

    /// `self - other`, kept within the representable range.
    pub fn saturating_sub(self, other: Decimal) -> (r: Decimal)
        ensures
            r.units == saturate(self.units - other.units),
    {
        let a: i128 = self.units;
        let b: i128 = other.units;
        if b < 0 && a > i128::MAX + b {
            Decimal { units: i128::MAX }
        } else if b > 0 && a < i128::MIN + b {
            Decimal { units: i128::MIN }
        } else {
            Decimal { units: a - b }
        }
    }

    /// Reads a decimal number: an optional sign, then digits with at most one
    /// decimal point among them, and then, if anything, `e` or `E` and a whole
    /// number as the power of ten. What lies behind the ninth decimal place
    /// of the number is dropped.
    pub fn parse(text: &str) -> (r: Result<Decimal, DecimalError>)
        ensures
            r == parsed(text@),
    {
        let ghost s = text@;
        if !text.is_ascii() {
            proof {
                if is_decimal(s) {
                    lemma_decimal_is_ascii(s);
                }
            }
            return Err(DecimalError::Malformed);
        }
        let bytes = text.as_bytes();
        proof {
            is_ascii_spec_bytes(text);
        }
        assert(spelled(bytes@, s));
        let n: usize = bytes.len();
        let shape = scan_mantissa(bytes, Ghost(s));
        let marked: bool = shape.end < n && (bytes[shape.end] == 101 || bytes[shape.end] == 69);
        if shape.end < n && !marked {
            proof {
                lemma_shape_is_broken(s, shape);
            }
            return Err(DecimalError::Malformed);
        }
        proof {
            lemma_shape_is_mantissa(s, shape);
        }
        if shape.point - shape.start + (shape.end - shape.first) == 0 {
            return Err(DecimalError::Malformed);
        }
        let mut e_negative: bool = false;
        let mut e_size: u128 = 0;
        let mut e_over: bool = false;
        if marked {
            match scan_integer(bytes, shape.end + 1, Ghost(s)) {
                Some((negative, size, over)) => {
                    e_negative = negative;
                    e_size = size;
                    e_over = over;
                },
                None => {
                    return Err(DecimalError::Malformed);
                },
            }
        }
        let (magnitude, over) = magnitude_of(
            bytes,
            shape.start,
            shape.point,
            shape.first,
            shape.end,
            e_negative,
            e_size,
            e_over,
            Ghost(s),
            Ghost(exponent(s)),
        );
        if over {
            return Err(DecimalError::OutOfRange);
        }
        if shape.negative {
            Ok(Decimal { units: -(magnitude as i128) })
        } else {
            Ok(Decimal { units: magnitude as i128 })
        }
    }

    /// Writes the number with two decimal places, rounded to the nearest
    /// hundredth; a half goes to the even neighbour.
    pub fn format_2dp(&self) -> (r: String)
        ensures
            r@ == text_2dp(self.units as int),
    {
        let u: i128 = self.units;
        let m: u128 = if u < 0 {
            (-(u + 1)) as u128 + 1
        } else {
            u as u128
        };
        let q: u128 = m / 10_000_000;
        let rest: u128 = m % 10_000_000;
        let h: u128 = if rest > 5_000_000 || (rest == 5_000_000 && q % 2 == 1) {
            q + 1
        } else {
            q
        };
        let mut out = String::new();
        if u < 0 {
            out.append("-");
        }
        proof {
            reveal_strlit("-");
            reveal_strlit(".");
            assert("-"@ =~= seq!['-']);
            assert("."@ =~= seq!['.']);
        }
        push_digits(&mut out, h / 100);
        out.append(".");
        out.append(digit_str((h / 10 % 10) as u8));
        out.append(digit_str((h % 10) as u8));
        assert(out@ =~= text_2dp(u as int));
        out
    }

    /// The whole part: the largest integer that is not above the number.
    pub fn whole(&self) -> (r: i128)
        ensures
            r == self.units as int / (ONE as int),
    {
        let u: i128 = self.units;
        if u >= 0 {
            u / ONE
        } else {
            let below: i128 = -(u + 1);
            -(below / ONE) - 1
        }
    }

    /// The billionths above the whole part.
    pub fn fraction(&self) -> (r: u32)
        ensures
            r == self.units as int % (ONE as int),
            r < ONE,
    {
        let u: i128 = self.units;
        if u >= 0 {
            (u % ONE) as u32
        } else {
            let below: i128 = -(u + 1);
            (ONE - 1 - below % ONE) as u32
        }
    }

    /// The point halfway from `self` to `other`, rounded down.
    pub fn midpoint(self, other: Decimal) -> (r: Decimal)
        ensures
            r.units == midpoint_of(self.units as int, other.units as int),
    {
        let a: i128 = self.units;
        let b: i128 = other.units;
        if a <= b {
            let half: u128 = distance(a, b) / 2;
            Decimal { units: a + half as i128 }
        } else {
            let d: u128 = distance(b, a);
            let half: u128 = d / 2 + d % 2;
            if half > 170_141_183_460_469_231_731_687_303_715_884_105_727 {
                Decimal { units: a - 170_141_183_460_469_231_731_687_303_715_884_105_727 - 1 }
            } else {
                Decimal { units: a - half as i128 }
            }
        }
    }
}

} // verus!

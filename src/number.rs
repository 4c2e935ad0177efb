//! Decimal numbers in recording files: integers, signed integers, and
//! timestamps written as seconds with six decimals.
use vstd::prelude::*;

verus! {

pub const MICROS_PER_SECOND: u64 = 1_000_000;

pub const DOT: u8 = 0x2e;

pub const MINUS: u8 = 0x2d;

pub open spec fn is_digit(b: u8) -> bool {
    48 <= b <= 57
}

pub open spec fn digit_char(n: nat) -> u8 {
    (48 + n) as u8
}

/// Decimal digits of `n`, most significant first, without leading zeros.
pub open spec fn decimal(n: nat) -> Seq<u8>
    decreases n,
{
    if n < 10 {
        seq![digit_char(n)]
    } else {
        decimal(n / 10) + seq![digit_char(n % 10)]
    }
}

/// The last `w` decimal digits of `n`, with leading zeros.
pub open spec fn padded(n: nat, w: nat) -> Seq<u8>
    decreases w,
{
    if w == 0 {
        seq![]
    } else {
        padded(n / 10, (w - 1) as nat) + seq![digit_char(n % 10)]
    }
}

pub open spec fn signed_decimal(n: int) -> Seq<u8> {
    if n < 0 {
        seq![MINUS] + decimal((-n) as nat)
    } else {
        decimal(n as nat)
    }
}

/// A duration in microseconds written as seconds with six decimals.
pub open spec fn seconds_text(us: nat) -> Seq<u8> {
    decimal(us / 1_000_000) + seq![DOT] + padded(us % 1_000_000, 6)
}

/// The number that a run of digits denotes.
pub open spec fn digits_value(d: Seq<u8>) -> nat
    decreases d.len(),
{
    if d.len() == 0 {
        0
    } else {
        digits_value(d.drop_last()) * 10 + (d.last() - 48) as nat
    }
}

pub open spec fn pow10(k: nat) -> nat
    decreases k,
{
    if k == 0 {
        1
    } else {
        10 * pow10((k - 1) as nat)
    }
}

/// End of the run of digits that starts at `i`.
pub open spec fn digit_run_end(s: Seq<u8>, i: int) -> int
    decreases s.len() - i,
{
    if i < 0 || i >= s.len() || !is_digit(s[i]) {
        i
    } else {
        digit_run_end(s, i + 1)
    }
}

/// The first six decimals of a fraction, padded with zeros: its value in
/// millionths, truncated.
pub open spec fn six_decimals(d: Seq<u8>) -> Seq<u8> {
    Seq::new(6, |k: int| if k < d.len() { d[k] } else { 48u8 })
}

pub fn push_decimal(out: &mut Vec<u8>, n: u64)
    ensures
        final(out)@ == old(out)@ + decimal(n as nat),
    decreases n,
{
    if n >= 10 {
        push_decimal(out, n / 10);
    }
    out.push((48 + n % 10) as u8);
    proof {
        assert(final(out)@ =~= old(out)@ + decimal(n as nat));
    }
}

pub fn push_padded(out: &mut Vec<u8>, n: u64, w: u64)
    ensures
        final(out)@ == old(out)@ + padded(n as nat, w as nat),
    decreases w,
{
    if w > 0 {
        push_padded(out, n / 10, w - 1);
        out.push((48 + n % 10) as u8);
        assert(final(out)@ =~= old(out)@ + padded(n as nat, w as nat));
    } else {
        assert(final(out)@ =~= old(out)@ + padded(n as nat, w as nat));
    }
}

pub fn push_signed(out: &mut Vec<u8>, n: i64)
    ensures
        final(out)@ == old(out)@ + signed_decimal(n as int),
{
    if n < 0 {
        out.push(MINUS);
        let m: u64 = if n == i64::MIN {
            9223372036854775808u64
        } else {
            (-n) as u64
        };
        push_decimal(out, m);
        assert(final(out)@ =~= old(out)@ + signed_decimal(n as int));
    } else {
        push_decimal(out, n as u64);
    }
}

pub fn push_seconds(out: &mut Vec<u8>, us: u64)
    ensures
        final(out)@ == old(out)@ + seconds_text(us as nat),
{
    push_decimal(out, us / MICROS_PER_SECOND);
    out.push(DOT);
    push_padded(out, us % MICROS_PER_SECOND, 6);
    assert(final(out)@ =~= old(out)@ + seconds_text(us as nat));
}

pub proof fn lemma_decimal(n: nat)
    ensures
        decimal(n).len() >= 1,
        forall|k: int| 0 <= k < decimal(n).len() ==> is_digit(#[trigger] decimal(n)[k]),
        digits_value(decimal(n)) == n,
    decreases n,
{
    if n >= 10 {
        lemma_decimal(n / 10);
        let d = decimal(n);
        assert(d.drop_last() =~= decimal(n / 10));
        assert(d.last() == digit_char(n % 10));
        assert(n == (n / 10) * 10 + n % 10);
        assert forall|k: int| 0 <= k < d.len() implies is_digit(#[trigger] d[k]) by {
            if k < d.len() - 1 {
                assert(d[k] == decimal(n / 10)[k]);
            }
        }
    } else {
        assert(decimal(n).drop_last() =~= Seq::<u8>::empty());
        assert(digits_value(Seq::<u8>::empty()) == 0);
    }
}

pub proof fn lemma_padded(n: nat, w: nat)
    ensures
        padded(n, w).len() == w,
        forall|k: int| 0 <= k < w ==> is_digit(#[trigger] padded(n, w)[k]),
        digits_value(padded(n, w)) == n % pow10(w),
    decreases w,
{
    if w > 0 {
        let w1 = (w - 1) as nat;
        lemma_padded(n / 10, w1);
        let d = padded(n, w);
        assert(d.drop_last() =~= padded(n / 10, w1));
        assert forall|k: int| 0 <= k < w implies is_digit(#[trigger] padded(n, w)[k]) by {
            if k < w - 1 {
                assert(d[k] == padded(n / 10, w1)[k]);
            }
        }
        let p = pow10(w1);
        assert(p > 0) by {
            lemma_pow10_positive(w1);
        }
        assert((n / 10 % p) * 10 + n % 10 == n % (10 * p)) by {
            lemma_mod_shift(n, p);
        }
    } else {
        assert(padded(n, w) =~= Seq::<u8>::empty());
    }
}

proof fn lemma_pow10_small(k: nat)
    requires
        k <= 6,
    ensures
        pow10(k) <= 1_000_000,
        k >= 1 ==> pow10(k) == 10 * pow10((k - 1) as nat),
{
    reveal_with_fuel(pow10, 7);
    assert(k == 0 || k == 1 || k == 2 || k == 3 || k == 4 || k == 5 || k == 6);
}

pub proof fn lemma_pow10_positive(k: nat)
    ensures
        pow10(k) > 0,
    decreases k,
{
    if k > 0 {
        lemma_pow10_positive((k - 1) as nat);
    }
}

proof fn lemma_mod_shift(n: nat, p: nat)
    requires
        p > 0,
    ensures
        (n / 10 % p) * 10 + n % 10 == n % (10 * p),
{
    let q = n / 10;
    let r = n % 10;
    vstd::arithmetic::div_mod::lemma_fundamental_div_mod(n as int, 10);
    let a = q / p;
    let b = q % p;
    vstd::arithmetic::div_mod::lemma_fundamental_div_mod(q as int, p as int);
    assert(n == a * (10 * p) + (b * 10 + r)) by (nonlinear_arith)
        requires
            n == q * 10 + r,
            q == a * p + b,
    ;
    assert(0 <= b * 10 + r < 10 * p) by (nonlinear_arith)
        requires
            0 <= b < p,
            0 <= r < 10,
    ;
    vstd::arithmetic::div_mod::lemma_fundamental_div_mod_converse(
        n as int,
        (10 * p) as int,
        a as int,
        (b * 10 + r) as int,
    );
}

/// Where the digits of a timestamp that starts at `i` end: its digits, then a dot and
/// more digits if a dot follows.
pub open spec fn mantissa_end(s: Seq<u8>, i: int) -> int {
    let e = digit_run_end(s, i);
    if e < s.len() && s[e] == DOT {
        digit_run_end(s, e + 1)
    } else {
        e
    }
}

/// Whether the digits of a timestamp are well formed at `i`: digits, and digits after a dot.
pub open spec fn mantissa_well_formed(s: Seq<u8>, i: int) -> bool {
    let e = digit_run_end(s, i);
    e > i && (e < s.len() && s[e] == DOT ==> digit_run_end(s, e + 1) > e + 1)
}

/// The timestamp at `i` in microseconds, without exponent; decimals past the sixth are dropped.
pub open spec fn mantissa_value(s: Seq<u8>, i: int) -> nat {
    let e = digit_run_end(s, i);
    let whole = digits_value(s.subrange(i, e)) * 1_000_000;
    if e < s.len() && s[e] == DOT {
        whole + digits_value(six_decimals(s.subrange(e + 1, digit_run_end(s, e + 1))))
    } else {
        whole
    }
}

proof fn lemma_digit_run_end_steps(s: Seq<u8>, i: int)
    requires
        0 <= i <= s.len(),
    ensures
        i <= digit_run_end(s, i) <= s.len(),
        forall|k: int| i <= k < digit_run_end(s, i) ==> is_digit(#[trigger] s[k]),
        digit_run_end(s, i) < s.len() ==> !is_digit(s[digit_run_end(s, i)]),
    decreases s.len() - i,
{
    if i < s.len() && is_digit(s[i]) {
        lemma_digit_run_end_steps(s, i + 1);
    }
}

proof fn lemma_digits_value_prefix(d: Seq<u8>, k: int)
    requires
        0 <= k <= d.len(),
    ensures
        digits_value(d.take(k)) <= digits_value(d),
    decreases d.len(),
{
    if k < d.len() {
        lemma_digits_value_prefix(d.drop_last(), k);
        assert(d.drop_last().take(k) =~= d.take(k));
    } else {
        assert(d.take(k) =~= d);
    }
}

/// Reads the run of digits that starts at `i`.
pub fn parse_digits(s: &[u8], i: usize) -> (r: Option<(u64, usize)>)
    requires
        i <= s@.len(),
    ensures
        match r {
            Some((v, e)) => e == digit_run_end(s@, i as int) && i < e <= s@.len() && v == digits_value(
                s@.subrange(i as int, e as int),
            ),
            None => digit_run_end(s@, i as int) == i || digits_value(
                s@.subrange(i as int, digit_run_end(s@, i as int)),
            ) > u64::MAX,
        },
{
    proof {
        lemma_digit_run_end_steps(s@, i as int);
    }
    let ghost end = digit_run_end(s@, i as int);
    let mut v: u64 = 0;
    let mut j: usize = i;
    while j < s.len() && 48 <= s[j] && s[j] <= 57
        invariant
            i <= j <= end <= s@.len(),
            end == digit_run_end(s@, i as int),
            end < s@.len() ==> !is_digit(s@[end]),
            digit_run_end(s@, j as int) == end,
            v == digits_value(s@.subrange(i as int, j as int)),
        decreases s@.len() - j,
    {
        assert(j < end);
        let d: u64 = (s[j] - 48) as u64;
        assert(s@.subrange(i as int, j + 1).drop_last() =~= s@.subrange(i as int, j as int));
        if v > (u64::MAX - d) / 10 {
            proof {
                assert(v * 10 + d > u64::MAX) by (nonlinear_arith)
                    requires
                        v > (u64::MAX - d) / 10,
                        d <= 9,
                ;
                let run = s@.subrange(i as int, end);
                assert(run.take(j + 1 - i) =~= s@.subrange(i as int, j + 1));
                lemma_digits_value_prefix(run, j + 1 - i);
            }
            return None;
        }
        assert(v * 10 + d <= u64::MAX) by (nonlinear_arith)
            requires
                v <= (u64::MAX - d) / 10,
                d <= 9,
        ;
        v = v * 10 + d;
        j = j + 1;
    }
    if j == i {
        return None;
    }
    Some((v, j))
}

/// Reads a timestamp written as seconds, with or without decimals, into
/// microseconds.
fn parse_mantissa(s: &[u8], i: usize) -> (r: Option<(u64, usize)>)
    requires
        i <= s@.len(),
    ensures
        r is Some <==> mantissa_well_formed(s@, i as int) && mantissa_value(s@, i as int)
            <= u64::MAX,
        r matches Some((v, e)) ==> v == mantissa_value(s@, i as int) && e == mantissa_end(
            s@,
            i as int,
        ) && i < e <= s@.len(),
{
    proof {
        lemma_digit_run_end_steps(s@, i as int);
    }
    let parsed = parse_digits(s, i);
    let (secs, e) = match parsed {
        None => {
            return None;
        },
        Some(p) => p,
    };
    let mut frac: u64 = 0;
    let mut end: usize = e;
    if e < s.len() && s[e] == DOT {
        proof {
            lemma_digit_run_end_steps(s@, e + 1);
        }
        let fe = skip_digits(s, e + 1);
        if fe == e + 1 {
            return None;
        }
        let ghost d = s@.subrange(e + 1, fe as int);
        let mut k: usize = 0;
        while k < 6
            invariant
                e + 1 <= fe <= s@.len(),
                d == s@.subrange(e + 1, fe as int),
                forall|m: int| 0 <= m < d.len() ==> is_digit(#[trigger] d[m]),
                0 <= k <= 6,
                frac == digits_value(six_decimals(d).take(k as int)),
                frac < pow10(k as nat),
            decreases 6 - k,
        {
            let digit: u64 = if k < fe - (e + 1) {
                assert(s@[e + 1 + k] == d[k as int]);
                (s[e + 1 + k] - 48) as u64
            } else {
                0
            };
            proof {
                lemma_pow10_small((k + 1) as nat);
            }
            assert(six_decimals(d).take(k + 1).drop_last() =~= six_decimals(d).take(k as int));
            assert(frac * 10 + digit < pow10((k + 1) as nat)) by (nonlinear_arith)
                requires
                    frac < pow10(k as nat),
                    digit <= 9,
                    pow10((k + 1) as nat) == 10 * pow10(k as nat),
            ;
            frac = frac * 10 + digit;
            k = k + 1;
        }
        assert(six_decimals(d).take(6) =~= six_decimals(d));
        end = fe;
    }
    if secs > (u64::MAX - frac) / MICROS_PER_SECOND {
        assert(secs * 1_000_000 + frac > u64::MAX) by (nonlinear_arith)
            requires
                secs > (u64::MAX - frac) / 1_000_000,
        ;
        return None;
    }
    assert(secs * 1_000_000 + frac <= u64::MAX) by (nonlinear_arith)
        requires
            secs <= (u64::MAX - frac) / 1_000_000,
    ;
    Some((secs * MICROS_PER_SECOND + frac, end))
}

/// Index just past the run of digits that starts at `i`.
pub fn skip_digits(s: &[u8], i: usize) -> (r: usize)
    requires
        i <= s@.len(),
    ensures
        r as int == digit_run_end(s@, i as int),
{
    let mut j: usize = i;
    while j < s.len() && 48 <= s[j] && s[j] <= 57
        invariant
            i <= j <= s@.len(),
            digit_run_end(s@, j as int) == digit_run_end(s@, i as int),
        decreases s@.len() - j,
    {
        j = j + 1;
    }
    j
}

/// A number written by `decimal` reads back as itself when no digit follows.
pub proof fn lemma_decimal_reads_back(s: Seq<u8>, i: int, n: nat)
    requires
        0 <= i,
        i + decimal(n).len() <= s.len(),
        s.subrange(i, i + decimal(n).len()) == decimal(n),
        i + decimal(n).len() < s.len() ==> !is_digit(s[i + decimal(n).len()]),
    ensures
        digit_run_end(s, i) == i + decimal(n).len(),
        digits_value(s.subrange(i, digit_run_end(s, i))) == n,
{
    lemma_decimal(n);
    let e = i + decimal(n).len();
    assert forall|k: int| i <= k < e implies is_digit(#[trigger] s[k]) by {
        assert(s[k] == s.subrange(i, e)[k - i]);
    }
    lemma_run_of_digits(s, i, e);
}

proof fn lemma_run_of_digits(s: Seq<u8>, i: int, e: int)
    requires
        0 <= i <= e <= s.len(),
        forall|k: int| i <= k < e ==> is_digit(#[trigger] s[k]),
        e < s.len() ==> !is_digit(s[e]),
    ensures
        digit_run_end(s, i) == e,
    decreases e - i,
{
    if i < e {
        lemma_run_of_digits(s, i + 1, e);
    }
}

/// A timestamp written by `seconds_text` reads back as itself when no digit
/// follows.
proof fn lemma_mantissa_read_back(s: Seq<u8>, i: int, us: nat)
    requires
        0 <= i,
        i + seconds_text(us).len() <= s.len(),
        s.subrange(i, i + seconds_text(us).len()) == seconds_text(us),
        i + seconds_text(us).len() < s.len() ==> !is_digit(s[i + seconds_text(us).len()]),
    ensures
        mantissa_well_formed(s, i),
        mantissa_end(s, i) == i + seconds_text(us).len(),
        mantissa_value(s, i) == us,
{
    let w = decimal(us / 1_000_000);
    let f = padded(us % 1_000_000, 6);
    lemma_decimal(us / 1_000_000);
    lemma_padded(us % 1_000_000, 6);
    let e = i + w.len();
    assert(s.subrange(i, e) == w) by {
        assert(s.subrange(i, e) =~= s.subrange(i, i + seconds_text(us).len()).subrange(0, w.len() as int));
        assert(seconds_text(us).subrange(0, w.len() as int) =~= w);
    }
    assert(s[e] == DOT) by {
        assert(s[e] == s.subrange(i, i + seconds_text(us).len())[w.len() as int]);
    }
    lemma_decimal_reads_back(s, i, us / 1_000_000);
    let fe = e + 1 + 6;
    assert(s.subrange(e + 1, fe) == f) by {
        assert(s.subrange(e + 1, fe) =~= s.subrange(i, i + seconds_text(us).len()).subrange(
            (w.len() + 1) as int,
            (w.len() + 7) as int,
        ));
        assert(seconds_text(us).subrange((w.len() + 1) as int, (w.len() + 7) as int) =~= f);
    }
    assert forall|k: int| e + 1 <= k < fe implies is_digit(#[trigger] s[k]) by {
        assert(s[k] == s.subrange(e + 1, fe)[k - (e + 1)]);
    }
    lemma_run_of_digits(s, e + 1, fe);
    assert(six_decimals(f) =~= f);
    reveal_with_fuel(pow10, 7);
    assert(pow10(6) == 1_000_000);
}

/// Exponents larger than this are not read.
pub const EXPONENT_LIMIT: u64 = 400;

pub open spec fn is_exponent_mark(b: u8) -> bool {
    b == 0x65 || b == 0x45
}

/// Whether an exponent follows the digits of the timestamp at `i`.
pub open spec fn has_exponent(s: Seq<u8>, i: int) -> bool {
    let m = mantissa_end(s, i);
    m < s.len() && is_exponent_mark(s[m])
}

pub open spec fn exponent_negative(s: Seq<u8>, i: int) -> bool {
    let m = mantissa_end(s, i);
    m + 1 < s.len() && s[m + 1] == MINUS
}

/// Where the digits of the exponent start, after its mark and sign.
pub open spec fn exponent_start(s: Seq<u8>, i: int) -> int {
    let m = mantissa_end(s, i);
    if m + 1 < s.len() && (s[m + 1] == 0x2b || s[m + 1] == MINUS) {
        m + 2
    } else {
        m + 1
    }
}

pub open spec fn exponent_magnitude(s: Seq<u8>, i: int) -> nat {
    let x = exponent_start(s, i);
    digits_value(s.subrange(x, digit_run_end(s, x)))
}

/// The digits of the number before its exponent, its dot left out.
pub open spec fn all_digits(s: Seq<u8>, i: int) -> Seq<u8> {
    let e = digit_run_end(s, i);
    if e < s.len() && s[e] == DOT {
        s.subrange(i, e) + s.subrange(e + 1, digit_run_end(s, e + 1))
    } else {
        s.subrange(i, e)
    }
}

/// The first `n` digits of `d`, padded with zeros; none when `n` is not
/// positive.
pub open spec fn leading_digits(d: Seq<u8>, n: int) -> Seq<u8> {
    if n <= 0 {
        seq![]
    } else {
        Seq::new(n as nat, |k: int| if k < d.len() { d[k] } else { 48u8 })
    }
}

/// How many of the digits stand before the point once the exponent applies.
pub open spec fn point_shift(s: Seq<u8>, i: int) -> int {
    let whole = digit_run_end(s, i) - i;
    let x = exponent_magnitude(s, i) as int;
    if exponent_negative(s, i) {
        whole - x
    } else {
        whole + x
    }
}

/// Where a timestamp that starts at `i` ends, exponent included.
pub open spec fn seconds_end(s: Seq<u8>, i: int) -> int {
    if has_exponent(s, i) {
        digit_run_end(s, exponent_start(s, i))
    } else {
        mantissa_end(s, i)
    }
}

/// Whether a timestamp is well formed at `i`: digits, digits after a dot,
/// and digits after an exponent mark and its sign, up to the limit.
pub open spec fn seconds_well_formed(s: Seq<u8>, i: int) -> bool {
    &&& mantissa_well_formed(s, i)
    &&& has_exponent(s, i) ==> digit_run_end(s, exponent_start(s, i)) > exponent_start(s, i)
        && exponent_magnitude(s, i) <= EXPONENT_LIMIT
}

/// The timestamp at `i` in microseconds, truncated.
pub open spec fn seconds_value(s: Seq<u8>, i: int) -> nat {
    if has_exponent(s, i) {
        digits_value(leading_digits(all_digits(s, i), point_shift(s, i) + 6))
    } else {
        mantissa_value(s, i)
    }
}

/// Reads a timestamp written as seconds, with or without decimals, with or
/// without an exponent, into microseconds.
pub fn parse_seconds(s: &[u8], i: usize) -> (r: Option<(u64, usize)>)
    requires
        i <= s@.len(),
    ensures
        r is Some <==> seconds_well_formed(s@, i as int) && seconds_value(s@, i as int)
            <= u64::MAX,
        r matches Some((v, e)) ==> v == seconds_value(s@, i as int) && e == seconds_end(
            s@,
            i as int,
        ) && i < e <= s@.len(),
{
    let len = s.len();
    proof {
        lemma_digit_run_end_steps(s@, i as int);
    }
    let e1 = skip_digits(s, i);
    if e1 == i {
        return None;
    }
    let has_dot = e1 < len && s[e1] == DOT;
    let mut m = e1;
    if has_dot {
        proof {
            lemma_digit_run_end_steps(s@, e1 + 1);
        }
        let fe = skip_digits(s, e1 + 1);
        if fe == e1 + 1 {
            return None;
        }
        m = fe;
    }
    if !(m < len && (s[m] == 0x65 || s[m] == 0x45)) {
        return parse_mantissa(s, i);
    }
    let neg = m + 1 < len && s[m + 1] == MINUS;
    let xs = if m + 1 < len && (s[m + 1] == 0x2b || s[m + 1] == MINUS) {
        m + 2
    } else {
        m + 1
    };
    proof {
        lemma_digit_run_end_steps(s@, xs as int);
    }
    let xe = skip_digits(s, xs);
    if xe == xs {
        return None;
    }
    let x = match parse_digits(s, xs) {
        Some((v, _)) => v,
        None => {
            return None;
        },
    };
    if x > EXPONENT_LIMIT {
        return None;
    }
    let whole: usize = e1 - i;
    let total: usize = if has_dot {
        m - i - 1
    } else {
        whole
    };
    let ghost d = all_digits(s@, i as int);
    assert(d.len() == total);
    let n: i128 = if neg {
        whole as i128 - x as i128 + 6
    } else {
        whole as i128 + x as i128 + 6
    };
    assert(n == point_shift(s@, i as int) + 6);
    let ghost full = leading_digits(d, n as int);
    let mut acc: u64 = 0;
    let mut k: i128 = 0;
    while k < n
        invariant
            0 <= k,
            n > 0 ==> k <= n,
            n <= 0 ==> k == 0,
            d == all_digits(s@, i as int),
            has_exponent(s@, i as int),
            n == point_shift(s@, i as int) + 6,
            d.len() == total,
            full == leading_digits(d, n as int),
            forall|j: int| 0 <= j < d.len() ==> is_digit(#[trigger] d[j]),
            acc == digits_value(leading_digits(d, k as int)),
            len == s@.len(),
            i < e1 <= len,
            whole == e1 - i,
            has_dot ==> e1 < len && m - 1 >= e1 && m <= len,
            !has_dot ==> total == whole,
            has_dot ==> total == m - i - 1,
            forall|j: int| 0 <= j < total ==> s@[if j < whole { i + j } else { e1 + 1 + (j - whole) }]
                == #[trigger] d[j],
        decreases n - k,
    {
        let digit: u64 = if k < total as i128 {
            let kk = k as usize;
            let b = if kk < whole {
                s[i + kk]
            } else {
                s[e1 + 1 + (kk - whole)]
            };
            assert(b == d[kk as int]);
            (b - 48) as u64
        } else {
            0
        };
        assert(leading_digits(d, k + 1).drop_last() =~= leading_digits(d, k as int));
        assert(leading_digits(d, k + 1).last() - 48 == digit);
        assert(digits_value(leading_digits(d, k + 1)) == acc * 10 + digit);
        if acc > (u64::MAX - digit) / 10 {
            proof {
                assert(acc * 10 + digit > u64::MAX) by (nonlinear_arith)
                    requires
                        acc > (u64::MAX - digit) / 10,
                        digit <= 9,
                ;
                assert(full.len() == n);
                assert(full.take(k + 1) =~= leading_digits(d, k + 1));
                lemma_digits_value_prefix(full, k + 1);
                assert(seconds_value(s@, i as int) == digits_value(full));
            }
            return None;
        }
        assert(acc * 10 + digit <= u64::MAX) by (nonlinear_arith)
            requires
                acc <= (u64::MAX - digit) / 10,
                digit <= 9,
        ;
        acc = acc * 10 + digit;
        k = k + 1;
    }
    assert(leading_digits(d, k as int) =~= full);
    Some((acc, xe))
}

/// A timestamp written by `seconds_text` reads back as itself when neither a
/// digit nor an exponent mark follows.
pub proof fn lemma_seconds_read_back(s: Seq<u8>, i: int, us: nat)
    requires
        0 <= i,
        i + seconds_text(us).len() <= s.len(),
        s.subrange(i, i + seconds_text(us).len()) == seconds_text(us),
        i + seconds_text(us).len() < s.len() ==> !is_digit(s[i + seconds_text(us).len()])
            && !is_exponent_mark(s[i + seconds_text(us).len()]),
    ensures
        seconds_well_formed(s, i),
        seconds_end(s, i) == i + seconds_text(us).len(),
        seconds_value(s, i) == us,
{
    lemma_mantissa_read_back(s, i, us);
}

} // verus!

//! Decimal digit strings: specification of the decimal representation of
//! integers, executable formatting and parsing, and the lemmas connecting
//! the two directions.

use vstd::prelude::*;

verus! {

pub open spec fn is_digit(c: char) -> bool {
    c == '0' || c == '1' || c == '2' || c == '3' || c == '4' || c == '5' || c == '6' || c == '7'
        || c == '8' || c == '9'
}

pub open spec fn digit_char(d: int) -> char {
    if d == 0 {
        '0'
    } else if d == 1 {
        '1'
    } else if d == 2 {
        '2'
    } else if d == 3 {
        '3'
    } else if d == 4 {
        '4'
    } else if d == 5 {
        '5'
    } else if d == 6 {
        '6'
    } else if d == 7 {
        '7'
    } else if d == 8 {
        '8'
    } else {
        '9'
    }
}

pub open spec fn digit_val(c: char) -> int {
    if c == '0' {
        0
    } else if c == '1' {
        1
    } else if c == '2' {
        2
    } else if c == '3' {
        3
    } else if c == '4' {
        4
    } else if c == '5' {
        5
    } else if c == '6' {
        6
    } else if c == '7' {
        7
    } else if c == '8' {
        8
    } else {
        9
    }
}

pub open spec fn pow10(e: nat) -> nat
    decreases e,
{
    if e == 0 {
        1
    } else {
        10 * pow10((e - 1) as nat)
    }
}

/// Decimal digits of `n`, most significant first, without leading zeros.
pub open spec fn dec_rep(n: nat) -> Seq<char>
    decreases n,
{
    if n < 10 {
        seq![digit_char(n as int)]
    } else {
        dec_rep(n / 10).push(digit_char((n % 10) as int))
    }
}

/// The low `width` decimal digits of `n`, zero-padded to exactly `width`.
pub open spec fn padded(n: nat, width: nat) -> Seq<char>
    decreases width,
{
    if width == 0 {
        Seq::empty()
    } else {
        padded(n / 10, (width - 1) as nat).push(digit_char((n % 10) as int))
    }
}

/// Numeric value of a digit string, most significant digit first.
pub open spec fn val(s: Seq<char>) -> int
    decreases s.len(),
{
    if s.len() == 0 {
        0
    } else {
        val(s.drop_last()) * 10 + digit_val(s.last())
    }
}

pub open spec fn all_digits(s: Seq<char>) -> bool {
    forall|i: int| 0 <= i < s.len() ==> is_digit(#[trigger] s[i])
}

/// Trailing zeros removed, but at least one digit kept.
pub open spec fn strip_tz(s: Seq<char>) -> Seq<char>
    decreases s.len(),
{
    if s.len() <= 1 {
        s
    } else if s.last() == '0' {
        strip_tz(s.drop_last())
    } else {
        s
    }
}

pub proof fn lemma_digit_roundtrip(d: int)
    requires
        0 <= d < 10,
    ensures
        digit_val(digit_char(d)) == d,
        is_digit(digit_char(d)),
{
}

pub proof fn lemma_pow10_pos(e: nat)
    ensures
        pow10(e) >= 1,
    decreases e,
{
    if e > 0 {
        lemma_pow10_pos((e - 1) as nat);
    }
}

pub proof fn lemma_pow10_mono(a: nat, b: nat)
    requires
        a <= b,
    ensures
        pow10(a) <= pow10(b),
    decreases b,
{
    if a < b {
        lemma_pow10_mono(a, (b - 1) as nat);
        lemma_pow10_pos((b - 1) as nat);
    }
}

pub proof fn lemma_pow10_20()
    ensures
        pow10(20) == 100_000_000_000_000_000_000,
{
    reveal_with_fuel(pow10, 21);
}

pub proof fn lemma_val_dec_rep(n: nat)
    ensures
        val(dec_rep(n)) == n,
    decreases n,
{
    if n < 10 {
        let s = dec_rep(n);
        assert(s.drop_last() =~= Seq::<char>::empty());
        lemma_digit_roundtrip(n as int);
        assert(val(s.drop_last()) == 0);
        assert(s.last() == digit_char(n as int));
        assert(val(s) == n);
    } else {
        lemma_val_dec_rep(n / 10);
        let s = dec_rep(n);
        let p = dec_rep(n / 10);
        assert(s == p.push(digit_char((n % 10) as int)));
        assert(s.drop_last() =~= p);
        lemma_digit_roundtrip((n % 10) as int);
        assert(val(s) == val(p) * 10 + (n % 10));
        assert(val(s) == n);
    }
}

pub proof fn lemma_dec_rep_digits(n: nat)
    ensures
        all_digits(dec_rep(n)),
        dec_rep(n).len() >= 1,
        n > 0 ==> dec_rep(n)[0] != '0',
        n == 0 ==> dec_rep(n) == seq!['0'],
    decreases n,
{
    if n < 10 {
        lemma_digit_roundtrip(n as int);
        assert(dec_rep(n) == seq![digit_char(n as int)]);
    } else {
        lemma_dec_rep_digits(n / 10);
        let p = dec_rep(n / 10);
        let s = dec_rep(n);
        assert(s == p.push(digit_char((n % 10) as int)));
        lemma_digit_roundtrip((n % 10) as int);
        assert forall|i: int| 0 <= i < s.len() implies is_digit(#[trigger] s[i]) by {
            if i < p.len() {
                assert(s[i] == p[i]);
            } else {
                assert(s[i] == digit_char((n % 10) as int));
            }
        }
        assert(s[0] == p[0]);
    }
}

pub proof fn lemma_val_bound(s: Seq<char>)
    requires
        all_digits(s),
    ensures
        0 <= val(s) < pow10(s.len()),
    decreases s.len(),
{
    if s.len() == 0 {
    } else {
        let dl = s.drop_last();
        assert(all_digits(dl)) by {
            assert(forall|i: int| 0 <= i < dl.len() ==> dl[i] == s[i]);
        }
        lemma_val_bound(dl);
        assert(pow10(s.len()) == 10 * pow10((s.len() - 1) as nat));
        assert(is_digit(s.last()));
        assert(0 <= digit_val(s.last()) <= 9);
    }
}

pub proof fn lemma_val_lower(s: Seq<char>)
    requires
        all_digits(s),
        s.len() >= 1,
        s[0] != '0',
    ensures
        val(s) >= pow10((s.len() - 1) as nat),
    decreases s.len(),
{
    if s.len() == 1 {
        assert(s.last() == s[0]);
        assert(is_digit(s[0]));
        assert(digit_val(s[0]) >= 1);
        assert(s.drop_last() =~= Seq::<char>::empty());
        assert(val(s.drop_last()) == 0);
        assert(val(s) == digit_val(s[0]));
        assert(pow10(0) == 1);
    } else {
        let dl = s.drop_last();
        assert(all_digits(dl)) by {
            assert(forall|i: int| 0 <= i < dl.len() ==> dl[i] == s[i]);
        }
        assert(dl[0] == s[0]);
        lemma_val_lower(dl);
        assert(is_digit(s.last()));
        assert(digit_val(s.last()) >= 0);
        assert(val(s) == val(dl) * 10 + digit_val(s.last()));
        assert(val(dl) * 10 >= pow10((s.len() - 2) as nat) * 10);
        assert(pow10((s.len() - 1) as nat) == 10 * pow10((s.len() - 2) as nat));
    }
}

pub proof fn lemma_dec_rep_u64_len(n: nat)
    requires
        n <= u64::MAX,
    ensures
        dec_rep(n).len() <= 20,
{
    lemma_dec_rep_digits(n);
    lemma_val_dec_rep(n);
    if dec_rep(n).len() > 20 {
        if n == 0 {
        } else {
            lemma_val_lower(dec_rep(n));
            lemma_pow10_mono(20, (dec_rep(n).len() - 1) as nat);
            lemma_pow10_20();
        }
    }
}

pub proof fn lemma_padded_props(n: nat, w: nat)
    ensures
        padded(n, w).len() == w,
        all_digits(padded(n, w)),
        n < pow10(w) ==> val(padded(n, w)) == n,
    decreases w,
{
    if w == 0 {
    } else {
        lemma_padded_props(n / 10, (w - 1) as nat);
        let p = padded(n / 10, (w - 1) as nat);
        let s = padded(n, w);
        assert(s == p.push(digit_char((n % 10) as int)));
        lemma_digit_roundtrip((n % 10) as int);
        assert forall|i: int| 0 <= i < s.len() implies is_digit(#[trigger] s[i]) by {
            if i < p.len() {
                assert(s[i] == p[i]);
            } else {
                assert(s[i] == digit_char((n % 10) as int));
            }
        }
        if n < pow10(w) {
            assert(pow10(w) == 10 * pow10((w - 1) as nat));
            if n / 10 >= pow10((w - 1) as nat) {
                assert(n == (n / 10) * 10 + n % 10);
                assert((n / 10) * 10 >= pow10((w - 1) as nat) * 10);
            }
            assert(n / 10 < pow10((w - 1) as nat));
            assert(s.drop_last() =~= p);
            assert(val(s) == val(p) * 10 + (n % 10) as int);
        }
    }
}

/// Writing the value of a digit string back with the same width recovers it.
pub proof fn lemma_padded_val_inv(s: Seq<char>)
    requires
        all_digits(s),
    ensures
        padded(val(s) as nat, s.len()) == s,
    decreases s.len(),
{
    if s.len() == 0 {
        assert(padded(0, 0) =~= s);
    } else {
        let dl = s.drop_last();
        assert(all_digits(dl)) by {
            assert(forall|i: int| 0 <= i < dl.len() ==> dl[i] == s[i]);
        }
        lemma_padded_val_inv(dl);
        lemma_val_bound(dl);
        assert(is_digit(s.last()));
        let d = digit_val(s.last());
        assert(0 <= d <= 9);
        let v = val(s);
        assert(v == val(dl) * 10 + d);
        assert(v % 10 == d && v / 10 == val(dl));
        assert(digit_char(d) == s.last());
        assert(padded(v as nat, s.len()) == padded((v / 10) as nat, (s.len() - 1) as nat).push(
            digit_char((v % 10) as int),
        ));
        assert(padded(v as nat, s.len()) =~= s);
    }
}

pub proof fn lemma_strip_tz(s: Seq<char>)
    requires
        all_digits(s),
        s.len() >= 1,
    ensures
        1 <= strip_tz(s).len() <= s.len(),
        all_digits(strip_tz(s)),
        strip_tz(s).len() == 1 || strip_tz(s).last() != '0',
        strip_tz(s) == s.subrange(0, strip_tz(s).len() as int),
        val(strip_tz(s)) * pow10((s.len() - strip_tz(s).len()) as nat) == val(s),
    decreases s.len(),
{
    if s.len() == 1 {
        assert(strip_tz(s) == s);
        assert(s.subrange(0, 1) =~= s);
        assert(pow10((s.len() - strip_tz(s).len()) as nat) == 1);
        assert(val(s) * 1 == val(s));
    } else if s.last() == '0' {
        let dl = s.drop_last();
        assert(all_digits(dl)) by {
            assert(forall|i: int| 0 <= i < dl.len() ==> dl[i] == s[i]);
        }
        lemma_strip_tz(dl);
        let r = strip_tz(s);
        assert(r == strip_tz(dl));
        assert(dl.subrange(0, r.len() as int) =~= s.subrange(0, r.len() as int));
        assert(digit_val(s.last()) == 0);
        assert(val(s) == val(dl) * 10 + digit_val(s.last()));
        assert(val(s) == val(dl) * 10);
        let e = (dl.len() - r.len()) as nat;
        assert(val(r) * pow10(e) == val(dl));
        assert(pow10((s.len() - r.len()) as nat) == 10 * pow10(e));
        assert(val(r) * (10 * pow10(e)) == (val(r) * pow10(e)) * 10) by (nonlinear_arith);
        assert(val(r) * pow10((s.len() - r.len()) as nat) == val(r) * (10 * pow10(e)));
        assert(val(r) * pow10((s.len() - r.len()) as nat) == val(s));
    } else {
        assert(strip_tz(s) == s);
        assert(s.subrange(0, s.len() as int) =~= s);
        assert(pow10((s.len() - strip_tz(s).len()) as nat) == 1);
        assert(val(s) * 1 == val(s));
    }
}

/// The inverse of `lemma_strip_tz` used when parsing: a canonical digit
/// string (no trailing zero unless it is the single digit `0`) scaled back
/// up to `w` digits strips down to itself.
pub proof fn lemma_strip_pad(fs: Seq<char>, w: nat)
    requires
        all_digits(fs),
        1 <= fs.len() <= w,
        fs.len() == 1 || fs.last() != '0',
    ensures
        val(fs) * pow10((w - fs.len()) as nat) < pow10(w),
        strip_tz(padded((val(fs) * pow10((w - fs.len()) as nat)) as nat, w)) == fs,
    decreases w,
{
    lemma_val_bound(fs);
    lemma_pow10_pos((w - fs.len()) as nat);
    lemma_pow10_mul(fs.len(), (w - fs.len()) as nat);
    assert(val(fs) * pow10((w - fs.len()) as nat) < pow10(w)) by (nonlinear_arith)
        requires
            val(fs) < pow10(fs.len()),
            val(fs) >= 0,
            pow10((w - fs.len()) as nat) >= 1,
            pow10(fs.len()) * pow10((w - fs.len()) as nat) == pow10(w),
    ;
    let f = (val(fs) * pow10((w - fs.len()) as nat)) as nat;
    if fs.len() == w {
        assert(pow10((w - fs.len()) as nat) == 1);
        assert(val(fs) * 1 == val(fs));
        assert(f == val(fs));
        lemma_padded_val_inv(fs);
        assert(padded(f, w) == fs);
        if fs.len() == 1 {
        } else {
            assert(fs.last() != '0');
            assert(strip_tz(fs) == fs);
        }
    } else {
        let e = (w - fs.len() - 1) as nat;
        assert(pow10((w - fs.len()) as nat) == 10 * pow10(e));
        assert(val(fs) * (10 * pow10(e)) == (val(fs) * pow10(e)) * 10) by (nonlinear_arith);
        let g = (val(fs) * pow10(e)) as nat;
        assert(f == g * 10);
        assert(f % 10 == 0 && f / 10 == g) by (nonlinear_arith)
            requires
                f == g * 10,
                g >= 0,
        ;
        let p = padded(f, w);
        assert(p == padded(g, (w - 1) as nat).push(digit_char(0)));
        lemma_padded_props(f, w);
        assert(p.len() == w >= 2);
        assert(p.last() == '0');
        assert(p.drop_last() =~= padded(g, (w - 1) as nat));
        lemma_strip_pad(fs, (w - 1) as nat);
        assert(strip_tz(p) == strip_tz(padded(g, (w - 1) as nat)));
    }
}

/// Formatting the value of a canonical digit string (no leading zero)
/// recovers the string: `dec_rep` and `val` are mutually inverse.
pub proof fn lemma_dec_rep_val_inv(s: Seq<char>)
    requires
        all_digits(s),
        s.len() >= 1,
        s[0] != '0' || s.len() == 1,
    ensures
        dec_rep(val(s) as nat) == s,
    decreases s.len(),
{
    if s.len() == 1 {
        assert(s.drop_last() =~= Seq::<char>::empty());
        assert(val(s.drop_last()) == 0);
        assert(s.last() == s[0]);
        assert(is_digit(s[0]));
        assert(val(s) == digit_val(s[0]));
        assert(0 <= val(s) < 10);
        assert(digit_char(digit_val(s[0])) == s[0]);
        assert(dec_rep(val(s) as nat) =~= s);
    } else {
        let dl = s.drop_last();
        assert(all_digits(dl)) by {
            assert(forall|i: int| 0 <= i < dl.len() ==> dl[i] == s[i]);
        }
        assert(dl[0] == s[0]);
        lemma_val_lower(dl);
        lemma_pow10_pos((dl.len() - 1) as nat);
        lemma_val_bound(dl);
        lemma_dec_rep_val_inv(dl);
        assert(is_digit(s.last()));
        let d = digit_val(s.last());
        assert(0 <= d <= 9);
        let v = val(s);
        assert(v == val(dl) * 10 + d);
        assert(val(dl) >= 1);
        assert(v >= 10);
        assert(v % 10 == d && v / 10 == val(dl));
        assert(digit_char(d) == s.last());
        assert(dec_rep(v as nat) == dec_rep((v / 10) as nat).push(digit_char((v % 10) as int)));
        assert(dec_rep(v as nat) =~= s);
    }
}

pub proof fn lemma_pow10_mul(a: nat, b: nat)
    ensures
        pow10(a) * pow10(b) == pow10((a + b) as nat),
    decreases a,
{
    if a == 0 {
        assert(pow10(0) == 1);
    } else {
        lemma_pow10_mul((a - 1) as nat, b);
        assert(pow10((a - 1) as nat) * pow10(b) == pow10(((a - 1) + b) as nat));
        assert((10 * pow10((a - 1) as nat)) * pow10(b) == 10 * (pow10((a - 1) as nat) * pow10(b)))
            by (nonlinear_arith);
        assert(pow10(a) == 10 * pow10((a - 1) as nat));
        assert(pow10((a + b) as nat) == 10 * pow10(((a + b) - 1) as nat));
        assert((((a - 1) + b) as nat) == (((a + b) - 1) as nat));
        assert(pow10(a) * pow10(b) == pow10((a + b) as nat));
    }
}

/// Decimal representation of a signed integer.
pub open spec fn int_rep(i: int) -> Seq<char> {
    if i < 0 {
        seq!['-'] + dec_rep((-i) as nat)
    } else {
        dec_rep(i as nat)
    }
}

/// The fixed-point value `scaled / 100000`, rendered with exactly five
/// fractional digits, as the storage write statement requires.
pub open spec fn fixed5_rep(scaled: int) -> Seq<char> {
    let a = if scaled < 0 {
        -scaled
    } else {
        scaled
    };
    (if scaled < 0 {
        seq!['-']
    } else {
        Seq::<char>::empty()
    }) + dec_rep((a / 100_000) as nat) + seq!['.'] + padded((a % 100_000) as nat, 5)
}

/// The fixed-point value `scaled / 100000` in canonical minimal form:
/// trailing zeros of the fraction dropped, but at least one fractional
/// digit kept. This is the form the payload encoding uses.
pub open spec fn data_rep(scaled: int) -> Seq<char> {
    let a = if scaled < 0 {
        -scaled
    } else {
        scaled
    };
    (if scaled < 0 {
        seq!['-']
    } else {
        Seq::<char>::empty()
    }) + dec_rep((a / 100_000) as nat) + seq!['.'] + strip_tz(padded((a % 100_000) as nat, 5))
}

/// Append the character for one decimal digit.
pub fn digit_to_char(d: u64) -> (c: char)
    requires
        d < 10,
    ensures
        c == digit_char(d as int),
{
    match d {
        0 => '0',
        1 => '1',
        2 => '2',
        3 => '3',
        4 => '4',
        5 => '5',
        6 => '6',
        7 => '7',
        8 => '8',
        _ => '9',
    }
}

/// The digit value of a character, if it is one.
pub fn char_digit(c: char) -> (r: Option<u64>)
    ensures
        match r {
            Some(d) => is_digit(c) && d < 10 && d as int == digit_val(c),
            None => !is_digit(c),
        },
{
    match c {
        '0' => Some(0),
        '1' => Some(1),
        '2' => Some(2),
        '3' => Some(3),
        '4' => Some(4),
        '5' => Some(5),
        '6' => Some(6),
        '7' => Some(7),
        '8' => Some(8),
        '9' => Some(9),
        _ => None,
    }
}

/// Append the decimal representation of `n` to `out`.
pub fn push_dec(out: &mut Vec<char>, n: u64)
    ensures
        final(out)@ == old(out)@ + dec_rep(n as nat),
    decreases n,
{
    if n < 10 {
        out.push(digit_to_char(n));
        assert(out@ =~= old(out)@ + dec_rep(n as nat));
    } else {
        push_dec(out, n / 10);
        out.push(digit_to_char(n % 10));
        assert(out@ =~= old(out)@ + dec_rep(n as nat));
    }
}

/// Append the low `width` decimal digits of `n`, zero padded, to `out`.
pub fn push_padded(out: &mut Vec<char>, n: u64, width: u64)
    ensures
        final(out)@ == old(out)@ + padded(n as nat, width as nat),
    decreases width,
{
    if width == 0 {
        assert(out@ =~= old(out)@ + padded(n as nat, 0));
    } else {
        push_padded(out, n / 10, width - 1);
        out.push(digit_to_char(n % 10));
        assert(out@ =~= old(out)@ + padded(n as nat, width as nat));
    }
}

/// Append the decimal representation of a signed integer to `out`.
pub fn push_int(out: &mut Vec<char>, v: i64)
    ensures
        final(out)@ == old(out)@ + int_rep(v as int),
{
    if v < 0 {
        out.push('-');
        let a: u64 = (-(v as i128)) as u64;
        push_dec(out, a);
        assert(out@ =~= old(out)@ + int_rep(v as int));
    } else {
        push_dec(out, v as u64);
        assert(out@ =~= old(out)@ + int_rep(v as int));
    }
}

/// Append `scaled / 100000` with exactly five fractional digits.
pub fn push_fixed5(out: &mut Vec<char>, scaled: i64)
    ensures
        final(out)@ == old(out)@ + fixed5_rep(scaled as int),
{
    let neg = scaled < 0;
    if neg {
        out.push('-');
    }
    let a: u64 = if neg {
        (-(scaled as i128)) as u64
    } else {
        scaled as u64
    };
    push_dec(out, a / 100_000);
    out.push('.');
    push_padded(out, a % 100_000, 5);
    assert(out@ =~= old(out)@ + fixed5_rep(scaled as int));
}

/// Append `scaled / 100000` in canonical minimal form.
pub fn push_data(out: &mut Vec<char>, scaled: i64)
    ensures
        final(out)@ == old(out)@ + data_rep(scaled as int),
{
    let neg = scaled < 0;
    if neg {
        out.push('-');
    }
    let a: u64 = if neg {
        (-(scaled as i128)) as u64
    } else {
        scaled as u64
    };
    push_dec(out, a / 100_000);
    out.push('.');
    let mut frac: Vec<char> = Vec::new();
    push_padded(&mut frac, a % 100_000, 5);
    let ghost pad0 = padded((a % 100_000) as nat, 5);
    while frac.len() > 1 && frac[frac.len() - 1] == '0'
        invariant
            frac.len() >= 1,
            strip_tz(frac@) == strip_tz(pad0),
        decreases frac.len(),
    {
        proof {
            assert(frac@.last() == '0');
            assert(strip_tz(frac@) == strip_tz(frac@.drop_last()));
        }
        frac.pop();
    }
    proof {
        assert(strip_tz(frac@) == frac@);
    }
    let mut i: usize = 0;
    let ghost mid = out@;
    while i < frac.len()
        invariant
            i <= frac.len(),
            out@ == mid + frac@.subrange(0, i as int),
        decreases frac.len() - i,
    {
        out.push(frac[i]);
        i = i + 1;
        proof {
            assert(out@ =~= mid + frac@.subrange(0, i as int));
        }
    }
    proof {
        assert(frac@.subrange(0, frac@.len() as int) =~= frac@);
        assert(out@ =~= old(out)@ + data_rep(scaled as int));
    }
}

/// Index of the first non-digit character at or after `start`.
pub fn scan_digits(t: &Vec<char>, start: usize) -> (end: usize)
    requires
        start <= t.len(),
    ensures
        start <= end <= t.len(),
        forall|i: int| start <= i < end ==> is_digit(#[trigger] t@[i]),
        end < t.len() ==> !is_digit(t@[end as int]),
{
    let mut i: usize = start;
    loop
        invariant
            start <= i <= t.len(),
            forall|k: int| start <= k < i ==> is_digit(#[trigger] t@[k]),
        decreases t.len() - i,
    {
        if i >= t.len() {
            return i;
        }
        if char_digit(t[i]).is_none() {
            return i;
        }
        i = i + 1;
    }
}

/// The numeric value of the digit run `t[start..end]`; the run must have at
/// most 20 digits, so the value fits comfortably in a `u128`.
pub fn digits_value(t: &Vec<char>, start: usize, end: usize) -> (v: u128)
    requires
        start <= end <= t.len(),
        end - start <= 20,
        forall|i: int| start <= i < end ==> is_digit(#[trigger] t@[i]),
    ensures
        v as int == val(t@.subrange(start as int, end as int)),
{
    let mut i: usize = start;
    let mut acc: u128 = 0;
    proof {
        assert(t@.subrange(start as int, start as int) =~= Seq::<char>::empty());
    }
    while i < end
        invariant
            start <= i <= end <= t.len(),
            end - start <= 20,
            forall|k: int| start <= k < end ==> is_digit(#[trigger] t@[k]),
            acc as int == val(t@.subrange(start as int, i as int)),
            (acc as int) < pow10((i - start) as nat),
        decreases end - i,
    {
        let d = match char_digit(t[i]) {
            Some(d) => d,
            None => {
                proof {
                    assert(is_digit(t@[i as int]));
                }
                0
            },
        };
        proof {
            let pre = t@.subrange(start as int, i as int);
            let cur = t@.subrange(start as int, i as int + 1);
            assert(cur.drop_last() =~= pre);
            assert(cur.last() == t@[i as int]);
            lemma_pow10_mono((i - start) as nat, 20);
            lemma_pow10_20();
            assert(acc < 100_000_000_000_000_000_000);
        }
        acc = acc * 10 + (d as u128);
        i = i + 1;
        proof {
            assert(pow10((i - start) as nat) == 10 * pow10((i - 1 - start) as nat));
        }
    }
    acc
}

} // verus!

//! Decimal DRK amounts and atomic units, without floating point.
use crate::text::{append_decimal, chars_of, trim};
use crate::text::{decimal, digit_char, trim_left, trimmed, without_trailing};
use vstd::prelude::*;

verus! {

/// Display decimals of the native token: one DRK is `10^8` atomic units.
pub const DRK_DECIMALS: usize = 8;

/// Atomic units in one DRK.
pub const ATOMS_PER_DRK: u64 = 100_000_000;

/// `10^n`.
pub open spec fn pow10(n: nat) -> nat
    decreases n,
{
    if n == 0 {
        1
    } else {
        10 * pow10((n - 1) as nat)
    }
}

/// `c` is an ASCII digit.
pub open spec fn is_digit(c: char) -> bool {
    '0' <= c <= '9'
}

/// The number an ASCII digit stands for.
pub open spec fn digit_value(c: char) -> nat {
    (c as u32 - '0' as u32) as nat
}

/// The number a string of digits stands for.
pub open spec fn digits_value(s: Seq<char>) -> nat
    decreases s.len(),
{
    if s.len() == 0 {
        0
    } else {
        10 * digits_value(s.drop_last()) + digit_value(s.last())
    }
}

/// Every character of `s` is an ASCII digit.
pub open spec fn all_digits(s: Seq<char>) -> bool {
    forall|i: int| 0 <= i < s.len() ==> is_digit(#[trigger] s[i])
}

/// The position of the first `.` in `s`, or the length of `s` if there is none.
pub open spec fn point_position(s: Seq<char>) -> int
    decreases s.len(),
{
    if s.len() == 0 || s[0] == '.' {
        0
    } else {
        1 + point_position(s.skip(1))
    }
}

/// The characters of `s` before its first `.`.
pub open spec fn whole_part(s: Seq<char>) -> Seq<char> {
    s.take(point_position(s))
}

/// The characters of `s` after its first `.`.
pub open spec fn fraction_part(s: Seq<char>) -> Seq<char> {
    if point_position(s) < s.len() {
        s.skip(point_position(s) + 1)
    } else {
        Seq::empty()
    }
}

/// `s` is a decimal numeral: digits with at most one point among or around them.
pub open spec fn is_numeral(s: Seq<char>) -> bool {
    all_digits(whole_part(s)) && all_digits(fraction_part(s))
}

/// The least `n` with `n * b >= a`.
pub open spec fn ceil_div(a: nat, b: nat) -> nat {
    if a % b == 0 {
        a / b
    } else {
        a / b + 1
    }
}

/// The atomic units a decimal numeral stands for. A remainder below one atomic unit counts as a
/// whole unit.
pub open spec fn numeral_atoms(s: Seq<char>) -> nat {
    ceil_div(
        digits_value(whole_part(s) + fraction_part(s)) * pow10(DRK_DECIMALS as nat),
        pow10(fraction_part(s).len()),
    )
}

/// `v` written with exactly `width` digits.
pub open spec fn padded(v: nat, width: nat) -> Seq<char>
    decreases width,
{
    if width == 0 {
        Seq::empty()
    } else {
        padded(v / 10, (width - 1) as nat).push(digit_char((v % 10) as int))
    }
}

/// An atomic amount as a decimal DRK numeral, with neither trailing zeros nor a bare point.
pub open spec fn drk_text(atomic: nat) -> Seq<char> {
    let whole = decimal(atomic / pow10(DRK_DECIMALS as nat));
    let fraction = atomic % pow10(DRK_DECIMALS as nat);
    if fraction == 0 {
        whole
    } else {
        whole.push('.') + without_trailing(padded(fraction, DRK_DECIMALS as nat), '0')
    }
}

proof fn lemma_pow10_values()
    ensures
        pow10(0) == 1,
        pow10(8) == ATOMS_PER_DRK,
{
    reveal_with_fuel(pow10, 9);
}

proof fn lemma_pow10_positive(n: nat)
    ensures
        pow10(n) > 0,
    decreases n,
{
    if n > 0 {
        lemma_pow10_positive((n - 1) as nat);
    }
}

proof fn lemma_pow10_sum(a: nat, b: nat)
    ensures
        pow10(a + b) == pow10(a) * pow10(b),
    decreases b,
{
    if b == 0 {
        assert(pow10(a) * pow10(0) == pow10(a)) by (nonlinear_arith)
            requires
                pow10(0) == 1,
        ;
    } else {
        lemma_pow10_sum(a, (b - 1) as nat);
        assert((a + b - 1) as nat == a + (b - 1) as nat);
        assert(10 * (pow10(a) * pow10((b - 1) as nat)) == pow10(a) * (10 * pow10((b - 1) as nat)))
            by (nonlinear_arith);
    }
}

/// Splitting a digit string weighs its first part by the length of its second.
proof fn lemma_digits_concat(a: Seq<char>, b: Seq<char>)
    ensures
        digits_value(a + b) == digits_value(a) * pow10(b.len()) + digits_value(b),
    decreases b.len(),
{
    if b.len() == 0 {
        assert(a + b =~= a);
        assert(digits_value(a) * pow10(0) == digits_value(a)) by (nonlinear_arith)
            requires
                pow10(0) == 1,
        ;
    } else {
        let c = b.drop_last();
        assert((a + b).drop_last() =~= a + c);
        lemma_digits_concat(a, c);
        assert(10 * (digits_value(a) * pow10(c.len())) == digits_value(a) * (10 * pow10(c.len())))
            by (nonlinear_arith);
    }
}

proof fn lemma_digits_bound(s: Seq<char>)
    requires
        all_digits(s),
    ensures
        digits_value(s) < pow10(s.len()),
    decreases s.len(),
{
    if s.len() > 0 {
        assert forall|i: int| 0 <= i < s.drop_last().len() implies is_digit(
            #[trigger] s.drop_last()[i],
        ) by {
            assert(is_digit(s[i]));
        }
        lemma_digits_bound(s.drop_last());
        assert(is_digit(s[s.len() - 1]));
    }
}

proof fn lemma_digits_zero(s: Seq<char>)
    requires
        all_digits(s),
    ensures
        digits_value(s) == 0 <==> (forall|i: int| 0 <= i < s.len() ==> s[i] == '0'),
    decreases s.len(),
{
    if s.len() > 0 {
        let t = s.drop_last();
        assert forall|i: int| 0 <= i < t.len() implies is_digit(#[trigger] t[i]) by {
            assert(is_digit(s[i]));
        }
        lemma_digits_zero(t);
        assert(is_digit(s[s.len() - 1]));
        if digits_value(s) == 0 {
            assert forall|i: int| 0 <= i < s.len() implies s[i] == '0' by {
                if i < t.len() {
                    assert(t[i] == s[i]);
                }
            }
        }
        if forall|i: int| 0 <= i < s.len() ==> s[i] == '0' {
            assert forall|i: int| 0 <= i < t.len() implies t[i] == '0' by {
                assert(s[i] == '0');
            }
        }
    }
}

/// How the rounded quotient of [`numeral_atoms`] comes out of the digits.
proof fn lemma_atoms(whole: Seq<char>, fraction: Seq<char>)
    requires
        all_digits(whole),
        all_digits(fraction),
    ensures
        fraction.len() <= 8 ==> ceil_div(
            digits_value(whole + fraction) * pow10(8),
            pow10(fraction.len()),
        ) == digits_value(whole + fraction) * pow10((8 - fraction.len()) as nat),
        fraction.len() > 8 ==> ceil_div(
            digits_value(whole + fraction) * pow10(8),
            pow10(fraction.len()),
        ) == digits_value(whole + fraction.take(8)) + if digits_value(fraction.skip(8)) == 0 {
            0nat
        } else {
            1nat
        },
{
    let f = fraction.len();
    let v = digits_value(whole + fraction);
    lemma_pow10_positive(f);
    lemma_pow10_positive(8);
    if f <= 8 {
        let rest = (8 - f) as nat;
        lemma_pow10_sum(rest, f);
        let (a, b) = (pow10(rest), pow10(f));
        assert(v * (a * b) == (v * a) * b) by (nonlinear_arith);
        let q = v * a;
        assert((q * b) % b == 0 && (q * b) / b == q) by (nonlinear_arith)
            requires
                b > 0,
        ;
    } else {
        let (head, tail) = (fraction.take(8), fraction.skip(8));
        let rest = (f - 8) as nat;
        assert(tail.len() == rest);
        assert(whole + fraction =~= (whole + head) + tail);
        lemma_digits_concat(whole + head, tail);
        assert forall|i: int| 0 <= i < tail.len() implies is_digit(#[trigger] tail[i]) by {
            assert(is_digit(fraction[i + 8]));
        }
        lemma_digits_bound(tail);
        lemma_pow10_sum(8, rest);
        let (e, m) = (pow10(8), pow10(rest));
        let (h, r) = (digits_value(whole + head), digits_value(tail));
        assert(v == h * m + r);
        assert((h * m + r) * e == h * (e * m) + r * e) by (nonlinear_arith);
        assert(r * e < e * m) by (nonlinear_arith)
            requires
                r < m,
                e > 0,
        ;
        let (d, low) = (e * m, r * e);
        assert(d > 0);
        assert((h * d + low) / d == h && (h * d + low) % d == low) by (nonlinear_arith)
            requires
                0 <= low < d,
        ;
        if r == 0 {
            assert(r * e == 0) by (nonlinear_arith)
                requires
                    r == 0,
            ;
        } else {
            assert(r * e > 0) by (nonlinear_arith)
                requires
                    r > 0,
                    e > 0,
            ;
        }
    }
}

/// `v` where it fits in 64 bits.
spec fn capped(v: nat) -> Option<u64> {
    if v <= u64::MAX {
        Some(v as u64)
    } else {
        None
    }
}

/// Appends one digit to a running number.
fn push_digit(acc: Option<u64>, d: u64, Ghost(v): Ghost<nat>) -> (out: Option<u64>)
    requires
        acc == capped(v),
        d < 10,
    ensures
        out == capped(10 * v + d as nat),
{
    match acc {
        None => None,
        Some(n) => match n.checked_mul(10) {
            None => None,
            Some(m) => m.checked_add(d),
        },
    }
}

/// The numeric value of an ASCII digit.
fn digit_of(c: char) -> (d: u64)
    requires
        is_digit(c),
    ensures
        d == digit_value(c),
        d < 10,
{
    (c as u32 - '0' as u32) as u64
}

/// The position of the first point.
fn find_point(chars: &Vec<char>) -> (p: usize)
    ensures
        p == point_position(chars@),
        p <= chars@.len(),
{
    let mut p: usize = 0;
    assert(chars@.skip(0) =~= chars@);
    while p < chars.len() && chars[p] != '.'
        invariant
            p <= chars.len(),
            point_position(chars@) == p + point_position(chars@.skip(p as int)),
        decreases chars.len() - p,
    {
        assert(chars@.skip(p as int).skip(1) =~= chars@.skip(p as int + 1));
        p += 1;
    }
    p
}

/// Whether the characters from `lo` to `hi` are digits.
fn digits_between(chars: &Vec<char>, lo: usize, hi: usize) -> (all: bool)
    requires
        lo <= hi <= chars@.len(),
    ensures
        all == all_digits(chars@.subrange(lo as int, hi as int)),
{
    let ghost part = chars@.subrange(lo as int, hi as int);
    let mut i: usize = lo;
    while i < hi
        invariant
            lo <= i <= hi <= chars@.len(),
            part == chars@.subrange(lo as int, hi as int),
            forall|j: int| 0 <= j < i - lo ==> is_digit(#[trigger] part[j]),
        decreases hi - i,
    {
        let c = chars[i];
        assert(part[i - lo] == c);
        if c < '0' || c > '9' {
            return false;
        }
        i += 1;
    }
    true
}

/// Appends the digits from `lo` to `hi` to a running number.
fn push_digits(
    acc: Option<u64>,
    chars: &Vec<char>,
    lo: usize,
    hi: usize,
    Ghost(head): Ghost<Seq<char>>,
) -> (out: Option<u64>)
    requires
        lo <= hi <= chars@.len(),
        all_digits(chars@.subrange(lo as int, hi as int)),
        acc == capped(digits_value(head)),
    ensures
        out == capped(digits_value(head + chars@.subrange(lo as int, hi as int))),
{
    let ghost part = chars@.subrange(lo as int, hi as int);
    let mut out: Option<u64> = acc;
    let mut i: usize = lo;
    assert(head + part.take(0) =~= head);
    while i < hi
        invariant
            lo <= i <= hi <= chars@.len(),
            part == chars@.subrange(lo as int, hi as int),
            all_digits(part),
            out == capped(digits_value(head + part.take(i - lo))),
        decreases hi - i,
    {
        let ghost before = head + part.take(i - lo);
        let ghost after = head + part.take(i + 1 - lo);
        assert(after.drop_last() =~= before);
        assert(after.last() == part[i - lo]);
        assert(part[i - lo] == chars@[i as int]);
        out = push_digit(out, digit_of(chars[i]), Ghost(digits_value(before)));
        i += 1;
    }
    assert(part.take(hi - lo) =~= part);
    out
}

/// Multiplies a running number by a power of ten.
fn shift_left(acc: Option<u64>, places: usize, Ghost(v): Ghost<nat>) -> (out: Option<u64>)
    requires
        acc == capped(v),
    ensures
        out == capped(v * pow10(places as nat)),
{
    let mut out: Option<u64> = acc;
    let mut k: usize = 0;
    assert(v * pow10(0) == v) by (nonlinear_arith)
        requires
            pow10(0) == 1,
    ;
    while k < places
        invariant
            k <= places,
            out == capped(v * pow10(k as nat)),
        decreases places - k,
    {
        assert(10 * (v * pow10(k as nat)) == v * (10 * pow10(k as nat))) by (nonlinear_arith);
        out = push_digit(out, 0, Ghost(v * pow10(k as nat)));
        k += 1;
    }
    out
}

/// Whether a character other than `0` stands between `lo` and `hi`.
fn any_nonzero(chars: &Vec<char>, lo: usize, hi: usize) -> (any: bool)
    requires
        lo <= hi <= chars@.len(),
        all_digits(chars@.subrange(lo as int, hi as int)),
    ensures
        any == (digits_value(chars@.subrange(lo as int, hi as int)) != 0),
{
    let ghost part = chars@.subrange(lo as int, hi as int);
    proof {
        lemma_digits_zero(part);
    }
    let mut i: usize = lo;
    while i < hi
        invariant
            lo <= i <= hi <= chars@.len(),
            part == chars@.subrange(lo as int, hi as int),
            digits_value(part) == 0 <==> (forall|j: int| 0 <= j < part.len() ==> part[j] == '0'),
            forall|j: int| 0 <= j < i - lo ==> part[j] == '0',
        decreases hi - i,
    {
        assert(part[i - lo] == chars@[i as int]);
        if chars[i] != '0' {
            return true;
        }
        i += 1;
    }
    false
}

/// The atomic units of a decimal numeral, where they fit in 64 bits.
fn atoms_of(chars: &Vec<char>, point: usize, frac: usize) -> (atoms: Option<u64>)
    requires
        point == point_position(chars@),
        point <= frac <= chars@.len(),
        whole_part(chars@) == chars@.subrange(0, point as int),
        fraction_part(chars@) == chars@.subrange(frac as int, chars@.len() as int),
        is_numeral(chars@),
    ensures
        atoms == capped(numeral_atoms(chars@)),
{
    let ghost whole = whole_part(chars@);
    let ghost fraction = fraction_part(chars@);
    let end: usize = chars.len();
    let places: usize = end - frac;
    assert(Seq::<char>::empty() + whole =~= whole);
    let head = push_digits(Some(0), chars, 0, point, Ghost(Seq::empty()));
    proof {
        lemma_atoms(whole, fraction);
        lemma_pow10_values();
    }
    if places <= DRK_DECIMALS {
        let all = push_digits(head, chars, frac, end, Ghost(whole));
        shift_left(all, DRK_DECIMALS - places, Ghost(digits_value(whole + fraction)))
    } else {
        let cut: usize = frac + DRK_DECIMALS;
        let ghost kept = chars@.subrange(frac as int, cut as int);
        let ghost dropped = chars@.subrange(cut as int, end as int);
        proof {
            assert(kept =~= fraction.take(8));
            assert(dropped =~= fraction.skip(8));
            assert forall|i: int| 0 <= i < kept.len() implies is_digit(#[trigger] kept[i]) by {
                assert(is_digit(fraction[i]));
            }
            assert forall|i: int| 0 <= i < dropped.len() implies is_digit(#[trigger] dropped[i]) by {
                assert(is_digit(fraction[i + 8]));
            }
        }
        let number = push_digits(head, chars, frac, cut, Ghost(whole));
        let round = any_nonzero(chars, cut, end);
        match number {
            None => None,
            Some(n) => if round {
                n.checked_add(1)
            } else {
                Some(n)
            },
        }
    }
}

/// The message for an amount that does not parse.
fn invalid_amount(trimmed_amount: &str, reason: &str) -> (message: String)
    ensures
        message@ == "invalid amount `"@ + trimmed_amount@ + "`: "@ + reason@,
{
    let mut message = String::new();
    message.append("invalid amount `");
    message.append(trimmed_amount);
    message.append("`: ");
    message.append(reason);
    assert(message@ =~= "invalid amount `"@ + trimmed_amount@ + "`: "@ + reason@);
    message
}

/// Parses a user amount such as `0.18` or `1` into atomic units.
///
/// White space around the numeral is dropped. Digits beyond the eighth decimal place round up.
pub fn parse_drk_atomic(amount: &str) -> (parsed: Result<u64, String>)
    ensures
        match parsed {
            Ok(atomic) => {
                &&& trimmed(amount@).len() > 0
                &&& is_numeral(trimmed(amount@))
                &&& atomic == numeral_atoms(trimmed(amount@))
            },
            Err(message) => {
                ||| trimmed(amount@).len() == 0 && message@ == "amount must not be empty"@
                ||| trimmed(amount@).len() > 0 && !is_numeral(trimmed(amount@)) && message@
                    == "invalid amount `"@ + trimmed(amount@) + "`: "@ + "found non-digits"@
                ||| trimmed(amount@).len() > 0 && is_numeral(trimmed(amount@)) && numeral_atoms(
                    trimmed(amount@),
                ) > u64::MAX && message@ == "invalid amount `"@ + trimmed(amount@) + "`: "@
                    + "number too large"@
            },
        },
{
    let t = trim(amount);
    if t.is_empty() {
        return Err("amount must not be empty".to_owned());
    }
    let chars = chars_of(t);
    let point: usize = find_point(&chars);
    let end: usize = chars.len();
    let frac: usize = if point < end {
        point + 1
    } else {
        end
    };
    assert(whole_part(chars@) =~= chars@.subrange(0, point as int));
    assert(fraction_part(chars@) =~= chars@.subrange(frac as int, end as int));
    if !digits_between(&chars, 0, point) || !digits_between(&chars, frac, end) {
        return Err(invalid_amount(t, "found non-digits"));
    }
    match atoms_of(&chars, point, frac) {
        Some(atomic) => Ok(atomic),
        None => Err(invalid_amount(t, "number too large")),
    }
}

/// Appends `v` with exactly eight digits, less the zeros at its end.
fn append_fraction(out: &mut String, v: u64)
    requires
        0 < v < ATOMS_PER_DRK,
    ensures
        final(out)@ == old(out)@ + without_trailing(padded(v as nat, 8), '0'),
{
    let mut v: u64 = v;
    let mut width: u64 = 8;
    let ghost target = without_trailing(padded(v as nat, 8), '0');
    proof {
        lemma_pow10_values();
    }
    while v % 10 == 0
        invariant
            0 < width <= 8,
            0 < v < pow10(width as nat),
            target == without_trailing(padded(v as nat, width as nat), '0'),
        decreases width,
    {
        let ghost p = padded(v as nat, width as nat);
        assert(p.last() == digit_char((v % 10) as int));
        assert(p.drop_last() =~= padded((v / 10) as nat, (width - 1) as nat));
        if width == 1 {
            assert(pow10(1) == 10) by {
                reveal_with_fuel(pow10, 2);
            }
            assert(v / 10 == 0);
        }
        v = v / 10;
        width = width - 1;
    }
    assert(padded(v as nat, width as nat).last() == digit_char((v % 10) as int));
    append_padded(out, v, width);
}

/// Appends `v` with exactly `width` digits.
fn append_padded(out: &mut String, v: u64, width: u64)
    requires
        width <= 8,
    ensures
        final(out)@ == old(out)@ + padded(v as nat, width as nat),
    decreases width,
{
    if width == 0 {
        assert(out@ =~= old(out)@ + padded(v as nat, 0));
    } else {
        append_padded(out, v / 10, width - 1);
        append_decimal(out, v % 10);
        assert(out@ =~= old(out)@ + padded(v as nat, width as nat));
    }
}

/// Formats atomic units as a decimal DRK string.
pub fn format_drk_atomic(atomic: u64) -> (s: String)
    ensures
        s@ == drk_text(atomic as nat),
{
    proof {
        lemma_pow10_values();
        reveal_strlit(".");
    }
    let mut s = String::new();
    append_decimal(&mut s, atomic / ATOMS_PER_DRK);
    assert(s@ =~= decimal((atomic / ATOMS_PER_DRK) as nat));
    let fraction: u64 = atomic % ATOMS_PER_DRK;
    if fraction > 0 {
        s.append(".");
        assert(s@ =~= decimal((atomic / ATOMS_PER_DRK) as nat).push('.'));
        append_fraction(&mut s, fraction);
    }
    s
}

/// A signed amount of atomic units as DRK with all eight decimals.
pub open spec fn fixed_text(value: int) -> Seq<char> {
    let atoms: nat = if value < 0 {
        (-value) as nat
    } else {
        value as nat
    };
    let text = decimal(atoms / 100_000_000).push('.') + padded(atoms % 100_000_000, 8);
    if value < 0 {
        seq!['-'] + text
    } else {
        text
    }
}

/// Formats a signed amount of atomic units as DRK with all eight decimals.
pub fn format_drk_fixed(value: i64) -> (s: String)
    ensures
        s@ == fixed_text(value as int),
{
    proof {
        reveal_strlit(".");
        reveal_strlit("-");
    }
    let wide: i128 = value as i128;
    let atoms: u64 = if wide < 0 {
        (-wide) as u64
    } else {
        wide as u64
    };
    let mut s = String::new();
    if value < 0 {
        s.append("-");
    }
    append_decimal(&mut s, atoms / ATOMS_PER_DRK);
    s.append(".");
    append_padded(&mut s, atoms % ATOMS_PER_DRK, 8);
    assert(s@ =~= fixed_text(value as int));
    s
}

proof fn lemma_digit_char(d: int)
    requires
        0 <= d < 10,
    ensures
        is_digit(digit_char(d)),
        digit_value(digit_char(d)) == d,
        digit_char(d) == '0' <==> d == 0,
{
}

proof fn lemma_push_digit(s: Seq<char>, d: int)
    requires
        all_digits(s),
        0 <= d < 10,
    ensures
        all_digits(s.push(digit_char(d))),
        digits_value(s.push(digit_char(d))) == 10 * digits_value(s) + d,
{
    lemma_digit_char(d);
    let t = s.push(digit_char(d));
    assert(t.drop_last() =~= s);
    assert forall|i: int| 0 <= i < t.len() implies is_digit(#[trigger] t[i]) by {
        if i < s.len() {
            assert(is_digit(s[i]));
        }
    }
}

proof fn lemma_decimal(n: nat)
    ensures
        decimal(n).len() > 0,
        all_digits(decimal(n)),
        digits_value(decimal(n)) == n,
    decreases n,
{
    if n < 10 {
        assert(decimal(n) =~= Seq::<char>::empty().push(digit_char(n as int)));
        lemma_push_digit(Seq::empty(), n as int);
    } else {
        lemma_decimal(n / 10);
        lemma_push_digit(decimal(n / 10), (n % 10) as int);
    }
}

proof fn lemma_padded(v: nat, width: nat)
    requires
        v < pow10(width),
    ensures
        padded(v, width).len() == width,
        all_digits(padded(v, width)),
        digits_value(padded(v, width)) == v,
    decreases width,
{
    if width > 0 {
        lemma_padded(v / 10, (width - 1) as nat);
        lemma_push_digit(padded(v / 10, (width - 1) as nat), (v % 10) as int);
    }
}

/// Dropping zeros at the end of a numeral divides it by a power of ten.
proof fn lemma_without_zeros(s: Seq<char>)
    requires
        all_digits(s),
    ensures
        ({
            let t = without_trailing(s, '0');
            &&& t.len() <= s.len()
            &&& all_digits(t)
            &&& digits_value(s) == digits_value(t) * pow10((s.len() - t.len()) as nat)
            &&& digits_value(s) > 0 ==> t.len() > 0
        }),
    decreases s.len(),
{
    let t = without_trailing(s, '0');
    if s.len() > 0 && s.last() == '0' {
        let u = s.drop_last();
        assert forall|i: int| 0 <= i < u.len() implies is_digit(#[trigger] u[i]) by {
            assert(is_digit(s[i]));
        }
        lemma_without_zeros(u);
        let k = (u.len() - t.len()) as nat;
        assert((s.len() - t.len()) as nat == k + 1);
        assert(10 * (digits_value(t) * pow10(k)) == digits_value(t) * (10 * pow10(k)))
            by (nonlinear_arith);
    } else {
        assert(digits_value(s) * pow10(0) == digits_value(s)) by (nonlinear_arith)
            requires
                pow10(0) == 1,
        ;
    }
}

/// The point of a numeral stands after its whole digits.
proof fn lemma_point(whole: Seq<char>, tail: Seq<char>)
    requires
        all_digits(whole),
        tail.len() == 0 || tail[0] == '.',
    ensures
        point_position(whole + tail) == whole.len(),
    decreases whole.len(),
{
    let s = whole + tail;
    if whole.len() > 0 {
        assert(is_digit(whole[0]));
        assert(s.skip(1) =~= whole.skip(1) + tail);
        assert forall|i: int| 0 <= i < whole.skip(1).len() implies is_digit(
            #[trigger] whole.skip(1)[i],
        ) by {
            assert(is_digit(whole[i + 1]));
        }
        lemma_point(whole.skip(1), tail);
    } else {
        assert(s =~= tail);
    }
}

/// Formatting and parsing are inverse: the text of an amount reads back as that amount.
pub proof fn law_format_parses_back(atomic: u64)
    ensures
        trimmed(drk_text(atomic as nat)) == drk_text(atomic as nat),
        drk_text(atomic as nat).len() > 0,
        is_numeral(drk_text(atomic as nat)),
        numeral_atoms(drk_text(atomic as nat)) == atomic,
{
    lemma_pow10_values();
    let unit = pow10(8);
    let w = atomic as nat / unit;
    let f = atomic as nat % unit;
    assert(w == atomic as nat / 100_000_000nat && f == atomic as nat % 100_000_000nat);
    let whole = decimal(w);
    let s = drk_text(atomic as nat);
    lemma_decimal(w);
    assert(is_digit(whole[0]));
    if f == 0 {
        assert(s =~= whole + Seq::<char>::empty());
        lemma_point(whole, Seq::empty());
        assert(whole_part(s) =~= whole);
        assert(fraction_part(s) =~= Seq::<char>::empty());
        assert(whole_part(s) + fraction_part(s) =~= whole);
        lemma_atoms(whole, Seq::empty());
        assert(whole + Seq::<char>::empty() =~= whole);
        assert(numeral_atoms(s) == w * pow10(8));
        assert(w * pow10(8) == w * 100_000_000);
        assert(is_digit(whole[whole.len() - 1]));
    } else {
        let p = padded(f, 8);
        lemma_padded(f, 8);
        let t = without_trailing(p, '0');
        lemma_without_zeros(p);
        let tail = seq!['.'] + t;
        assert(s =~= whole + tail);
        lemma_point(whole, tail);
        assert(whole_part(s) =~= whole);
        assert(fraction_part(s) =~= t);
        lemma_atoms(whole, t);
        lemma_digits_concat(whole, t);
        let rest = (8 - t.len()) as nat;
        lemma_pow10_sum(t.len(), rest);
        assert(t.len() + rest == 8);
        let (a, b) = (pow10(t.len()), pow10(rest));
        assert(digits_value(t) * b == f);
        assert(w * (a * b) == w * 100_000_000);
        assert((w * a + digits_value(t)) * b == w * (a * b) + digits_value(t) * b)
            by (nonlinear_arith);
        assert(whole_part(s) + fraction_part(s) =~= whole + t);
        assert(numeral_atoms(s) == (w * a + digits_value(t)) * b);
        assert(s[s.len() - 1] == t[t.len() - 1]);
        assert(is_digit(t[t.len() - 1]));
    }
    assert(s[0] == whole[0]);
    assert(trim_left(s) == s);
}

/// Rounding is upwards and by less than one atomic unit.
pub proof fn law_rounds_up(s: Seq<char>)
    requires
        is_numeral(s),
    ensures
        ({
            let written = digits_value(whole_part(s) + fraction_part(s)) * pow10(
                DRK_DECIMALS as nat,
            );
            let unit = pow10(fraction_part(s).len());
            written <= numeral_atoms(s) * unit < written + unit
        }),
{
    let written = digits_value(whole_part(s) + fraction_part(s)) * pow10(DRK_DECIMALS as nat);
    let unit = pow10(fraction_part(s).len());
    lemma_pow10_positive(fraction_part(s).len());
    let (q, r) = (written / unit, written % unit);
    assert(written == unit * q + r && 0 <= r < unit) by (nonlinear_arith)
        requires
            unit > 0,
            q == written / unit,
            r == written % unit,
    ;
    assert(unit * q == q * unit) by (nonlinear_arith);
    assert((q + 1) * unit == q * unit + unit) by (nonlinear_arith);
}

// ---- What numerals promise ----

/// The powers of ten, and the atomic units of one DRK.
pub proof fn law_powers_of_ten(n: nat)
    ensures
        pow10(n) == vstd::arithmetic::power::pow(10, n),
        pow10(8) == 100_000_000,
        ATOMS_PER_DRK == 100_000_000,
        DRK_DECIMALS == 8,
    decreases n,
{
    reveal(vstd::arithmetic::power::pow);
    lemma_pow10_values();
    if n > 0 {
        law_powers_of_ten((n - 1) as nat);
    }
}

/// Each further digit makes the number tenfold and adds its value.
pub proof fn law_value_of_digits(s: Seq<char>, c: char)
    ensures
        digits_value(Seq::empty()) == 0,
        '0' <= c <= '9' ==> digits_value(s.push(c)) == 10 * digits_value(s) + (c as u32 - '0' as u32),
        is_digit(c) <==> '0' <= c <= '9',
        all_digits(s) <==> forall|i: int| 0 <= i < s.len() ==> '0' <= #[trigger] s[i] <= '9',
{
    assert(s.push(c).drop_last() =~= s);
}

/// The parts of a numeral are what stands before and behind its first point.
pub proof fn law_parts_of_a_numeral(s: Seq<char>)
    ensures
        !whole_part(s).contains('.'),
        s.contains('.') ==> s == whole_part(s) + seq!['.'] + fraction_part(s),
        !s.contains('.') ==> whole_part(s) == s && fraction_part(s).len() == 0,
{
    lemma_first_point(s);
    let k = point_position(s);
    if s.contains('.') {
        let j = choose|j: int| 0 <= j < s.len() && s[j] == '.';
        assert(k < s.len());
        assert(s =~= whole_part(s) + seq!['.'] + fraction_part(s));
    } else {
        if k < s.len() {
            assert(s[k] == '.');
        }
        assert(whole_part(s) =~= s);
    }
}

proof fn lemma_first_point(s: Seq<char>)
    ensures
        0 <= point_position(s) <= s.len(),
        forall|i: int| 0 <= i < point_position(s) ==> #[trigger] s[i] != '.',
        point_position(s) < s.len() ==> s[point_position(s)] == '.',
    decreases s.len(),
{
    if s.len() > 0 && s[0] != '.' {
        let t = s.skip(1);
        lemma_first_point(t);
        assert forall|i: int| 0 <= i < point_position(s) implies #[trigger] s[i] != '.' by {
            if i > 0 {
                assert(t[i - 1] == s[i]);
            }
        }
        if point_position(s) < s.len() {
            assert(t[point_position(t)] == s[point_position(s)]);
        }
    }
}

/// A text is a numeral exactly where its characters are digits, but for one point at most.
pub proof fn law_numerals(s: Seq<char>)
    ensures
        is_numeral(s) <==> (forall|i: int|
            0 <= i < whole_part(s).len() ==> '0' <= #[trigger] whole_part(s)[i] <= '9') && (forall|
            i: int,
        |
            0 <= i < fraction_part(s).len() ==> '0' <= #[trigger] fraction_part(s)[i] <= '9'),
{
}

/// A numeral of at most eight decimals stands for its whole part in DRK and its fraction in
/// atomic units, without rounding; with more decimals it is rounded up to the next unit.
pub proof fn law_value_of_a_numeral(s: Seq<char>)
    requires
        is_numeral(s),
    ensures
        fraction_part(s).len() <= 8 ==> numeral_atoms(s) == digits_value(whole_part(s))
            * 100_000_000 + digits_value(fraction_part(s)) * vstd::arithmetic::power::pow(
            10,
            (8 - fraction_part(s).len()) as nat,
        ),
        fraction_part(s).len() > 8 ==> numeral_atoms(s) == digits_value(whole_part(s)) * 100_000_000
            + digits_value(fraction_part(s).take(8)) + if forall|i: int|
            8 <= i < fraction_part(s).len() ==> #[trigger] fraction_part(s)[i] == '0' {
            0int
        } else {
            1
        },
{
    let (w, f) = (whole_part(s), fraction_part(s));
    lemma_atoms(w, f);
    lemma_pow10_values();
    if f.len() <= 8 {
        let rest = (8 - f.len()) as nat;
        law_powers_of_ten(rest);
        lemma_digits_concat(w, f);
        lemma_pow10_sum(f.len(), rest);
        let (a, b) = (pow10(f.len()), pow10(rest));
        let (x, y) = (digits_value(w), digits_value(f));
        assert((x * a + y) * b == x * (a * b) + y * b) by (nonlinear_arith);
        assert(f.len() + rest == 8);
        assert(x * (a * b) == x * 100_000_000);
    } else {
        let head = f.take(8);
        let tail = f.skip(8);
        lemma_digits_concat(w, head);
        let x = digits_value(w);
        assert(x * pow10(8) == x * 100_000_000);
        assert forall|i: int| 0 <= i < tail.len() implies is_digit(#[trigger] tail[i]) by {
            assert(is_digit(f[i + 8]));
        }
        lemma_digits_zero(tail);
        if digits_value(tail) == 0 {
            assert forall|i: int| 8 <= i < f.len() implies #[trigger] f[i] == '0' by {
                assert(tail[i - 8] == '0');
            }
        }
        if forall|i: int| 8 <= i < f.len() ==> #[trigger] f[i] == '0' {
            assert forall|i: int| 0 <= i < tail.len() implies tail[i] == '0' by {
                assert(f[i + 8] == '0');
            }
        }
    }
}

/// The numeral of a number reads back as the number, and so does a number written with a fixed
/// number of digits.
pub proof fn law_numerals_read_back(n: nat, width: nat)
    ensures
        all_digits(decimal(n)),
        digits_value(decimal(n)) == n,
        n < vstd::arithmetic::power::pow(10, width) ==> padded(n, width).len() == width
            && all_digits(padded(n, width)) && digits_value(padded(n, width)) == n,
{
    lemma_decimal(n);
    law_powers_of_ten(width);
    if n < pow10(width) {
        lemma_padded(n, width);
    }
}

/// An amount is written with a point exactly where it is no whole number of DRK, and then without
/// a zero at its end.
pub proof fn law_amounts_are_short(atomic: u64)
    ensures
        drk_text(atomic as nat).contains('.') <==> atomic % 100_000_000 != 0,
        atomic % 100_000_000 != 0 ==> drk_text(atomic as nat).last() != '0',
        atomic % 100_000_000 == 0 ==> drk_text(atomic as nat) == decimal(
            (atomic / 100_000_000) as nat,
        ),
{
    lemma_pow10_values();
    let w = atomic as nat / 100_000_000nat;
    let f = atomic as nat % 100_000_000nat;
    let s = drk_text(atomic as nat);
    lemma_decimal(w);
    if f == 0 {
        assert(s == decimal(w));
        if s.contains('.') {
            let i = choose|i: int| 0 <= i < s.len() && s[i] == '.';
            assert(is_digit(s[i]));
        }
    } else {
        let t = without_trailing(padded(f, 8), '0');
        lemma_padded(f, 8);
        lemma_without_zeros(padded(f, 8));
        let _ = crate::text::law_stripping(padded(f, 8), '0');
        assert(s == decimal(w).push('.') + t);
        assert(s[decimal(w).len() as int] == '.');
        assert(s.last() == t.last());
    }
}

/// A signed amount is written with a sign where it is negative, its whole DRK, a point, and all
/// eight decimals.
pub proof fn law_fixed_amounts(value: int)
    requires
        0 <= value,
    ensures
        value > 0 ==> fixed_text(-value) == seq!['-'] + fixed_text(value),
        ({
            let s = fixed_text(value);
            let n = s.len() - 9;
            &&& n > 0
            &&& s[n] == '.'
            &&& all_digits(s.take(n))
            &&& all_digits(s.skip(n + 1))
            &&& digits_value(s.take(n)) == value / 100_000_000
            &&& digits_value(s.skip(n + 1)) == value % 100_000_000
        }),
{
    lemma_pow10_values();
    let w = (value / 100_000_000) as nat;
    let f = (value % 100_000_000) as nat;
    lemma_decimal(w);
    lemma_padded(f, 8);
    let s = fixed_text(value);
    let n = s.len() - 9;
    assert(s == decimal(w).push('.') + padded(f, 8));
    assert(s.take(n) =~= decimal(w));
    assert(s.skip(n + 1) =~= padded(f, 8));
}

} // verus!

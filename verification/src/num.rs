//! Decimal representations: printing integers as digit strings,
//! parsing digit strings and decimal fractions into fixed-point
//! micro-units (millionths), and rounding.
//!
//! The display layer prints metric values with at most two decimal
//! places; the query layer re-parses such strings. All values are kept
//! as integers: a decimal string is read as a whole number of
//! micro-units, truncating digits beyond the sixth fractional place
//! and saturating at `u64::MAX` micro-units.

use vstd::prelude::*;

use crate::text::first_index;
use crate::text::find_char;
use crate::text::lemma_first_index_props;
use crate::text::push_char;
use vstd::string::StrSliceExecFns;

verus! {

/// One million: micro-units per whole unit.
pub const MICRO: u64 = 1_000_000;

/// The character for one decimal digit.
pub open spec fn digit_char(d: int) -> char
    recommends
        0 <= d < 10,
{
    ((d + 48) as u8) as char
}

/// The decimal representation of a non-negative integer, most
/// significant digit first, with no leading zeros (a single `'0'` for
/// zero).
pub open spec fn dec_rep(n: int) -> Seq<char>
    recommends
        n >= 0,
    decreases n,
{
    if n < 10 {
        seq![digit_char(n)]
    } else {
        dec_rep(n / 10).push(digit_char(n % 10))
    }
}

/// The representation of a possibly negative 32-bit value: a minus
/// sign followed by the magnitude's digits.
pub open spec fn int_rep(n: int) -> Seq<char> {
    if n >= 0 {
        dec_rep(n)
    } else {
        seq!['-'] + dec_rep(-n)
    }
}

/// Two-digit zero-padded representation of `n`, falling back to the
/// plain representation when `n` has more than two digits.
pub open spec fn pad2_rep(n: int) -> Seq<char>
    recommends
        n >= 0,
{
    if n < 10 {
        seq!['0', digit_char(n)]
    } else {
        dec_rep(n)
    }
}

/// The representation of `h` hundredths as a number with exactly two
/// decimal places, e.g. 150 as `1.50`.
pub open spec fn two_dec_rep(h: int) -> Seq<char>
    recommends
        h >= 0,
{
    dec_rep(h / 100) + seq!['.', digit_char((h / 10) % 10), digit_char(h % 10)]
}

/// `n / d` rounded to the nearest integer, halves rounding up.
pub open spec fn rhu(n: int, d: int) -> int
    recommends
        n >= 0,
        d > 0,
{
    (2 * n + d) / (2 * d)
}

pub open spec fn is_digit(c: char) -> bool {
    48 <= c as int <= 57
}

pub open spec fn digit_val(c: char) -> int
    recommends
        is_digit(c),
{
    c as int - 48
}

pub open spec fn all_digits(s: Seq<char>) -> bool {
    forall|i: int| 0 <= i < s.len() ==> is_digit(#[trigger] s[i])
}

/// The numeric value of a digit string, most significant digit first.
pub open spec fn digits_val(s: Seq<char>) -> int
    recommends
        all_digits(s),
    decreases s.len(),
{
    if s.len() == 0 {
        0
    } else {
        digits_val(s.drop_last()) * 10 + digit_val(s.last())
    }
}

pub proof fn lemma_digits_val_nonneg(s: Seq<char>)
    requires
        all_digits(s),
    ensures
        digits_val(s) >= 0,
    decreases s.len(),
{
    if s.len() > 0 {
        assert(all_digits(s.drop_last()));
        lemma_digits_val_nonneg(s.drop_last());
    }
}

/// Extending a digit prefix by one digit multiplies its value by ten
/// and adds that digit.
pub proof fn lemma_digits_val_take_succ(s: Seq<char>, i: int)
    requires
        0 <= i < s.len(),
    ensures
        digits_val(s.take(i + 1)) == digits_val(s.take(i)) * 10 + digit_val(s[i]),
{
    assert(s.take(i + 1).drop_last() =~= s.take(i));
    assert(s.take(i + 1).last() == s[i]);
}

/// The value of a digit string never shrinks as the prefix grows.
pub proof fn lemma_digits_val_take_grows(s: Seq<char>, i: int, j: int)
    requires
        0 <= i <= j <= s.len(),
        all_digits(s.take(j)),
    ensures
        digits_val(s.take(i)) <= digits_val(s.take(j)),
    decreases j - i,
{
    if i < j {
        assert(all_digits(s.take(j - 1))) by {
            assert(forall|q: int|
                0 <= q < j - 1 ==> s.take(j - 1)[q] == #[trigger] s.take(j)[q]);
        }
        lemma_digits_val_take_grows(s, i, j - 1);
        lemma_digits_val_take_succ(s, j - 1);
        lemma_digits_val_nonneg(s.take(j - 1));
        assert(is_digit(s.take(j)[j - 1]));
    }
}

fn digit_of(d: u8) -> (c: char)
    requires
        d < 10,
    ensures
        c == digit_char(d as int),
{
    (48 + d) as char
}

/// Whether `c` is a decimal digit.
pub fn is_digit_char(c: char) -> (r: bool)
    ensures
        r == is_digit(c),
{
    let u = c as u32;
    48 <= u && u <= 57
}

pub fn digit_value(c: char) -> (d: u8)
    requires
        is_digit(c),
    ensures
        d as int == digit_val(c),
{
    (c as u32 - 48) as u8
}

/// Appends the decimal representation of `n` to `out`.
pub fn push_dec_u128(n: u128, out: &mut String)
    ensures
        final(out)@ == old(out)@ + dec_rep(n as int),
    decreases n,
{
    if n >= 10 {
        push_dec_u128(n / 10, out);
    }
    push_char(out, digit_of((n % 10) as u8));
    proof {
        assert(out@ =~= old(out)@ + dec_rep(n as int));
    }
}

/// Appends the representation of a signed 32-bit value to `out`.
pub fn push_dec_i32(n: i32, out: &mut String)
    ensures
        final(out)@ == old(out)@ + int_rep(n as int),
{
    if n >= 0 {
        push_dec_u128(n as u128, out);
    } else {
        push_char(out, '-');
        let m: u128 = (-(n as i64)) as u128;
        push_dec_u128(m, out);
        proof {
            assert(out@ =~= old(out)@ + int_rep(n as int));
        }
    }
}

/// Appends the two-digit zero-padded representation of `n` to `out`.
pub fn push_pad2(n: u64, out: &mut String)
    ensures
        final(out)@ == old(out)@ + pad2_rep(n as int),
{
    if n < 10 {
        push_char(out, '0');
        push_char(out, digit_of(n as u8));
        proof {
            assert(out@ =~= old(out)@ + pad2_rep(n as int));
        }
    } else {
        push_dec_u128(n as u128, out);
    }
}

/// Appends the two-decimal-place representation of `h` hundredths to
/// `out`.
pub fn push_two_dec(h: u128, out: &mut String)
    ensures
        final(out)@ == old(out)@ + two_dec_rep(h as int),
{
    push_dec_u128(h / 100, out);
    push_char(out, '.');
    push_char(out, digit_of(((h / 10) % 10) as u8));
    push_char(out, digit_of((h % 10) as u8));
    proof {
        assert(out@ =~= old(out)@ + two_dec_rep(h as int));
    }
}

/// `n / d` rounded to the nearest integer, halves up.
pub fn div_round_half_up(n: u128, d: u128) -> (r: u128)
    requires
        0 < d,
        n <= u128::MAX / 4,
        d <= u128::MAX / 4,
    ensures
        r as int == rhu(n as int, d as int),
{
    (2 * n + d) / (2 * d)
}

pub open spec fn pow10(k: int) -> int
    decreases k,
{
    if k <= 0 {
        1
    } else {
        10 * pow10(k - 1)
    }
}

/// A digit string's value is below ten to the power of its length.
pub proof fn lemma_digits_val_bound(s: Seq<char>)
    requires
        all_digits(s),
    ensures
        0 <= digits_val(s) < pow10(s.len() as int),
    decreases s.len(),
{
    if s.len() > 0 {
        assert(all_digits(s.drop_last()));
        lemma_digits_val_bound(s.drop_last());
    }
}

/// Whether `s` is a plain decimal numeral: digits with at most one
/// decimal point and at least one digit overall.
pub open spec fn is_dec(s: Seq<char>) -> bool {
    let p = first_index(s, '.');
    if p == s.len() {
        s.len() > 0 && all_digits(s)
    } else {
        s.len() > 1 && all_digits(s.take(p)) && all_digits(s.skip(p + 1))
    }
}

/// The value of a fractional digit string in micro-units: the first
/// six fractional digits, scaled; shorter fractions are padded with
/// zeros.
pub open spec fn frac_micro(fr: Seq<char>) -> int {
    if fr.len() >= 6 {
        digits_val(fr.take(6))
    } else {
        digits_val(fr) * pow10(6 - fr.len())
    }
}

/// The value of a decimal numeral in micro-units, truncating
/// fractional digits beyond the sixth.
pub open spec fn dec_micro(s: Seq<char>) -> int
    recommends
        is_dec(s),
{
    let p = first_index(s, '.');
    if p == s.len() {
        digits_val(s) * 1000000
    } else {
        digits_val(s.take(p)) * 1000000 + frac_micro(s.skip(p + 1))
    }
}

/// The micro-unit value of a decimal numeral, saturated at
/// `u64::MAX`: the value every numeric comparison in the query layer
/// works with.
pub open spec fn dec_micro_clamped(s: Seq<char>) -> int {
    if dec_micro(s) <= u64::MAX {
        dec_micro(s)
    } else {
        u64::MAX as int
    }
}

/// Parses a non-empty all-digit string into a 64-bit value; anything
/// else, including a value beyond `u64::MAX`, yields `None`.
pub fn parse_u64(s: &str) -> (r: Option<u64>)
    ensures
        match r {
            Some(v) => s@.len() > 0 && all_digits(s@) && v as int == digits_val(s@),
            None => !(s@.len() > 0 && all_digits(s@) && digits_val(s@) <= u64::MAX),
        },
{
    let n = s.unicode_len();
    if n == 0 {
        return None;
    }
    let mut acc: u64 = 0;
    let mut i: usize = 0;
    while i < n
        invariant
            i <= n,
            n == s@.len(),
            all_digits(s@.take(i as int)),
            acc as int == digits_val(s@.take(i as int)),
        decreases n - i,
    {
        let c = s.get_char(i);
        if !is_digit_char(c) {
            assert(!all_digits(s@));
            return None;
        }
        let d = digit_value(c);
        proof {
            lemma_digits_val_take_succ(s@, i as int);
            assert(s@.take(i as int + 1) =~= s@.take(i as int).push(s@[i as int]));
        }
        if acc > (u64::MAX - d as u64) / 10 {
            proof {
                assert(acc * 10 + d > u64::MAX) by (nonlinear_arith)
                    requires
                        acc > (u64::MAX - d as u64) / 10,
                        d < 10,
                ;
                if s@.len() > 0 && all_digits(s@) {
                    lemma_digits_val_take_grows(s@, i as int + 1, n as int);
                    assert(s@.take(n as int) =~= s@);
                }
            }
            return None;
        }
        assert(acc * 10 + d <= u64::MAX) by (nonlinear_arith)
            requires
                acc <= (u64::MAX - d as u64) / 10,
                d < 10,
        ;
        acc = acc * 10 + d as u64;
        i += 1;
    }
    proof {
        assert(s@.take(n as int) =~= s@);
    }
    Some(acc)
}

/// Parses the digit run `s[from..to]`, reporting saturation instead
/// of failing when the value exceeds `u64::MAX`.
fn parse_digits_sat(s: &str, from: usize, to: usize) -> (r: Option<(u64, bool)>)
    requires
        from <= to <= s@.len(),
    ensures
        match r {
            Some(p) => {
                &&& all_digits(s@.subrange(from as int, to as int))
                &&& p.1 ==> digits_val(s@.subrange(from as int, to as int)) > u64::MAX
                &&& !p.1 ==> p.0 as int == digits_val(s@.subrange(from as int, to as int))
                    && digits_val(s@.subrange(from as int, to as int)) <= u64::MAX
            },
            None => !all_digits(s@.subrange(from as int, to as int)),
        },
{
    let ghost sub = s@.subrange(from as int, to as int);
    let mut acc: u64 = 0;
    let mut sat: bool = false;
    let mut i: usize = from;
    while i < to
        invariant
            from <= i <= to <= s@.len(),
            sub == s@.subrange(from as int, to as int),
            all_digits(sub.take(i - from)),
            !sat ==> acc as int == digits_val(sub.take(i - from)),
            sat ==> digits_val(sub.take(i - from)) > u64::MAX,
        decreases to - i,
    {
        let c = s.get_char(i);
        proof {
            assert(sub[i - from] == s@[i as int]);
        }
        if !is_digit_char(c) {
            assert(!all_digits(sub));
            return None;
        }
        let d = digit_value(c);
        proof {
            lemma_digits_val_take_succ(sub, i - from);
            assert(sub.take(i - from + 1) =~= sub.take(i - from).push(sub[i - from]));
        }
        if sat {
            proof {
                lemma_digits_val_take_grows(sub, i - from, i - from + 1);
            }
        } else if acc > (u64::MAX - d as u64) / 10 {
            proof {
                assert(acc * 10 + d > u64::MAX) by (nonlinear_arith)
                    requires
                        acc > (u64::MAX - d as u64) / 10,
                        d < 10,
                ;
            }
            sat = true;
        } else {
            assert(acc * 10 + d <= u64::MAX) by (nonlinear_arith)
                requires
                    acc <= (u64::MAX - d as u64) / 10,
                    d < 10,
            ;
            acc = acc * 10 + d as u64;
        }
        i += 1;
    }
    proof {
        assert(sub.take(to - from) =~= sub);
    }
    Some((acc, sat))
}

/// Whether every character of `s[from..to]` is a decimal digit.
fn all_digits_range(s: &str, from: usize, to: usize) -> (r: bool)
    requires
        from <= to <= s@.len(),
    ensures
        r == all_digits(s@.subrange(from as int, to as int)),
{
    let ghost sub = s@.subrange(from as int, to as int);
    let mut i: usize = from;
    while i < to
        invariant
            from <= i <= to <= s@.len(),
            sub == s@.subrange(from as int, to as int),
            all_digits(sub.take(i - from)),
        decreases to - i,
    {
        let c = s.get_char(i);
        proof {
            assert(sub[i - from] == s@[i as int]);
        }
        if !is_digit_char(c) {
            assert(!all_digits(sub));
            return false;
        }
        proof {
            assert(sub.take(i - from + 1) =~= sub.take(i - from).push(sub[i - from]));
        }
        i += 1;
    }
    proof {
        assert(sub.take(to - from) =~= sub);
    }
    true
}

/// Parses a decimal numeral into saturated micro-units: `Some` with
/// `dec_micro_clamped` of the input exactly when the input satisfies
/// the `is_dec` grammar.
pub fn parse_dec_micro(s: &str) -> (r: Option<u64>)
    ensures
        match r {
            Some(v) => is_dec(s@) && v as int == dec_micro_clamped(s@),
            None => !is_dec(s@),
        },
{
    let n = s.unicode_len();
    if n == 0 {
        return None;
    }
    let p = find_char(s, '.');
    proof {
        lemma_first_index_props(s@, '.');
    }
    if p == n {
        // integer numeral
        match parse_digits_sat(s, 0, n) {
            None => {
                proof {
                    assert(s@.subrange(0, n as int) =~= s@);
                }
                None
            },
            Some((v, sat)) => {
                proof {
                    assert(s@.subrange(0, n as int) =~= s@);
                    lemma_digits_val_nonneg(s@);
                }
                if sat {
                    Some(u64::MAX)
                } else {
                    let t: u128 = v as u128 * 1_000_000;
                    if t > u64::MAX as u128 {
                        Some(u64::MAX)
                    } else {
                        Some(t as u64)
                    }
                }
            },
        }
    } else {
        // `p` is the first decimal point
        if n == 1 {
            // the input is just "."
            return None;
        }
        let ghost intpart = s@.take(p as int);
        let ghost fracpart = s@.skip(p as int + 1);
        let ri = match parse_digits_sat(s, 0, p) {
            None => {
                proof {
                    assert(s@.subrange(0, p as int) =~= intpart);
                }
                return None;
            },
            Some(x) => x,
        };
        proof {
            assert(s@.subrange(0, p as int) =~= intpart);
        }
        // the first six fractional digits carry value
        let avail: usize = n - (p + 1);
        let k: usize = if avail < 6 {
            avail
        } else {
            6
        };
        let rf = match parse_digits_sat(s, p + 1, p + 1 + k) {
            None => {
                proof {
                    assert(s@.subrange(p as int + 1, p as int + 1 + k as int)
                        =~= fracpart.take(k as int));
                    assert(!all_digits(fracpart)) by {
                        let q = choose|q: int|
                            0 <= q < k && !is_digit(#[trigger] fracpart.take(k as int)[q]);
                        assert(fracpart[q] == fracpart.take(k as int)[q]);
                    }
                }
                return None;
            },
            Some(x) => x,
        };
        proof {
            assert(s@.subrange(p as int + 1, p as int + 1 + k as int) =~= fracpart.take(k as int));
        }
        // the rest of the fraction must still be digits
        if !all_digits_range(s, p + 1 + k, n) {
            proof {
                assert(s@.subrange(p as int + 1 + k as int, n as int)
                    =~= fracpart.skip(k as int));
                assert(!all_digits(fracpart)) by {
                    let q = choose|q: int|
                        0 <= q < fracpart.skip(k as int).len()
                            && !is_digit(#[trigger] fracpart.skip(k as int)[q]);
                    assert(fracpart[q + k] == fracpart.skip(k as int)[q]);
                }
            }
            return None;
        }
        proof {
            assert(s@.subrange(p as int + 1 + k as int, n as int) =~= fracpart.skip(k as int));
            assert(all_digits(fracpart)) by {
                assert forall|q: int| 0 <= q < fracpart.len() implies is_digit(
                    #[trigger] fracpart[q],
                ) by {
                    if q < k {
                        assert(fracpart.take(k as int)[q] == fracpart[q]);
                    } else {
                        assert(fracpart.skip(k as int)[q - k] == fracpart[q]);
                    }
                }
            }
            assert(is_dec(s@));
        }
        // scale a short fraction up to six places
        let mut scale: u64 = 1;
        let mut j: usize = k;
        while j < 6
            invariant
                k <= j <= 6,
                k <= 6,
                scale as int == pow10(j - k),
            decreases 6 - j,
        {
            proof {
                lemma_pow10_units();
                lemma_pow10_monotone(j - k, 5);
            }
            scale = scale * 10;
            j += 1;
        }
        let (vi, sat_i) = ri;
        let (vf, sat_f) = rf;
        proof {
            lemma_pow10_units();
            // the truncated fraction has at most six digits, so it is small
            lemma_digits_val_bound(fracpart.take(k as int));
            lemma_pow10_monotone(k as int, 6);
            assert(!sat_f);
            lemma_pow10_mul(k as int, 6 - k as int);
            assert((vf as int) * (scale as int) < pow10(6)) by (nonlinear_arith)
                requires
                    0 <= vf as int,
                    (vf as int) < pow10(k as int),
                    scale as int == pow10(6 - k as int),
                    pow10(6 - k as int) > 0,
                    pow10(k as int) * pow10(6 - k as int) == pow10(6),
            ;
            assert(vf as int * scale as int >= 0) by (nonlinear_arith)
                requires
                    0 <= vf as int,
                    scale as int > 0,
            ;
            assert(frac_micro(fracpart) == vf as int * scale as int) by {
                if fracpart.len() >= 6 {
                    assert(k == 6);
                    assert(fracpart.take(k as int) =~= fracpart.take(6));
                    assert(scale as int == pow10(0));
                }
            }
            lemma_digits_val_nonneg(intpart);
        }
        if sat_i {
            proof {
                // an oversized whole part keeps the total beyond the clamp
                assert(digits_val(intpart) * 1000000 > u64::MAX as int * 1000000)
                    by (nonlinear_arith)
                    requires
                        digits_val(intpart) > u64::MAX,
                ;
            }
            Some(u64::MAX)
        } else {
            let t: u128 = vi as u128 * 1_000_000 + (vf as u128) * (scale as u128);
            proof {
                assert(t as int == dec_micro(s@));
            }
            if t > u64::MAX as u128 {
                Some(u64::MAX)
            } else {
                Some(t as u64)
            }
        }
    }
}

/// A digit's character is a digit character and reads back as that
/// digit.
pub proof fn lemma_digit_char_val(d: int)
    requires
        0 <= d < 10,
    ensures
        is_digit(digit_char(d)),
        digit_val(digit_char(d)) == d,
{
    assert((d + 48) as u8 == d + 48);
    assert(((((d + 48) as u8) as char) as int) == d + 48);
}

/// The decimal representation of a value is all digits and reads
/// back as that value.
pub proof fn lemma_dec_rep_digits(n: int)
    requires
        n >= 0,
    ensures
        all_digits(dec_rep(n)),
        digits_val(dec_rep(n)) == n,
        dec_rep(n).len() >= 1,
    decreases n,
{
    if n < 10 {
        lemma_digit_char_val(n);
        assert(dec_rep(n) == seq![digit_char(n)]);
        assert(dec_rep(n).drop_last() =~= Seq::<char>::empty());
        assert(digits_val(Seq::<char>::empty()) == 0);
        assert(digits_val(dec_rep(n)) == digits_val(dec_rep(n).drop_last()) * 10 + digit_val(
            dec_rep(n).last(),
        ));
    } else {
        lemma_dec_rep_digits(n / 10);
        lemma_digit_char_val(n % 10);
        assert(dec_rep(n) == dec_rep(n / 10).push(digit_char(n % 10)));
        assert(dec_rep(n).drop_last() =~= dec_rep(n / 10));
        assert forall|i: int| 0 <= i < dec_rep(n).len() implies is_digit(
            #[trigger] dec_rep(n)[i],
        ) by {
            if i < dec_rep(n / 10).len() {
                assert(dec_rep(n)[i] == dec_rep(n / 10)[i]);
            }
        }
    }
}

/// Zero padding does not change the digits' value.
pub proof fn lemma_pad2_digits(n: int)
    requires
        n >= 0,
    ensures
        all_digits(pad2_rep(n)),
        digits_val(pad2_rep(n)) == n,
        pad2_rep(n).len() >= 1,
{
    lemma_dec_rep_digits(n);
    if n < 10 {
        lemma_digit_char_val(n);
        let p = pad2_rep(n);
        assert(p.drop_last() =~= seq!['0']);
        assert(seq!['0'].drop_last() =~= Seq::<char>::empty());
        assert(digits_val(Seq::<char>::empty()) == 0);
        assert(digit_val('0') == 0);
        assert(digits_val(seq!['0']) == 0);
        assert(digit_val(p.last()) == n);
        assert(digits_val(p) == digits_val(p.drop_last()) * 10 + digit_val(p.last()));
    }
}

/// An all-digit string is a decimal numeral denoting its value in
/// whole units.
pub proof fn lemma_digits_is_dec(s: Seq<char>)
    requires
        s.len() > 0,
        all_digits(s),
    ensures
        is_dec(s),
        dec_micro(s) == digits_val(s) * 1000000,
{
    crate::text::lemma_first_index_at(s, '.', s.len() as int);
}

/// A two-decimal-place numeral reads back as exactly its hundredths:
/// the display precision loses nothing on re-parsing.
pub proof fn lemma_two_dec_round_trip(h: int)
    requires
        h >= 0,
    ensures
        is_dec(two_dec_rep(h)),
        dec_micro(two_dec_rep(h)) == h * 10000,
{
    let s = two_dec_rep(h);
    let ip = dec_rep(h / 100);
    lemma_dec_rep_digits(h / 100);
    let p = ip.len() as int;
    assert forall|k: int| 0 <= k < p implies s[k] != '.' by {
        assert(s[k] == ip[k]);
        assert(is_digit(ip[k]));
    }
    assert(s[p] == '.');
    crate::text::lemma_first_index_at(s, '.', p);
    let fr = s.skip(p + 1);
    lemma_digit_char_val((h / 10) % 10);
    lemma_digit_char_val(h % 10);
    assert(fr =~= seq![digit_char((h / 10) % 10), digit_char(h % 10)]);
    assert(s.take(p) =~= ip);
    assert forall|k: int| 0 <= k < fr.len() implies is_digit(#[trigger] fr[k]) by {
        assert(fr[0] == digit_char((h / 10) % 10));
        assert(fr[1] == digit_char(h % 10));
    }
    assert(digits_val(fr) == ((h / 10) % 10) * 10 + h % 10) by {
        assert(fr.drop_last() =~= seq![digit_char((h / 10) % 10)]);
        assert(seq![digit_char((h / 10) % 10)].drop_last() =~= Seq::<char>::empty());
        assert(digits_val(Seq::<char>::empty()) == 0);
        assert(digits_val(seq![digit_char((h / 10) % 10)]) == digit_val(
            digit_char((h / 10) % 10),
        ));
        assert(digits_val(fr) == digits_val(fr.drop_last()) * 10 + digit_val(fr.last()));
    }
    assert(((h / 10) % 10) * 10 + h % 10 == h % 100) by (nonlinear_arith)
        requires
            h >= 0,
    ;
    assert(frac_micro(fr) == (h % 100) * pow10(4));
    lemma_pow10_units();
    assert(dec_micro(s) == (h / 100) * 1000000 + (h % 100) * 10000);
    assert((h / 100) * 100 + h % 100 == h) by (nonlinear_arith)
        requires
            h >= 0,
    ;
    assert((h / 100) * 1000000 + (h % 100) * 10000 == ((h / 100) * 100 + h % 100) * 10000)
        by (nonlinear_arith);
}

/// How far rounding half up can sit from the true quotient: within
/// half a unit of the divisor.
pub proof fn lemma_rhu_accuracy(n: int, d: int)
    requires
        n >= 0,
        d > 0,
    ensures
        2 * d * rhu(n, d) - d <= 2 * n < 2 * d * rhu(n, d) + d,
        rhu(n, d) >= 0,
{
    let q = (2 * n + d) / (2 * d);
    vstd::arithmetic::div_mod::lemma_fundamental_div_mod(2 * n + d, 2 * d);
    let r = (2 * n + d) % (2 * d);
    vstd::arithmetic::div_mod::lemma_mod_bound(2 * n + d, 2 * d);
    assert(2 * n + d == 2 * d * q + r);
    assert(0 <= r < 2 * d);
    assert(q >= 0) by (nonlinear_arith)
        requires
            2 * n + d == 2 * d * q + r,
            0 <= r < 2 * d,
            n >= 0,
            d > 0,
    ;
}

/// Powers of ten multiply.
pub proof fn lemma_pow10_mul(a: int, b: int)
    requires
        a >= 0,
        b >= 0,
    ensures
        pow10(a) * pow10(b) == pow10(a + b),
    decreases b,
{
    if b > 0 {
        lemma_pow10_mul(a, b - 1);
        assert(pow10(a) * pow10(b) == pow10(a) * (10 * pow10(b - 1))) by (nonlinear_arith)
            requires
                pow10(b) == 10 * pow10(b - 1),
        ;
        assert(pow10(a) * (10 * pow10(b - 1)) == 10 * (pow10(a) * pow10(b - 1)))
            by (nonlinear_arith);
    }
}

/// Powers of ten are positive.
pub proof fn lemma_pow10_pos(a: int)
    ensures
        pow10(a) > 0,
    decreases a,
{
    if a > 0 {
        lemma_pow10_pos(a - 1);
    }
}

/// Powers of ten grow with the exponent.
pub proof fn lemma_pow10_monotone(a: int, b: int)
    requires
        0 <= a <= b,
    ensures
        0 < pow10(a) <= pow10(b),
    decreases b - a,
{
    if a < b {
        lemma_pow10_monotone(a, b - 1);
    } else {
        lemma_pow10_pos(a);
    }
}

/// The concrete small powers of ten the display precision uses.
pub proof fn lemma_pow10_units()
    ensures
        pow10(0) == 1,
        pow10(1) == 10,
        pow10(2) == 100,
        pow10(3) == 1000,
        pow10(4) == 10000,
        pow10(5) == 100000,
        pow10(6) == 1000000,
{
    assert(pow10(0) == 1);
    assert(pow10(1) == 10);
    assert(pow10(2) == 100);
    assert(pow10(3) == 1000);
    assert(pow10(4) == 10000);
    assert(pow10(5) == 100000);
    assert(pow10(6) == 1000000);
}

} // verus!

//! Cross-cutting laws of the display and query layers: filters fail
//! open, and every numeric column survives the round trip from value
//! to display string and back within the display precision.

use vstd::prelude::*;

use crate::fields::duration_rep;
use crate::num::lemma_digits_is_dec;
use crate::num::lemma_pad2_digits;
use crate::num::lemma_rhu_accuracy;
use crate::num::lemma_two_dec_round_trip;
use crate::num::pad2_rep;
use crate::num::rhu;
use crate::num::two_dec_rep;
use crate::query::filter_matches;
use crate::query::numeric_col_index;
use crate::query::plain_micro;
use crate::query::spec_duration_secs_micro;
use crate::query::spec_parse_bitrate;
use crate::query::spec_should_include;
use crate::query::tokens;
use crate::text::lemma_split_no_sep;
use crate::text::lemma_split_prepend;
use crate::text::split_seq;

verus! {

/// A filter the engine understands: `filename:<substring>`, or
/// `<column>:<op>:<value>` with a known numeric column and operator.
pub open spec fn filter_well_formed(filter: Seq<char>) -> bool {
    let parts = split_seq(filter, ':');
    (parts.len() == 2 && parts[0] == "filename"@) || (parts.len() == 3 && numeric_col_index(
        parts[0],
    ) is Some && (parts[1] == ">"@ || parts[1] == "<"@))
}

/// Law: fail open — a filter of any other shape (wrong token count,
/// unknown column, unknown operator) retains every row.
pub proof fn lemma_filter_fail_open(cells: Seq<Seq<char>>, filter: Seq<char>)
    requires
        !filter_well_formed(filter),
    ensures
        filter_matches(cells, filter),
{
}

/// Law: adding a malformed filter never removes a row that the
/// remaining filters would include.
pub proof fn lemma_fail_open_preserves_inclusion(
    cells: Seq<Seq<char>>,
    filters: Seq<Seq<char>>,
    bad: Seq<char>,
)
    requires
        !filter_well_formed(bad),
    ensures
        spec_should_include(cells, filters.push(bad)) == spec_should_include(cells, filters),
{
    let all = filters.push(bad);
    lemma_filter_fail_open(cells, bad);
    if spec_should_include(cells, filters) {
        assert forall|i: int| 0 <= i < all.len() implies filter_matches(
            cells,
            #[trigger] all[i],
        ) by {
            if i < filters.len() {
                assert(all[i] == filters[i]);
            } else {
                assert(all[i] == bad);
            }
        }
    }
    if spec_should_include(cells, all) {
        assert forall|i: int| 0 <= i < filters.len() implies filter_matches(
            cells,
            #[trigger] filters[i],
        ) by {
            assert(all[i] == filters[i]);
        }
    }
}

proof fn lemma_pad2_no_colon(n: int)
    requires
        n >= 0,
    ensures
        forall|k: int| 0 <= k < pad2_rep(n).len() ==> pad2_rep(n)[k] != ':',
        forall|k: int| 0 <= k < pad2_rep(n).len() ==> pad2_rep(n)[k] != '.',
{
    lemma_pad2_digits(n);
    assert forall|k: int| 0 <= k < pad2_rep(n).len() implies pad2_rep(n)[k] != ':' && pad2_rep(
        n,
    )[k] != '.' by {
        assert(crate::num::is_digit(pad2_rep(n)[k]));
    }
}

proof fn lemma_pad2_micro(n: int)
    requires
        0 <= n,
        n * 1000000 <= u64::MAX,
    ensures
        plain_micro(pad2_rep(n)) == n * 1000000,
{
    lemma_pad2_digits(n);
    lemma_digits_is_dec(pad2_rep(n));
}

/// Law: round trip for the duration column — rendering a whole
/// number of seconds and re-parsing the rendered string yields
/// exactly those seconds; the display loses nothing.
pub proof fn lemma_duration_round_trip(t: int)
    requires
        0 <= t,
        t * 1000000 <= u64::MAX,
    ensures
        spec_duration_secs_micro(duration_rep(t)) == t * 1000000,
{
    let h = t / 3600;
    let m = (t % 3600) / 60;
    let sec = t % 60;
    vstd::arithmetic::div_mod::lemma_fundamental_div_mod(t, 3600);
    vstd::arithmetic::div_mod::lemma_fundamental_div_mod(t % 3600, 60);
    vstd::arithmetic::div_mod::lemma_mod_mod(t, 60, 60);
    assert((t % 3600) % 60 == t % 60) by {
        assert(60int * 60 == 3600);
        assert((t % (60int * 60)) % 60 == t % 60);
    }
    assert(t == h * 3600 + m * 60 + sec);
    lemma_pad2_no_colon(h);
    lemma_pad2_no_colon(m);
    lemma_pad2_no_colon(sec);
    lemma_pad2_no_colon(t / 60);
    lemma_pad2_no_colon(t % 60);
    if h > 0 {
        let s = duration_rep(t);
        let tail = pad2_rep(m) + seq![':'] + pad2_rep(sec);
        assert(s =~= pad2_rep(h) + seq![':'] + tail);
        lemma_split_prepend(pad2_rep(h), tail, ':');
        lemma_split_prepend(pad2_rep(m), pad2_rep(sec), ':');
        lemma_split_no_sep(pad2_rep(sec), ':');
        let parts = split_seq(s, ':');
        assert(parts =~= seq![pad2_rep(h), pad2_rep(m), pad2_rep(sec)]);
        assert(h * 1000000 <= t * 1000000) by (nonlinear_arith)
            requires
                0 <= h,
                h <= t,
        ;
        lemma_pad2_micro(h);
        lemma_pad2_micro(m);
        lemma_pad2_micro(sec);
        assert((h * 1000000) * 3600 + (m * 1000000) * 60 + sec * 1000000 == t * 1000000)
            by (nonlinear_arith)
            requires
                t == h * 3600 + m * 60 + sec,
        ;
    } else {
        let s = duration_rep(t);
        assert(t < 3600);
        let m2 = t / 60;
        vstd::arithmetic::div_mod::lemma_fundamental_div_mod(t, 60);
        assert(s =~= pad2_rep(m2) + seq![':'] + pad2_rep(t % 60));
        lemma_split_prepend(pad2_rep(m2), pad2_rep(t % 60), ':');
        lemma_split_no_sep(pad2_rep(t % 60), ':');
        let parts = split_seq(s, ':');
        assert(parts =~= seq![pad2_rep(m2), pad2_rep(t % 60)]);
        lemma_pad2_micro(m2);
        lemma_pad2_micro(t % 60);
        assert((m2 * 1000000) * 60 + (t % 60) * 1000000 == t * 1000000) by (nonlinear_arith)
            requires
                t == m2 * 60 + t % 60,
        ;
    }
}

proof fn lemma_two_dec_no_space(h: int)
    requires
        h >= 0,
    ensures
        forall|k: int| 0 <= k < two_dec_rep(h).len() ==> two_dec_rep(h)[k] != ' ',
{
    crate::num::lemma_dec_rep_digits(h / 100);
    crate::num::lemma_digit_char_val((h / 10) % 10);
    crate::num::lemma_digit_char_val(h % 10);
    let s = two_dec_rep(h);
    let ip = crate::num::dec_rep(h / 100);
    assert forall|k: int| 0 <= k < s.len() implies s[k] != ' ' by {
        if k < ip.len() {
            assert(s[k] == ip[k]);
            assert(crate::num::is_digit(ip[k]));
        } else if k == ip.len() {
            assert(s[k] == '.');
        } else if k == ip.len() + 1 {
            assert(s[k] == crate::num::digit_char((h / 10) % 10));
        } else {
            assert(s[k] == crate::num::digit_char(h % 10));
        }
    }
}

/// The two display tokens of a `<number> <unit>` string.
proof fn lemma_value_unit_tokens(value: Seq<char>, unit: Seq<char>)
    requires
        value.len() > 0,
        unit.len() > 0,
        forall|k: int| 0 <= k < value.len() ==> value[k] != ' ',
        forall|k: int| 0 <= k < unit.len() ==> unit[k] != ' ',
    ensures
        tokens(value + seq![' '] + unit) == seq![value, unit],
{
    reveal(Seq::filter);
    lemma_split_prepend(value, unit, ' ');
    lemma_split_no_sep(unit, ' ');
    let parts = split_seq(value + seq![' '] + unit, ' ');
    assert(parts =~= seq![value, unit]);
    let pred = |t: Seq<char>| t.len() > 0;
    assert(seq![value, unit].drop_last() =~= seq![value]);
    assert(seq![value].drop_last() =~= Seq::<Seq<char>>::empty());
    assert(seq![value].filter(pred) =~= seq![value]);
    assert(seq![value, unit].filter(pred) =~= seq![value, unit]);
}

/// Law: round trip for the bitrate column — a rendered Mbps value
/// re-parses to exactly its displayed hundredths.
pub proof fn lemma_bitrate_round_trip(h: int)
    requires
        0 <= h,
        h * 10000 <= u64::MAX,
    ensures
        spec_parse_bitrate(two_dec_rep(h) + seq![' ', 'M', 'b', 'p', 's']) == Some(h * 10000),
{
    lemma_two_dec_round_trip(h);
    lemma_two_dec_no_space(h);
    crate::num::lemma_dec_rep_digits(h / 100);
    let unit = seq!['M', 'b', 'p', 's'];
    assert(two_dec_rep(h) + seq![' ', 'M', 'b', 'p', 's'] =~= two_dec_rep(h) + seq![' ']
        + unit);
    lemma_value_unit_tokens(two_dec_rep(h), unit);
}

/// The binary unit the size column displays a byte count in.
pub open spec fn size_unit(b: int) -> int {
    if b >= crate::fields::GB {
        crate::fields::GB as int
    } else if b >= crate::fields::MB {
        crate::fields::MB as int
    } else if b >= crate::fields::KB {
        crate::fields::KB as int
    } else {
        1
    }
}

proof fn lemma_scaled_size_bounds(b: int, u: int)
    requires
        0 < u <= b <= u64::MAX,
        rhu(b * 100, u) * 10000 <= u64::MAX,
    ensures
        crate::query::clamp_u64((rhu(b * 100, u) * 10000) * u / 1000000) <= b + u / 200 + 1,
        b - u / 200 - 1 <= crate::query::clamp_u64((rhu(b * 100, u) * 10000) * u / 1000000),
{
    let h = rhu(b * 100, u);
    lemma_rhu_accuracy(b * 100, u);
    let x = h * u;
    assert(x >= 0) by (nonlinear_arith)
        requires
            x == h * u,
            h >= 0,
            u > 0,
    ;
    let parsed0 = (h * 10000) * u / 1000000;
    assert((h * 10000) * u == x * 10000) by (nonlinear_arith)
        requires
            x == h * u,
    ;
    assert(x * 10000 / 1000000 == x / 100) by {
        vstd::arithmetic::div_mod::lemma_div_denominator(x * 10000, 10000, 100);
        assert(10000int * 100 == 1000000);
        assert(x * 10000 / (10000int * 100) == (x * 10000 / 10000) / 100);
        vstd::arithmetic::div_mod::lemma_div_multiples_vanish(x, 10000);
        assert(10000 * x == x * 10000);
    }
    assert(parsed0 == x / 100);
    // 2 * u * h is 2 * x
    assert(2 * u * h == 2 * x) by (nonlinear_arith)
        requires
            x == h * u,
    ;
    assert(2 * x - u <= 2 * (b * 100) < 2 * x + u);
    let p = x / 100;
    vstd::arithmetic::div_mod::lemma_fundamental_div_mod(x, 100);
    let r = x % 100;
    vstd::arithmetic::div_mod::lemma_mod_bound(x, 100);
    assert(x == 100 * p + r);
    vstd::arithmetic::div_mod::lemma_fundamental_div_mod(u, 200);
    vstd::arithmetic::div_mod::lemma_mod_bound(u, 200);
    assert(u == 200 * (u / 200) + u % 200);
    // upper bound: 200 * p <= 2 * x <= 200 * b + u
    assert(parsed0 <= b + u / 200 + 1);
    // lower bound: 200 * b < 2 * x + u <= 200 * p + 2 * r + u
    assert(b - u / 200 - 1 <= parsed0);
    if parsed0 > u64::MAX {
        assert(crate::query::clamp_u64(parsed0) == u64::MAX as int);
    }
}

/// Law: round trip for the size column — formatting a byte count and
/// re-parsing the display yields the count back to within half of
/// one displayed hundredth of its unit (and one byte of floor loss);
/// below one kilobyte the round trip is exact.
pub proof fn lemma_size_round_trip(b: u64)
    ensures
        crate::query::spec_parse_size(crate::fields::spec_format_size(crate::num::dec_rep(
            b as int,
        ))) <= b + size_unit(b as int) / 200 + 1,
        b - size_unit(b as int) / 200 - 1 <= crate::query::spec_parse_size(
            crate::fields::spec_format_size(crate::num::dec_rep(b as int)),
        ),
        (b as int) < crate::fields::KB ==> crate::query::spec_parse_size(
            crate::fields::spec_format_size(crate::num::dec_rep(b as int)),
        ) == b as int,
{
    reveal_strlit("GB");
    reveal_strlit("MB");
    reveal_strlit("KB");
    reveal_strlit("B");
    let s = crate::num::dec_rep(b as int);
    crate::num::lemma_dec_rep_digits(b as int);
    assert forall|k: int| 0 <= k < s.len() implies s[k] != ' ' by {
        assert(crate::num::is_digit(s[k]));
    }
    let gbu = crate::fields::GB as int;
    let mbu = crate::fields::MB as int;
    let kbu = crate::fields::KB as int;
    if b >= crate::fields::GB {
        let h = rhu(b as int * 100, gbu);
        assert(h * 10000 <= u64::MAX) by {
            lemma_rhu_accuracy(b as int * 100, gbu);
            assert(2 * gbu * h - gbu <= 2 * (b as int * 100));
            assert(h <= 0x200_0000_0000_0000) by (nonlinear_arith)
                requires
                    2 * gbu * h - gbu <= 2 * (b as int * 100),
                    b <= u64::MAX,
                    gbu == 0x40000000,
            ;
        }
        lemma_two_dec_round_trip(h);
        lemma_two_dec_no_space(h);
        crate::num::lemma_dec_rep_digits(h / 100);
        let unit = seq!['G', 'B'];
        assert(crate::fields::spec_format_size(s) =~= two_dec_rep(h) + seq![' '] + unit);
        lemma_value_unit_tokens(two_dec_rep(h), unit);
        assert(unit =~= "GB"@);
        lemma_scaled_size_bounds(b as int, gbu);
    } else if b >= crate::fields::MB {
        let h = rhu(b as int * 100, mbu);
        assert(h * 10000 <= u64::MAX) by {
            lemma_rhu_accuracy(b as int * 100, mbu);
            assert(h <= 0x200_0000_0000_0000) by (nonlinear_arith)
                requires
                    2 * mbu * h - mbu <= 2 * (b as int * 100),
                    (b as int) < 0x40000000,
                    mbu == 0x100000,
            ;
        }
        lemma_two_dec_round_trip(h);
        lemma_two_dec_no_space(h);
        crate::num::lemma_dec_rep_digits(h / 100);
        let unit = seq!['M', 'B'];
        assert(crate::fields::spec_format_size(s) =~= two_dec_rep(h) + seq![' '] + unit);
        lemma_value_unit_tokens(two_dec_rep(h), unit);
        assert(unit =~= "MB"@);
        assert(unit != "GB"@);
        lemma_scaled_size_bounds(b as int, mbu);
    } else if b >= crate::fields::KB {
        let h = rhu(b as int * 100, kbu);
        assert(h * 10000 <= u64::MAX) by {
            lemma_rhu_accuracy(b as int * 100, kbu);
            assert(h <= 0x200_0000_0000_0000) by (nonlinear_arith)
                requires
                    2 * kbu * h - kbu <= 2 * (b as int * 100),
                    (b as int) < 0x100000,
                    kbu == 0x400,
            ;
        }
        lemma_two_dec_round_trip(h);
        lemma_two_dec_no_space(h);
        crate::num::lemma_dec_rep_digits(h / 100);
        let unit = seq!['K', 'B'];
        assert(crate::fields::spec_format_size(s) =~= two_dec_rep(h) + seq![' '] + unit);
        lemma_value_unit_tokens(two_dec_rep(h), unit);
        assert(unit =~= "KB"@);
        assert(unit != "GB"@);
        assert(unit != "MB"@);
        lemma_scaled_size_bounds(b as int, kbu);
    } else {
        let unit = seq!['B'];
        assert(crate::fields::spec_format_size(s) =~= s + seq![' '] + unit);
        lemma_value_unit_tokens(s, unit);
        assert(unit =~= "B"@);
        assert(unit != "GB"@);
        assert(unit != "MB"@);
        assert(unit != "KB"@);
        lemma_digits_is_dec(s);
        assert(plain_micro(s) == b as int * 1000000);
        vstd::arithmetic::div_mod::lemma_div_multiples_vanish(b as int, 1000000);
        assert(1000000 * (b as int) == b as int * 1000000) by (nonlinear_arith);
    }
}

/// Law: round trip for the fps column — the rendered ratio re-parses
/// to exactly its displayed hundredths, and those hundredths sit
/// within half of one hundredth of the true ratio `n / d`.
pub proof fn lemma_fps_round_trip(n: int, d: int)
    requires
        0 <= n,
        0 < d,
        rhu(n * 100, d) * 10000 <= u64::MAX,
    ensures
        plain_micro(two_dec_rep(rhu(n * 100, d))) == rhu(n * 100, d) * 10000,
        2 * d * rhu(n * 100, d) - d <= 2 * (n * 100) < 2 * d * rhu(n * 100, d) + d,
{
    lemma_rhu_accuracy(n * 100, d);
    lemma_two_dec_round_trip(rhu(n * 100, d));
}

} // verus!

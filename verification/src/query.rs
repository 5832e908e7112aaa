//! The query engine's reverse parsers: display strings turned back
//! into comparable numeric magnitudes, in micro-units, exactly as the
//! filter and sort comparators consume them.

use vstd::prelude::*;

use crate::fields::GB;
use crate::fields::KB;
use crate::fields::MB;
use crate::num::dec_micro_clamped;
use crate::num::digit_val;
use crate::num::is_dec;
use crate::num::is_digit;
use crate::num::is_digit_char;
use crate::num::parse_dec_micro;
use crate::num::MICRO;
use crate::text::contains_str;
use crate::text::contains_sub;
use crate::text::lower_of;
use crate::text::lowercase;
use crate::text::split_seq;
use crate::text::split_str;
use crate::text::str_eq;
use vstd::string::StrSliceExecFns;

verus! {

/// An integer capped at the largest micro-unit count the engine
/// carries.
pub open spec fn clamp_u64(x: int) -> int {
    if x > u64::MAX {
        u64::MAX as int
    } else {
        x
    }
}

/// The whitespace-separated tokens of `s` (single spaces; the only
/// whitespace the display layer emits).
pub open spec fn tokens(s: Seq<char>) -> Seq<Seq<char>> {
    split_seq(s, ' ').filter(|t: Seq<char>| t.len() > 0)
}

/// The micro-unit value of a plain decimal string, zero when it does
/// not parse.
pub open spec fn plain_micro(s: Seq<char>) -> int {
    if is_dec(s) {
        dec_micro_clamped(s)
    } else {
        0
    }
}

fn tokens_of(s: &str) -> (r: Vec<String>)
    ensures
        r.deep_view() == tokens(s@),
{
    let ghost pred = |t: Seq<char>| t.len() > 0;
    let parts = split_str(s, ' ');
    let mut out: Vec<String> = Vec::new();
    proof {
        reveal(Seq::filter);
        assert(parts.deep_view().take(0) =~= Seq::<Seq<char>>::empty());
        assert(out.deep_view() =~= Seq::<Seq<char>>::empty());
    }
    let n = parts.len();
    let mut i: usize = 0;
    while i < n
        invariant
            i <= n,
            n == parts@.len(),
            parts.deep_view() == split_seq(s@, ' '),
            pred == (|t: Seq<char>| t.len() > 0),
            out.deep_view() == parts.deep_view().take(i as int).filter(pred),
        decreases n - i,
    {
        let ghost dv = parts.deep_view();
        proof {
            assert(dv.take(i + 1) =~= dv.take(i as int).push(dv[i as int]));
            dv.take(i as int).lemma_filter_push(dv[i as int], pred);
            assert(dv[i as int] == parts@[i as int]@);
        }
        if !parts[i].as_str().is_empty() {
            out.push(parts[i].clone());
            proof {
                assert(out.deep_view() =~= dv.take(i as int).filter(pred).push(dv[i as int]));
            }
        }
        i += 1;
    }
    proof {
        assert(parts.deep_view().take(n as int) =~= parts.deep_view());
        assert(tokens(s@) == split_seq(s@, ' ').filter(pred));
    }
    out
}

fn plain_micro_of(s: &str) -> (r: u64)
    ensures
        r as int == plain_micro(s@),
{
    match parse_dec_micro(s) {
        Some(v) => v,
        None => 0,
    }
}

fn scaled_bytes(v: u64, unit: u64) -> (r: u64)
    requires
        unit <= GB,
    ensures
        r as int == clamp_u64(v as int * unit as int / 1000000),
{
    proof {
        assert((v as int) * (unit as int) <= (u64::MAX as int) * (GB as int))
            by (nonlinear_arith)
            requires
                0 <= v as int <= u64::MAX as int,
                0 <= unit as int <= GB as int,
        ;
    }
    let t: u128 = v as u128 * unit as u128 / 1_000_000;
    if t > u64::MAX as u128 {
        u64::MAX
    } else {
        t as u64
    }
}

/// The byte count a size column string denotes: the numeric token
/// scaled by its binary unit, floor of the product; zero on any other
/// shape.
pub open spec fn spec_parse_size(s: Seq<char>) -> int {
    let toks = tokens(s);
    if toks.len() != 2 {
        0
    } else {
        let v = plain_micro(toks[0]);
        if toks[1] == "GB"@ {
            clamp_u64(v * (GB as int) / 1000000)
        } else if toks[1] == "MB"@ {
            clamp_u64(v * (MB as int) / 1000000)
        } else if toks[1] == "KB"@ {
            clamp_u64(v * (KB as int) / 1000000)
        } else if toks[1] == "B"@ {
            v / 1000000
        } else {
            0
        }
    }
}

/// Reads a formatted size column string back into bytes.
pub fn parse_size(size_str: &str) -> (r: u64)
    ensures
        r as int == spec_parse_size(size_str@),
{
    let toks = tokens_of(size_str);
    if toks.len() != 2 {
        return 0;
    }
    proof {
        assert(toks.deep_view()[0] == toks@[0]@);
        assert(toks.deep_view()[1] == toks@[1]@);
    }
    let v = plain_micro_of(toks[0].as_str());
    if str_eq(toks[1].as_str(), "GB") {
        scaled_bytes(v, GB)
    } else if str_eq(toks[1].as_str(), "MB") {
        scaled_bytes(v, MB)
    } else if str_eq(toks[1].as_str(), "KB") {
        scaled_bytes(v, KB)
    } else if str_eq(toks[1].as_str(), "B") {
        v / MICRO
    } else {
        0
    }
}

/// The micro-seconds a duration column string denotes: `MM:SS` or
/// `HH:MM:SS`, each piece a decimal, unparseable pieces counting
/// zero; zero on any other shape.
pub open spec fn spec_duration_secs_micro(s: Seq<char>) -> int {
    let parts = split_seq(s, ':');
    if parts.len() == 2 {
        clamp_u64(plain_micro(parts[0]) * 60 + plain_micro(parts[1]))
    } else if parts.len() == 3 {
        clamp_u64(
            plain_micro(parts[0]) * 3600 + plain_micro(parts[1]) * 60 + plain_micro(parts[2]),
        )
    } else {
        0
    }
}

/// Reads a formatted duration column string back into micro-seconds.
pub fn parse_duration_to_secs(duration: &str) -> (r: u64)
    ensures
        r as int == spec_duration_secs_micro(duration@),
{
    let parts = split_str(duration, ':');
    if parts.len() == 2 {
        proof {
            assert(parts.deep_view()[0] == parts@[0]@);
            assert(parts.deep_view()[1] == parts@[1]@);
        }
        let m = plain_micro_of(parts[0].as_str());
        let s = plain_micro_of(parts[1].as_str());
        let t: u128 = m as u128 * 60 + s as u128;
        if t > u64::MAX as u128 {
            u64::MAX
        } else {
            t as u64
        }
    } else if parts.len() == 3 {
        proof {
            assert(parts.deep_view()[0] == parts@[0]@);
            assert(parts.deep_view()[1] == parts@[1]@);
            assert(parts.deep_view()[2] == parts@[2]@);
        }
        let h = plain_micro_of(parts[0].as_str());
        let m = plain_micro_of(parts[1].as_str());
        let s = plain_micro_of(parts[2].as_str());
        let t: u128 = h as u128 * 3600 + m as u128 * 60 + s as u128;
        if t > u64::MAX as u128 {
            u64::MAX
        } else {
            t as u64
        }
    } else {
        0
    }
}

/// The Mbps magnitude a bitrate column string denotes: its first
/// whitespace token as a decimal; `None` when there is no token or it
/// does not parse.
pub open spec fn spec_parse_bitrate(s: Seq<char>) -> Option<int> {
    let toks = tokens(s);
    if toks.len() == 0 {
        None
    } else if is_dec(toks[0]) {
        Some(dec_micro_clamped(toks[0]))
    } else {
        None
    }
}

/// Reads a formatted bitrate column string back into micro-Mbps.
pub fn parse_bitrate(bitrate_str: &str) -> (r: Option<u64>)
    ensures
        match r {
            Some(v) => spec_parse_bitrate(bitrate_str@) == Some(v as int),
            None => spec_parse_bitrate(bitrate_str@) is None,
        },
{
    let toks = tokens_of(bitrate_str);
    if toks.is_empty() {
        return None;
    }
    proof {
        assert(toks.deep_view()[0] == toks@[0]@);
    }
    parse_dec_micro(toks[0].as_str())
}

/// The human-shorthand duration machine, read left to right: digit
/// runs accumulate a number; `h`, `m` (also spelled `min`) and `s`
/// convert the pending number into micro-seconds; a lone trailing
/// number counts as seconds; any other character, or a unit with no
/// pending number, rejects the whole string. An `m` followed by an
/// `i` without an `n` consumes both letters and drops the pending
/// number.
pub open spec fn human_micro(
    s: Seq<char>,
    i: int,
    cur: int,
    cur_empty: bool,
    total: int,
) -> Option<int>
    decreases s.len() - i,
{
    if i < 0 || i >= s.len() {
        Some(
            total + if cur_empty {
                0
            } else {
                cur * 1000000
            },
        )
    } else {
        let c = s[i];
        if is_digit(c) {
            human_micro(s, i + 1, cur * 10 + digit_val(c), false, total)
        } else if cur_empty {
            None
        } else if c == 'h' {
            human_micro(s, i + 1, 0, true, total + cur * 3600000000)
        } else if c == 'm' {
            if i + 1 < s.len() && s[i + 1] == 'i' {
                if i + 2 < s.len() && s[i + 2] == 'n' {
                    human_micro(s, i + 3, 0, true, total + cur * 60000000)
                } else {
                    human_micro(s, i + 2, 0, true, total)
                }
            } else {
                human_micro(s, i + 1, 0, true, total + cur * 60000000)
            }
        } else if c == 's' {
            human_micro(s, i + 1, 0, true, total + cur * 1000000)
        } else {
            None
        }
    }
}

/// The micro-seconds a human duration shorthand denotes, or `None`
/// when the machine rejects it.
pub open spec fn spec_parse_human(s: Seq<char>) -> Option<int> {
    human_micro(s, 0, 0, true, 0)
}

fn sat_mul_add(total: u64, cur: u64, unit: u64, Ghost(gtotal): Ghost<int>, Ghost(gcur): Ghost<
    int,
>) -> (r: u64)
    requires
        gtotal >= 0,
        gcur >= 0,
        total as int == clamp_u64(gtotal),
        cur as int == clamp_u64(gcur),
        1_000_000 <= unit <= 3_600_000_000u64,
    ensures
        r as int == clamp_u64(gtotal + gcur * unit),
{
    proof {
        assert((cur as int) * (unit as int) <= (u64::MAX as int) * 3_600_000_000)
            by (nonlinear_arith)
            requires
                0 <= cur as int <= u64::MAX as int,
                0 <= unit as int <= 3_600_000_000,
        ;
        if gcur > u64::MAX {
            assert(gcur * (unit as int) > u64::MAX as int) by (nonlinear_arith)
                requires
                    gcur > u64::MAX as int,
                    unit as int >= 1,
            ;
            assert((cur as int) * (unit as int) >= u64::MAX as int) by (nonlinear_arith)
                requires
                    cur as int == u64::MAX as int,
                    unit as int >= 1,
            ;
        } else {
            assert(gcur * (unit as int) == (cur as int) * (unit as int));
        }
    }
    let t: u128 = total as u128 + cur as u128 * unit as u128;
    if t > u64::MAX as u128 {
        u64::MAX
    } else {
        t as u64
    }
}

fn human_rec(
    s: &str,
    i: usize,
    cur: u64,
    cur_empty: bool,
    total: u64,
    Ghost(gcur): Ghost<int>,
    Ghost(gtotal): Ghost<int>,
) -> (r: Option<u64>)
    requires
        i <= s@.len(),
        gcur >= 0,
        gtotal >= 0,
        cur as int == clamp_u64(gcur),
        total as int == clamp_u64(gtotal),
    ensures
        match human_micro(s@, i as int, gcur, cur_empty, gtotal) {
            Some(g) => r matches Some(v) && v as int == clamp_u64(g),
            None => r is None,
        },
    decreases s@.len() - i,
{
    let n = s.unicode_len();
    if i >= n {
        if cur_empty {
            Some(total)
        } else {
            Some(sat_mul_add(total, cur, 1_000_000, Ghost(gtotal), Ghost(gcur)))
        }
    } else {
        let c = s.get_char(i);
        if is_digit_char(c) {
            let d = crate::num::digit_value(c);
            let next: u64 = if cur > (u64::MAX - d as u64) / 10 {
                proof {
                    assert(cur * 10 + d > u64::MAX) by (nonlinear_arith)
                        requires
                            cur > (u64::MAX - d as u64) / 10,
                            d < 10,
                    ;
                    if gcur > u64::MAX {
                        assert(gcur * 10 + digit_val(s@[i as int]) > u64::MAX);
                    }
                }
                u64::MAX
            } else {
                proof {
                    assert(cur * 10 + d <= u64::MAX) by (nonlinear_arith)
                        requires
                            cur <= (u64::MAX - d as u64) / 10,
                            d < 10,
                    ;
                    assert(gcur <= u64::MAX);
                }
                cur * 10 + d as u64
            };
            human_rec(
                s,
                i + 1,
                next,
                false,
                total,
                Ghost(gcur * 10 + digit_val(s@[i as int])),
                Ghost(gtotal),
            )
        } else if cur_empty {
            None
        } else if c == 'h' {
            let t = sat_mul_add(total, cur, 3_600_000_000, Ghost(gtotal), Ghost(gcur));
            human_rec(s, i + 1, 0, true, t, Ghost(0), Ghost(gtotal + gcur * 3600000000))
        } else if c == 'm' {
            if i + 1 < n && s.get_char(i + 1) == 'i' {
                if i + 2 < n && s.get_char(i + 2) == 'n' {
                    let t = sat_mul_add(total, cur, 60_000_000, Ghost(gtotal), Ghost(gcur));
                    human_rec(s, i + 3, 0, true, t, Ghost(0), Ghost(gtotal + gcur * 60000000))
                } else {
                    human_rec(s, i + 2, 0, true, total, Ghost(0), Ghost(gtotal))
                }
            } else {
                let t = sat_mul_add(total, cur, 60_000_000, Ghost(gtotal), Ghost(gcur));
                human_rec(s, i + 1, 0, true, t, Ghost(0), Ghost(gtotal + gcur * 60000000))
            }
        } else if c == 's' {
            let t = sat_mul_add(total, cur, 1_000_000, Ghost(gtotal), Ghost(gcur));
            human_rec(s, i + 1, 0, true, t, Ghost(0), Ghost(gtotal + gcur * 1000000))
        } else {
            None
        }
    }
}

/// Parses a human duration shorthand such as `1h30m` into saturated
/// micro-seconds.
pub fn parse_human_duration(duration_str: &str) -> (r: Option<u64>)
    ensures
        match spec_parse_human(duration_str@) {
            Some(g) => r matches Some(v) && v as int == clamp_u64(g),
            None => r is None,
        },
{
    human_rec(duration_str, 0, 0, true, 0, Ghost(0), Ghost(0))
}

/// The column index a numeric filter column name denotes, if any.
pub open spec fn numeric_col_index(col: Seq<char>) -> Option<int> {
    if col == "size"@ {
        Some(1int)
    } else if col == "duration"@ {
        Some(2int)
    } else if col == "fps"@ {
        Some(3int)
    } else if col == "bitrate"@ {
        Some(4int)
    } else {
        None
    }
}

/// The comparable micro-unit magnitude of a row's numeric column.
pub open spec fn col_value_micro(cells: Seq<Seq<char>>, idx: int) -> int
    recommends
        cells.len() == 10,
        1 <= idx <= 4,
{
    if idx == 1 {
        spec_parse_size(cells[1]) * 1000000
    } else if idx == 2 {
        spec_duration_secs_micro(cells[2])
    } else if idx == 3 {
        plain_micro(cells[3])
    } else {
        match spec_parse_bitrate(cells[4]) {
            Option::Some(v) => v,
            Option::None => 0,
        }
    }
}

/// The comparable micro-unit magnitude of a filter's right-hand
/// value: for the duration column the human shorthand is tried
/// first, then a plain number of seconds; other columns take a plain
/// number.
pub open spec fn threshold_micro(idx: int, value: Seq<char>) -> int
    recommends
        1 <= idx <= 4,
{
    if idx == 2 {
        match spec_parse_human(value) {
            Option::Some(v) => clamp_u64(v),
            Option::None => plain_micro(value),
        }
    } else {
        plain_micro(value)
    }
}

/// Whether a row passes one filter string. A `filename:<substring>`
/// filter tests case-insensitive containment; a `<column>:<op>:<value>`
/// filter compares a numeric column against a threshold. Any other
/// shape — wrong token count, unknown column, unknown operator —
/// retains the row (fail open).
pub open spec fn filter_matches(cells: Seq<Seq<char>>, filter: Seq<char>) -> bool
    recommends
        cells.len() == 10,
{
    let parts = split_seq(filter, ':');
    if parts.len() == 2 && parts[0] == "filename"@ {
        contains_sub(lower_of(cells[0]), lower_of(parts[1]))
    } else if parts.len() == 3 {
        match numeric_col_index(parts[0]) {
            Option::Some(idx) => {
                if parts[1] == ">"@ {
                    col_value_micro(cells, idx) > threshold_micro(idx, parts[2])
                } else if parts[1] == "<"@ {
                    col_value_micro(cells, idx) < threshold_micro(idx, parts[2])
                } else {
                    true
                }
            },
            Option::None => true,
        }
    } else {
        true
    }
}

/// Whether a row passes every filter: a conjunction, vacuously true
/// with no filters.
pub open spec fn spec_should_include(cells: Seq<Seq<char>>, filters: Seq<Seq<char>>) -> bool
    recommends
        cells.len() == 10,
{
    forall|i: int| 0 <= i < filters.len() ==> filter_matches(cells, #[trigger] filters[i])
}

pub(crate) fn col_value_of(fields: &Vec<String>, idx: usize) -> (r: u128)
    requires
        fields@.len() == 10,
        1 <= idx <= 4,
    ensures
        r as int == col_value_micro(fields.deep_view(), idx as int),
{
    proof {
        assert(fields.deep_view()[1] == fields@[1]@);
        assert(fields.deep_view()[2] == fields@[2]@);
        assert(fields.deep_view()[3] == fields@[3]@);
        assert(fields.deep_view()[4] == fields@[4]@);
    }
    if idx == 1 {
        parse_size(fields[1].as_str()) as u128 * 1_000_000
    } else if idx == 2 {
        parse_duration_to_secs(fields[2].as_str()) as u128
    } else if idx == 3 {
        plain_micro_of(fields[3].as_str()) as u128
    } else {
        match parse_bitrate(fields[4].as_str()) {
            Some(v) => v as u128,
            None => 0,
        }
    }
}

fn threshold_of(idx: usize, value: &str) -> (r: u128)
    requires
        1 <= idx <= 4,
    ensures
        r as int == threshold_micro(idx as int, value@),
{
    if idx == 2 {
        match parse_human_duration(value) {
            Some(v) => v as u128,
            None => plain_micro_of(value) as u128,
        }
    } else {
        plain_micro_of(value) as u128
    }
}

fn filter_matches_one(fields: &Vec<String>, filter: &str) -> (r: bool)
    requires
        fields@.len() == 10,
    ensures
        r == filter_matches(fields.deep_view(), filter@),
{
    let parts = split_str(filter, ':');
    if parts.len() == 2 {
        proof {
            assert(parts.deep_view()[0] == parts@[0]@);
            assert(parts.deep_view()[1] == parts@[1]@);
            assert(fields.deep_view()[0] == fields@[0]@);
        }
        if str_eq(parts[0].as_str(), "filename") {
            let low_field = lowercase(fields[0].as_str());
            let low_pat = lowercase(parts[1].as_str());
            return contains_str(low_field.as_str(), low_pat.as_str());
        }
        return true;
    }
    if parts.len() != 3 {
        return true;
    }
    proof {
        assert(parts.deep_view()[0] == parts@[0]@);
        assert(parts.deep_view()[1] == parts@[1]@);
        assert(parts.deep_view()[2] == parts@[2]@);
    }
    let idx: usize = if str_eq(parts[0].as_str(), "size") {
        1
    } else if str_eq(parts[0].as_str(), "duration") {
        2
    } else if str_eq(parts[0].as_str(), "fps") {
        3
    } else if str_eq(parts[0].as_str(), "bitrate") {
        4
    } else {
        return true;
    };
    let gt = str_eq(parts[1].as_str(), ">");
    let lt = str_eq(parts[1].as_str(), "<");
    if !gt && !lt {
        return true;
    }
    let fv = col_value_of(fields, idx);
    let tv = threshold_of(idx, parts[2].as_str());
    if gt {
        fv > tv
    } else {
        fv < tv
    }
}

/// Whether a row passes every supplied filter.
pub fn should_include_row(fields: &Vec<String>, filters: &Vec<String>) -> (r: bool)
    requires
        fields@.len() == 10,
    ensures
        r == spec_should_include(fields.deep_view(), filters.deep_view()),
{
    let n = filters.len();
    let mut i: usize = 0;
    while i < n
        invariant
            i <= n,
            n == filters@.len(),
            fields@.len() == 10,
            forall|k: int|
                0 <= k < i ==> filter_matches(fields.deep_view(), #[trigger] filters.deep_view()[k]),
        decreases n - i,
    {
        proof {
            assert(filters.deep_view()[i as int] == filters@[i as int]@);
        }
        if !filter_matches_one(fields, filters[i].as_str()) {
            return false;
        }
        i += 1;
    }
    true
}

/// The column index a sort key name denotes; an unknown name falls
/// back to the bitrate column.
pub open spec fn spec_sort_index(name: Seq<char>) -> int {
    if name == "filename"@ {
        0
    } else if name == "size"@ {
        1
    } else if name == "duration"@ {
        2
    } else if name == "fps"@ {
        3
    } else if name == "bitrate"@ {
        4
    } else if name == "resolution"@ {
        5
    } else if name == "format"@ {
        6
    } else if name == "profile"@ {
        7
    } else if name == "depth"@ {
        8
    } else if name == "audio"@ {
        9
    } else {
        4
    }
}

/// Maps a sort column name to its index.
pub fn sort_index_of(name: &str) -> (r: usize)
    ensures
        r as int == spec_sort_index(name@),
        r < 10,
{
    if str_eq(name, "filename") {
        0
    } else if str_eq(name, "size") {
        1
    } else if str_eq(name, "duration") {
        2
    } else if str_eq(name, "fps") {
        3
    } else if str_eq(name, "bitrate") {
        4
    } else if str_eq(name, "resolution") {
        5
    } else if str_eq(name, "format") {
        6
    } else if str_eq(name, "profile") {
        7
    } else if str_eq(name, "depth") {
        8
    } else if str_eq(name, "audio") {
        9
    } else {
        4
    }
}

} // verus!

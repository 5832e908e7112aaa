//! String primitives: building strings character by character, case
//! folding, equality, substring containment, and lexicographic order
//! over character sequences.

use vstd::prelude::*;
use vstd::string::StrSliceExecFns;

verus! {

/// Relies on `String::push`: appends exactly the given character.
#[verifier::external_body]
pub fn push_char(s: &mut String, c: char)
    ensures
        final(s)@ == old(s)@.push(c),
{
    s.push(c)
}

/// The Unicode lowercase form of a character sequence, as
/// `str::to_lowercase` computes it. The mapping depends on the
/// characters alone.
pub uninterp spec fn lower_of(s: Seq<char>) -> Seq<char>;

/// Relies on `str::to_lowercase`: the result is the lowercase
/// equivalent of the input, a function of the characters alone, and an
/// empty input yields an empty result.
#[verifier::external_body]
pub fn lowercase(s: &str) -> (r: String)
    ensures
        r@ == lower_of(s@),
        s@.len() == 0 ==> r@.len() == 0,
{
    s.to_lowercase()
}

/// The index of the first occurrence of `c` in `s`, or `s.len()` if
/// `c` does not occur.
pub open spec fn first_index(s: Seq<char>, c: char) -> int
    decreases s.len(),
{
    if s.len() == 0 {
        0
    } else if s[0] == c {
        0
    } else {
        1 + first_index(s.drop_first(), c)
    }
}

pub proof fn lemma_first_index_props(s: Seq<char>, c: char)
    ensures
        0 <= first_index(s, c) <= s.len(),
        first_index(s, c) < s.len() ==> s[first_index(s, c)] == c,
        forall|k: int| 0 <= k < first_index(s, c) ==> s[k] != c,
    decreases s.len(),
{
    if s.len() > 0 && s[0] != c {
        lemma_first_index_props(s.drop_first(), c);
        assert forall|k: int| 0 <= k < first_index(s, c) implies s[k] != c by {
            if k > 0 {
                assert(s.drop_first()[k - 1] == s[k]);
            }
        }
    }
}

/// If no occurrence of `c` lies before `p`, and `p` is either the end
/// of `s` or an occurrence of `c`, then `p` is the first occurrence.
pub proof fn lemma_first_index_at(s: Seq<char>, c: char, p: int)
    requires
        0 <= p <= s.len(),
        forall|k: int| 0 <= k < p ==> s[k] != c,
        p < s.len() ==> s[p] == c,
    ensures
        first_index(s, c) == p,
    decreases p,
{
    if s.len() > 0 && p > 0 {
        assert(s[0] != c);
        assert forall|k: int| 0 <= k < p - 1 implies s.drop_first()[k] != c by {
            assert(s.drop_first()[k] == s[k + 1]);
        }
        assert(p - 1 < s.drop_first().len() ==> s.drop_first()[p - 1] == c);
        lemma_first_index_at(s.drop_first(), c, p - 1);
    }
}

/// The position of the first occurrence of `c` in `s`, or the length
/// of `s` in characters if `c` does not occur.
pub fn find_char(s: &str, c: char) -> (p: usize)
    ensures
        p as int == first_index(s@, c),
{
    let n = s.unicode_len();
    let mut i: usize = 0;
    while i < n
        invariant
            i <= n,
            n == s@.len(),
            forall|k: int| 0 <= k < i ==> s@[k] != c,
        decreases n - i,
    {
        if s.get_char(i) == c {
            proof {
                lemma_first_index_at(s@, c, i as int);
            }
            return i;
        }
        i += 1;
    }
    proof {
        lemma_first_index_at(s@, c, n as int);
    }
    n
}

/// Character-wise string equality.
pub fn str_eq(a: &str, b: &str) -> (r: bool)
    ensures
        r == (a@ == b@),
{
    let na = a.unicode_len();
    let nb = b.unicode_len();
    if na != nb {
        return false;
    }
    let mut i: usize = 0;
    while i < na
        invariant
            i <= na,
            na == a@.len(),
            na == b@.len(),
            forall|k: int| 0 <= k < i ==> a@[k] == b@[k],
        decreases na - i,
    {
        if a.get_char(i) != b.get_char(i) {
            return false;
        }
        i += 1;
    }
    proof {
        assert(a@ =~= b@);
    }
    true
}

/// Whether `needle` occurs as a contiguous run somewhere in `hay`.
pub open spec fn contains_sub(hay: Seq<char>, needle: Seq<char>) -> bool {
    exists|i: int|
        0 <= i <= hay.len() - needle.len() && #[trigger] hay.subrange(i, i + needle.len())
            == needle
}

/// Whether `needle` occurs in `hay` starting at position `at`.
fn match_at(hay: &str, needle: &str, at: usize) -> (r: bool)
    requires
        at + needle@.len() <= hay@.len(),
        hay@.len() <= usize::MAX,
    ensures
        r == (hay@.subrange(at as int, at + needle@.len()) == needle@),
{
    let n = needle.unicode_len();
    let mut j: usize = 0;
    while j < n
        invariant
            j <= n,
            n == needle@.len(),
            at + n <= hay@.len(),
            hay@.len() <= usize::MAX,
            forall|q: int| 0 <= q < j ==> hay@[at + q] == needle@[q],
        decreases n - j,
    {
        if hay.get_char(at + j) != needle.get_char(j) {
            assert(hay@.subrange(at as int, at + needle@.len())[j as int] != needle@[j as int]);
            return false;
        }
        j += 1;
    }
    proof {
        assert(hay@.subrange(at as int, at + needle@.len()) =~= needle@);
    }
    true
}

/// Substring search.
pub fn contains_str(hay: &str, needle: &str) -> (r: bool)
    ensures
        r == contains_sub(hay@, needle@),
{
    let hn = hay.unicode_len();
    let nn = needle.unicode_len();
    if nn > hn {
        return false;
    }
    let limit = hn - nn;
    let mut i: usize = 0;
    while i < limit
        invariant
            nn <= hn,
            hn == hay@.len(),
            nn == needle@.len(),
            limit == hn - nn,
            i <= limit,
            forall|k: int|
                0 <= k < i ==> #[trigger] hay@.subrange(k, k + needle@.len()) != needle@,
        decreases limit - i,
    {
        if match_at(hay, needle, i) {
            return true;
        }
        i += 1;
    }
    if match_at(hay, needle, limit) {
        return true;
    }
    false
}

/// Lexicographic order on character sequences by code point; the
/// order byte-wise string comparison induces.
pub open spec fn lex_le(a: Seq<char>, b: Seq<char>) -> bool
    decreases a.len(),
{
    if a.len() == 0 {
        true
    } else if b.len() == 0 {
        false
    } else if (a[0] as int) < (b[0] as int) {
        true
    } else if (a[0] as int) > (b[0] as int) {
        false
    } else {
        lex_le(a.drop_first(), b.drop_first())
    }
}

/// Every character sequence is at most itself.
pub proof fn lemma_lex_le_refl(a: Seq<char>)
    ensures
        lex_le(a, a),
    decreases a.len(),
{
    if a.len() > 0 {
        lemma_lex_le_refl(a.drop_first());
    }
}

/// Any two character sequences compare in at least one direction.
pub proof fn lemma_lex_le_total(a: Seq<char>, b: Seq<char>)
    ensures
        lex_le(a, b) || lex_le(b, a),
    decreases a.len(),
{
    if a.len() > 0 && b.len() > 0 && a[0] == b[0] {
        lemma_lex_le_total(a.drop_first(), b.drop_first());
    }
}

/// Lexicographic order is transitive.
pub proof fn lemma_lex_le_trans(a: Seq<char>, b: Seq<char>, c: Seq<char>)
    requires
        lex_le(a, b),
        lex_le(b, c),
    ensures
        lex_le(a, c),
    decreases a.len(),
{
    if a.len() > 0 && b.len() > 0 && c.len() > 0 && a[0] == b[0] && b[0] == c[0] {
        lemma_lex_le_trans(a.drop_first(), b.drop_first(), c.drop_first());
    }
}

/// String comparison in lexicographic code-point order.
pub fn str_le(a: &str, b: &str) -> (r: bool)
    ensures
        r == lex_le(a@, b@),
{
    let na = a.unicode_len();
    let nb = b.unicode_len();
    let mut i: usize = 0;
    proof {
        assert(a@.skip(0) =~= a@);
        assert(b@.skip(0) =~= b@);
    }
    while i < na && i < nb
        invariant
            i <= na,
            i <= nb,
            na == a@.len(),
            nb == b@.len(),
            lex_le(a@, b@) == lex_le(a@.skip(i as int), b@.skip(i as int)),
        decreases na - i,
    {
        let ca = a.get_char(i);
        let cb = b.get_char(i);
        proof {
            assert(a@.skip(i as int)[0] == a@[i as int]);
            assert(b@.skip(i as int)[0] == b@[i as int]);
        }
        if (ca as u32) < (cb as u32) {
            return true;
        }
        if (ca as u32) > (cb as u32) {
            return false;
        }
        proof {
            assert(a@.skip(i as int).drop_first() =~= a@.skip(i as int + 1));
            assert(b@.skip(i as int).drop_first() =~= b@.skip(i as int + 1));
        }
        i += 1;
    }
    proof {
        if i == na {
            assert(a@.skip(i as int).len() == 0);
        } else {
            assert(b@.skip(i as int).len() == 0);
            assert(a@.skip(i as int).len() > 0);
        }
    }
    i == na
}

/// The pieces of `s` between occurrences of `sep`: always one more
/// piece than there are separators, empty pieces included.
pub open spec fn split_seq(s: Seq<char>, sep: char) -> Seq<Seq<char>>
    decreases s.len(),
    via split_seq_dec
{
    let p = first_index(s, sep);
    if p == s.len() {
        seq![s]
    } else {
        seq![s.take(p)] + split_seq(s.skip(p + 1), sep)
    }
}

#[via_fn]
proof fn split_seq_dec(s: Seq<char>, sep: char) {
    lemma_first_index_props(s, sep);
}

/// A separator-free string splits into just itself.
pub proof fn lemma_split_no_sep(a: Seq<char>, sep: char)
    requires
        forall|k: int| 0 <= k < a.len() ==> a[k] != sep,
    ensures
        split_seq(a, sep) == seq![a],
{
    lemma_first_index_at(a, sep, a.len() as int);
}

/// Splitting takes a separator-free prefix off whole.
pub proof fn lemma_split_prepend(a: Seq<char>, rest: Seq<char>, sep: char)
    requires
        forall|k: int| 0 <= k < a.len() ==> a[k] != sep,
    ensures
        split_seq(a + seq![sep] + rest, sep) == seq![a] + split_seq(rest, sep),
{
    let s = a + seq![sep] + rest;
    assert forall|k: int| 0 <= k < a.len() implies s[k] != sep by {
        assert(s[k] == a[k]);
    }
    assert(s[a.len() as int] == sep);
    lemma_first_index_at(s, sep, a.len() as int);
    assert(s.take(a.len() as int) =~= a);
    assert(s.skip(a.len() as int + 1) =~= rest);
    assert(split_seq(s, sep) =~= seq![a] + split_seq(rest, sep));
}

fn split_into(s: &str, sep: char, parts: &mut Vec<String>)
    ensures
        final(parts).deep_view() == old(parts).deep_view() + split_seq(s@, sep),
    decreases s@.len(),
{
    let n = s.unicode_len();
    let p = find_char(s, sep);
    proof {
        lemma_first_index_props(s@, sep);
    }
    if p == n {
        parts.push(s.to_owned());
        proof {
            assert(parts.deep_view() =~= old(parts).deep_view() + split_seq(s@, sep));
        }
    } else {
        let head = s.substring_char(0, p);
        parts.push(head.to_owned());
        let ghost mid = parts.deep_view();
        proof {
            assert(mid =~= old(parts).deep_view() + seq![s@.take(p as int)]);
        }
        let tail = s.substring_char(p + 1, n);
        proof {
            assert(tail@ =~= s@.skip(p as int + 1));
        }
        split_into(tail, sep, parts);
        proof {
            assert(parts.deep_view() =~= old(parts).deep_view() + split_seq(s@, sep));
        }
    }
}

/// Splits `s` on `sep` into owned pieces.
pub fn split_str(s: &str, sep: char) -> (parts: Vec<String>)
    ensures
        parts.deep_view() == split_seq(s@, sep),
{
    let mut parts: Vec<String> = Vec::new();
    split_into(s, sep, &mut parts);
    proof {
        assert(parts.deep_view() =~= split_seq(s@, sep));
    }
    parts
}

} // verus!

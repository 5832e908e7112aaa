//! Sorting rows by one typed column: a stable insertion sort, pinned
//! at the specification level so that order, permutation and
//! stability are all consequences of one defined result.

use vstd::prelude::*;

use crate::query::col_value_micro;
use crate::query::col_value_of;
use crate::text::lex_le;
use crate::text::lemma_lex_le_total;
use crate::text::lemma_lex_le_trans;
use crate::text::str_le;
use vstd::string::StrSliceExecFns;

verus! {

/// The column-typed "at most" relation between two rows: the four
/// numeric columns compare by their parsed magnitudes, every other
/// column lexicographically.
pub open spec fn row_le(a: Seq<Seq<char>>, b: Seq<Seq<char>>, col: int) -> bool
    recommends
        0 <= col < 10,
        a.len() == 10,
        b.len() == 10,
{
    if 1 <= col <= 4 {
        col_value_micro(a, col) <= col_value_micro(b, col)
    } else {
        lex_le(a[col], b[col])
    }
}

/// The sort order actually used: `row_le` ascending, its mirror
/// descending.
pub open spec fn row_ord(a: Seq<Seq<char>>, b: Seq<Seq<char>>, col: int, asc: bool) -> bool {
    if asc {
        row_le(a, b, col)
    } else {
        row_le(b, a, col)
    }
}

/// Rows indistinguishable to the sort key of `col`.
pub open spec fn key_eq(a: Seq<Seq<char>>, b: Seq<Seq<char>>, col: int) -> bool {
    row_le(a, b, col) && row_le(b, a, col)
}

/// Any two rows compare in at least one direction.
pub proof fn lemma_row_ord_total(a: Seq<Seq<char>>, b: Seq<Seq<char>>, col: int, asc: bool)
    ensures
        row_ord(a, b, col, asc) || row_ord(b, a, col, asc),
{
    if !(1 <= col <= 4) {
        lemma_lex_le_total(a[col], b[col]);
    }
}

/// The row order is transitive.
pub proof fn lemma_row_ord_trans(
    a: Seq<Seq<char>>,
    b: Seq<Seq<char>>,
    c: Seq<Seq<char>>,
    col: int,
    asc: bool,
)
    requires
        row_ord(a, b, col, asc),
        row_ord(b, c, col, asc),
    ensures
        row_ord(a, c, col, asc),
{
    if !(1 <= col <= 4) {
        if asc {
            lemma_lex_le_trans(a[col], b[col], c[col]);
        } else {
            lemma_lex_le_trans(c[col], b[col], a[col]);
        }
    }
}

/// The row order is reflexive.
pub proof fn lemma_row_ord_refl(a: Seq<Seq<char>>, col: int, asc: bool)
    ensures
        row_ord(a, a, col, asc),
{
    if !(1 <= col <= 4) {
        crate::text::lemma_lex_le_refl(a[col]);
    }
}

/// `x` placed into an already sorted sequence, after every element
/// at most `x`: the single step of a stable insertion sort.
pub open spec fn insert_sorted(
    t: Seq<Seq<Seq<char>>>,
    x: Seq<Seq<char>>,
    col: int,
    asc: bool,
) -> Seq<Seq<Seq<char>>>
    decreases t.len(),
{
    if t.len() == 0 {
        seq![x]
    } else if row_ord(t.last(), x, col, asc) {
        t.push(x)
    } else {
        insert_sorted(t.drop_last(), x, col, asc).push(t.last())
    }
}

/// The stable sort of `s` by column `col`: rows inserted left to
/// right, each after its equals.
pub open spec fn spec_sort_rows(s: Seq<Seq<Seq<char>>>, col: int, asc: bool) -> Seq<
    Seq<Seq<char>>,
>
    decreases s.len(),
{
    if s.len() == 0 {
        Seq::empty()
    } else {
        insert_sorted(spec_sort_rows(s.drop_last(), col, asc), s.last(), col, asc)
    }
}

/// Inserting at the position the scan from the right finds is
/// exactly `insert_sorted`.
proof fn lemma_insert_sorted_at(
    t: Seq<Seq<Seq<char>>>,
    x: Seq<Seq<char>>,
    col: int,
    asc: bool,
    j: int,
)
    requires
        0 <= j <= t.len(),
        forall|k: int| j <= k < t.len() ==> !row_ord(#[trigger] t[k], x, col, asc),
        j > 0 ==> row_ord(t[j - 1], x, col, asc),
    ensures
        insert_sorted(t, x, col, asc) == t.insert(j, x),
    decreases t.len(),
{
    if j == t.len() {
        if t.len() == 0 {
            assert(insert_sorted(t, x, col, asc) =~= t.insert(j, x));
        } else {
            assert(t.last() == t[j - 1]);
            assert(insert_sorted(t, x, col, asc) == t.push(x));
            assert(t.push(x) =~= t.insert(j, x));
        }
    } else {
        assert(!row_ord(t[t.len() - 1], x, col, asc));
        assert(t.last() == t[t.len() - 1]);
        assert forall|k: int| j <= k < t.drop_last().len() implies !row_ord(
            #[trigger] t.drop_last()[k],
            x,
            col,
            asc,
        ) by {
            assert(t.drop_last()[k] == t[k]);
        }
        assert(j > 0 ==> t.drop_last()[j - 1] == t[j - 1]);
        lemma_insert_sorted_at(t.drop_last(), x, col, asc, j);
        assert(insert_sorted(t, x, col, asc) == t.drop_last().insert(j, x).push(t.last()));
        assert(t.drop_last().insert(j, x).push(t.last()) =~= t.insert(j, x));
    }
}

fn row_ord_exec(a: &Vec<String>, b: &Vec<String>, col: usize, asc: bool) -> (r: bool)
    requires
        col < 10,
        a@.len() == 10,
        b@.len() == 10,
    ensures
        r == row_ord(a.deep_view(), b.deep_view(), col as int, asc),
{
    let (x, y) = if asc {
        (a, b)
    } else {
        (b, a)
    };
    if 1 <= col && col <= 4 {
        let vx = col_value_of(x, col);
        let vy = col_value_of(y, col);
        vx <= vy
    } else {
        proof {
            assert(x.deep_view()[col as int] == x@[col as int]@);
            assert(y.deep_view()[col as int] == y@[col as int]@);
        }
        str_le(x[col].as_str(), y[col].as_str())
    }
}

/// Sorts rows by one column, stably: rows with equal keys keep their
/// incoming order, and descending order mirrors the comparison, as a
/// stable sort under the reversed comparator does.
pub fn sort_rows(rows: Vec<Vec<String>>, sort_col: usize, ascending: bool) -> (out: Vec<
    Vec<String>,
>)
    requires
        sort_col < 10,
        forall|i: int| 0 <= i < rows@.len() ==> (#[trigger] rows@[i])@.len() == 10,
    ensures
        out.deep_view() == spec_sort_rows(rows.deep_view(), sort_col as int, ascending),
        forall|i: int| 0 <= i < out@.len() ==> (#[trigger] out@[i])@.len() == 10,
{
    let ghost orig = rows.deep_view();
    let mut rest = rows;
    let mut out: Vec<Vec<String>> = Vec::new();
    proof {
        assert(orig.take(0) =~= Seq::<Seq<Seq<char>>>::empty());
        assert(rest.deep_view() =~= orig.skip(0));
    }
    while rest.len() > 0
        invariant
            rest@.len() <= orig.len(),
            rest.deep_view() == orig.skip(orig.len() - rest@.len()),
            out.deep_view() == spec_sort_rows(
                orig.take(orig.len() - rest@.len()),
                sort_col as int,
                ascending,
            ),
            sort_col < 10,
            forall|i: int| 0 <= i < rest@.len() ==> (#[trigger] rest@[i])@.len() == 10,
            forall|i: int| 0 <= i < out@.len() ==> (#[trigger] out@[i])@.len() == 10,
        decreases rest@.len(),
    {
        let ghost done = orig.len() - rest@.len();
        let ghost pre_out = out.deep_view();
        let ghost pre_restv = rest@;
        let ghost pre_restdv = rest.deep_view();
        let x = rest.remove(0);
        proof {
            assert(x.deep_view() == pre_restdv[0]);
            assert(pre_restdv[0] == orig.skip(done)[0]);
            assert(orig.skip(done)[0] == orig[done]);
            assert forall|k: int| 0 <= k < rest@.len() implies #[trigger] rest.deep_view()[k]
                == orig.skip(done + 1)[k] by {
                assert(rest@[k] == pre_restv[k + 1]);
                assert(rest.deep_view()[k] == rest@[k].deep_view());
                assert(pre_restdv[k + 1] == pre_restv[k + 1].deep_view());
                assert(pre_restdv[k + 1] == orig.skip(done)[k + 1]);
                assert(orig.skip(done)[k + 1] == orig[done + k + 1]);
                assert(orig.skip(done + 1)[k] == orig[done + 1 + k]);
            }
            assert(rest.deep_view() =~= orig.skip(done + 1));
            assert(orig.take(done + 1).drop_last() =~= orig.take(done));
            assert(orig.take(done + 1).last() == orig[done]);
        }
        let mut j = out.len();
        while j > 0 && !row_ord_exec(&out[j - 1], &x, sort_col, ascending)
            invariant
                j <= out@.len(),
                sort_col < 10,
                x@.len() == 10,
                out.deep_view() == pre_out,
                forall|i: int| 0 <= i < out@.len() ==> (#[trigger] out@[i])@.len() == 10,
                forall|k: int|
                    j <= k < out@.len() ==> !row_ord(
                        #[trigger] out.deep_view()[k],
                        x.deep_view(),
                        sort_col as int,
                        ascending,
                    ),
            decreases j,
        {
            j -= 1;
        }
        proof {
            lemma_insert_sorted_at(
                pre_out,
                x.deep_view(),
                sort_col as int,
                ascending,
                j as int,
            );
        }
        out.insert(j, x);
        proof {
            assert(out.deep_view() =~= pre_out.insert(j as int, orig[done]));
        }
    }
    proof {
        assert(orig.take(orig.len() as int) =~= orig);
        assert(out.deep_view() =~= spec_sort_rows(orig, sort_col as int, ascending));
    }
    out
}

proof fn lemma_insert_sorted_props(
    t: Seq<Seq<Seq<char>>>,
    x: Seq<Seq<char>>,
    col: int,
    asc: bool,
)
    ensures
        insert_sorted(t, x, col, asc).len() == t.len() + 1,
        insert_sorted(t, x, col, asc).to_multiset() == t.to_multiset().insert(x),
        forall|k: int|
            0 <= k < insert_sorted(t, x, col, asc).len() ==> (#[trigger] insert_sorted(
                t,
                x,
                col,
                asc,
            )[k] == x || t.contains(insert_sorted(t, x, col, asc)[k])),
    decreases t.len(),
{
    broadcast use vstd::seq_lib::group_to_multiset_ensures;
    broadcast use vstd::multiset::group_multiset_axioms;

    let r = insert_sorted(t, x, col, asc);
    if t.len() == 0 {
        assert(t =~= Seq::<Seq<Seq<char>>>::empty());
        assert(r =~= t.push(x));
        assert(t.push(x).to_multiset() =~= t.to_multiset().insert(x));
    } else if row_ord(t.last(), x, col, asc) {
        assert(r == t.push(x));
        assert(t.push(x).to_multiset() =~= t.to_multiset().insert(x));
        assert forall|k: int| 0 <= k < r.len() implies (#[trigger] r[k] == x || t.contains(
            r[k],
        )) by {
            if k < t.len() {
                assert(t[k] == r[k]);
                assert(t.contains(t[k]));
            }
        }
    } else {
        let dl = t.drop_last();
        lemma_insert_sorted_props(dl, x, col, asc);
        let inner = insert_sorted(dl, x, col, asc);
        assert(r == inner.push(t.last()));
        assert(inner.push(t.last()).to_multiset() =~= inner.to_multiset().insert(t.last()));
        assert(t =~= dl.push(t.last()));
        assert(dl.push(t.last()).to_multiset() =~= dl.to_multiset().insert(t.last()));
        assert(dl.to_multiset().insert(x).insert(t.last()) =~= dl.to_multiset().insert(
            t.last(),
        ).insert(x));
        assert forall|k: int| 0 <= k < r.len() implies (#[trigger] r[k] == x || t.contains(
            r[k],
        )) by {
            if k < inner.len() {
                assert(r[k] == inner[k]);
                if inner[k] != x {
                    assert(dl.contains(inner[k]));
                    let m = choose|m: int| 0 <= m < dl.len() && dl[m] == inner[k];
                    assert(t[m] == dl[m]);
                    assert(t.contains(t[m]));
                }
            } else {
                assert(r[k] == t.last());
                assert(t.last() == t[t.len() - 1]);
                assert(t.contains(t[t.len() - 1]));
            }
        }
    }
}

proof fn lemma_insert_sorted_ordered(
    t: Seq<Seq<Seq<char>>>,
    x: Seq<Seq<char>>,
    col: int,
    asc: bool,
)
    requires
        forall|p: int, q: int|
            0 <= p < q < t.len() ==> row_ord(#[trigger] t[p], #[trigger] t[q], col, asc),
    ensures
        forall|p: int, q: int|
            0 <= p < q < insert_sorted(t, x, col, asc).len() ==> row_ord(
                #[trigger] insert_sorted(t, x, col, asc)[p],
                #[trigger] insert_sorted(t, x, col, asc)[q],
                col,
                asc,
            ),
    decreases t.len(),
{
    let r = insert_sorted(t, x, col, asc);
    if t.len() == 0 {
    } else if row_ord(t.last(), x, col, asc) {
        assert(r == t.push(x));
        assert forall|p: int, q: int| 0 <= p < q < r.len() implies row_ord(
            #[trigger] r[p],
            #[trigger] r[q],
            col,
            asc,
        ) by {
            if q == t.len() {
                assert(r[q] == x);
                assert(r[p] == t[p]);
                if p < t.len() - 1 {
                    assert(row_ord(t[p], t[t.len() - 1], col, asc));
                    lemma_row_ord_trans(t[p], t[t.len() - 1], x, col, asc);
                } else {
                    assert(t[p] == t.last());
                }
            } else {
                assert(r[p] == t[p] && r[q] == t[q]);
            }
        }
    } else {
        let dl = t.drop_last();
        assert forall|p: int, q: int| 0 <= p < q < dl.len() implies row_ord(
            #[trigger] dl[p],
            #[trigger] dl[q],
            col,
            asc,
        ) by {
            assert(dl[p] == t[p] && dl[q] == t[q]);
        }
        lemma_insert_sorted_ordered(dl, x, col, asc);
        lemma_insert_sorted_props(dl, x, col, asc);
        let inner = insert_sorted(dl, x, col, asc);
        assert(r == inner.push(t.last()));
        lemma_row_ord_total(t.last(), x, col, asc);
        assert(row_ord(x, t.last(), col, asc));
        assert forall|p: int, q: int| 0 <= p < q < r.len() implies row_ord(
            #[trigger] r[p],
            #[trigger] r[q],
            col,
            asc,
        ) by {
            if q == inner.len() {
                assert(r[q] == t.last());
                assert(r[p] == inner[p]);
                if inner[p] == x {
                } else {
                    assert(dl.contains(inner[p]));
                    let m = choose|m: int| 0 <= m < dl.len() && dl[m] == inner[p];
                    assert(t[m] == dl[m]);
                    assert(t.last() == t[t.len() - 1]);
                    assert(row_ord(t[m], t[t.len() - 1], col, asc));
                }
            } else {
                assert(r[p] == inner[p] && r[q] == inner[q]);
            }
        }
    }
}

/// Law: the sort returns a permutation of its input, ordered by the
/// column's comparator — ascending by `row_le`, descending by its
/// mirror image.
pub proof fn lemma_sort_rows_permutation_sorted(s: Seq<Seq<Seq<char>>>, col: int, asc: bool)
    ensures
        spec_sort_rows(s, col, asc).len() == s.len(),
        spec_sort_rows(s, col, asc).to_multiset() == s.to_multiset(),
        forall|p: int, q: int|
            0 <= p < q < s.len() ==> row_ord(
                #[trigger] spec_sort_rows(s, col, asc)[p],
                #[trigger] spec_sort_rows(s, col, asc)[q],
                col,
                asc,
            ),
    decreases s.len(),
{
    broadcast use vstd::seq_lib::group_to_multiset_ensures;
    broadcast use vstd::multiset::group_multiset_axioms;

    if s.len() == 0 {
        assert(s =~= Seq::<Seq<Seq<char>>>::empty());
    } else {
        let dl = s.drop_last();
        lemma_sort_rows_permutation_sorted(dl, col, asc);
        lemma_insert_sorted_props(spec_sort_rows(dl, col, asc), s.last(), col, asc);
        lemma_insert_sorted_ordered(spec_sort_rows(dl, col, asc), s.last(), col, asc);
        assert(s =~= dl.push(s.last()));
        assert(dl.push(s.last()).to_multiset() =~= dl.to_multiset().insert(s.last()));
    }
}

proof fn lemma_insert_sorted_filter(
    t: Seq<Seq<Seq<char>>>,
    x: Seq<Seq<char>>,
    col: int,
    asc: bool,
    r0: Seq<Seq<char>>,
)
    ensures
        insert_sorted(t, x, col, asc).filter(|row: Seq<Seq<char>>| key_eq(row, r0, col))
            == if key_eq(x, r0, col) {
            t.filter(|row: Seq<Seq<char>>| key_eq(row, r0, col)).push(x)
        } else {
            t.filter(|row: Seq<Seq<char>>| key_eq(row, r0, col))
        },
    decreases t.len(),
{
    reveal(Seq::filter);
    let cls = |row: Seq<Seq<char>>| key_eq(row, r0, col);
    let r = insert_sorted(t, x, col, asc);
    if t.len() == 0 {
        assert(t =~= Seq::<Seq<Seq<char>>>::empty());
        assert(r =~= t.push(x));
        t.lemma_filter_push(x, cls);
        assert(t.filter(cls) =~= Seq::<Seq<Seq<char>>>::empty());
    } else if row_ord(t.last(), x, col, asc) {
        assert(r == t.push(x));
        t.lemma_filter_push(x, cls);
    } else {
        let dl = t.drop_last();
        lemma_insert_sorted_filter(dl, x, col, asc, r0);
        let inner = insert_sorted(dl, x, col, asc);
        assert(r == inner.push(t.last()));
        inner.lemma_filter_push(t.last(), cls);
        dl.lemma_filter_push(t.last(), cls);
        assert(t =~= dl.push(t.last()));
        assert(t.filter(cls) == dl.push(t.last()).filter(cls));
        if cls(x) && cls(t.last()) {
            // impossible: two rows of one key class always compare,
            // so the scan would have stopped at `t.last()`
            lemma_row_ord_trans(t.last(), r0, x, col, true);
            lemma_row_ord_trans(x, r0, t.last(), col, true);
            assert(row_ord(t.last(), x, col, asc));
            assert(false);
        }
    }
}

/// Law: the sort is stable — for any key class, the rows of that
/// class come out in exactly the order they went in.
pub proof fn lemma_sort_rows_stable(
    s: Seq<Seq<Seq<char>>>,
    col: int,
    asc: bool,
    r0: Seq<Seq<char>>,
)
    ensures
        spec_sort_rows(s, col, asc).filter(|row: Seq<Seq<char>>| key_eq(row, r0, col))
            == s.filter(|row: Seq<Seq<char>>| key_eq(row, r0, col)),
    decreases s.len(),
{
    reveal(Seq::filter);
    let cls = |row: Seq<Seq<char>>| key_eq(row, r0, col);
    if s.len() == 0 {
        assert(spec_sort_rows(s, col, asc) =~= Seq::<Seq<Seq<char>>>::empty());
        assert(s.filter(cls) =~= s);
    } else {
        let dl = s.drop_last();
        lemma_sort_rows_stable(dl, col, asc, r0);
        lemma_insert_sorted_filter(spec_sort_rows(dl, col, asc), s.last(), col, asc, r0);
        dl.lemma_filter_push(s.last(), cls);
        assert(s =~= dl.push(s.last()));
        assert(s.filter(cls) == dl.push(s.last()).filter(cls));
    }
}

proof fn lemma_sorted_reverse(a: Seq<Seq<Seq<char>>>, col: int)
    requires
        forall|p: int, q: int|
            0 <= p < q < a.len() ==> row_ord(#[trigger] a[p], #[trigger] a[q], col, true),
    ensures
        forall|p: int, q: int|
            0 <= p < q < a.reverse().len() ==> row_ord(
                #[trigger] a.reverse()[p],
                #[trigger] a.reverse()[q],
                col,
                false,
            ),
{
    assert forall|p: int, q: int| 0 <= p < q < a.reverse().len() implies row_ord(
        #[trigger] a.reverse()[p],
        #[trigger] a.reverse()[q],
        col,
        false,
    ) by {
        assert(a.reverse()[p] == a[a.len() - 1 - p]);
        assert(a.reverse()[q] == a[a.len() - 1 - q]);
        assert(row_ord(a[a.len() - 1 - q], a[a.len() - 1 - p], col, true));
    }
}

proof fn lemma_distinct_keys_transfer(s: Seq<Seq<Seq<char>>>, d: Seq<Seq<Seq<char>>>, col: int)
    requires
        forall|i: int, j: int|
            0 <= i < j < s.len() ==> !key_eq(#[trigger] s[i], #[trigger] s[j], col),
        d.to_multiset() == s.to_multiset(),
    ensures
        forall|i: int, j: int|
            0 <= i < j < d.len() ==> !key_eq(#[trigger] d[i], #[trigger] d[j], col),
{
    broadcast use vstd::seq_lib::group_to_multiset_ensures;
    broadcast use vstd::multiset::group_multiset_axioms;

    assert forall|i: int, j: int| 0 <= i < j < d.len() implies !key_eq(
        #[trigger] d[i],
        #[trigger] d[j],
        col,
    ) by {
        if key_eq(d[i], d[j], col) {
            assert(d.contains(d[i]));
            assert(d.contains(d[j]));
            assert(s.to_multiset().count(d[i]) > 0);
            assert(s.to_multiset().count(d[j]) > 0);
            assert(s.contains(d[i]));
            assert(s.contains(d[j]));
            let p = choose|p: int| 0 <= p < s.len() && s[p] == d[i];
            let q = choose|q: int| 0 <= q < s.len() && s[q] == d[j];
            if p != q {
                assert(key_eq(s[p], s[q], col));
                assert(false);
            } else {
                // the same source row twice: its key count would be two
                // in `d` but at most one in `s`
                let e = d[i];
                assert(d.remove(i).to_multiset() == d.to_multiset().remove(e));
                d.remove_ensures(i);
                assert(d.remove(i)[j - 1] == d[j]);
                assert(d.remove(i).contains(e));
                assert(d.remove(i).to_multiset().count(e) > 0);
                assert(d.to_multiset().count(e) >= 2);
                assert(s.remove(p).to_multiset() == s.to_multiset().remove(e));
                assert(!s.remove(p).contains(e)) by {
                    if s.remove(p).contains(e) {
                        let m = choose|m: int|
                            0 <= m < s.remove(p).len() && s.remove(p)[m] == e;
                        s.remove_ensures(p);
                        lemma_row_ord_refl(e, col, true);
                        lemma_row_ord_refl(e, col, false);
                        if m < p {
                            assert(s[m] == e);
                            assert(key_eq(s[m], s[p], col));
                            assert(false);
                        } else {
                            assert(s[m + 1] == e);
                            assert(key_eq(s[p], s[m + 1], col));
                            assert(false);
                        }
                    }
                }
                assert(s.remove(p).to_multiset().count(e) == 0);
                assert(s.to_multiset().count(e) <= 1);
                assert(false);
            }
        }
    }
}

proof fn lemma_sorted_unique_keys(
    x: Seq<Seq<Seq<char>>>,
    y: Seq<Seq<Seq<char>>>,
    col: int,
    asc: bool,
)
    requires
        x.to_multiset() == y.to_multiset(),
        forall|p: int, q: int|
            0 <= p < q < x.len() ==> row_ord(#[trigger] x[p], #[trigger] x[q], col, asc),
        forall|p: int, q: int|
            0 <= p < q < y.len() ==> row_ord(#[trigger] y[p], #[trigger] y[q], col, asc),
        forall|p: int, q: int|
            0 <= p < q < x.len() ==> !key_eq(#[trigger] x[p], #[trigger] x[q], col),
    ensures
        x == y,
    decreases x.len(),
{
    broadcast use vstd::seq_lib::group_to_multiset_ensures;
    broadcast use vstd::multiset::group_multiset_axioms;

    assert(x.to_multiset().len() == x.len());
    assert(y.to_multiset().len() == y.len());
    assert(x.len() == y.len());
    if x.len() == 0 {
        assert(x =~= y);
    } else {
        assert(y.contains(y[0]));
        assert(x.to_multiset().count(y[0]) > 0);
        assert(x.contains(y[0]));
        let i = choose|i: int| 0 <= i < x.len() && x[i] == y[0];
        assert(x.contains(x[0]));
        assert(y.to_multiset().count(x[0]) > 0);
        assert(y.contains(x[0]));
        let k = choose|k: int| 0 <= k < y.len() && y[k] == x[0];
        lemma_row_ord_refl(x[0], col, asc);
        lemma_row_ord_refl(y[0], col, asc);
        assert(row_ord(x[0], x[i], col, asc));
        assert(row_ord(y[0], y[k], col, asc));
        assert(row_ord(x[0], y[0], col, asc));
        assert(row_ord(y[0], x[0], col, asc));
        assert(key_eq(x[0], y[0], col));
        assert(i == 0) by {
            if i != 0 {
                assert(key_eq(x[0], x[i], col));
                assert(false);
            }
        }
        assert(x[0] == y[0]);
        let xt = x.drop_first();
        let yt = y.drop_first();
        assert(xt =~= x.remove(0));
        assert(yt =~= y.remove(0));
        assert(x.remove(0).to_multiset() == x.to_multiset().remove(x[0]));
        assert(y.remove(0).to_multiset() == y.to_multiset().remove(y[0]));
        assert(xt.to_multiset() == yt.to_multiset());
        assert forall|p: int, q: int| 0 <= p < q < xt.len() implies row_ord(
            #[trigger] xt[p],
            #[trigger] xt[q],
            col,
            asc,
        ) && !key_eq(xt[p], xt[q], col) by {
            assert(xt[p] == x[p + 1]);
            assert(xt[q] == x[q + 1]);
        }
        assert forall|p: int, q: int| 0 <= p < q < yt.len() implies row_ord(
            #[trigger] yt[p],
            #[trigger] yt[q],
            col,
            asc,
        ) by {
            assert(yt[p] == y[p + 1]);
            assert(yt[q] == y[q + 1]);
        }
        lemma_sorted_unique_keys(xt, yt, col, asc);
        assert forall|m: int| 0 <= m < x.len() implies x[m] == y[m] by {
            if m > 0 {
                assert(xt[m - 1] == yt[m - 1]);
                assert(xt[m - 1] == x[m]);
                assert(yt[m - 1] == y[m]);
            }
        }
        assert(x =~= y);
    }
}

/// Law: when no two rows share a sort key, descending order is the
/// exact reverse of ascending order. (With tied keys the two orders
/// each keep the ties in incoming order instead, so neither is the
/// other's reverse.)
pub proof fn lemma_sort_rows_desc_is_reverse(s: Seq<Seq<Seq<char>>>, col: int)
    requires
        forall|i: int, j: int|
            0 <= i < j < s.len() ==> !key_eq(#[trigger] s[i], #[trigger] s[j], col),
    ensures
        spec_sort_rows(s, col, false) == spec_sort_rows(s, col, true).reverse(),
{
    broadcast use vstd::seq_lib::group_to_multiset_ensures;
    broadcast use vstd::multiset::group_multiset_axioms;

    let a = spec_sort_rows(s, col, true);
    let d = spec_sort_rows(s, col, false);
    lemma_sort_rows_permutation_sorted(s, col, true);
    lemma_sort_rows_permutation_sorted(s, col, false);
    lemma_sorted_reverse(a, col);
    a.lemma_reverse_to_multiset();
    lemma_distinct_keys_transfer(s, d, col);
    lemma_sorted_unique_keys(d, a.reverse(), col, false);
}

} // verus!

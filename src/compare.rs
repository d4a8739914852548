use vstd::prelude::*;
use crate::bits::{bits_of, Bits, MAX_BITS};
use crate::keyed::{key_cmp, lex_from, views, KeyedTable};
use std::cmp::Ordering;

verus! {

/// The indices `a..b`.
pub open spec fn span(a: int, b: int) -> Seq<usize> {
    Seq::new((b - a) as nat, |t: int| (a + t) as usize)
}

/// Merge-join of the key rows `i..ln` of `lk` with the key rows `j..rn` of
/// `rk`: left-only rows, paired left rows, paired right rows, right-only
/// rows. Equal keys pair up one for one, in order.
pub open spec fn merge_from(lk: Seq<Seq<usize>>, rk: Seq<Seq<usize>>, ln: int, rn: int, i: int, j: int)
    -> (Seq<usize>, Seq<usize>, Seq<usize>, Seq<usize>)
    decreases (ln - i) + (rn - j),
{
    if !(0 <= i < ln && 0 <= j < rn) {
        (span(i, ln), Seq::empty(), Seq::empty(), span(j, rn))
    } else {
        match key_cmp(lk, rk, i, j) {
            Ordering::Less => {
                let m = merge_from(lk, rk, ln, rn, i + 1, j);
                (seq![i as usize] + m.0, m.1, m.2, m.3)
            },
            Ordering::Greater => {
                let m = merge_from(lk, rk, ln, rn, i, j + 1);
                (m.0, m.1, m.2, seq![j as usize] + m.3)
            },
            Ordering::Equal => {
                let m = merge_from(lk, rk, ln, rn, i + 1, j + 1);
                (m.0, seq![i as usize] + m.1, seq![j as usize] + m.2, m.3)
            },
        }
    }
}

/// The merge-join of all rows of both sides.
pub open spec fn merge(lk: Seq<Seq<usize>>, rk: Seq<Seq<usize>>, ln: nat, rn: nat)
    -> (Seq<usize>, Seq<usize>, Seq<usize>, Seq<usize>)
{
    merge_from(lk, rk, ln as int, rn as int, 0, 0)
}

proof fn lemma_merge_bounds(lk: Seq<Seq<usize>>, rk: Seq<Seq<usize>>, ln: int, rn: int, i: int, j: int)
    requires
        0 <= i <= ln <= usize::MAX,
        0 <= j <= rn <= usize::MAX,
    ensures
        ({
            let m = merge_from(lk, rk, ln, rn, i, j);
            &&& m.1.len() == m.2.len()
            &&& m.1.len() <= ln - i
            &&& forall|p: int| 0 <= p < m.1.len() ==> i <= #[trigger] m.1[p] < ln
            &&& forall|p: int| 0 <= p < m.2.len() ==> j <= #[trigger] m.2[p] < rn
        }),
    decreases (ln - i) + (rn - j),
{
    if 0 <= i < ln && 0 <= j < rn {
        match key_cmp(lk, rk, i, j) {
            Ordering::Less => lemma_merge_bounds(lk, rk, ln, rn, i + 1, j),
            Ordering::Greater => lemma_merge_bounds(lk, rk, ln, rn, i, j + 1),
            Ordering::Equal => {
                lemma_merge_bounds(lk, rk, ln, rn, i + 1, j + 1);
                let m = merge_from(lk, rk, ln, rn, i + 1, j + 1);
                assert forall|p: int| 0 <= p < m.1.len() + 1 implies i <= #[trigger] (seq![i as usize] + m.1)[p] < ln by {
                    if p > 0 {
                        assert((seq![i as usize] + m.1)[p] == m.1[p - 1]);
                    }
                }
                assert forall|p: int| 0 <= p < m.2.len() + 1 implies j <= #[trigger] (seq![j as usize] + m.2)[p] < rn by {
                    if p > 0 {
                        assert((seq![j as usize] + m.2)[p] == m.2[p - 1]);
                    }
                }
            },
        }
    }
}

/// Phase 1: the sorted merge-join of both tables' key columns.
fn compare_key_cols(lt: &KeyedTable, rt: &KeyedTable) -> (r: (Vec<usize>, Vec<usize>, Vec<usize>, Vec<usize>))
    requires
        lt.wf(),
        rt.wf(),
    ensures
        (r.0@, r.1@, r.2@, r.3@) == merge(lt.keys(), rt.keys(), lt.rows(), rt.rows()),
{
    proof {
        lt.lemma_wf_lengths();
        rt.lemma_wf_lengths();
    }
    let ghost lk = lt.keys();
    let ghost rk = rt.keys();
    let lt_len = lt.len();
    let rt_len = rt.len();
    let ghost total = merge(lk, rk, lt_len as nat, rt_len as nat);
    let mut lt_only: Vec<usize> = Vec::new();
    let mut rt_only: Vec<usize> = Vec::new();
    let mut lt_common: Vec<usize> = Vec::new();
    let mut rt_common: Vec<usize> = Vec::new();
    let mut lt_idx: usize = 0;
    let mut rt_idx: usize = 0;
    {
        let lt_keys = lt.get_cols_mmaps(true);
        let rt_keys = rt.get_cols_mmaps(true);
        while lt_idx < lt_len && rt_idx < rt_len
            invariant
                views(lt_keys@) == lk,
                views(rt_keys@) == rk,
                forall|c: int| 0 <= c < lk.len() ==> (#[trigger] lk[c]).len() == lt_len,
                forall|c: int| 0 <= c < rk.len() ==> (#[trigger] rk[c]).len() == rt_len,
                lt_idx <= lt_len,
                rt_idx <= rt_len,
                total == merge(lk, rk, lt_len as nat, rt_len as nat),
                ({
                    let m = merge_from(lk, rk, lt_len as int, rt_len as int, lt_idx as int, rt_idx as int);
                    &&& lt_only@ + m.0 == total.0
                    &&& lt_common@ + m.1 == total.1
                    &&& rt_common@ + m.2 == total.2
                    &&& rt_only@ + m.3 == total.3
                }),
            decreases (lt_len - lt_idx) + (rt_len - rt_idx),
        {
            assert forall|c: int| 0 <= c < lt_keys@.len() implies lt_idx < (#[trigger] lt_keys@[c])@.len() by {
                assert(lt_keys@[c]@ == lk[c]);
            }
            assert forall|c: int| 0 <= c < rt_keys@.len() implies rt_idx < (#[trigger] rt_keys@[c])@.len() by {
                assert(rt_keys@[c]@ == rk[c]);
            }
            let ghost m = merge_from(lk, rk, lt_len as int, rt_len as int, lt_idx as int, rt_idx as int);
            match crate::keyed::compare_indices(&lt_keys, &rt_keys, lt_idx, rt_idx) {
                Ordering::Less => {
                    let ghost m2 = merge_from(lk, rk, lt_len as int, rt_len as int, lt_idx + 1, rt_idx as int);
                    assert(lt_only@.push(lt_idx) + m2.0 =~= lt_only@ + m.0);
                    lt_only.push(lt_idx);
                    lt_idx = lt_idx + 1;
                },
                Ordering::Greater => {
                    let ghost m2 = merge_from(lk, rk, lt_len as int, rt_len as int, lt_idx as int, rt_idx + 1);
                    assert(rt_only@.push(rt_idx) + m2.3 =~= rt_only@ + m.3);
                    rt_only.push(rt_idx);
                    rt_idx = rt_idx + 1;
                },
                Ordering::Equal => {
                    let ghost m2 = merge_from(lk, rk, lt_len as int, rt_len as int, lt_idx + 1, rt_idx + 1);
                    assert(lt_common@.push(lt_idx) + m2.1 =~= lt_common@ + m.1);
                    assert(rt_common@.push(rt_idx) + m2.2 =~= rt_common@ + m.2);
                    lt_common.push(lt_idx);
                    rt_common.push(rt_idx);
                    lt_idx = lt_idx + 1;
                    rt_idx = rt_idx + 1;
                },
            }
        }
    }
    assert(lt_common@ + Seq::<usize>::empty() == lt_common@);
    assert(rt_common@ + Seq::<usize>::empty() == rt_common@);
    while lt_idx < lt_len
        invariant
            lt_idx <= lt_len,
            lt_only@ + span(lt_idx as int, lt_len as int) == total.0,
        decreases lt_len - lt_idx,
    {
        assert(lt_only@.push(lt_idx) + span(lt_idx + 1, lt_len as int) =~= lt_only@ + span(lt_idx as int, lt_len as int));
        lt_only.push(lt_idx);
        lt_idx = lt_idx + 1;
    }
    while rt_idx < rt_len
        invariant
            rt_idx <= rt_len,
            rt_only@ + span(rt_idx as int, rt_len as int) == total.3,
        decreases rt_len - rt_idx,
    {
        assert(rt_only@.push(rt_idx) + span(rt_idx + 1, rt_len as int) =~= rt_only@ + span(rt_idx as int, rt_len as int));
        rt_only.push(rt_idx);
        rt_idx = rt_idx + 1;
    }
    assert(lt_only@ + span(lt_len as int, lt_len as int) == lt_only@);
    assert(rt_only@ + span(rt_len as int, rt_len as int) == rt_only@);
    (lt_only, lt_common, rt_common, rt_only)
}

/// Whether the cells of non-key column `c` agree on matched pair `p`.
pub open spec fn cell_eq(ln: Seq<Seq<usize>>, rn: Seq<Seq<usize>>, lc: Seq<usize>, rc: Seq<usize>, c: int, p: int) -> bool {
    ln[c][lc[p] as int] == rn[c][rc[p] as int]
}

/// Whether matched pair `p` agrees on the first `nc` non-key columns.
pub open spec fn row_eq(ln: Seq<Seq<usize>>, rn: Seq<Seq<usize>>, lc: Seq<usize>, rc: Seq<usize>, nc: int, p: int) -> bool {
    forall|c: int| 0 <= c < nc ==> #[trigger] cell_eq(ln, rn, lc, rc, c, p)
}

/// Positions, among the first `q` matched pairs, of those that differ in
/// some non-key column.
pub open spec fn diff_rows(ln: Seq<Seq<usize>>, rn: Seq<Seq<usize>>, lc: Seq<usize>, rc: Seq<usize>, nc: int, q: int) -> Seq<int>
    decreases q,
{
    if q <= 0 {
        Seq::empty()
    } else if row_eq(ln, rn, lc, rc, nc, q - 1) {
        diff_rows(ln, rn, lc, rc, nc, q - 1)
    } else {
        diff_rows(ln, rn, lc, rc, nc, q - 1).push(q - 1)
    }
}

/// How many of the first `q` matched pairs have cells of column `c` whose
/// agreement is `want`.
pub open spec fn count_col(ln: Seq<Seq<usize>>, rn: Seq<Seq<usize>>, lc: Seq<usize>, rc: Seq<usize>, c: int, q: int, want: bool) -> nat
    decreases q,
{
    if q <= 0 {
        0
    } else {
        count_col(ln, rn, lc, rc, c, q - 1, want) + if cell_eq(ln, rn, lc, rc, c, q - 1) == want {
            1nat
        } else {
            0nat
        }
    }
}

/// How many cells of the first `nc` non-key columns, over the first `q`
/// matched pairs, have agreement `want`.
pub open spec fn count_cells(ln: Seq<Seq<usize>>, rn: Seq<Seq<usize>>, lc: Seq<usize>, rc: Seq<usize>, nc: int, q: int, want: bool) -> nat
    decreases nc,
{
    if nc <= 0 {
        0
    } else {
        count_cells(ln, rn, lc, rc, nc - 1, q, want) + count_col(ln, rn, lc, rc, nc - 1, q, want)
    }
}

proof fn lemma_count_col_split(ln: Seq<Seq<usize>>, rn: Seq<Seq<usize>>, lc: Seq<usize>, rc: Seq<usize>, c: int, q: int)
    requires
        q >= 0,
    ensures
        count_col(ln, rn, lc, rc, c, q, true) + count_col(ln, rn, lc, rc, c, q, false) == q,
    decreases q,
{
    if q > 0 {
        lemma_count_col_split(ln, rn, lc, rc, c, q - 1);
    }
}

proof fn lemma_count_cells_split(ln: Seq<Seq<usize>>, rn: Seq<Seq<usize>>, lc: Seq<usize>, rc: Seq<usize>, nc: int, q: int)
    requires
        q >= 0,
        nc >= 0,
    ensures
        count_cells(ln, rn, lc, rc, nc, q, true) + count_cells(ln, rn, lc, rc, nc, q, false) == nc * q,
    decreases nc,
{
    if nc > 0 {
        lemma_count_cells_split(ln, rn, lc, rc, nc - 1, q);
        lemma_count_col_split(ln, rn, lc, rc, nc - 1, q);
        assert((nc - 1) * q + q == nc * q) by (nonlinear_arith);
    } else {
        assert(nc * q == 0) by (nonlinear_arith)
            requires nc == 0;
    }
}

proof fn lemma_diff_rows_bounds(ln: Seq<Seq<usize>>, rn: Seq<Seq<usize>>, lc: Seq<usize>, rc: Seq<usize>, nc: int, q: int)
    requires
        q >= 0,
    ensures
        diff_rows(ln, rn, lc, rc, nc, q).len() <= q,
        forall|k: int| 0 <= k < diff_rows(ln, rn, lc, rc, nc, q).len() ==> 0 <= #[trigger] diff_rows(ln, rn, lc, rc, nc, q)[k] < q,
    decreases q,
{
    if q > 0 {
        lemma_diff_rows_bounds(ln, rn, lc, rc, nc, q - 1);
    }
}

proof fn lemma_lex_self(a: Seq<Seq<usize>>, i: int, k: int)
    ensures
        lex_from(a, a, i, i, k) == Ordering::Equal,
    decreases a.len() - k,
{
    if 0 <= k < a.len() {
        lemma_lex_self(a, i, k + 1);
    }
}

proof fn lemma_merge_self(keys: Seq<Seq<usize>>, n: int, i: int)
    requires
        0 <= i <= n <= usize::MAX,
    ensures
        merge_from(keys, keys, n, n, i, i) == (Seq::<usize>::empty(), span(i, n), span(i, n), Seq::<usize>::empty()),
    decreases n - i,
{
    if i < n {
        lemma_lex_self(keys, i, 0);
        lemma_merge_self(keys, n, i + 1);
        assert(seq![i as usize] + span(i + 1, n) =~= span(i, n));
    } else {
        assert(span(i, n) =~= Seq::<usize>::empty());
    }
}

proof fn lemma_no_diff_rows(ln: Seq<Seq<usize>>, lc: Seq<usize>, nc: int, q: int)
    ensures
        diff_rows(ln, ln, lc, lc, nc, q).len() == 0,
    decreases q,
{
    if q > 0 {
        assert(row_eq(ln, ln, lc, lc, nc, q - 1));
        lemma_no_diff_rows(ln, lc, nc, q - 1);
    }
}

/// Comparing a table with an identical copy of itself pairs every row with
/// itself: no row is left on either side and no matched pair differs.
pub proof fn lemma_self_comparison(keys: Seq<Seq<usize>>, non_keys: Seq<Seq<usize>>, n: nat)
    requires
        n <= usize::MAX,
    ensures
        ({
            let m = merge(keys, keys, n, n);
            &&& m.0.len() == 0
            &&& m.3.len() == 0
            &&& m.1 == span(0, n as int)
            &&& m.2 == span(0, n as int)
            &&& m.1.len() == n
            &&& diff_rows(non_keys, non_keys, m.1, m.2, non_keys.len() as int, n as int).len() == 0
        }),
{
    lemma_merge_self(keys, n as int, 0);
    let m = merge(keys, keys, n, n);
    lemma_no_diff_rows(non_keys, m.1, non_keys.len() as int, n as int);
}

/// The result of comparing two keyed tables.
pub struct Comparison {
    /// For each non-key column, whether its cells agree on each differing
    /// matched pair, in pair order.
    pub tt: Vec<Bits>,
    /// Rows found only on the left, then only on the right.
    pub only_indices: [Vec<usize>; 2],
    /// Left and right rows of the matched pairs that differ, side by side.
    pub common_indices: [Vec<usize>; 2],
    pub diff_row_count: usize,
    pub diff_cell_count: usize,
    pub match_row_count: usize,
    pub match_cell_count: usize,
}

/// Compares two keyed tables: a merge-join on the keys, then a cell by cell
/// comparison of the non-key columns of each matched pair. Pairs that agree
/// everywhere are counted as matches; the others are kept, with the
/// per-column agreement of each.
pub fn compare_tables(lt: &KeyedTable, rt: &KeyedTable) -> (r: Comparison)
    requires
        lt.wf(),
        rt.wf(),
        lt.key_names() == rt.key_names(),
        lt.non_key_names() == rt.non_key_names(),
        lt.rows() * (lt.key_names().len() + lt.non_key_names().len()) <= usize::MAX,
    ensures
        ({
            let m = merge(lt.keys(), rt.keys(), lt.rows(), rt.rows());
            let (ln, rn, lc, rc) = (lt.non_keys(), rt.non_keys(), m.1, m.2);
            let nc = ln.len() as int;
            let d = diff_rows(ln, rn, lc, rc, nc, lc.len() as int);
            &&& r.only_indices[0]@ == m.0
            &&& r.only_indices[1]@ == m.3
            &&& r.common_indices[0]@ == Seq::new(d.len(), |k: int| lc[d[k]])
            &&& r.common_indices[1]@ == Seq::new(d.len(), |k: int| rc[d[k]])
            &&& r.tt@.len() == nc
            &&& forall|c: int| 0 <= c < nc ==> bits_of(#[trigger] r.tt@[c]) == Seq::new(d.len(), |k: int| cell_eq(ln, rn, lc, rc, c, d[k]))
            &&& r.diff_row_count == d.len()
            &&& r.match_row_count == lc.len() - d.len()
            &&& r.match_cell_count == lc.len() * lt.key_names().len() + count_cells(ln, rn, lc, rc, nc, lc.len() as int, true)
            &&& r.diff_cell_count == count_cells(ln, rn, lc, rc, nc, lc.len() as int, false)
        }),
{
    proof {
        lt.lemma_wf_lengths();
        rt.lemma_wf_lengths();
        lemma_merge_bounds(lt.keys(), rt.keys(), lt.rows() as int, rt.rows() as int, 0, 0);
    }
    let ghost m = merge(lt.keys(), rt.keys(), lt.rows(), rt.rows());
    let (lt_only, lt_common, rt_common, rt_only) = compare_key_cols(lt, rt);
    let ghost ln = lt.non_keys();
    let ghost rn = rt.non_keys();
    let ghost lc = lt_common@;
    let ghost rc = rt_common@;
    let np = lt_common.len();
    let nk = lt.key_columns().len();
    let ghost width = lt.key_names().len() + lt.non_key_names().len();
    assert(np * nk <= lt.rows() * width) by (nonlinear_arith)
        requires np <= lt.rows(), nk <= width;
    let mut match_cell_count: usize = np * nk;
    let mut diff_cell_count: usize = 0;

    let lt_non_key = lt.get_cols_mmaps(false);
    let rt_non_key = rt.get_cols_mmaps(false);
    let nc = lt_non_key.len();
    assert(np * nk + nc * np <= lt.rows() * width) by (nonlinear_arith)
        requires np <= lt.rows(), nk + nc == width;
    let mut full: Vec<Bits> = Vec::new();
    let mut is_match = Bits::repeat(true, np);
    let mut c: usize = 0;
    while c < nc
        invariant
            views(lt_non_key@) == ln,
            views(rt_non_key@) == rn,
            nc == ln.len() == rn.len(),
            lc == lt_common@,
            rc == rt_common@,
            np == lc.len() == rc.len(),
            np <= lt.rows() <= MAX_BITS,
            forall|p: int| 0 <= p < np ==> #[trigger] lc[p] < lt.rows(),
            forall|p: int| 0 <= p < np ==> #[trigger] rc[p] < rt.rows(),
            forall|q: int| 0 <= q < nc ==> (#[trigger] ln[q]).len() == lt.rows(),
            forall|q: int| 0 <= q < nc ==> (#[trigger] rn[q]).len() == rt.rows(),
            np * nk + nc * np <= usize::MAX,
            c <= nc,
            full@.len() == c,
            forall|q: int| 0 <= q < c ==> bits_of(#[trigger] full@[q]) == Seq::new(np as nat, |p: int| cell_eq(ln, rn, lc, rc, q, p)),
            bits_of(is_match) == Seq::new(np as nat, |p: int| row_eq(ln, rn, lc, rc, c as int, p)),
            match_cell_count == np * nk + count_cells(ln, rn, lc, rc, c as int, np as int, true),
            diff_cell_count == count_cells(ln, rn, lc, rc, c as int, np as int, false),
        decreases nc - c,
    {
        let mut col = Bits::new();
        let mut p: usize = 0;
        proof {
            lemma_count_cells_split(ln, rn, lc, rc, c as int, np as int);
            assert(c * np + np <= nc * np) by (nonlinear_arith)
                requires c < nc;
        }
        while p < np
            invariant
                views(lt_non_key@) == ln,
                views(rt_non_key@) == rn,
                nc == ln.len() == rn.len(),
                lc == lt_common@,
                rc == rt_common@,
                np == lc.len() == rc.len(),
                np <= lt.rows() <= MAX_BITS,
                forall|p: int| 0 <= p < np ==> #[trigger] lc[p] < lt.rows(),
                forall|p: int| 0 <= p < np ==> #[trigger] rc[p] < rt.rows(),
                forall|q: int| 0 <= q < nc ==> (#[trigger] ln[q]).len() == lt.rows(),
                forall|q: int| 0 <= q < nc ==> (#[trigger] rn[q]).len() == rt.rows(),
                c < nc,
                p <= np,
                np * nk + c * np + np <= usize::MAX,
                count_cells(ln, rn, lc, rc, c as int, np as int, true) + count_cells(ln, rn, lc, rc, c as int, np as int, false) == c * np,
                bits_of(col) == Seq::new(p as nat, |q: int| cell_eq(ln, rn, lc, rc, c as int, q)),
                bits_of(is_match) == Seq::new(np as nat, |q: int|
                    if q < p { row_eq(ln, rn, lc, rc, c + 1, q) } else { row_eq(ln, rn, lc, rc, c as int, q) }),
                match_cell_count == np * nk + count_cells(ln, rn, lc, rc, c as int, np as int, true) + count_col(ln, rn, lc, rc, c as int, p as int, true),
                diff_cell_count == count_cells(ln, rn, lc, rc, c as int, np as int, false) + count_col(ln, rn, lc, rc, c as int, p as int, false),
            decreases np - p,
        {
            proof {
                lemma_count_col_split(ln, rn, lc, rc, c as int, p as int);
                assert(lt_non_key@[c as int]@ == ln[c as int]);
                assert(rt_non_key@[c as int]@ == rn[c as int]);
            }
            let equal = lt_non_key[c][lt_common[p]] == rt_non_key[c][rt_common[p]];
            assert(equal == cell_eq(ln, rn, lc, rc, c as int, p as int));
            if equal {
                match_cell_count = match_cell_count + 1;
            } else {
                diff_cell_count = diff_cell_count + 1;
                is_match.set(p, false);
            }
            col.push(equal);
            proof {
                assert(row_eq(ln, rn, lc, rc, c + 1, p as int) == (row_eq(ln, rn, lc, rc, c as int, p as int) && equal));
                assert(bits_of(col) =~= Seq::new((p + 1) as nat, |q: int| cell_eq(ln, rn, lc, rc, c as int, q)));
                assert(bits_of(is_match) =~= Seq::new(np as nat, |q: int|
                    if q < p + 1 { row_eq(ln, rn, lc, rc, c + 1, q) } else { row_eq(ln, rn, lc, rc, c as int, q) }));
            }
            p = p + 1;
        }
        full.push(col);
        proof {
            assert(bits_of(is_match) =~= Seq::new(np as nat, |q: int| row_eq(ln, rn, lc, rc, c + 1, q)));
            assert(bits_of(full@[c as int]) =~= Seq::new(np as nat, |p: int| cell_eq(ln, rn, lc, rc, c as int, p)));
        }
        c = c + 1;
    }

    let ghost d_all = diff_rows(ln, rn, lc, rc, nc as int, np as int);
    let mut lt_diff: Vec<usize> = Vec::new();
    let mut rt_diff: Vec<usize> = Vec::new();
    let mut match_row_count: usize = 0;
    let mut diff_row_count: usize = 0;
    let mut p: usize = 0;
    while p < np
        invariant
            lc == lt_common@,
            rc == rt_common@,
            np == lc.len() == rc.len(),
            p <= np,
            bits_of(is_match) == Seq::new(np as nat, |q: int| row_eq(ln, rn, lc, rc, nc as int, q)),
            ({
                let d = diff_rows(ln, rn, lc, rc, nc as int, p as int);
                &&& lt_diff@ == Seq::new(d.len(), |k: int| lc[d[k]])
                &&& rt_diff@ == Seq::new(d.len(), |k: int| rc[d[k]])
                &&& diff_row_count == d.len()
                &&& match_row_count == p - d.len()
            }),
        decreases np - p,
    {
        proof {
            lemma_diff_rows_bounds(ln, rn, lc, rc, nc as int, p as int);
        }
        let ghost d = diff_rows(ln, rn, lc, rc, nc as int, p as int);
        let ghost d2 = diff_rows(ln, rn, lc, rc, nc as int, p + 1);
        if is_match.get(p) {
            match_row_count = match_row_count + 1;
        } else {
            diff_row_count = diff_row_count + 1;
            lt_diff.push(lt_common[p]);
            rt_diff.push(rt_common[p]);
        }
        proof {
            assert(lt_diff@ =~= Seq::new(d2.len(), |k: int| lc[d2[k]]));
            assert(rt_diff@ =~= Seq::new(d2.len(), |k: int| rc[d2[k]]));
        }
        p = p + 1;
    }

    let mut tt: Vec<Bits> = Vec::new();
    let mut c: usize = 0;
    while c < nc
        invariant
            nc == ln.len(),
            np == lc.len(),
            np <= MAX_BITS,
            full@.len() == nc,
            forall|q: int| 0 <= q < nc ==> bits_of(#[trigger] full@[q]) == Seq::new(np as nat, |p: int| cell_eq(ln, rn, lc, rc, q, p)),
            bits_of(is_match) == Seq::new(np as nat, |q: int| row_eq(ln, rn, lc, rc, nc as int, q)),
            c <= nc,
            tt@.len() == c,
            forall|q: int| 0 <= q < c ==> bits_of(#[trigger] tt@[q]) == Seq::new(d_all.len(), |k: int| cell_eq(ln, rn, lc, rc, q, d_all[k])),
            d_all == diff_rows(ln, rn, lc, rc, nc as int, np as int),
        decreases nc - c,
    {
        let mut col = Bits::new();
        let mut p: usize = 0;
        while p < np
            invariant
                nc == ln.len(),
                np == lc.len(),
                np <= MAX_BITS,
                c < nc,
                full@.len() == nc,
                bits_of(full@[c as int]) == Seq::new(np as nat, |p: int| cell_eq(ln, rn, lc, rc, c as int, p)),
                bits_of(is_match) == Seq::new(np as nat, |q: int| row_eq(ln, rn, lc, rc, nc as int, q)),
                p <= np,
                ({
                    let d = diff_rows(ln, rn, lc, rc, nc as int, p as int);
                    bits_of(col) == Seq::new(d.len(), |k: int| cell_eq(ln, rn, lc, rc, c as int, d[k]))
                }),
            decreases np - p,
        {
            proof {
                lemma_diff_rows_bounds(ln, rn, lc, rc, nc as int, p as int);
            }
            let ghost d2 = diff_rows(ln, rn, lc, rc, nc as int, p + 1);
            if !is_match.get(p) {
                col.push(full[c].get(p));
            }
            proof {
                assert(bits_of(col) =~= Seq::new(d2.len(), |k: int| cell_eq(ln, rn, lc, rc, c as int, d2[k])));
            }
            p = p + 1;
        }
        tt.push(col);
        c = c + 1;
    }

    Comparison {
        tt,
        only_indices: [lt_only, rt_only],
        common_indices: [lt_diff, rt_diff],
        diff_row_count,
        diff_cell_count,
        match_row_count,
        match_cell_count,
    }
}

} // verus!

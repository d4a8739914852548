use vstd::prelude::*;
use crate::bits::MAX_BITS;
use crate::column::{gathered, is_permutation};
use crate::table::{contains, Table, TableError};
use std::cmp::Ordering;

verus! {

/// The id sequences behind a list of column views.
pub open spec fn views(v: Seq<&[usize]>) -> Seq<Seq<usize>> {
    Seq::new(v.len(), |c: int| v[c]@)
}

/// Compares row `i` of the columns `a` with row `j` of the columns `b`, from
/// column `k` on: the first column whose two ids differ decides, the lower
/// id being less; pairs of columns are taken while both lists have one.
pub open spec fn lex_from(a: Seq<Seq<usize>>, b: Seq<Seq<usize>>, i: int, j: int, k: int) -> Ordering
    decreases a.len() - k,
{
    if k < 0 || k >= a.len() || k >= b.len() {
        Ordering::Equal
    } else if a[k][i] < b[k][j] {
        Ordering::Less
    } else if a[k][i] > b[k][j] {
        Ordering::Greater
    } else {
        lex_from(a, b, i, j, k + 1)
    }
}

/// The key order of row `i` of `a` against row `j` of `b`.
pub open spec fn key_cmp(a: Seq<Seq<usize>>, b: Seq<Seq<usize>>, i: int, j: int) -> Ordering {
    lex_from(a, b, i, j, 0)
}

/// Rows `0..n` of `keys` are in non-decreasing key order.
pub open spec fn keys_sorted(keys: Seq<Seq<usize>>, n: nat) -> bool {
    forall|i: int, j: int| 0 <= i < j < n ==> key_cmp(keys, keys, i, j) != Ordering::Greater
}

/// `new` is `old` with one and the same permutation of rows applied to
/// every column.
pub open spec fn reordered(old: Seq<Seq<usize>>, new: Seq<Seq<usize>>, n: nat) -> bool {
    exists|ord: Seq<usize>|
        #[trigger] is_permutation(ord, n) && new.len() == old.len() && forall|c: int|
            0 <= c < old.len() ==> new[c] == gathered(old[c], ord)
}

/// The names of `names` that are not keys, in their order.
pub open spec fn non_keys_of(names: Seq<usize>, keys: Seq<usize>) -> Seq<usize>
    decreases names.len(),
{
    if names.len() == 0 {
        Seq::empty()
    } else {
        let front = non_keys_of(names.drop_last(), keys);
        if keys.contains(names.last()) {
            front
        } else {
            front.push(names.last())
        }
    }
}

/// The identity row order `0..n`.
pub open spec fn identity(n: nat) -> Seq<usize> {
    Seq::new(n, |i: int| i as usize)
}

/// Compares row `idx1` of `slices1` with row `idx2` of `slices2` by key.
pub fn compare_indices(slices1: &Vec<&[usize]>, slices2: &Vec<&[usize]>, idx1: usize, idx2: usize) -> (r: Ordering)
    requires
        forall|c: int| 0 <= c < slices1@.len() ==> idx1 < (#[trigger] slices1@[c])@.len(),
        forall|c: int| 0 <= c < slices2@.len() ==> idx2 < (#[trigger] slices2@[c])@.len(),
    ensures
        r == key_cmp(views(slices1@), views(slices2@), idx1 as int, idx2 as int),
{
    let ghost a = views(slices1@);
    let ghost b = views(slices2@);
    let mut k: usize = 0;
    while k < slices1.len() && k < slices2.len()
        invariant
            a == views(slices1@),
            b == views(slices2@),
            k <= slices1@.len(),
            forall|c: int| 0 <= c < slices1@.len() ==> idx1 < (#[trigger] slices1@[c])@.len(),
            forall|c: int| 0 <= c < slices2@.len() ==> idx2 < (#[trigger] slices2@[c])@.len(),
            lex_from(a, b, idx1 as int, idx2 as int, 0) == lex_from(a, b, idx1 as int, idx2 as int, k as int),
        decreases slices1@.len() - k,
    {
        let s1 = slices1[k][idx1];
        let s2 = slices2[k][idx2];
        if s1 < s2 {
            return Ordering::Less;
        } else if s1 > s2 {
            return Ordering::Greater;
        }
        k = k + 1;
    }
    Ordering::Equal
}

/// Relies on `slice::sort_by`: afterwards the slice holds the same items, in
/// the order that the comparator gives (the key order is total).
#[verifier::external_body]
fn sort_rows(indices: &mut Vec<usize>, keys: &Vec<&[usize]>)
    requires
        forall|i: int, c: int|
            0 <= i < old(indices)@.len() && 0 <= c < keys@.len() ==> #[trigger] old(indices)@[i] < (#[trigger] keys@[c])@.len(),
    ensures
        final(indices)@.to_multiset() == old(indices)@.to_multiset(),
        forall|i: int, j: int|
            0 <= i < j < final(indices)@.len() ==> key_cmp(views(keys@), views(keys@), #[trigger] final(indices)@[i] as int, #[trigger] final(indices)@[j] as int)
                != Ordering::Greater,
{
    indices.sort_by(|&a, &b| compare_indices(keys, keys, a, b))
}

proof fn lemma_same_items_is_permutation(s: Seq<usize>, n: nat)
    requires
        s.to_multiset() == identity(n).to_multiset(),
        n <= usize::MAX,
    ensures
        is_permutation(s, n),
{
    broadcast use vstd::seq_lib::group_to_multiset_ensures;

    let id = identity(n);
    assert forall|i: int, j: int| 0 <= i < id.len() && 0 <= j < id.len() && i != j implies id[i] != id[j] by {}
    assert(id.no_duplicates());
    id.lemma_multiset_has_no_duplicates();
    s.lemma_multiset_has_no_duplicates_conv();
    assert(s.len() == s.to_multiset().len());
    assert(id.len() == id.to_multiset().len());
    assert forall|i: int| 0 <= i < s.len() implies #[trigger] s[i] < n by {
        assert(s.contains(s[i]));
        assert(s.to_multiset().count(s[i]) > 0);
        assert(id.contains(s[i]));
    }
}

proof fn lemma_lex_gathered(keys: Seq<Seq<usize>>, ord: Seq<usize>, n: nat, i: int, j: int, k: int)
    requires
        is_permutation(ord, n),
        forall|c: int| 0 <= c < keys.len() ==> (#[trigger] keys[c]).len() == n,
        0 <= i < n,
        0 <= j < n,
    ensures
        ({
            let g = Seq::new(keys.len(), |c: int| gathered(keys[c], ord));
            lex_from(g, g, i, j, k) == lex_from(keys, keys, ord[i] as int, ord[j] as int, k)
        }),
    decreases keys.len() - k,
{
    let g = Seq::new(keys.len(), |c: int| gathered(keys[c], ord));
    if 0 <= k < keys.len() {
        assert(g[k][i] == keys[k][ord[i] as int]);
        assert(g[k][j] == keys[k][ord[j] as int]);
        lemma_lex_gathered(keys, ord, n, i, j, k + 1);
    }
}

/// Row alignment survives a key sort: when one column numbered the rows
/// before the sort, then after it every column's value at row `i` is the
/// value that column held at the row whose number now stands at `i`.
pub proof fn lemma_sort_keeps_rows_aligned(before: Seq<Seq<usize>>, after: Seq<Seq<usize>>, n: nat, numbered: int)
    requires
        reordered(before, after, n),
        0 <= numbered < before.len(),
        before[numbered] == identity(n),
    ensures
        after.len() == before.len(),
        forall|c: int, i: int| 0 <= c < before.len() && 0 <= i < n ==> {
            &&& after[numbered][i] < n
            &&& #[trigger] after[c][i] == before[c][after[numbered][i] as int]
        },
{
    let ord = choose|ord: Seq<usize>|
        #[trigger] is_permutation(ord, n) && after.len() == before.len() && forall|c: int|
            0 <= c < before.len() ==> after[c] == gathered(before[c], ord);
    assert forall|c: int, i: int| 0 <= c < before.len() && 0 <= i < n implies {
        &&& after[numbered][i] < n
        &&& #[trigger] after[c][i] == before[c][after[numbered][i] as int]
    } by {
        assert(after[numbered] == gathered(before[numbered], ord));
        assert(after[c] == gathered(before[c], ord));
        assert(ord[i] < n);
        assert(after[numbered][i] == ord[i]);
    }
}

/// A table whose columns are split into ordered key columns and the other,
/// non-key, columns.
pub struct KeyedTable {
    tbl: Table,
    key_columns: Vec<usize>,
    non_key_columns: Vec<usize>,
    key_pos: Vec<usize>,
    non_key_pos: Vec<usize>,
}

impl KeyedTable {
    /// The common row count.
    pub closed spec fn rows(&self) -> nat {
        self.tbl.rows()
    }

    /// Every column, in the table's order.
    pub closed spec fn columns(&self) -> Seq<Seq<usize>> {
        self.tbl.columns()
    }

    /// Names of every column, in the table's order.
    pub closed spec fn names(&self) -> Seq<usize> {
        self.tbl.names()
    }

    /// Names of the key columns, in key order.
    pub closed spec fn key_names(&self) -> Seq<usize> {
        self.key_columns@
    }

    /// Names of the non-key columns, in table order.
    pub closed spec fn non_key_names(&self) -> Seq<usize> {
        self.non_key_columns@
    }

    /// The key columns' contents, in key order.
    pub closed spec fn keys(&self) -> Seq<Seq<usize>> {
        Seq::new(self.key_pos@.len(), |c: int| self.tbl.columns()[self.key_pos@[c] as int])
    }

    /// The non-key columns' contents, in table order.
    pub closed spec fn non_keys(&self) -> Seq<Seq<usize>> {
        Seq::new(self.non_key_pos@.len(), |c: int| self.tbl.columns()[self.non_key_pos@[c] as int])
    }

    /// Keys a finalized table by `key_columns`; every other column, in the
    /// table's order, is a non-key column.
    pub fn new(tbl: Table, key_columns: &Vec<usize>) -> (r: Result<KeyedTable, TableError>)
        requires
            tbl.wf(),
            tbl.is_finalized(),
        ensures
            r is Err <==> exists|c: int| 0 <= c < key_columns@.len() && !tbl.names().contains(#[trigger] key_columns@[c]),
            r is Err ==> r->Err_0 == TableError::MissingKeyColumn,
            r is Ok ==> {
                let kt = r->Ok_0;
                &&& kt.wf()
                &&& kt.rows() == tbl.rows()
                &&& kt.columns() == tbl.columns()
                &&& kt.names() == tbl.names()
                &&& kt.key_names() == key_columns@
                &&& kt.non_key_names() == non_keys_of(tbl.names(), key_columns@)
            },
    {
        let mut key_pos: Vec<usize> = Vec::new();
        let mut c: usize = 0;
        while c < key_columns.len()
            invariant
                tbl.wf(),
                c <= key_columns@.len(),
                key_pos@.len() == c,
                forall|q: int| 0 <= q < c ==> #[trigger] key_pos@[q] < tbl.names().len() && tbl.names()[key_pos@[q] as int] == key_columns@[q],
            decreases key_columns@.len() - c,
        {
            match tbl.position_of(key_columns[c]) {
                Some(p) => key_pos.push(p),
                None => {
                    return Err(TableError::MissingKeyColumn);
                }
            }
            c = c + 1;
        }
        proof {
            assert forall|q: int| 0 <= q < key_columns@.len() implies tbl.names().contains(#[trigger] key_columns@[q]) by {
                assert(tbl.names()[key_pos@[q] as int] == key_columns@[q]);
            }
        }
        let mut non_key_columns: Vec<usize> = Vec::new();
        let mut non_key_pos: Vec<usize> = Vec::new();
        let ghost names = tbl.names();
        let num = tbl.num_columns();
        let mut j: usize = 0;
        while j < num
            invariant
                tbl.wf(),
                names == tbl.names(),
                num == names.len(),
                j <= names.len(),
                non_key_pos@.len() == non_key_columns@.len(),
                non_key_columns@ == non_keys_of(names.subrange(0, j as int), key_columns@),
                forall|q: int| 0 <= q < non_key_pos@.len() ==> #[trigger] non_key_pos@[q] < names.len() && names[non_key_pos@[q] as int] == non_key_columns@[q],
            decreases names.len() - j,
        {
            assert(names.subrange(0, j + 1).drop_last() == names.subrange(0, j as int));
            let name = tbl.name_at(j);
            if !contains(key_columns, name) {
                non_key_columns.push(name);
                non_key_pos.push(j);
            }
            j = j + 1;
        }
        assert(names.subrange(0, names.len() as int) == names);
        let key_names = key_columns.clone();
        proof {
            assert(key_names@ == key_columns@);
        }
        Ok(KeyedTable { tbl, key_columns: key_names, non_key_columns, key_pos, non_key_pos })
    }

    /// The common row count.
    pub fn len(&self) -> (n: usize)
        requires
            self.wf(),
        ensures
            n == self.rows(),
    {
        self.tbl.len()
    }

    /// Names of the key columns, in key order.
    pub fn key_columns(&self) -> (r: &Vec<usize>)
        ensures
            r@ == self.key_names(),
    {
        &self.key_columns
    }

    /// Names of the non-key columns, in table order.
    pub fn non_key_columns(&self) -> (r: &Vec<usize>)
        ensures
            r@ == self.non_key_names(),
    {
        &self.non_key_columns
    }

    /// Read-only views of the key columns (`key`) or of the non-key columns.
    pub fn get_cols_mmaps(&self, key: bool) -> (r: Vec<&[usize]>)
        requires
            self.wf(),
        ensures
            key ==> views(r@) == self.keys(),
            !key ==> views(r@) == self.non_keys(),
    {
        let pos = if key { &self.key_pos } else { &self.non_key_pos };
        let mut r: Vec<&[usize]> = Vec::new();
        let mut c: usize = 0;
        proof {
            self.tbl.lemma_wf();
        }
        while c < pos.len()
            invariant
                self.wf(),
                self.tbl.columns().len() == self.tbl.names().len(),
                key ==> pos == &self.key_pos,
                !key ==> pos == &self.non_key_pos,
                c <= pos@.len(),
                r@.len() == c,
                forall|q: int| 0 <= q < c ==> (#[trigger] r@[q])@ == self.tbl.columns()[pos@[q] as int],
            decreases pos@.len() - c,
        {
            r.push(self.tbl.column_view(pos[c]));
            c = c + 1;
        }
        r
    }

    /// Sorts the rows by key. The row order is computed once from the key
    /// columns, then applied to every column, so each row stays whole.
    pub fn sort_by_key_columns(&mut self)
        requires
            old(self).wf(),
        ensures
            final(self).wf(),
            final(self).rows() == old(self).rows(),
            final(self).names() == old(self).names(),
            final(self).key_names() == old(self).key_names(),
            final(self).non_key_names() == old(self).non_key_names(),
            reordered(old(self).columns(), final(self).columns(), old(self).rows()),
            keys_sorted(final(self).keys(), final(self).rows()),
    {
        proof {
            self.lemma_wf_lengths();
            self.tbl.lemma_wf();
        }
        let n = self.tbl.len();
        let mut indices: Vec<usize> = Vec::new();
        let mut i: usize = 0;
        while i < n
            invariant
                i <= n,
                indices@ == identity(i as nat),
            decreases n - i,
        {
            indices.push(i);
            i = i + 1;
            assert(indices@ =~= identity(i as nat));
        }
        let ghost start = indices@;
        {
            let keys = self.get_cols_mmaps(true);
            assert forall|i: int, c: int|
                0 <= i < indices@.len() && 0 <= c < keys@.len() implies #[trigger] indices@[i] < (#[trigger] keys@[c])@.len() by {
                assert(keys@[c]@ == views(keys@)[c]);
            }
            sort_rows(&mut indices, &keys);
            proof {
                lemma_same_items_is_permutation(indices@, n as nat);
            }
        }
        let ghost ord = indices@;
        let ghost old_cols = self.tbl.columns();
        let ghost old_keys = self.keys();
        self.tbl.permute_all(indices.as_slice());
        proof {
            let g = Seq::new(old_keys.len(), |c: int| gathered(old_keys[c], ord));
            assert(self.keys() =~= g);
            assert forall|i: int, j: int| 0 <= i < j < self.rows() implies key_cmp(self.keys(), self.keys(), i, j) != Ordering::Greater by {
                lemma_lex_gathered(old_keys, ord, n as nat, i, j, 0);
            }
            assert(is_permutation(ord, n as nat));
        }
    }

    /// The key and non-key lists name columns of a finalized table, and the
    /// non-key list is every other column in table order.
    pub closed spec fn wf(&self) -> bool {
        &&& self.tbl.wf()
        &&& self.tbl.is_finalized()
        &&& self.key_pos@.len() == self.key_columns@.len()
        &&& self.non_key_pos@.len() == self.non_key_columns@.len()
        &&& forall|c: int| 0 <= c < self.key_pos@.len() ==> #[trigger] self.key_pos@[c] < self.tbl.names().len()
        &&& forall|c: int| 0 <= c < self.key_pos@.len() ==> self.tbl.names()[#[trigger] self.key_pos@[c] as int] == self.key_columns@[c]
        &&& forall|c: int| 0 <= c < self.non_key_pos@.len() ==> #[trigger] self.non_key_pos@[c] < self.tbl.names().len()
        &&& forall|c: int| 0 <= c < self.non_key_pos@.len() ==> self.tbl.names()[#[trigger] self.non_key_pos@[c] as int] == self.non_key_columns@[c]
        &&& self.non_key_columns@ == non_keys_of(self.tbl.names(), self.key_columns@)
    }

    /// Each key and non-key column is the table's column of that name.
    pub proof fn lemma_named_columns(&self)
        requires
            self.wf(),
        ensures
            self.names().no_duplicates(),
            self.columns().len() == self.names().len(),
            forall|c: int, p: int| #![trigger self.keys()[c], self.columns()[p]]
                0 <= c < self.keys().len() && 0 <= p < self.names().len()
                && self.names()[p] == self.key_names()[c] ==> self.keys()[c] == self.columns()[p],
            forall|c: int, p: int| #![trigger self.non_keys()[c], self.columns()[p]]
                0 <= c < self.non_keys().len() && 0 <= p < self.names().len()
                && self.names()[p] == self.non_key_names()[c] ==> self.non_keys()[c] == self.columns()[p],
    {
        self.tbl.lemma_wf();
        assert forall|c: int, p: int| #![trigger self.keys()[c], self.columns()[p]]
            0 <= c < self.keys().len() && 0 <= p < self.names().len()
            && self.names()[p] == self.key_names()[c] implies self.keys()[c] == self.columns()[p] by {
            assert(self.names()[self.key_pos@[c] as int] == self.key_names()[c]);
        }
        assert forall|c: int, p: int| #![trigger self.non_keys()[c], self.columns()[p]]
            0 <= c < self.non_keys().len() && 0 <= p < self.names().len()
            && self.names()[p] == self.non_key_names()[c] implies self.non_keys()[c] == self.columns()[p] by {
            assert(self.names()[self.non_key_pos@[c] as int] == self.non_key_names()[c]);
        }
    }

    /// Every column of a well-formed keyed table has one entry per row.
    pub proof fn lemma_wf_lengths(&self)
        requires
            self.wf(),
        ensures
            self.rows() <= MAX_BITS,
            self.keys().len() == self.key_names().len(),
            self.non_keys().len() == self.non_key_names().len(),
            forall|c: int| 0 <= c < self.keys().len() ==> (#[trigger] self.keys()[c]).len() == self.rows(),
            forall|c: int| 0 <= c < self.non_keys().len() ==> (#[trigger] self.non_keys()[c]).len() == self.rows(),
            forall|c: int| 0 <= c < self.columns().len() ==> (#[trigger] self.columns()[c]).len() == self.rows(),
    {
        self.tbl.lemma_wf();
    }
}

} // verus!

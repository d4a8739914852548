use vstd::prelude::*;
use crate::bits::MAX_BITS;
use crate::column::{gathered, is_permutation, Column};
use crate::sym::{interned_of, trim_field, trimmed, Interner};
use indexmap::IndexSet;
use std::hash::RandomState;

verus! {

#[verifier::external_type_specification]
#[verifier::external_body]
#[verifier::reject_recursive_types(T)]
#[verifier::reject_recursive_types(S)]
pub struct ExIndexSet<T, S>(IndexSet<T, S>);

/// The ids held by an insertion-ordered id set, in insertion order.
pub uninterp spec fn items_of(s: IndexSet<usize, RandomState>) -> Seq<usize>;

/// Relies on `IndexSet::new`: an empty set.
#[verifier::external_body]
fn names_new() -> (s: IndexSet<usize, RandomState>)
    ensures
        items_of(s) == Seq::<usize>::empty(),
{
    IndexSet::new()
}

/// Relies on `IndexSet::insert_full`: a new id goes last, with its index
/// and `true`; one already held stays where it is, and its index comes
/// back with `false`.
#[verifier::external_body]
fn names_insert(s: &mut IndexSet<usize, RandomState>, x: usize) -> (r: (usize, bool))
    ensures
        items_of(*final(s)).no_duplicates(),
        items_of(*old(s)).contains(x) ==> {
            &&& items_of(*final(s)) == items_of(*old(s))
            &&& !r.1
            &&& r.0 < items_of(*old(s)).len()
            &&& items_of(*old(s))[r.0 as int] == x
        },
        !items_of(*old(s)).contains(x) ==> {
            &&& items_of(*final(s)) == items_of(*old(s)).push(x)
            &&& r == (items_of(*old(s)).len() as usize, true)
        },
{
    s.insert_full(x)
}

/// Relies on `IndexSet::get_index_of`: the index of `x`, if held.
#[verifier::external_body]
fn names_index_of(s: &IndexSet<usize, RandomState>, x: usize) -> (r: Option<usize>)
    ensures
        r is None <==> !items_of(*s).contains(x),
        r is Some ==> r->Some_0 < items_of(*s).len() && items_of(*s)[r->Some_0 as int] == x,
{
    s.get_index_of(&x)
}

/// Relies on indexing an `IndexSet`: the id at index `i`.
#[verifier::external_body]
fn names_at(s: &IndexSet<usize, RandomState>, i: usize) -> (r: usize)
    requires
        i < items_of(*s).len(),
    ensures
        r == items_of(*s)[i as int],
{
    s[i]
}

/// Why a table could not be built or keyed.
#[derive(Debug, Clone, Copy, PartialEq, Eq, Structural)]
pub enum TableError {
    /// A record does not have one field per header.
    RecordLength,
    /// The dictionary has no room for the record's fields.
    SymbolSpaceFull,
    /// The table already holds the largest number of rows it can sort.
    TooManyRows,
    /// A key column is not among the table's columns.
    MissingKeyColumn,
}

/// Header positions to keep: those whose symbol is to be read and does not
/// repeat an earlier header.
pub open spec fn retained(hdrs: Seq<usize>, to_read: Seq<usize>) -> Seq<usize>
    decreases hdrs.len(),
{
    if hdrs.len() == 0 {
        Seq::empty()
    } else {
        let front = hdrs.drop_last();
        let k = (hdrs.len() - 1) as usize;
        if to_read.contains(hdrs.last()) && !front.contains(hdrs.last()) {
            retained(front, to_read).push(k)
        } else {
            retained(front, to_read)
        }
    }
}

/// An ordered set of named columns of equal length, built one record at a
/// time from a delimited source.
pub struct Table {
    headers: Vec<usize>,
    fields: Vec<usize>,
    names: IndexSet<usize, RandomState>,
    cols: Vec<Column>,
    rows: usize,
    finalized: bool,
}

impl Table {
    /// Symbol of each header field, in source order.
    pub closed spec fn header_syms(&self) -> Seq<usize> {
        self.headers@
    }

    /// Names of the retained columns, in header order.
    pub closed spec fn names(&self) -> Seq<usize> {
        items_of(self.names)
    }

    /// Header position of each retained column.
    pub closed spec fn fields(&self) -> Seq<usize> {
        self.fields@
    }

    /// Contents of each retained column.
    pub closed spec fn columns(&self) -> Seq<Seq<usize>> {
        Seq::new(self.cols@.len(), |j: int| self.cols@[j]@)
    }

    /// The common row count.
    pub closed spec fn rows(&self) -> nat {
        self.rows as nat
    }

    /// Whether every column has been finalized.
    pub closed spec fn is_finalized(&self) -> bool {
        self.finalized
    }

    pub closed spec fn wf(&self) -> bool {
        &&& items_of(self.names).len() == self.cols@.len() == self.fields@.len()
        &&& items_of(self.names).no_duplicates()
        &&& self.rows <= MAX_BITS
        &&& forall|j: int| 0 <= j < self.fields@.len() ==> #[trigger] self.fields@[j] < self.headers@.len()
        &&& forall|j: int| 0 <= j < self.fields@.len() ==> items_of(self.names)[j] == self.headers@[#[trigger] self.fields@[j] as int]
        &&& forall|j: int| 0 <= j < self.cols@.len() ==> (#[trigger] self.cols@[j])@.len() == self.rows
        &&& forall|j: int| 0 <= j < self.cols@.len() ==> (#[trigger] self.cols@[j]).is_finalized() == self.finalized
    }

    /// What well-formedness says of the public views.
    pub proof fn lemma_wf(&self)
        requires
            self.wf(),
        ensures
            self.columns().len() == self.names().len() == self.fields().len(),
            self.names().no_duplicates(),
            self.rows() <= MAX_BITS,
            forall|c: int| 0 <= c < self.columns().len() ==> (#[trigger] self.columns()[c]).len() == self.rows(),
    {
    }

    /// The number of retained columns.
    pub fn num_columns(&self) -> (n: usize)
        requires
            self.wf(),
        ensures
            n == self.names().len(),
    {
        self.cols.len()
    }

    /// The name of column `j`.
    pub fn name_at(&self, j: usize) -> (r: usize)
        requires
            j < self.names().len(),
        ensures
            r == self.names()[j as int],
    {
        names_at(&self.names, j)
    }

    /// The position of the column named `name`, if there is one.
    pub fn position_of(&self, name: usize) -> (r: Option<usize>)
        ensures
            r is None <==> !self.names().contains(name),
            r is Some ==> r->Some_0 < self.names().len() && self.names()[r->Some_0 as int] == name,
    {
        names_index_of(&self.names, name)
    }

    /// A read-only view of column `j`.
    pub fn column_view(&self, j: usize) -> (r: &[usize])
        requires
            self.wf(),
            self.is_finalized(),
            j < self.columns().len(),
        ensures
            r@ == self.columns()[j as int],
    {
        self.cols[j].get_mmap()
    }

    /// Applies one row permutation to every column: afterwards row `i` of
    /// each column holds what its row `order[i]` held.
    pub fn permute_all(&mut self, order: &[usize])
        requires
            old(self).wf(),
            old(self).is_finalized(),
            is_permutation(order@, old(self).rows()),
        ensures
            final(self).wf(),
            final(self).is_finalized(),
            final(self).header_syms() == old(self).header_syms(),
            final(self).names() == old(self).names(),
            final(self).fields() == old(self).fields(),
            final(self).rows() == old(self).rows(),
            final(self).columns().len() == old(self).columns().len(),
            forall|j: int| 0 <= j < old(self).columns().len() ==>
                #[trigger] final(self).columns()[j] == gathered(old(self).columns()[j], order@),
    {
        let ghost old_cols = self.columns();
        let mut j: usize = 0;
        while j < self.cols.len()
            invariant
                items_of(self.names).len() == self.cols@.len() == self.fields@.len(),
                items_of(self.names).no_duplicates(),
                self.rows <= MAX_BITS,
                self.finalized,
                is_permutation(order@, self.rows as nat),
                forall|q: int| 0 <= q < self.fields@.len() ==> #[trigger] self.fields@[q] < self.headers@.len(),
                forall|q: int| 0 <= q < self.fields@.len() ==> items_of(self.names)[q] == self.headers@[#[trigger] self.fields@[q] as int],
                items_of(self.names) == items_of(old(self).names),
                self.fields@ == old(self).fields@,
                self.headers@ == old(self).headers@,
                self.rows == old(self).rows,
                old_cols == old(self).columns(),
                old_cols.len() == self.cols@.len(),
                j <= self.cols@.len(),
                forall|q: int| j <= q < self.cols@.len() ==> (#[trigger] self.cols@[q])@ == old_cols[q],
                forall|q: int| 0 <= q < j ==> (#[trigger] self.cols@[q])@ == gathered(old_cols[q], order@),
                forall|q: int| 0 <= q < self.cols@.len() ==> (#[trigger] self.cols@[q])@.len() == self.rows,
                forall|q: int| 0 <= q < self.cols@.len() ==> (#[trigger] self.cols@[q]).is_finalized(),
            decreases self.cols@.len() - j,
        {
            self.cols[j].sort_by_indices(order);
            j = j + 1;
        }
        proof {
            assert forall|j: int| 0 <= j < old_cols.len() implies
                #[trigger] self.columns()[j] == gathered(old_cols[j], order@) by {
                assert(self.columns()[j] == self.cols@[j]@);
            }
        }
    }

    /// Appends one source record: the trimmed field under each retained
    /// header is interned and its id appended to that header's column.
    pub fn push_record(&mut self, record: &Vec<String>, interner: &mut Interner) -> (r: Result<(), TableError>)
        requires
            old(self).wf(),
            !old(self).is_finalized(),
        ensures
            final(self).wf(),
            !final(self).is_finalized(),
            final(self).header_syms() == old(self).header_syms(),
            final(self).names() == old(self).names(),
            final(self).fields() == old(self).fields(),
            r == Err::<(), TableError>(TableError::RecordLength) <==> record@.len() != old(self).header_syms().len(),
            r == Err::<(), TableError>(TableError::TooManyRows) <==> record@.len() == old(self).header_syms().len()
                && old(self).rows() == MAX_BITS,
            r == Err::<(), TableError>(TableError::SymbolSpaceFull) <==> record@.len() == old(self).header_syms().len()
                && old(self).rows() < MAX_BITS
                && interned_of(*old(interner)).len() + old(self).names().len() >= usize::MAX,
            r is Err ==> r->Err_0 != TableError::MissingKeyColumn && *final(self) == *old(self)
                && interned_of(*final(interner)) == interned_of(*old(interner)),
            interned_of(*final(interner)).len() >= interned_of(*old(interner)).len(),
            interned_of(*final(interner)).subrange(0, interned_of(*old(interner)).len() as int) == interned_of(*old(interner)),
            r is Ok ==> {
                &&& final(self).rows() == old(self).rows() + 1
                &&& final(self).columns().len() == old(self).columns().len()
                &&& forall|j: int| 0 <= j < old(self).columns().len() ==> {
                    let id = (#[trigger] final(self).columns()[j]).last();
                    &&& final(self).columns()[j] == old(self).columns()[j].push(id)
                    &&& id < interned_of(*final(interner)).len()
                    &&& interned_of(*final(interner))[id as int] == trimmed(record@[old(self).fields()[j] as int]@)
                }
            },
    {
        if record.len() != self.headers.len() {
            return Err(TableError::RecordLength);
        }
        if self.rows == MAX_BITS {
            return Err(TableError::TooManyRows);
        }
        if interner.len() >= usize::MAX - self.cols.len() {
            return Err(TableError::SymbolSpaceFull);
        }
        let ghost start = interned_of(*interner);
        let ghost old_cols = self.columns();
        let mut j: usize = 0;
        while j < self.cols.len()
            invariant
                items_of(self.names).len() == self.cols@.len() == self.fields@.len(),
                items_of(self.names).no_duplicates(),
                self.rows < MAX_BITS,
                !self.finalized,
                record@.len() == self.headers@.len(),
                old_cols.len() == self.cols@.len(),
                j <= self.cols@.len(),
                forall|q: int| 0 <= q < self.fields@.len() ==> #[trigger] self.fields@[q] < self.headers@.len(),
                forall|q: int| 0 <= q < self.fields@.len() ==> items_of(self.names)[q] == self.headers@[#[trigger] self.fields@[q] as int],
                items_of(self.names) == items_of(old(self).names),
                self.fields@ == old(self).fields@,
                self.headers@ == old(self).headers@,
                self.rows == old(self).rows,
                old_cols == old(self).columns(),
                interned_of(*interner).len() + items_of(self.names).len() - j < usize::MAX,
                interned_of(*interner).len() >= start.len(),
                interned_of(*interner).subrange(0, start.len() as int) == start,
                forall|q: int| 0 <= q < self.cols@.len() ==> !(#[trigger] self.cols@[q]).is_finalized(),
                forall|q: int| j <= q < self.cols@.len() ==> (#[trigger] self.cols@[q])@ == old_cols[q],
                forall|q: int| 0 <= q < j ==> {
                    let id = (#[trigger] self.cols@[q])@.last();
                    &&& self.cols@[q]@ == old_cols[q].push(id)
                    &&& id < interned_of(*interner).len()
                    &&& interned_of(*interner)[id as int] == trimmed(record@[self.fields@[q] as int]@)
                },
            decreases self.cols@.len() - j,
        {
            let ghost before = interned_of(*interner);
            let field = trim_field(record[self.fields[j]].as_str());
            let sym = interner.get_or_intern(field);
            self.cols[j].write(sym);
            proof {
                assert(interned_of(*interner).subrange(0, before.len() as int) == before);
                assert(interned_of(*interner).subrange(0, start.len() as int)
                    == before.subrange(0, start.len() as int));
                assert forall|q: int| 0 <= q < j implies interned_of(*interner)[(#[trigger] self.cols@[q])@.last() as int]
                    == before[self.cols@[q]@.last() as int] by {}
            }
            j = j + 1;
        }
        self.rows = self.rows + 1;
        proof {
            assert forall|q: int| 0 <= q < old_cols.len() implies (#[trigger] self.columns()[q]) == old(self).columns()[q].push(self.columns()[q].last()) by {
                assert(self.columns()[q] == self.cols@[q]@);
            }
        }
        Ok(())
    }

    /// Ends the building phase of every column.
    pub fn flush(&mut self)
        requires
            old(self).wf(),
        ensures
            final(self).wf(),
            final(self).is_finalized(),
            final(self).header_syms() == old(self).header_syms(),
            final(self).names() == old(self).names(),
            final(self).fields() == old(self).fields(),
            final(self).columns() == old(self).columns(),
            final(self).rows() == old(self).rows(),
    {
        let ghost old_cols = self.columns();
        let mut j: usize = 0;
        while j < self.cols.len()
            invariant
                items_of(self.names).len() == self.cols@.len() == self.fields@.len(),
                items_of(self.names).no_duplicates(),
                self.rows <= MAX_BITS,
                forall|q: int| 0 <= q < self.fields@.len() ==> #[trigger] self.fields@[q] < self.headers@.len(),
                forall|q: int| 0 <= q < self.fields@.len() ==> items_of(self.names)[q] == self.headers@[#[trigger] self.fields@[q] as int],
                items_of(self.names) == items_of(old(self).names),
                self.fields@ == old(self).fields@,
                self.headers@ == old(self).headers@,
                self.rows == old(self).rows,
                old_cols == old(self).columns(),
                old_cols.len() == self.cols@.len(),
                j <= self.cols@.len(),
                forall|q: int| 0 <= q < self.cols@.len() ==> (#[trigger] self.cols@[q])@ == old_cols[q],
                forall|q: int| 0 <= q < self.cols@.len() ==> (#[trigger] self.cols@[q])@.len() == self.rows,
                forall|q: int| 0 <= q < j ==> (#[trigger] self.cols@[q]).is_finalized(),
            decreases self.cols@.len() - j,
        {
            self.cols[j].flush();
            j = j + 1;
        }
        self.finalized = true;
        assert(self.columns() =~= old_cols);
    }

    /// The common row count of a finalized table.
    pub fn len(&self) -> (n: usize)
        requires
            self.wf(),
        ensures
            n == self.rows(),
    {
        self.rows
    }

    /// Starts a table from its header row: each trimmed header is interned,
    /// and a column is made for each header whose symbol is in `to_read`,
    /// once per name, in header order.
    pub fn new(headers: &Vec<String>, to_read: &Vec<usize>, interner: &mut Interner) -> (r: Result<Table, TableError>)
        ensures
            interned_of(*final(interner)).len() >= interned_of(*old(interner)).len(),
            interned_of(*final(interner)).subrange(0, interned_of(*old(interner)).len() as int) == interned_of(*old(interner)),
            r is Err <==> interned_of(*old(interner)).len() + headers@.len() >= usize::MAX,
            r is Err ==> r->Err_0 == TableError::SymbolSpaceFull && interned_of(*final(interner)) == interned_of(*old(interner)),
            r is Ok ==> {
                let t = r->Ok_0;
                &&& t.wf()
                &&& !t.is_finalized()
                &&& t.rows() == 0
                &&& t.header_syms().len() == headers@.len()
                &&& forall|k: int| 0 <= k < headers@.len() ==> {
                    &&& #[trigger] t.header_syms()[k] < interned_of(*final(interner)).len()
                    &&& interned_of(*final(interner))[t.header_syms()[k] as int] == trimmed(headers@[k]@)
                }
                &&& t.fields() == retained(t.header_syms(), to_read@)
                &&& t.names() == Seq::new(t.fields().len(), |j: int| t.header_syms()[t.fields()[j] as int])
                &&& t.columns() == Seq::new(t.fields().len(), |j: int| Seq::<usize>::empty())
            },
    {
        if interner.len() >= usize::MAX - headers.len() {
            return Err(TableError::SymbolSpaceFull);
        }
        let ghost start = interned_of(*interner);
        let mut hdrs: Vec<usize> = Vec::new();
        let mut fields: Vec<usize> = Vec::new();
        let mut names = names_new();
        let mut cols: Vec<Column> = Vec::new();
        let mut k: usize = 0;
        while k < headers.len()
            invariant
                k <= headers@.len(),
                interned_of(*interner).len() + headers@.len() - k < usize::MAX,
                interned_of(*interner).len() >= start.len(),
                interned_of(*interner).subrange(0, start.len() as int) == start,
                hdrs@.len() == k,
                forall|q: int| 0 <= q < k ==> {
                    &&& #[trigger] hdrs@[q] < interned_of(*interner).len()
                    &&& interned_of(*interner)[hdrs@[q] as int] == trimmed(headers@[q]@)
                },
                fields@ == retained(hdrs@, to_read@),
                items_of(names).len() == cols@.len() == fields@.len(),
                forall|x: usize| to_read@.contains(x) ==> (items_of(names).contains(x) <==> hdrs@.contains(x)),
                items_of(names).no_duplicates(),
                forall|j: int| 0 <= j < fields@.len() ==> #[trigger] fields@[j] < k,
                forall|j: int| 0 <= j < fields@.len() ==> items_of(names)[j] == hdrs@[#[trigger] fields@[j] as int],
                forall|j: int| 0 <= j < items_of(names).len() ==> hdrs@.contains(#[trigger] items_of(names)[j]),
                forall|j: int| 0 <= j < cols@.len() ==> (#[trigger] cols@[j])@.len() == 0,
                forall|j: int| 0 <= j < cols@.len() ==> !(#[trigger] cols@[j]).is_finalized(),
            decreases headers@.len() - k,
        {
            let ghost before = interned_of(*interner);
            let name = trim_field(headers[k].as_str());
            let sym = interner.get_or_intern(name);
            let ghost prev = hdrs@;
            let ghost prev_names = items_of(names);
            let wanted = contains(to_read, sym);
            hdrs.push(sym);
            proof {
                assert(hdrs@.drop_last() == prev);
                assert(interned_of(*interner).subrange(0, before.len() as int) == before);
                assert(interned_of(*interner).subrange(0, start.len() as int)
                    == before.subrange(0, start.len() as int));
                assert forall|q: int| 0 <= q < k implies interned_of(*interner)[hdrs@[q] as int] == trimmed(headers@[q]@) by {
                    assert(hdrs@[q] == prev[q]);
                    assert(interned_of(*interner)[hdrs@[q] as int] == before[hdrs@[q] as int]);
                }
                assert forall|x: usize| #[trigger] hdrs@.contains(x) <==> (prev.contains(x) || x == sym) by {
                    if prev.contains(x) {
                        let q = choose|q: int| 0 <= q < prev.len() && prev[q] == x;
                        assert(hdrs@[q] == x);
                    }
                    if x == sym {
                        assert(hdrs@[k as int] == x);
                    }
                    if hdrs@.contains(x) && x != sym {
                        let q = choose|q: int| 0 <= q < hdrs@.len() && hdrs@[q] == x;
                        assert(prev[q] == x);
                    }
                }
            }
            if wanted {
                let (_, inserted) = names_insert(&mut names, sym);
                if inserted {
                    fields.push(k);
                    cols.push(Column::new());
                }
            }
            proof {
                assert forall|x: usize| #[trigger] items_of(names).contains(x) <==> (prev_names.contains(x) || (wanted && x == sym)) by {
                    if !prev_names.contains(sym) && wanted {
                        assert(items_of(names) == prev_names.push(sym));
                        if prev_names.contains(x) {
                            let q = choose|q: int| 0 <= q < prev_names.len() && prev_names[q] == x;
                            assert(items_of(names)[q] == x);
                        }
                        if x == sym {
                            assert(items_of(names)[prev_names.len() as int] == x);
                        }
                        if items_of(names).contains(x) && x != sym {
                            let q = choose|q: int| 0 <= q < items_of(names).len() && items_of(names)[q] == x;
                            assert(prev_names[q] == x);
                        }
                    }
                }
                assert forall|j: int| 0 <= j < items_of(names).len() implies hdrs@.contains(#[trigger] items_of(names)[j]) by {
                    assert(items_of(names).contains(items_of(names)[j]));
                    if items_of(names)[j] != sym {
                        assert(prev_names.contains(items_of(names)[j]));
                        let q = choose|q: int| 0 <= q < prev_names.len() && prev_names[q] == items_of(names)[j];
                        assert(prev.contains(prev_names[q]));
                    }
                }
            }
            k = k + 1;
        }
        let t = Table { headers: hdrs, fields, names, cols, rows: 0, finalized: false };
        proof {
            assert(t.names() =~= Seq::new(t.fields().len(), |j: int| t.header_syms()[t.fields()[j] as int]));
            assert forall|j: int| 0 <= j < t.columns().len() implies #[trigger] t.columns()[j] == Seq::<usize>::empty() by {
                assert(t.columns()[j] =~= Seq::<usize>::empty());
            }
            assert(t.columns() =~= Seq::new(t.fields().len(), |j: int| Seq::<usize>::empty()));
        }
        Ok(t)
    }
}

/// Whether `v` holds `x`.
pub fn contains(v: &Vec<usize>, x: usize) -> (r: bool)
    ensures
        r == v@.contains(x),
{
    let mut i: usize = 0;
    while i < v.len()
        invariant
            i <= v@.len(),
            forall|q: int| 0 <= q < i ==> v@[q] != x,
        decreases v@.len() - i,
    {
        if v[i] == x {
            assert(v@[i as int] == x);
            return true;
        }
        i = i + 1;
    }
    false
}

} // verus!

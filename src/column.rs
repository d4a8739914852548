use vstd::prelude::*;
use crate::bits::{bits_of, Bits, MAX_BITS};

verus! {

/// True when `order` maps every destination index below `n` to a distinct
/// source index below `n`.
pub open spec fn is_permutation(order: Seq<usize>, n: nat) -> bool {
    &&& order.len() == n
    &&& forall|i: int| 0 <= i < n ==> #[trigger] order[i] < n
    &&& forall|i: int, j: int|
        0 <= i < n && 0 <= j < n && i != j ==> #[trigger] order[i] != #[trigger] order[j]
}

/// The sequence gathered from `old` through `order`: position `i` takes `old[order[i]]`.
pub open spec fn gathered(old: Seq<usize>, order: Seq<usize>) -> Seq<usize> {
    Seq::new(order.len(), |i: int| old[order[i] as int])
}

/// Number of positions still unmarked.
pub open spec fn unmarked(flags: Seq<bool>) -> nat
    decreases flags.len(),
{
    if flags.len() == 0 {
        0
    } else {
        unmarked(flags.drop_last()) + if flags.last() {
            0nat
        } else {
            1nat
        }
    }
}

proof fn lemma_mark_one(flags: Seq<bool>, k: int)
    requires
        0 <= k < flags.len(),
        !flags[k],
    ensures
        unmarked(flags.update(k, true)) + 1 == unmarked(flags),
    decreases flags.len(),
{
    let g = flags.update(k, true);
    if k == flags.len() - 1 {
        assert(g.drop_last() =~= flags.drop_last());
    } else {
        assert(g.drop_last() =~= flags.drop_last().update(k, true));
        lemma_mark_one(flags.drop_last(), k);
    }
}

/// Gathering through the identity order leaves any sequence as it is, and
/// the identity order is a permutation.
pub proof fn lemma_identity_gather(old: Seq<usize>)
    requires
        old.len() <= usize::MAX,
    ensures
        is_permutation(Seq::new(old.len(), |i: int| i as usize), old.len()),
        gathered(old, Seq::new(old.len(), |i: int| i as usize)) == old,
{
    let id = Seq::new(old.len(), |i: int| i as usize);
    assert(gathered(old, id) =~= old);
}

/// A column of symbol ids, one per row. It is filled by appending while it
/// is being built, then finalized; only a finalized column can be read or
/// permuted.
pub struct Column {
    data: Vec<usize>,
    finalized: bool,
}

impl View for Column {
    type V = Seq<usize>;

    closed spec fn view(&self) -> Seq<usize> {
        self.data@
    }
}

impl Column {
    /// Whether appending has ended and the column can be read.
    pub closed spec fn is_finalized(&self) -> bool {
        self.finalized
    }

    /// A fresh, empty column that accepts appends.
    pub fn new() -> (c: Column)
        ensures
            c@ == Seq::<usize>::empty(),
            !c.is_finalized(),
    {
        Column { data: Vec::new(), finalized: false }
    }

    /// A finalized column that holds `values`, appended in order.
    pub fn from_values(values: &[usize]) -> (c: Column)
        ensures
            c.is_finalized(),
            c@ == values@,
    {
        let mut c = Column::new();
        let mut i: usize = 0;
        while i < values.len()
            invariant
                i <= values@.len(),
                !c.is_finalized(),
                c@ == values@.subrange(0, i as int),
            decreases values@.len() - i,
        {
            c.write(values[i]);
            i = i + 1;
            assert(c@ =~= values@.subrange(0, i as int));
        }
        c.flush();
        assert(values@.subrange(0, values@.len() as int) =~= values@);
        c
    }

    /// Appends one symbol id after the last row.
    pub fn write(&mut self, value: usize)
        requires
            !old(self).is_finalized(),
        ensures
            final(self)@ == old(self)@.push(value),
            !final(self).is_finalized(),
    {
        self.data.push(value);
    }

    /// Ends the building phase; the contents stay as they are.
    pub fn flush(&mut self)
        ensures
            final(self)@ == old(self)@,
            final(self).is_finalized(),
    {
        self.finalized = true;
    }

    /// The number of rows of a finalized column.
    pub fn len(&self) -> (n: usize)
        requires
            self.is_finalized(),
        ensures
            n == self@.len(),
    {
        self.data.len()
    }

    /// A read-only view of the whole id sequence.
    pub fn get_mmap(&self) -> (s: &[usize])
        requires
            self.is_finalized(),
        ensures
            s@ == self@,
    {
        self.data.as_slice()
    }

    /// Rearranges the column in place so that row `i` afterwards holds what
    /// row `indices[i]` held before. Each cycle of the permutation is walked
    /// once, with one mark per row as the only extra memory.
    pub fn sort_by_indices(&mut self, indices: &[usize])
        requires
            old(self).is_finalized(),
            is_permutation(indices@, old(self)@.len()),
            indices@.len() <= MAX_BITS,
        ensures
            final(self).is_finalized(),
            final(self)@ == gathered(old(self)@, indices@),
    {
        let ghost orig = self.data@;
        let n = indices.len();
        let ghost ord = indices@;
        let mut flag = Bits::repeat(false, n);
        assert(self.data@.len() == n);
        let mut idx: usize = 0;
        while idx < n
            invariant
                n == indices@.len() == orig.len() == bits_of(flag).len() == self.data@.len(),
                ord == indices@,
                idx <= n,
                self.finalized,
                is_permutation(ord, n as nat),
                forall|p: int| 0 <= p < n && #[trigger] bits_of(flag)[p] ==> self.data@[p] == orig[ord[p] as int],
                forall|p: int| 0 <= p < n && !#[trigger] bits_of(flag)[p] ==> self.data@[p] == orig[p],
                forall|x: int| 0 <= x < n && #[trigger] bits_of(flag)[ord[x] as int] ==> bits_of(flag)[x],
                forall|p: int| 0 <= p < idx ==> #[trigger] bits_of(flag)[p] || ord[p] == p,
            decreases n - idx,
        {
            if indices[idx] != idx && !flag.get(idx) {
                let start = idx;
                let mut cur = idx;
                loop
                    invariant_except_break
                        !bits_of(flag)[cur as int],
                        cur == start || bits_of(flag)[start as int],
                        self.data@[cur as int] == orig[start as int],
                        forall|p: int|
                            0 <= p < n && !#[trigger] bits_of(flag)[p] && p != cur ==> self.data@[p] == orig[p],
                        forall|x: int|
                            0 <= x < n && (#[trigger] bits_of(flag)[ord[x] as int] || ord[x] == cur) && ord[x] != start ==> bits_of(flag)[x],
                    invariant
                        n == indices@.len() == orig.len() == bits_of(flag).len() == self.data@.len(),
                        ord == indices@,
                        idx < n,
                        start == idx,
                        cur < n,
                        self.finalized,
                        is_permutation(ord, n as nat),
                        forall|p: int|
                            0 <= p < n && #[trigger] bits_of(flag)[p] ==> self.data@[p] == orig[ord[p] as int],
                        forall|p: int| 0 <= p < idx ==> #[trigger] bits_of(flag)[p] || ord[p] == p,
                    ensures
                        bits_of(flag)[start as int],
                        forall|p: int| 0 <= p < n && !#[trigger] bits_of(flag)[p] ==> self.data@[p] == orig[p],
                        forall|x: int| 0 <= x < n && #[trigger] bits_of(flag)[ord[x] as int] ==> bits_of(flag)[x],
                    decreases unmarked(bits_of(flag)),
                {
                    let target = indices[cur];
                    proof {
                        lemma_mark_one(bits_of(flag), cur as int);
                    }
                    flag.set(cur, true);
                    if flag.get(target) {
                        proof {
                            if target != start {
                                assert(bits_of(flag)[ord[cur as int] as int]);
                            }
                            assert forall|x: int| 0 <= x < n && #[trigger] bits_of(flag)[ord[x] as int] implies bits_of(flag)[x] by {
                                if ord[x] == start {
                                    assert(ord[x] == ord[cur as int]);
                                }
                            }
                        }
                        break;
                    }
                    let here = self.data[cur];
                    let there = self.data[target];
                    self.data.set(cur, there);
                    self.data.set(target, here);
                    proof {
                        assert forall|x: int|
                            0 <= x < n && (#[trigger] bits_of(flag)[ord[x] as int] || ord[x] == target) && ord[x] != start
                            implies bits_of(flag)[x] by {
                            if ord[x] == target {
                                assert(ord[x] == ord[cur as int]);
                            }
                        }
                    }
                    cur = target;
                }
            }
            idx = idx + 1;
        }
        proof {
            assert forall|p: int| 0 <= p < n implies self.data@[p] == orig[ord[p] as int] by {
                if !bits_of(flag)[p] {
                    assert(ord[p] == p);
                }
            }
            assert(self.data@ =~= gathered(orig, ord));
        }
    }
}

} // verus!

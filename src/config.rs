use vstd::prelude::*;
use itertools::Itertools;
use crate::cli::Cli;
use crate::sym::{interned_of, Interner};

verus! {

/// How many times `x` occurs in `s`.
pub open spec fn occurrences(s: Seq<Seq<char>>, x: Seq<char>) -> nat
    decreases s.len(),
{
    if s.len() == 0 {
        0
    } else {
        occurrences(s.drop_last(), x) + if s.last() == x {
            1nat
        } else {
            0nat
        }
    }
}

/// The items that occur more than once, each once, where it occurs the
/// second time.
pub open spec fn duplicates_of(s: Seq<Seq<char>>) -> Seq<Seq<char>>
    decreases s.len(),
{
    if s.len() == 0 {
        Seq::empty()
    } else if occurrences(s.drop_last(), s.last()) == 1 {
        duplicates_of(s.drop_last()).push(s.last())
    } else {
        duplicates_of(s.drop_last())
    }
}

/// The items written one after the other with `sep` between two neighbours.
pub open spec fn joined(items: Seq<Seq<char>>, sep: Seq<char>) -> Seq<char>
    decreases items.len(),
{
    if items.len() == 0 {
        Seq::empty()
    } else if items.len() == 1 {
        items[0]
    } else {
        joined(items.drop_last(), sep) + sep + items.last()
    }
}

/// The text of each string.
pub open spec fn texts(v: Seq<String>) -> Seq<Seq<char>> {
    Seq::new(v.len(), |i: int| v[i]@)
}

/// Relies on `Itertools::duplicates`: the items met a second time, once
/// each, in the order of their second occurrence.
#[verifier::external_body]
fn duplicates(cols: &Vec<String>) -> (r: Vec<String>)
    ensures
        texts(r@) == duplicates_of(texts(cols@)),
{
    cols.iter().duplicates().cloned().collect()
}

/// Relies on `Itertools::join`: the items with `sep` between neighbours.
#[verifier::external_body]
fn join(items: &Vec<String>, sep: &str) -> (r: String)
    ensures
        r@ == joined(texts(items@), sep@),
{
    items.iter().join(sep)
}

/// Relies on `format!`: `msg`, a space, then `list`.
#[verifier::external_body]
fn dup_message(msg: &str, list: &String) -> (r: String)
    ensures
        r@ == msg@ + seq![' '] + list@,
{
    format!("{} {}", msg, list)
}

/// Relies on `format!`: the message for key columns missing from `fname`.
#[verifier::external_body]
fn missing_message(fname: &str, list: &String) -> (r: String)
    ensures
        r@ == "missing following key columns from "@ + fname@ + ": "@ + list@,
{
    format!("missing following key columns from {}: {}", fname, list)
}

proof fn lemma_occurrences_contains(s: Seq<Seq<char>>, x: Seq<char>)
    ensures
        occurrences(s, x) > 0 <==> s.contains(x),
    decreases s.len(),
{
    if s.len() > 0 {
        let f = s.drop_last();
        lemma_occurrences_contains(f, x);
        if f.contains(x) {
            let i = choose|i: int| 0 <= i < f.len() && f[i] == x;
            assert(s[i] == x);
        }
        if s.contains(x) && s.last() != x {
            let i = choose|i: int| 0 <= i < s.len() && s[i] == x;
            assert(f[i] == x);
        }
        if s.last() == x {
            assert(s[s.len() - 1] == x);
        }
    }
}

proof fn lemma_occurrences_at_most_one(s: Seq<Seq<char>>, x: Seq<char>)
    requires
        s.no_duplicates(),
    ensures
        occurrences(s, x) <= 1,
    decreases s.len(),
{
    if s.len() > 0 {
        let f = s.drop_last();
        assert(f.no_duplicates());
        lemma_occurrences_at_most_one(f, x);
        if s.last() == x {
            lemma_occurrences_contains(f, x);
            if f.contains(x) {
                let i = choose|i: int| 0 <= i < f.len() && f[i] == x;
                assert(s[i] == s[s.len() - 1]);
            }
        }
    }
}

proof fn lemma_no_duplicates_iff(s: Seq<Seq<char>>)
    ensures
        duplicates_of(s).len() == 0 <==> s.no_duplicates(),
    decreases s.len(),
{
    if s.len() > 0 {
        let f = s.drop_last();
        let x = s.last();
        lemma_no_duplicates_iff(f);
        lemma_occurrences_contains(f, x);
        if s.no_duplicates() {
            assert(f.no_duplicates());
            if f.contains(x) {
                let i = choose|i: int| 0 <= i < f.len() && f[i] == x;
                assert(s[i] == s[s.len() - 1]);
            }
        }
        if duplicates_of(s).len() == 0 {
            assert(duplicates_of(f).len() == 0);
            lemma_occurrences_at_most_one(f, x);
            assert(!f.contains(x));
            assert forall|i: int, j: int| 0 <= i < s.len() && 0 <= j < s.len() && i != j implies s[i] != s[j] by {
                if j == s.len() - 1 {
                    assert(f[i] == s[i]);
                } else if i == s.len() - 1 {
                    assert(f[j] == s[j]);
                } else {
                    assert(f[i] == s[i] && f[j] == s[j]);
                }
            }
        }
    }
}

/// Fails when a name occurs twice in `cols`; the message is `msg`, a
/// space, and the repeated names separated by commas.
pub fn check_dups(cols: &Vec<String>, msg: &str) -> (r: Result<(), String>)
    ensures
        r is Ok <==> texts(cols@).no_duplicates(),
        r is Err ==> r->Err_0@ == msg@ + seq![' '] + joined(duplicates_of(texts(cols@)), ", "@),
{
    proof {
        lemma_no_duplicates_iff(texts(cols@));
    }
    let dups = duplicates(cols);
    if dups.len() == 0 {
        Ok(())
    } else {
        let list = join(&dups, ", ");
        Err(dup_message(msg, &list))
    }
}

/// The key names that `cols` lacks, in key order.
pub open spec fn missing_of(keys: Seq<Seq<char>>, cols: Seq<Seq<char>>) -> Seq<Seq<char>>
    decreases keys.len(),
{
    if keys.len() == 0 {
        Seq::empty()
    } else if cols.contains(keys.last()) {
        missing_of(keys.drop_last(), cols)
    } else {
        missing_of(keys.drop_last(), cols).push(keys.last())
    }
}

proof fn lemma_missing_empty(keys: Seq<Seq<char>>, cols: Seq<Seq<char>>)
    ensures
        missing_of(keys, cols).len() == 0 <==> forall|k: int| 0 <= k < keys.len() ==> cols.contains(#[trigger] keys[k]),
    decreases keys.len(),
{
    if keys.len() > 0 {
        let f = keys.drop_last();
        lemma_missing_empty(f, cols);
        if missing_of(keys, cols).len() == 0 {
            assert forall|k: int| 0 <= k < keys.len() implies cols.contains(#[trigger] keys[k]) by {
                if k < keys.len() - 1 {
                    assert(f[k] == keys[k]);
                }
            }
        }
        if forall|k: int| 0 <= k < keys.len() ==> cols.contains(#[trigger] keys[k]) {
            assert forall|k: int| 0 <= k < f.len() implies cols.contains(#[trigger] f[k]) by {
                assert(f[k] == keys[k]);
            }
            assert(cols.contains(keys[keys.len() - 1]));
        }
    }
}

/// Whether `cols` holds a string with the text of `x`.
fn contains_text(cols: &Vec<String>, x: &String) -> (r: bool)
    ensures
        r == texts(cols@).contains(x@),
{
    let mut i: usize = 0;
    while i < cols.len()
        invariant
            i <= cols@.len(),
            forall|q: int| 0 <= q < i ==> cols@[q]@ != x@,
        decreases cols@.len() - i,
    {
        if cols[i] == *x {
            assert(texts(cols@)[i as int] == x@);
            return true;
        }
        i = i + 1;
    }
    false
}

/// Fails when a key name is not among `cols`; the message names the file
/// and lists the missing keys, separated by commas.
pub fn check_key_cols_presence(key_cols: &Vec<String>, cols: &Vec<String>, fname: &str) -> (r: Result<(), String>)
    ensures
        r is Ok <==> forall|k: int| 0 <= k < key_cols@.len() ==> texts(cols@).contains(#[trigger] key_cols@[k]@),
        r is Err ==> r->Err_0@ == "missing following key columns from "@ + fname@ + ": "@
            + joined(missing_of(texts(key_cols@), texts(cols@)), ", "@),
{
    let mut missing: Vec<String> = Vec::new();
    let mut k: usize = 0;
    while k < key_cols.len()
        invariant
            k <= key_cols@.len(),
            texts(missing@) == missing_of(texts(key_cols@).subrange(0, k as int), texts(cols@)),
        decreases key_cols@.len() - k,
    {
        assert(texts(key_cols@).subrange(0, k + 1).drop_last() == texts(key_cols@).subrange(0, k as int));
        if !contains_text(cols, &key_cols[k]) {
            missing.push(key_cols[k].clone());
            assert(texts(missing@) =~= missing_of(texts(key_cols@).subrange(0, k + 1), texts(cols@)));
        }
        k = k + 1;
    }
    assert(texts(key_cols@).subrange(0, key_cols@.len() as int) == texts(key_cols@));
    proof {
        lemma_missing_empty(texts(key_cols@), texts(cols@));
        assert forall|k: int| 0 <= k < key_cols@.len() implies #[trigger] texts(key_cols@)[k] == key_cols@[k]@ by {}
        if forall|k: int| 0 <= k < key_cols@.len() ==> texts(cols@).contains(#[trigger] key_cols@[k]@) {
            assert forall|k: int| 0 <= k < key_cols@.len() implies texts(cols@).contains(#[trigger] texts(key_cols@)[k]) by {
                assert(texts(key_cols@)[k] == key_cols@[k]@);
            }
        }
        if missing_of(texts(key_cols@), texts(cols@)).len() == 0 {
            assert forall|k: int| 0 <= k < key_cols@.len() implies texts(cols@).contains(#[trigger] key_cols@[k]@) by {
                assert(texts(key_cols@)[k] == key_cols@[k]@);
            }
        }
    }
    if missing.len() == 0 {
        Ok(())
    } else {
        let list = join(&missing, ", ");
        Err(missing_message(fname, &list))
    }
}

/// The names of `names` that `other` also has, in their order.
pub open spec fn present_of(names: Seq<Seq<char>>, other: Seq<Seq<char>>) -> Seq<Seq<char>>
    decreases names.len(),
{
    if names.len() == 0 {
        Seq::empty()
    } else if other.contains(names.last()) {
        present_of(names.drop_last(), other).push(names.last())
    } else {
        present_of(names.drop_last(), other)
    }
}

/// The strings that the ids stand for in `dict`.
pub open spec fn resolved(dict: Seq<Seq<char>>, ids: Seq<usize>) -> Seq<Seq<char>> {
    Seq::new(ids.len(), |i: int| dict[ids[i] as int])
}

/// What a comparison run reads and where it writes: both inputs with
/// their delimiters, the key columns, the non-key columns found in both
/// inputs and the columns found in only one of them.
pub struct Config {
    pub files: [String; 2],
    pub delims: [u8; 2],
    pub key_cols: Vec<usize>,
    pub common_cols: Vec<usize>,
    pub ignored_cols: [Vec<usize>; 2],
    pub out_file: String,
}

/// Interns each string of `names`, in order.
fn intern_all(names: &Vec<String>, interner: &mut Interner) -> (r: Vec<usize>)
    requires
        interned_of(*old(interner)).len() + names@.len() < usize::MAX,
    ensures
        interned_of(*final(interner)).len() <= interned_of(*old(interner)).len() + names@.len(),
        interned_of(*final(interner)).subrange(0, interned_of(*old(interner)).len() as int) == interned_of(*old(interner)),
        interned_of(*final(interner)).len() >= interned_of(*old(interner)).len(),
        r@.len() == names@.len(),
        forall|i: int| 0 <= i < r@.len() ==> #[trigger] r@[i] < interned_of(*final(interner)).len(),
        resolved(interned_of(*final(interner)), r@) == texts(names@),
{
    let ghost start = interned_of(*interner);
    let mut r: Vec<usize> = Vec::new();
    let mut i: usize = 0;
    while i < names.len()
        invariant
            i <= names@.len(),
            interned_of(*interner).len() <= start.len() + i,
            start.len() + names@.len() < usize::MAX,
            interned_of(*interner).len() >= start.len(),
            interned_of(*interner).subrange(0, start.len() as int) == start,
            r@.len() == i,
            forall|q: int| 0 <= q < i ==> #[trigger] r@[q] < interned_of(*interner).len(),
            forall|q: int| 0 <= q < i ==> interned_of(*interner)[#[trigger] r@[q] as int] == names@[q]@,
        decreases names@.len() - i,
    {
        let ghost before = interned_of(*interner);
        let id = interner.get_or_intern(names[i].as_str());
        proof {
            assert(interned_of(*interner).subrange(0, before.len() as int) == before);
            assert(interned_of(*interner).subrange(0, start.len() as int) == before.subrange(0, start.len() as int));
            assert forall|q: int| 0 <= q < i implies interned_of(*interner)[#[trigger] r@[q] as int] == names@[q]@ by {
                assert(interned_of(*interner)[r@[q] as int] == before[r@[q] as int]);
            }
        }
        r.push(id);
        i = i + 1;
    }
    assert(resolved(interned_of(*interner), r@) =~= texts(names@));
    r
}

proof fn lemma_prefix_resolved(big: Seq<Seq<char>>, small: Seq<Seq<char>>, ids: Seq<usize>)
    requires
        small.len() <= big.len(),
        big.subrange(0, small.len() as int) == small,
        forall|i: int| 0 <= i < ids.len() ==> #[trigger] ids[i] < small.len(),
    ensures
        resolved(big, ids) == resolved(small, ids),
{
    assert forall|i: int| 0 <= i < ids.len() implies #[trigger] big[ids[i] as int] == small[ids[i] as int] by {
        assert(big.subrange(0, small.len() as int)[ids[i] as int] == big[ids[i] as int]);
    }
    assert(resolved(big, ids) =~= resolved(small, ids));
}

proof fn lemma_selected_len(names: Seq<Seq<char>>, other: Seq<Seq<char>>)
    ensures
        present_of(names, other).len() <= names.len(),
        missing_of(names, other).len() <= names.len(),
    decreases names.len(),
{
    if names.len() > 0 {
        lemma_selected_len(names.drop_last(), other);
    }
}

/// The names of `names` that `other` has (`keep`) or lacks (`!keep`), in order.
fn select(names: &Vec<String>, other: &Vec<String>, keep: bool) -> (r: Vec<String>)
    ensures
        keep ==> texts(r@) == present_of(texts(names@), texts(other@)),
        !keep ==> texts(r@) == missing_of(texts(names@), texts(other@)),
{
    let mut r: Vec<String> = Vec::new();
    let mut i: usize = 0;
    while i < names.len()
        invariant
            i <= names@.len(),
            keep ==> texts(r@) == present_of(texts(names@).subrange(0, i as int), texts(other@)),
            !keep ==> texts(r@) == missing_of(texts(names@).subrange(0, i as int), texts(other@)),
        decreases names@.len() - i,
    {
        let ghost front = texts(names@).subrange(0, i as int);
        let ghost next = texts(names@).subrange(0, i + 1);
        assert(next.drop_last() == front);
        assert(next.last() == names@[i as int]@);
        let found = contains_text(other, &names[i]);
        if found == keep {
            let copy = names[i].clone();
            r.push(copy);
            assert(texts(r@) =~= texts(r@.drop_last()).push(names@[i as int]@));
        }
        i = i + 1;
    }
    assert(texts(names@).subrange(0, names@.len() as int) == texts(names@));
    r
}

impl Config {
    /// Validates the key names against both inputs' header names (`lh`,
    /// `rh`), then interns the names: the key columns, the columns of the
    /// left input that the right one has too, and those found on one side
    /// only.
    pub fn try_from_cli(cli: Cli, lh: &Vec<String>, rh: &Vec<String>, interner: &mut Interner) -> (r: Result<Config, String>)
        ensures
            ({
                let (k, l, rr) = (texts(cli.key_cols@), texts(lh@), texts(rh@));
                let files = [cli.left_file, cli.right_file];
                let room = interned_of(*old(interner)).len() + 3 * (k.len() + l.len() + rr.len()) < usize::MAX;
                let dict = interned_of(*final(interner));
                &&& !k.no_duplicates() ==> r is Err && r->Err_0@ == "duplicate keyCols:"@ + seq![' '] + joined(duplicates_of(k), ", "@)
                &&& k.no_duplicates() && !l.no_duplicates() ==> r is Err && r->Err_0@ == "duplicate columns in left file:"@ + seq![' '] + joined(duplicates_of(l), ", "@)
                &&& k.no_duplicates() && l.no_duplicates() && !rr.no_duplicates() ==> r is Err && r->Err_0@ == "duplicate columns in right file:"@ + seq![' '] + joined(duplicates_of(rr), ", "@)
                &&& k.no_duplicates() && l.no_duplicates() && rr.no_duplicates() && missing_of(k, l).len() > 0 ==> r is Err
                    && r->Err_0@ == "missing following key columns from "@ + files[0]@ + ": "@ + joined(missing_of(k, l), ", "@)
                &&& k.no_duplicates() && l.no_duplicates() && rr.no_duplicates() && missing_of(k, l).len() == 0 && missing_of(k, rr).len() > 0 ==> r is Err
                    && r->Err_0@ == "missing following key columns from "@ + files[1]@ + ": "@ + joined(missing_of(k, rr), ", "@)
                &&& k.no_duplicates() && l.no_duplicates() && rr.no_duplicates() && missing_of(k, l).len() == 0 && missing_of(k, rr).len() == 0 ==> {
                    &&& !room ==> r is Err && r->Err_0@ == "too many distinct names"@
                    &&& room && present_of(l, rr).len() == k.len() ==> r is Err && r->Err_0@ == "no non-key columns present"@
                    &&& room && present_of(l, rr).len() != k.len() ==> r is Ok
                }
                &&& r is Ok ==> {
                    let c = r->Ok_0;
                    &&& c.files == files
                    &&& c.delims == [cli.left_delim, cli.right_delim]
                    &&& c.out_file == cli.out_file
                    &&& resolved(dict, c.key_cols@) == k
                    &&& resolved(dict, c.common_cols@) == present_of(l, rr)
                    &&& resolved(dict, c.ignored_cols[0]@) == missing_of(l, rr)
                    &&& resolved(dict, c.ignored_cols[1]@) == missing_of(rr, l)
                    &&& forall|i: int| 0 <= i < c.key_cols@.len() ==> #[trigger] c.key_cols@[i] < dict.len()
                    &&& forall|i: int| 0 <= i < c.common_cols@.len() ==> #[trigger] c.common_cols@[i] < dict.len()
                    &&& forall|i: int| 0 <= i < c.ignored_cols[0]@.len() ==> #[trigger] c.ignored_cols[0]@[i] < dict.len()
                    &&& forall|i: int| 0 <= i < c.ignored_cols[1]@.len() ==> #[trigger] c.ignored_cols[1]@[i] < dict.len()
                }
            }),
    {
        let key_cols = &cli.key_cols;
        let m = check_dups(key_cols, "duplicate keyCols:");
        proof {
            reveal_strlit("duplicate keyCols:");
        }
        if m.is_err() {
            return Err(m.unwrap_err());
        }
        let m = check_dups(lh, "duplicate columns in left file:");
        proof {
            reveal_strlit("duplicate columns in left file:");
        }
        if m.is_err() {
            return Err(m.unwrap_err());
        }
        let m = check_dups(rh, "duplicate columns in right file:");
        proof {
            reveal_strlit("duplicate columns in right file:");
        }
        if m.is_err() {
            return Err(m.unwrap_err());
        }
        let m = check_key_cols_presence(key_cols, lh, cli.left_file.as_str());
        proof {
            lemma_missing_empty(texts(key_cols@), texts(lh@));
            assert forall|k: int| 0 <= k < key_cols@.len() implies #[trigger] texts(key_cols@)[k] == key_cols@[k]@ by {}
            if m.is_ok() {
                assert forall|k: int| 0 <= k < key_cols@.len() implies texts(lh@).contains(#[trigger] texts(key_cols@)[k]) by {
                    assert(texts(lh@).contains(key_cols@[k]@));
                }
            } else {
                if missing_of(texts(key_cols@), texts(lh@)).len() == 0 {
                    assert forall|k: int| 0 <= k < key_cols@.len() implies texts(lh@).contains(#[trigger] key_cols@[k]@) by {
                        assert(texts(lh@).contains(texts(key_cols@)[k]));
                    }
                }
            }
        }
        if m.is_err() {
            return Err(m.unwrap_err());
        }
        let m = check_key_cols_presence(key_cols, rh, cli.right_file.as_str());
        proof {
            lemma_missing_empty(texts(key_cols@), texts(rh@));
            assert forall|k: int| 0 <= k < key_cols@.len() implies #[trigger] texts(key_cols@)[k] == key_cols@[k]@ by {}
            if m.is_ok() {
                assert forall|k: int| 0 <= k < key_cols@.len() implies texts(rh@).contains(#[trigger] texts(key_cols@)[k]) by {
                    assert(texts(rh@).contains(key_cols@[k]@));
                }
            } else {
                if missing_of(texts(key_cols@), texts(rh@)).len() == 0 {
                    assert forall|k: int| 0 <= k < key_cols@.len() implies texts(rh@).contains(#[trigger] key_cols@[k]@) by {
                        assert(texts(rh@).contains(texts(key_cols@)[k]));
                    }
                }
            }
        }
        if m.is_err() {
            return Err(m.unwrap_err());
        }
        let n = interner.len();
        let names: u128 = key_cols.len() as u128 + lh.len() as u128 + rh.len() as u128;
        if n as u128 + 3 * names >= usize::MAX as u128 {
            let e = "too many distinct names".to_string();
            proof {
                reveal_strlit("too many distinct names");
            }
            return Err(e);
        }
        let _ = intern_all(lh, interner);
        let _ = intern_all(rh, interner);
        let common = select(lh, rh, true);
        if common.len() == key_cols.len() {
            let e = "no non-key columns present".to_string();
            proof {
                reveal_strlit("no non-key columns present");
            }
            return Err(e);
        }
        let left_only = select(lh, rh, false);
        let right_only = select(rh, lh, false);
        proof {
            lemma_selected_len(texts(lh@), texts(rh@));
            lemma_selected_len(texts(rh@), texts(lh@));
            assert(common@.len() == texts(common@).len());
            assert(left_only@.len() == texts(left_only@).len());
            assert(right_only@.len() == texts(right_only@).len());
        }
        let ghost before = interned_of(*interner);
        let common_cols = intern_all(&common, interner);
        let ghost d1 = interned_of(*interner);
        let left_only = intern_all(&left_only, interner);
        let ghost d2 = interned_of(*interner);
        let right_only = intern_all(&right_only, interner);
        let ghost d3 = interned_of(*interner);
        let ksyms = intern_all(key_cols, interner);
        let ghost dict = interned_of(*interner);
        proof {
            assert(dict.subrange(0, d1.len() as int) =~= dict.subrange(0, d3.len() as int).subrange(0, d2.len() as int).subrange(0, d1.len() as int));
            assert(dict.subrange(0, d2.len() as int) =~= dict.subrange(0, d3.len() as int).subrange(0, d2.len() as int));
            lemma_prefix_resolved(dict, d1, common_cols@);
            lemma_prefix_resolved(dict, d2, left_only@);
            lemma_prefix_resolved(dict, d3, right_only@);
            assert forall|i: int| 0 <= i < common_cols@.len() implies #[trigger] common_cols@[i] < dict.len() by {}
            assert forall|i: int| 0 <= i < left_only@.len() implies #[trigger] left_only@[i] < dict.len() by {}
            assert forall|i: int| 0 <= i < right_only@.len() implies #[trigger] right_only@[i] < dict.len() by {}
        }
        let (left_ids, right_ids) = (left_only, right_only);
        Ok(Config {
            files: [cli.left_file, cli.right_file],
            delims: [cli.left_delim, cli.right_delim],
            key_cols: ksyms,
            common_cols,
            ignored_cols: [left_ids, right_ids],
            out_file: cli.out_file,
        })
    }
}

} // verus!

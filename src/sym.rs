use vstd::prelude::*;
use string_interner::backend::StringBackend;
use string_interner::symbol::{Symbol, SymbolUsize};
use string_interner::StringInterner;

verus! {

/// The symbol dictionary shared by both tables of a run: each distinct
/// string gets the next dense id, starting from zero, and keeps it.
#[verifier::external_body]
pub struct Interner {
    inner: StringInterner<StringBackend<SymbolUsize>>,
}

/// The strings interned so far; a string's id is its position.
pub uninterp spec fn interned_of(i: Interner) -> Seq<Seq<char>>;

/// The string with surrounding whitespace removed.
pub uninterp spec fn trimmed(s: Seq<char>) -> Seq<char>;

/// Relies on `str::trim`: the result depends on the characters alone.
#[verifier::external_body]
pub fn trim_field(s: &str) -> (r: &str)
    ensures
        r@ == trimmed(s@),
{
    s.trim()
}

impl Interner {
    /// Relies on `StringInterner::new`: an empty dictionary.
    #[verifier::external_body]
    pub fn new() -> (r: Interner)
        ensures
            interned_of(r) == Seq::<Seq<char>>::empty(),
    {
        Interner { inner: StringInterner::new() }
    }

    /// Relies on `StringInterner::len`: the number of distinct strings interned.
    #[verifier::external_body]
    pub fn len(&self) -> (n: usize)
        ensures
            n == interned_of(*self).len(),
    {
        self.inner.len()
    }

    /// Relies on `StringInterner::get_or_intern` with the string backend:
    /// a string seen before keeps its id; a new one is appended and gets the
    /// next id. It panics when the next id is `usize::MAX`, which
    /// `SymbolUsize` cannot hold.
    #[verifier::external_body]
    pub fn get_or_intern(&mut self, s: &str) -> (id: usize)
        requires
            interned_of(*old(self)).len() < usize::MAX,
        ensures
            interned_of(*final(self)).no_duplicates(),
            interned_of(*old(self)).contains(s@) ==> {
                &&& interned_of(*final(self)) == interned_of(*old(self))
                &&& id < interned_of(*old(self)).len()
                &&& interned_of(*old(self))[id as int] == s@
            },
            !interned_of(*old(self)).contains(s@) ==> {
                &&& interned_of(*final(self)) == interned_of(*old(self)).push(s@)
                &&& id == interned_of(*old(self)).len()
            },
    {
        self.inner.get_or_intern(s).to_usize()
    }

    /// Relies on `StringInterner::resolve`: the string with the given id, if
    /// there is one.
    #[verifier::external_body]
    pub fn resolve(&self, id: usize) -> (r: Option<&str>)
        ensures
            r.is_some() <==> id < interned_of(*self).len(),
            r.is_some() ==> r.unwrap()@ == interned_of(*self)[id as int],
    {
        match SymbolUsize::try_from_usize(id) {
            Some(sym) => self.inner.resolve(sym),
            None => None,
        }
    }
}

} // verus!

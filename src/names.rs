//! The text of identifiers: an interner hands out identifiers as indices
//! and gives their text back for diagnostics.
use vstd::prelude::*;
use string_interner::symbol::{Symbol, SymbolU32};
use string_interner::StringInterner;

verus! {

/// A table of interned strings; an identifier is the index of its string.
#[verifier::external_body]
pub struct Names {
    inner: StringInterner,
}

/// The strings held by a table, in the order they were first interned.
pub uninterp spec fn interned(n: Names) -> Seq<Seq<char>>;

/// Shown for an identifier that the table does not hold.
pub open spec fn unknown_name() -> Seq<char> {
    "<unrecognised interned string>"@
}

/// Relies on `StringInterner::new`: a new interner holds no string.
#[verifier::external_body]
fn empty_table() -> (r: Names)
    ensures
        interned(r) == Seq::<Seq<char>>::empty(),
{
    Names { inner: StringInterner::new() }
}

/// Relies on `StringInterner::len`: the number of strings held.
#[verifier::external_body]
fn table_len(n: &Names) -> (r: usize)
    ensures
        r == interned(*n).len(),
{
    n.inner.len()
}

/// Relies on `StringInterner::get_or_intern` with the default string backend:
/// a string already held keeps its symbol, a new one is appended and its
/// symbol's index is the number of strings held before. It panics once the
/// index no longer fits a `u32` symbol.
#[verifier::external_body]
fn get_or_intern(n: &mut Names, s: &str) -> (id: u32)
    requires
        interned(*old(n)).len() < u32::MAX,
    ensures
        interned(*old(n)).contains(s@) ==> interned(*final(n)) == interned(*old(n)),
        !interned(*old(n)).contains(s@) ==> interned(*final(n)) == interned(*old(n)).push(s@),
        id < interned(*final(n)).len(),
        interned(*final(n))[id as int] == s@,
{
    n.inner.get_or_intern(s).to_usize() as u32
}

/// Relies on `SymbolU32::try_from_usize` and `StringInterner::resolve` with the
/// default string backend: the string at index `id`, if there is one.
#[verifier::external_body]
fn resolve(n: &Names, id: u32) -> (r: Option<String>)
    ensures
        match r {
            Some(t) => id < interned(*n).len() && t@ == interned(*n)[id as int],
            None => id >= interned(*n).len(),
        },
{
    match SymbolU32::try_from_usize(id as usize) {
        Some(sym) => match n.inner.resolve(sym) {
            Some(text) => Some(text.to_owned()),
            None => None,
        },
        None => None,
    }
}

impl Names {
    /// Whether the table holds identifier `id`.
    pub fn holds(&self, id: u32) -> (r: bool)
        ensures
            r == ((id as nat) < interned(*self).len()),
    {
        (id as usize) < table_len(self)
    }

    /// An empty table.
    pub fn new() -> (r: Names)
        ensures
            interned(r) == Seq::<Seq<char>>::empty(),
    {
        empty_table()
    }

    /// The identifier of `s`, interning it if it is new; `None` where the
    /// table is full.
    pub fn intern(&mut self, s: &str) -> (r: Option<u32>)
        ensures
            match r {
                Some(id) => {
                    &&& id < interned(*final(self)).len()
                    &&& interned(*final(self))[id as int] == s@
                    &&& interned(*old(self)).contains(s@) ==> interned(*final(self)) == interned(
                        *old(self),
                    )
                    &&& !interned(*old(self)).contains(s@) ==> interned(*final(self)) == interned(
                        *old(self),
                    ).push(s@)
                },
                None => interned(*old(self)).len() >= u32::MAX && interned(*final(self))
                    == interned(*old(self)),
            },
    {
        if table_len(self) >= u32::MAX as usize {
            return None;
        }
        Some(get_or_intern(self, s))
    }

    /// The text of identifier `id`, or a placeholder where the table does not
    /// hold it.
    pub fn name_text(&self, id: u32) -> (r: String)
        ensures
            id < interned(*self).len() ==> r@ == interned(*self)[id as int],
            id >= interned(*self).len() ==> r@ == unknown_name(),
    {
        match resolve(self, id) {
            Some(t) => t,
            None => {
                proof {
                    reveal_strlit("<unrecognised interned string>");
                }
                "<unrecognised interned string>".to_owned()
            },
        }
    }
}

} // verus!

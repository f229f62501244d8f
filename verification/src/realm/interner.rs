//! String interning for the realm's cross-document tables, backed by `lasso`.

use lasso::{Key, Rodeo, Spur};
use vstd::prelude::*;

verus! {

/// The `lasso` interner.
#[verifier::external_type_specification]
#[verifier::external_body]
#[verifier::reject_recursive_types(K)]
#[verifier::reject_recursive_types(S)]
pub struct ExRodeo<K, S>(Rodeo<K, S>);

/// The `lasso` key type.
#[verifier::external_type_specification]
#[verifier::external_body]
pub struct ExSpur(Spur);

/// The strings an interner holds, in the order they were interned: the key
/// of a string is its position.
pub uninterp spec fn interned(r: Rodeo) -> Seq<Seq<char>>;

/// A new, empty interner.
///
/// Trusted: `Rodeo::default` holds no strings.
#[verifier::external_body]
pub(crate) fn interner_new() -> (r: Rodeo)
    ensures
        interned(r) == Seq::<Seq<char>>::empty(),
{
    Rodeo::default()
}

/// The key of `s`, interning it first when it is new.
///
/// Trusted: `Rodeo::get_or_intern` returns the key of a string already held
/// (leaving the interner as it was) and otherwise appends the string, whose
/// key is then the former number of strings; a `Spur` key converts to that
/// position with `Key::into_usize`. The interner never holds a string twice.
/// It panics once `u32::MAX - 1` strings are held, which `requires` rules out.
#[verifier::external_body]
pub(crate) fn interner_get_or_intern(r: &mut Rodeo, s: &str) -> (k: usize)
    requires
        interned(*old(r)).len() < 4294967295,
    ensures
        interned(*old(r)).contains(s@) ==> interned(*final(r)) == interned(*old(r)),
        !interned(*old(r)).contains(s@) ==> interned(*final(r)) == interned(*old(r)).push(s@),
        interned(*final(r)).no_duplicates() == interned(*old(r)).no_duplicates(),
        k < interned(*final(r)).len(),
        interned(*final(r))[k as int] == s@,
{
    r.get_or_intern(s).into_usize()
}

/// The key of `s`, if it is interned.
///
/// Trusted: `Rodeo::get` returns the key of a string the interner holds, and
/// `None` for any other string.
#[verifier::external_body]
pub(crate) fn interner_get(r: &Rodeo, s: &str) -> (k: Option<usize>)
    ensures
        match k {
            Some(i) => i < interned(*r).len() && interned(*r)[i as int] == s@,
            None => !interned(*r).contains(s@),
        },
{
    match r.get(s) {
        Some(key) => Some(key.into_usize()),
        None => None,
    }
}

/// The string of key `k`.
///
/// Trusted: `Rodeo::resolve` returns the string at position `k`; `Spur::try_from_usize`
/// makes the key of any position below `u32::MAX`.
#[verifier::external_body]
pub(crate) fn interner_resolve(r: &Rodeo, k: usize) -> (s: &str)
    requires
        k < interned(*r).len(),
        k < 4294967295,
    ensures
        s@ == interned(*r)[k as int],
{
    r.resolve(&Spur::try_from_usize(k).unwrap())
}

/// The number of interned strings.
///
/// Trusted: `Rodeo::len` is the number of strings held.
#[verifier::external_body]
pub(crate) fn interner_len(r: &Rodeo) -> (n: usize)
    ensures
        n == interned(*r).len(),
{
    r.len()
}

} // verus!

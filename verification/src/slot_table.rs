//! The slot table: a reusable-key store that maps each live key to the arena
//! location of the node it identifies. It is a `slab::Slab<usize>`.
//!
//! Nothing in this file is proved. `slots` names what a table holds, and each
//! wrapper states, over that name, what the method of `Slab` it calls does to
//! the table and what it returns. The container is proved against these
//! statements. Running out of memory is outside every one of them.

use slab::Slab;
use vstd::prelude::*;

verus! {

/// `slab::Slab`, taken as an opaque type.
#[verifier::external_type_specification]
#[verifier::external_body]
#[verifier::reject_recursive_types(T)]
pub struct ExSlab<T>(Slab<T>);

/// The live associations of a slot table: every key in use, with the location
/// stored under it. There are finitely many.
pub uninterp spec fn slots(table: Slab<usize>) -> Map<usize, usize>;

/// The key that the next insertion into a slot table will use: what
/// `Slab::vacant_key` returns.
pub uninterp spec fn vacant(table: Slab<usize>) -> usize;

/// `Slab::new`: the new table holds no association, and its first key is 0.
#[verifier::external_body]
pub(crate) fn slab_new() -> (table: Slab<usize>)
    ensures
        slots(table) == (Map::<usize, usize>::empty()),
        vacant(table) == 0,
{
    Slab::new()
}

/// `Slab::len`: the number of live associations.
#[verifier::external_body]
pub(crate) fn slab_len(table: &Slab<usize>) -> (n: usize)
    ensures
        n == slots(*table).len(),
{
    table.len()
}

/// `Slab::insert`: stores `loc` under the vacant key, which was not in use,
/// and returns that key. Every other association is kept.
#[verifier::external_body]
pub(crate) fn slab_insert(table: &mut Slab<usize>, loc: usize) -> (key: usize)
    ensures
        key == vacant(*old(table)),
        !slots(*old(table)).dom().contains(key),
        slots(*final(table)) == slots(*old(table)).insert(key, loc),
{
    table.insert(loc)
}

/// `Slab::try_remove`: releases `key` if it is in use and returns the location
/// that was stored under it; the key is then the vacant key. On a key that is
/// not in use it changes nothing.
#[verifier::external_body]
pub(crate) fn slab_try_remove(table: &mut Slab<usize>, key: usize) -> (loc: Option<usize>)
    ensures
        loc == (if slots(*old(table)).dom().contains(key) {
            Some(slots(*old(table))[key])
        } else {
            None
        }),
        slots(*final(table)) == slots(*old(table)).remove(key),
        vacant(*final(table)) == (if loc is Some {
            key
        } else {
            vacant(*old(table))
        }),
{
    table.try_remove(key)
}

/// `Slab::get`: the location stored under `key`, if the key is in use.
#[verifier::external_body]
pub(crate) fn slab_get(table: &Slab<usize>, key: usize) -> (loc: Option<&usize>)
    ensures
        loc == (if slots(*table).dom().contains(key) {
            Some(&slots(*table)[key])
        } else {
            None
        }),
{
    table.get(key)
}

/// `Slab::get_mut`: exclusive access to the location stored under `key`, if
/// the key is in use. Whatever is written through it replaces that location;
/// no other association changes, nor does the vacant key.
#[verifier::external_body]
pub(crate) fn slab_get_mut(table: &mut Slab<usize>, key: usize) -> (slot: Option<&mut usize>)
    ensures
        match slot {
            Some(loc) => slots(*old(table)).dom().contains(key) && *loc == slots(*old(table))[key]
                && slots(*final(table)) == slots(*old(table)).insert(key, *final(loc)),
            None => !slots(*old(table)).dom().contains(key) && slots(*final(table)) == slots(
                *old(table),
            ),
        },
        vacant(*final(table)) == vacant(*old(table)),
{
    table.get_mut(key)
}

/// `Slab::clear`: releases every key; the vacant key is 0 again.
#[verifier::external_body]
pub(crate) fn slab_clear(table: &mut Slab<usize>)
    ensures
        slots(*final(table)) == (Map::<usize, usize>::empty()),
        vacant(*final(table)) == 0,
{
    table.clear()
}

/// `Slab::shrink_to_fit`: gives back unused storage; no association changes.
/// The vacant key may be another one afterwards.
#[verifier::external_body]
pub(crate) fn slab_shrink_to_fit(table: &mut Slab<usize>)
    ensures
        slots(*final(table)) == slots(*old(table)),
{
    table.shrink_to_fit()
}

} // verus!

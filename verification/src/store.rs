//! The table's storage management, which the standard hash map performs.

use crate::types::Entry;
use std::collections::HashMap;
use std::collections::TryReserveError;
use vstd::prelude::*;

verus! {

/// `HashMap::capacity`: the number of entries the table can hold without
/// allocating again. The standard library documents it as a lower bound on
/// what the table can hold, so it is never below the number it holds now.
#[verifier::external_body]
pub(crate) fn table_capacity(table: &HashMap<i64, Entry>) -> (slots: usize)
    ensures
        slots >= table@.len(),
{
    table.capacity()
}

/// `HashMap::try_reserve`: asks for room for `additional` more entries.
/// Whether the platform grants it is not known in advance; either way the
/// contents of the table are untouched.
#[verifier::external_body]
pub(crate) fn table_try_reserve(table: &mut HashMap<i64, Entry>, additional: usize) -> (granted:
    Result<(), TryReserveError>)
    ensures
        final(table)@ == old(table)@,
{
    table.try_reserve(additional)
}

/// `HashMap::shrink_to_fit`: gives back unused room. The contents of the
/// table are untouched.
#[verifier::external_body]
pub(crate) fn table_shrink_to_fit(table: &mut HashMap<i64, Entry>)
    ensures
        final(table)@ == old(table)@,
{
    table.shrink_to_fit()
}

} // verus!

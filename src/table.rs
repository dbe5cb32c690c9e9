use indexmap::IndexMap;
use vstd::prelude::*;

use crate::task::Task;

verus! {

#[verifier::external_type_specification]
#[verifier::external_body]
#[verifier::reject_recursive_types(K)]
#[verifier::reject_recursive_types(V)]
#[verifier::reject_recursive_types(S)]
pub struct ExIndexMap<K, V, S>(IndexMap<K, V, S>);

/// For each day's place in the week, that day's tasks in order.
pub type DayTable = IndexMap<u8, Vec<Task>>;

/// What a day table holds: for each day's place in the week, that day's tasks.
pub uninterp spec fn day_table(m: IndexMap<u8, Vec<Task>>) -> Map<u8, Seq<Task>>;

/// Relies on `IndexMap::new`: a new map holds no entries.
#[verifier::external_body]
pub(crate) fn table_new() -> (r: DayTable)
    ensures
        day_table(r).dom() == Set::<u8>::empty(),
{
    IndexMap::new()
}

/// Relies on `IndexMap::insert`: afterwards `key` maps to `value` and every
/// other entry is as it was; the value that `key` had is returned, `None`
/// where it had none.
#[verifier::external_body]
pub(crate) fn table_insert(m: &mut IndexMap<u8, Vec<Task>>, key: u8, value: Vec<Task>) -> (r:
    Option<Vec<Task>>)
    ensures
        day_table(*final(m)) == day_table(*old(m)).insert(key, value@),
        day_table(*old(m)).contains_key(key) ==> (r matches Some(v) && v@ == day_table(
            *old(m),
        )[key]),
        !day_table(*old(m)).contains_key(key) ==> r is None,
{
    m.insert(key, value)
}

/// Relies on `IndexMap::get`: the value stored for `key`, `None` where there is none.
#[verifier::external_body]
pub(crate) fn table_get(m: &DayTable, key: u8) -> (r: Option<&Vec<Task>>)
    ensures
        r is Some <==> day_table(*m).contains_key(key),
        r matches Some(v) ==> v@ == day_table(*m)[key],
{
    m.get(&key)
}

} // verus!

//! The `indexmap` collections that the analysis fills, behind trusted items.
//!
//! Each map is seen through a name for its entries in iteration order. Every
//! wrapper states what `indexmap`'s source shows of the method it calls: the
//! order is insertion order, `insert_full` keeps an existing key in its place
//! and replaces its value, `shift_remove` shifts the later entries down, and no
//! key occurs twice.

use vstd::prelude::*;
use indexmap::IndexMap;
use crate::entries::{has_key, key_index, keys_distinct, remove_key, upsert};
use crate::types::{ExecutorState, Span, Task, TimedValue};

verus! {

#[verifier::external_type_specification]
#[verifier::external_body]
#[verifier::reject_recursive_types(K)]
#[verifier::reject_recursive_types(V)]
#[verifier::reject_recursive_types(S)]
pub struct ExIndexMap<K, V, S>(IndexMap<K, V, S>);

/// What `IndexMap::insert_full(key, value)` hands back on a map with the entries `s`.
pub open spec fn insert_full_result<K, V>(s: Seq<(K, V)>, k: K) -> (int, Option<V>) {
    if has_key(s, k) {
        (key_index(s, k), Some(s[key_index(s, k)].1))
    } else {
        (s.len() as int, None)
    }
}

/// What `IndexMap::shift_remove(key)` hands back on a map with the entries `s`.
pub open spec fn shift_remove_result<K, V>(s: Seq<(K, V)>, k: K) -> Option<V> {
    if has_key(s, k) {
        Some(s[key_index(s, k)].1)
    } else {
        None
    }
}

/// The entries of a map from IRQ numbers to their on/off timelines, in order.
pub uninterp spec fn irq_entries(m: IndexMap<u16, Vec<TimedValue<bool>>>) -> Seq<(u16, Vec<TimedValue<bool>>)>;

/// The entries of a map from executor ids to their state timelines, in order.
pub uninterp spec fn executor_entries(m: IndexMap<u32, Vec<TimedValue<ExecutorState>>>) -> Seq<(u32, Vec<TimedValue<ExecutorState>>)>;

/// The entries of a map from task ids to tasks, in order.
pub uninterp spec fn task_entries(m: IndexMap<u32, Task>) -> Seq<(u32, Task)>;

/// The entries of a map from span ids to spans, in order.
pub uninterp spec fn span_entries(m: IndexMap<u32, Span>) -> Seq<(u32, Span)>;

/// `IndexMap::new`: a map without entries.
#[verifier::external_body]
pub(crate) fn irq_map_new() -> (m: IndexMap<u16, Vec<TimedValue<bool>>>)
    ensures
        irq_entries(m) == Seq::<(u16, Vec<TimedValue<bool>>)>::empty(),
{
    IndexMap::new()
}

/// `IndexMap::insert_full`: stores `value` under `key` (see the module comment).
#[verifier::external_body]
pub(crate) fn irq_map_insert_full(
    m: &mut IndexMap<u16, Vec<TimedValue<bool>>>,
    key: u16,
    value: Vec<TimedValue<bool>>,
) -> (r: (usize, Option<Vec<TimedValue<bool>>>))
    ensures
        (r.0 as int, r.1) == insert_full_result(irq_entries(*old(m)), key),
        irq_entries(*final(m)) == upsert(irq_entries(*old(m)), key, value),
        keys_distinct(irq_entries(*final(m))),
{
    m.insert_full(key, value)
}

/// `IndexMap::new`: a map without entries.
#[verifier::external_body]
pub(crate) fn executor_map_new() -> (m: IndexMap<u32, Vec<TimedValue<ExecutorState>>>)
    ensures
        executor_entries(m) == Seq::<(u32, Vec<TimedValue<ExecutorState>>)>::empty(),
{
    IndexMap::new()
}

/// `IndexMap::insert_full`: stores `value` under `key` (see the module comment).
#[verifier::external_body]
pub(crate) fn executor_map_insert_full(
    m: &mut IndexMap<u32, Vec<TimedValue<ExecutorState>>>,
    key: u32,
    value: Vec<TimedValue<ExecutorState>>,
) -> (r: (usize, Option<Vec<TimedValue<ExecutorState>>>))
    ensures
        (r.0 as int, r.1) == insert_full_result(executor_entries(*old(m)), key),
        executor_entries(*final(m)) == upsert(executor_entries(*old(m)), key, value),
        keys_distinct(executor_entries(*final(m))),
{
    m.insert_full(key, value)
}

/// `IndexMap::new`: a map without entries.
#[verifier::external_body]
pub(crate) fn task_map_new() -> (m: IndexMap<u32, Task>)
    ensures
        task_entries(m) == Seq::<(u32, Task)>::empty(),
{
    IndexMap::new()
}

/// `IndexMap::insert_full`: stores `value` under `key` (see the module comment).
#[verifier::external_body]
pub(crate) fn task_map_insert_full(m: &mut IndexMap<u32, Task>, key: u32, value: Task) -> (r: (
    usize,
    Option<Task>,
))
    ensures
        (r.0 as int, r.1) == insert_full_result(task_entries(*old(m)), key),
        task_entries(*final(m)) == upsert(task_entries(*old(m)), key, value),
        keys_distinct(task_entries(*final(m))),
{
    m.insert_full(key, value)
}

/// `IndexMap::new`: a map without entries.
#[verifier::external_body]
pub(crate) fn span_map_new() -> (m: IndexMap<u32, Span>)
    ensures
        span_entries(m) == Seq::<(u32, Span)>::empty(),
{
    IndexMap::new()
}

/// `IndexMap::insert_full`: stores `value` under `key` (see the module comment).
#[verifier::external_body]
pub(crate) fn span_map_insert_full(m: &mut IndexMap<u32, Span>, key: u32, value: Span) -> (r: (
    usize,
    Option<Span>,
))
    ensures
        (r.0 as int, r.1) == insert_full_result(span_entries(*old(m)), key),
        span_entries(*final(m)) == upsert(span_entries(*old(m)), key, value),
        keys_distinct(span_entries(*final(m))),
{
    m.insert_full(key, value)
}

/// `IndexMap::shift_remove`: takes out the entry with `key`, if there is one.
#[verifier::external_body]
pub(crate) fn span_map_shift_remove(m: &mut IndexMap<u32, Span>, key: u32) -> (r: Option<Span>)
    ensures
        r == shift_remove_result(span_entries(*old(m)), key),
        span_entries(*final(m)) == remove_key(span_entries(*old(m)), key),
        keys_distinct(span_entries(*final(m))),
{
    m.shift_remove(&key)
}

/// `IndexMap::into_values`, collected: the values in the map's order.
#[verifier::external_body]
pub(crate) fn span_map_into_values(m: IndexMap<u32, Span>) -> (r: Vec<Span>)
    ensures
        r@ == crate::entries::entry_values(span_entries(m)),
{
    m.into_values().collect()
}

} // verus!

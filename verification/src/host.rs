//! The interface between generated code and its host.
use vstd::prelude::*;

verus! {

/// A handle to a value in the host's value store.
#[derive(Debug, Clone, Copy, PartialEq, Eq, Structural, Hash)]
pub struct HostVal(pub u32);

/// The environment that provides storage and data access to generated code.
///
/// Every value is an opaque handle: generated code never looks into one, and
/// all operations on values go through the host.
pub trait Host {
    fn scan_start(&mut self, rel_id: i32) -> i32;

    fn scan_delta_start(&mut self, rel_id: i32) -> i32;

    fn scan_next(&mut self, iter_id: i32) -> i32;

    /// Merges deltas and returns 1 if changes occurred, 0 otherwise.
    fn merge_deltas(&mut self) -> i32;

    fn scan_aggregate_start(&mut self, rel_id: i32, description: Vec<i32>) -> i32;

    fn scan_index_start(&mut self, rel_id: i32, col_idx: i32, val: HostVal) -> i32;

    fn get_col(&mut self, tuple_ptr: i32, col_idx: i32) -> HostVal;

    fn insert_begin(&mut self, rel_id: i32);

    fn insert_push(&mut self, val: HostVal);

    fn insert_end(&mut self);

    fn const_number(&mut self, n: i64) -> HostVal;

    fn const_float(&mut self, bits: i64) -> HostVal;

    fn const_string(&mut self, id: i32) -> HostVal;

    fn const_name(&mut self, id: i32) -> HostVal;

    fn const_time(&mut self, nanos: i64) -> HostVal;

    fn const_duration(&mut self, nanos: i64) -> HostVal;

    /// Arithmetic promotes integers to floats where one operand is a float.
    fn val_add(&mut self, a: HostVal, b: HostVal) -> HostVal;

    fn val_sub(&mut self, a: HostVal, b: HostVal) -> HostVal;

    fn val_mul(&mut self, a: HostVal, b: HostVal) -> HostVal;

    fn val_div(&mut self, a: HostVal, b: HostVal) -> HostVal;

    fn val_sqrt(&mut self, a: HostVal) -> HostVal;

    /// Comparisons return 0 or 1.
    fn val_eq(&mut self, a: HostVal, b: HostVal) -> i32;

    fn val_neq(&mut self, a: HostVal, b: HostVal) -> i32;

    fn val_lt(&mut self, a: HostVal, b: HostVal) -> i32;

    fn val_le(&mut self, a: HostVal, b: HostVal) -> i32;

    fn val_gt(&mut self, a: HostVal, b: HostVal) -> i32;

    fn val_ge(&mut self, a: HostVal, b: HostVal) -> i32;

    fn str_concat(&mut self, a: HostVal, b: HostVal) -> HostVal;

    fn str_replace(&mut self, s: HostVal, from: HostVal, to: HostVal, count: HostVal) -> HostVal;

    fn val_to_string(&mut self, val: HostVal) -> HostVal;

    /// Begins a compound value: 0 for a list, 1 for a pair, 2 for a map, 3 for a struct.
    fn compound_begin(&mut self, kind: i32);

    fn compound_push(&mut self, val: HostVal);

    fn compound_end(&mut self) -> HostVal;

    /// The element at an index of a list, or the value of a key of a map or struct.
    fn compound_get(&mut self, compound: HostVal, key: HostVal) -> HostVal;

    /// The number of elements, as a number.
    fn compound_len(&mut self, compound: HostVal) -> HostVal;

    fn pair_first(&mut self, compound: HostVal) -> HostVal;

    fn pair_second(&mut self, compound: HostVal) -> HostVal;

    fn debuglog(&mut self, val: HostVal);
}

} // verus!

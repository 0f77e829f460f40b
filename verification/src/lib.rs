//! Core logic of a Clojure runtime: values, storage, numerics and host glue.

use vstd::prelude::*;

pub mod anon_fn;
pub mod anon_laws;
pub mod array_laws;
pub mod array_map;
pub mod aws;
pub mod aws_laws;
pub mod bencode;
pub mod boot;
pub mod bytes;
pub mod calendar;
pub mod call_trace;
pub mod codec;
pub mod creds;
pub mod crossing;
pub mod crossing_laws;
pub mod csv;
pub mod csv_laws;
pub mod debug_modes;
pub mod decimal;
pub mod doubles;
pub mod draw_laws;
pub mod dynamics;
pub mod equality_laws;
pub mod eval_error;
pub mod float_math;
pub mod form;
pub mod form_value;
pub mod gc_roots;
pub mod hash_map;
pub mod hash_set;
pub mod instant;
pub mod instant_laws;
pub mod interrupt;
pub mod io_target;
pub mod isolate;
pub mod java_call_laws;
pub mod java_laws;
pub mod javamap;
pub mod kernel_laws;
pub mod kernels;
pub mod lmdb;
pub mod num;
pub mod num_arrays;
pub mod num_calls;
pub mod parse;
pub mod prefix;
pub mod process;
pub mod process_laws;
pub mod qt;
pub mod qt_laws;
pub mod range_laws;
pub mod reader_cond;
pub mod reader_laws;
pub mod rng;
pub mod rng_laws;
pub mod rows;
pub mod runtime_laws;
pub mod s3;
pub mod s3_laws;
pub mod sample_laws;
pub mod search;
pub mod session;
pub mod session_laws;
pub mod sign;
pub mod slice_laws;
pub mod sorted_by;
pub mod stack_scan;
pub mod store;
pub mod store_history;
pub mod store_laws;
pub mod store_model;
pub mod system;
pub mod system_laws;
pub mod table_laws;
pub mod tables;
pub mod text;
pub mod text_laws;
pub mod time;
pub mod transient_set;
pub mod trees;
pub mod value;
pub mod versioned;
pub mod wire;
pub mod wire_laws;

verus! {

/// The sum of two numbers.
pub fn add(left: u64, right: u64) -> (r: u64)
    requires
        left + right <= u64::MAX,
    ensures
        r == left + right,
{
    left + right
}

} // verus!

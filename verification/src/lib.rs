//! Data structures and algorithms of a Datalog engine.
#![verifier::loop_isolation(false)]
use vstd::prelude::*;

pub mod bounds_check;
pub mod bounds_infer;
pub mod cache;
pub mod calendar;
pub mod calendar_laws;
pub mod code_laws;
pub mod code_meaning;
pub mod code_runs;
pub mod code_tables;
pub mod codec;
pub mod codegen;
pub mod columns;
pub mod conform;
pub mod database;
pub mod delta;
pub mod disk_model;
pub mod disk_names;
pub mod disk_store;
pub mod driver;
pub mod execution;
pub mod expansion;
pub mod file_backend;
pub mod group_laws;
pub mod has_type;
pub mod host;
pub mod infer;
pub mod infer_laws;
pub mod ir;
pub mod mem_tables;
pub mod messages;
pub mod name_trie;
pub mod names;
pub mod physical;
pub mod plan_expr;
pub mod plan_laws;
pub mod plan_meaning;
pub mod plan_reads;
pub mod plan_terms;
pub mod planner;
pub mod predicate;
pub mod predicate_laws;
pub mod program_laws;
pub mod program_plans;
pub mod relations;
pub mod round_laws;
pub mod row_counts;
pub mod schedule;
pub mod schedule_laws;
pub mod source;
pub mod store;
pub mod store_laws;
pub mod tables;
pub mod text;
pub mod type_bounds;
pub mod type_expr;
pub mod type_laws;
pub mod type_ops;
pub mod value;
pub mod wasm;
pub mod wellformed;

verus! {

} // verus!

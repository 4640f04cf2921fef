//! Offline analysis of a banking-trace event stream.
//!
//! The trace is a time-ordered sequence of events: packet batches of candidate
//! transactions, interleaved with slot-boundary markers. This crate contains
//! the verified analytical core that replaying such a trace requires:
//!
//! * a [`window::WindowFilter`] that gates which events an analysis acts on,
//!   by an optional inclusive slot or timestamp window;
//! * the conflict-graph scheduling-order builder
//!   ([`graph::ConflictGraphBuilder`]), which reconstructs the
//!   "must-execute-after" order a priority-driven scheduler would impose on a
//!   slot's transactions, and drains it in ready layers;
//! * the priority and requested-compute-unit derivation for a transaction's
//!   compute-budget instructions;
//! * the reducers over the event stream: slot ranges, time range, account
//!   usage, packet counts, duplicate counts, dump selection, and the
//!   collection of address-lookup-table keys.
//!
//! Reading trace files, decoding transaction wire bytes, and resolving
//! address-lookup tables are external concerns; the types in [`event`] carry
//! their results as plain values.

pub mod account_usage;
pub mod cli;
pub mod dump;
pub mod duplicate_check;
pub mod event;
pub mod graph;
pub mod graphia_input;
pub mod order;
pub mod packet_count;
pub mod priority;
pub mod slot_ranges;
pub mod sort;
pub mod time_range;
pub mod update_alt_store;
pub mod window;

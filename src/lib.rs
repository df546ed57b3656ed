//! A small MapReduce engine: the coordinator's task state machine, the
//! worker's partitioning and parsing rules, and a word-count plugin.

pub mod text;
pub mod task;
pub mod coordinator;
pub mod worker;
pub mod wordcount;

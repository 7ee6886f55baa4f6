//! A small MapReduce-style engine: record operators, readers, a hash
//! partitioner, a spilling aggregator, the word-count DAG interpreter, and
//! the coordinator's task scheduler with its failover rules.
pub mod aggregate;
pub mod counts;
pub mod dag;
pub mod engine;
pub mod interpret;
pub mod job;
pub mod laws;
pub mod join;
pub mod master;
pub mod ops;
pub mod readers;
pub mod runner;
pub mod shuffle;
pub mod task;
pub mod text;
pub mod tokenize;
pub mod value;
pub mod wordcount;
pub mod worker;

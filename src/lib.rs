//! Core of a distributed evaluation engine: the execution DAG model, the
//! content-addressed file store index, the execution cache and the scheduler.
pub mod batch;
pub mod booklet;
pub mod cache;
pub mod checks;
pub mod client;
pub mod dag;
pub mod rpc;
pub mod scheduler;
pub mod store;
pub mod terry;
pub mod text;
pub mod worker;

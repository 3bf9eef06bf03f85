//! Workloads, measurements and reports of benchmarks.

pub mod config;
pub mod correctness;
pub mod dataset;
pub mod layout;
pub mod measure;
pub mod options;
pub mod page_laws;
pub mod pages;
pub mod phases;
pub mod report;
pub mod rss;
pub mod run;
pub mod shared;
pub mod workload;

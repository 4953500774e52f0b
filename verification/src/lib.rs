pub mod count;
pub mod error;
pub mod executor;
pub mod freshness;
pub mod graph;
pub mod listing;
pub mod modules;
pub mod order;
pub mod pattern;
pub mod registry;
pub mod resolve;
pub mod rule;
pub mod runner;
pub mod schedule;
pub mod script;
pub mod task;
pub mod text;
pub mod worker;

pub mod clock;
pub mod compression;
pub mod hierarchy;
pub mod text;
pub mod memory;
pub mod object;
pub mod reflection;
pub mod store;
pub mod symbol;
pub mod graph;
pub mod budget;
pub mod pipeline;
pub mod reflect;
pub mod module;
pub mod subsystem;
pub mod architecture;
pub mod parser;
pub mod indexer;
pub mod walk;
pub mod execution;
pub mod freshness;
pub mod patch;
pub mod semantic;
pub mod historical;

pub mod align;
pub mod error;
pub mod reader;
pub mod stats;
pub mod table;
pub mod emit;
pub mod distribute;
pub mod laws;
pub mod pipeline;

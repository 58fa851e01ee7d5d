pub mod cli;
pub mod money;
pub mod order;
pub mod receipt;
pub mod schema;

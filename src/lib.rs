pub mod text;
pub mod value;
pub mod table;
pub mod expr;
pub mod order;
pub mod query;
pub mod sql;
pub mod csv;
pub mod json;
pub mod engine;
pub mod laws;
pub mod node;
pub mod tokens;

pub use node::Node;
pub use tokens::strtok;

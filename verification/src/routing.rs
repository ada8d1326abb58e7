pub mod bucket;
pub mod node;
pub mod table;

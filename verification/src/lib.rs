pub mod cell_id;
pub mod error;
pub mod expr;
pub mod numeric;
pub mod parser;
pub mod table;
pub mod text;
pub mod topological;

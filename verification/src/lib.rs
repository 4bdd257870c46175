//! Editing engine of the cargonauts command line tool: it derives the names
//! and texts of a new resource and splices the resource's declaration into
//! the `routes!` block of a routing file, behind the entries that the block
//! holds already.

pub mod command;
pub mod edit;
pub mod generator;
pub mod locate;
pub mod names;
pub mod repeat;
pub mod template;
pub mod text;

//! A loader for robots described in URDF.

pub mod agree;
pub mod ends;
pub mod error;
pub mod index;
pub mod laws;
pub mod loader;
pub mod log;
pub mod names;
pub mod once;
pub mod order;
pub mod parts;
pub mod path;
pub mod plain;
pub mod resource;
pub mod robot;
pub mod shown;
pub mod step;
pub mod text;
pub mod totals;
pub mod tree;
pub mod urdf;
pub mod walk;
pub mod xml;

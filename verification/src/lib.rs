//! Reads reflection data out of the memory of an Unreal Engine program.

pub mod cache;
pub mod config;
pub mod dump;
pub mod macho;
pub mod mem;
pub mod minidump_file;
pub mod model;
pub mod object_types;
pub mod objects;
pub mod pathmap;
pub mod paths;
pub mod placement;
pub mod pod;
pub mod process;
pub mod property_types;
pub mod property_values;
pub mod session;
pub mod source;
pub mod structs;
pub mod text;
pub mod values;

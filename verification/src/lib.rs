//! Type generator for the Modux Roblox framework.

pub mod agree;
pub mod effects;
pub mod emit;
pub mod extract;
pub mod json;
pub mod laws;
pub mod layout;
pub mod manifest;
pub mod module;
pub mod pass;
pub mod paths;
pub mod plan;
pub mod rojo;
pub mod scan;
pub mod source;
pub mod state;
pub mod syntax;
pub mod table;
pub mod text;
pub mod tree;
pub mod watch;

//! The language definitions.

pub mod rust;
pub mod python;
pub mod javascript;
pub mod typescript;
pub mod java;
pub mod csharp;
pub mod gdscript;
pub mod go;
pub mod php;
pub mod lua;
pub mod cpp;

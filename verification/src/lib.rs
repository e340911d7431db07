//! Verified core of a command-line vector math tool: the error type, the
//! option enums, input-format detection, the binary vector file codec,
//! the IEEE-754 classification of components, and the shape checks that
//! decide which vector operations may run.

pub mod error;
pub mod algebra;
pub mod vector;
pub mod text;
pub mod binary;
pub mod io;
pub mod interpolation;
pub mod cli;
pub mod stats;
pub mod commands;
pub mod table;

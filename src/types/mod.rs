//! Values of the managed runtime as the native side sees them.
pub mod object;
pub mod scalars;
pub mod array;
pub mod data;
pub mod string;

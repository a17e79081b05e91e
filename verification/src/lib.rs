//! A static linker core for 64-bit ARM relocatable objects.
//!
//! The crate merges the symbol tables of the input objects into one global
//! table, assigns load addresses to their sections, patches every relocation
//! against the final addresses and describes the resulting executable image.

pub mod elf;
pub mod error;
pub mod linker;

pub use error::LinkerError;

//! Raw bytes for poking at files: reading whitespace-separated hexadecimal
//! bytes typed by a person, and rendering bytes as a hexdump.

pub mod dump;
pub mod parse;

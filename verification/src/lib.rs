//! Verified analysis of linker memory-map reports.
//!
//! The library parses the textual memory-map report a linker emits after a
//! build into an ordered symbol table with derived sizes and a padding
//! accumulator, and compares two such tables to report which symbols grew,
//! shrank, appeared or disappeared, and by how much.
//!
//! The modules stand in dependency order: [`scan`] holds character-level
//! helpers, [`grammar`] the line grammar of the report, [`table`] the
//! section walker and symbol table builder, [`sizes`] the size deriver and
//! the name-to-size mapping, and [`diff`] the change-report engine.

pub mod diff;
pub mod grammar;
pub mod scan;
pub mod sizes;
pub mod table;

//! A toolchain for the S502, a processor of the 6502 family: an assembler
//! that turns source text into relocatable objects, and a linker that
//! merges objects into one flat binary image, placed by a script.
//!
//! The assembler is a scanner ([`token`]) whose tokens drive a state
//! machine ([`callbacks`]) over the assembly state ([`ir`]); finished
//! sections are written as an object file ([`output`]). The linker reads
//! its script ([`script`]) and its input files ([`object`]) and places and
//! patches the merged sections ([`linker`]). Every function comes with the
//! mathematical statement of what it computes.

pub mod callbacks;
pub mod codec;
pub mod formats;
pub mod ir;
pub mod letters;
pub mod linker;
pub mod object;
pub mod opcodes;
pub mod output;
pub mod round_trip;
pub mod script;
pub mod token;

//! Synthesis of structured debug information from disassembly hints.
//!
//! The crate models a DWARF-style debug tree, a canonical type vocabulary,
//! and the merge passes that fold hint records (function boundaries,
//! parameters, variables, types, symbols) from several disassembly tools
//! into that tree.  The surrounding binary envelope (object parsing,
//! section splicing) lives outside the library and exchanges plain values
//! with it.

pub mod anvill;
pub mod bsi;
pub mod ghidra;
pub mod interner;
pub mod record;
pub mod strutil;
pub mod symbols;
pub mod synthesis;
pub mod tree;
pub mod unit;
pub mod types;

use vstd::prelude::*;

verus! {

/// The failure vocabulary of the engine.
///
/// `MalformedInput` and `UnknownType` arise while ingesting hint data;
/// `MalformedExistingDebugInfo` when a pre-existing debug entry breaks an
/// expected invariant; the remaining variants describe conditions of the
/// binary envelope that the callers surface.
#[derive(Clone, Copy, PartialEq, Eq, Structural, Debug)]
pub enum Error {
    MalformedInput,
    UnknownType,
    UnsupportedBinary,
    MalformedExistingDebugInfo,
    EditorFailed,
    IO,
}

/// The run configuration: inputs, output, and what to omit, as the
/// command line provides it.
pub struct Opt {
    pub input_binary_path: String,
    pub output_binary_path: Option<String>,
    pub anvill_paths: Vec<String>,
    pub str_bsi_paths: Vec<String>,
    pub ghidra_paths: Vec<String>,
    pub use_all_str: bool,
    pub output_dir: Option<String>,
    pub objcopy_path: Option<String>,
    pub omit_variables: bool,
    pub omit_functions: bool,
    pub omit_symbols: bool,
    pub verbose: bool,
    pub logging: Option<String>,
}

} // verus!

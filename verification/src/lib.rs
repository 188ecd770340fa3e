//! A compiler from a hierarchy of YAML state documents to a collection of
//! named finite-state machines.
//!
//! States are addressed by hierarchical, `/`-joined string identifiers that
//! mirror the directory layout of the source files plus the nesting of tree
//! documents.  The library works on in-memory file listings; reading the
//! files from disk is left to the caller.

pub mod ids;
pub mod model;
pub mod yaml;
pub mod errors;
pub mod tree;
pub mod document;
pub mod compile;
pub mod laws;

pub use compile::{to_machines, SourceFile};
pub use errors::{Format, StateFileFormat, MachinesError, FormatNestedMachinesError,
    StateFileParseError, StateYAMLFileParseError, StateYAMLFileParseYAMLError};
pub use ids::{MachineId, StateId, ArrowId};
pub use model::{Arrow, State, Machine, Space};

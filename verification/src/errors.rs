//! The error taxonomy of the compiler.
//!
//! Every stage wraps the next stage's error in a variant of its own, so a
//! failure carries the full causal chain from "compiling the nested-machines
//! layout" down to one file's parser message.  The compile is fail-fast: the
//! first file that fails aborts the whole run.

use vstd::prelude::*;
use vstd::string::*;

verus! {

/// The directory layouts the compiler understands.
#[derive(Debug)]
pub enum Format {
    NestedMachines,
}

/// The schema variant of one state file, decided by its top-level keys.
#[derive(Clone, Copy, Debug, PartialEq, Eq)]
pub enum StateFileFormat {
    Unknown,
    State,
    Tree,
    StateList,
}

impl StateFileFormat {
    /// The format's name, as diagnostics print it.
    pub fn text(&self) -> (r: String)
        ensures
            r@ == (match self {
                StateFileFormat::Unknown => "Unknown"@,
                StateFileFormat::State => "State"@,
                StateFileFormat::Tree => "Tree"@,
                StateFileFormat::StateList => "StateList"@,
            }),
    {
        match self {
            StateFileFormat::Unknown => String::from_str("Unknown"),
            StateFileFormat::State => String::from_str("State"),
            StateFileFormat::Tree => String::from_str("Tree"),
            StateFileFormat::StateList => String::from_str("StateList"),
        }
    }
}

/// Failure of a whole compile run.
#[derive(Debug, PartialEq, Eq)]
pub enum MachinesError {
    NestedMachines(FormatNestedMachinesError),
}

/// Failure while compiling the nested-machines directory layout.
#[derive(Debug, PartialEq, Eq)]
pub enum FormatNestedMachinesError {
    StateFile(StateFileParseError),
}

/// Failure while turning one file into states.
#[derive(Debug, PartialEq, Eq)]
pub enum StateFileParseError {
    YAML(StateYAMLFileParseError),
    UnsupportedExtension,
    NoExtensionOrError,
}

/// Failure while reading one file as YAML.
#[derive(Debug, PartialEq, Eq)]
pub enum StateYAMLFileParseError {
    File(String),
    YAML(StateYAMLFileParseYAMLError),
    UnknownFormat,
}

/// A parser failure, with the file and the format under which parsing was
/// attempted.
#[derive(Debug, PartialEq, Eq)]
pub struct StateYAMLFileParseYAMLError {
    pub file_path: String,
    pub format: StateFileFormat,
    pub error: String,
}

/// Mathematical value of `StateYAMLFileParseYAMLError`.
pub ghost struct YamlParseErrV {
    pub file_path: Seq<char>,
    pub format: StateFileFormat,
    pub error: Seq<char>,
}

/// Mathematical value of `StateYAMLFileParseError`.
pub ghost enum StateYAMLFileParseErrorV {
    File(Seq<char>),
    YAML(YamlParseErrV),
    UnknownFormat,
}

/// Mathematical value of `StateFileParseError`.
pub ghost enum StateFileParseErrorV {
    YAML(StateYAMLFileParseErrorV),
    UnsupportedExtension,
    NoExtensionOrError,
}

impl View for StateYAMLFileParseYAMLError {
    type V = YamlParseErrV;

    open spec fn view(&self) -> YamlParseErrV {
        YamlParseErrV { file_path: self.file_path@, format: self.format, error: self.error@ }
    }
}

impl View for StateYAMLFileParseError {
    type V = StateYAMLFileParseErrorV;

    open spec fn view(&self) -> StateYAMLFileParseErrorV {
        match self {
            StateYAMLFileParseError::File(msg) => StateYAMLFileParseErrorV::File(msg@),
            StateYAMLFileParseError::YAML(e) => StateYAMLFileParseErrorV::YAML(e@),
            StateYAMLFileParseError::UnknownFormat => StateYAMLFileParseErrorV::UnknownFormat,
        }
    }
}

impl View for StateFileParseError {
    type V = StateFileParseErrorV;

    open spec fn view(&self) -> StateFileParseErrorV {
        match self {
            StateFileParseError::YAML(e) => StateFileParseErrorV::YAML(e@),
            StateFileParseError::UnsupportedExtension => StateFileParseErrorV::UnsupportedExtension,
            StateFileParseError::NoExtensionOrError => StateFileParseErrorV::NoExtensionOrError,
        }
    }
}

impl View for FormatNestedMachinesError {
    type V = StateFileParseErrorV;

    open spec fn view(&self) -> StateFileParseErrorV {
        match self {
            FormatNestedMachinesError::StateFile(e) => e@,
        }
    }
}

impl View for MachinesError {
    type V = StateFileParseErrorV;

    open spec fn view(&self) -> StateFileParseErrorV {
        match self {
            MachinesError::NestedMachines(e) => e@,
        }
    }
}

} // verus!

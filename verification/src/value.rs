//! Values of an evaluated project model.

use vstd::prelude::*;
use crate::text_map::TextMap;

verus! {

/// A number of a project model.
#[derive(Debug, PartialEq, Eq)]
pub enum Number {
    /// A whole number.
    Int(i64),
    /// A floating-point number, by its text.
    Float {
        /// A finite number as JSON writes it, such as `1.0` or `1e16`; any other
        /// as it is displayed, such as `inf`.
        shown: String,
        /// Whether it is neither infinite nor undefined.
        finite: bool,
    },
}

/// A value of a project model.
#[derive(Debug, PartialEq, Eq)]
pub enum Value {
    /// A string.
    Str(String),
    /// A number.
    Number(Number),
    /// A boolean.
    Bool(bool),
    /// A list.
    List(Vec<Value>),
    /// A version, by the text it is shown as.
    Version(String),
    /// Properties read from a properties file.
    Properties(TextMap<String>),
    /// A coordinate such as `group:artifact:version`.
    Coordinate(String),
    /// A block of named values.
    Block(TextMap<Value>),
    /// A value that could not be evaluated, with the reason.
    Invalid(String),
    /// A reference to another module of the project, such as `:shared`.
    ProjectRef(String),
}

} // verus!

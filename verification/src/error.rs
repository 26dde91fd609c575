//! The errors of configuration resolution.

use vstd::prelude::*;
use vstd::string::StringExecFns;
use crate::value::{ConfigValue, Tree};

verus! {

/// The kinds of value.
#[derive(Debug, Clone, Copy, PartialEq, Eq, Structural)]
pub enum Kind {
    Null,
    Bool,
    Number,
    String,
    Sequence,
    Mapping,
}

/// Why a configuration could not be resolved.
#[derive(Debug, PartialEq, Eq)]
pub enum ConfigError {
    /// The configuration file exists and could not be read.
    ReadError(String),
    /// The contents of the configuration file are no valid mapping.
    ParseError(String),
    /// The value that an override gives for `field` cannot be taken.
    InvalidValue { field: String, value: String, details: String },
    /// An override addresses `field` through `existing`, which is no mapping.
    Conflict { field: String, existing: ConfigValue },
    /// The merged data holds `found` for `field`, which takes another kind.
    SchemaError { field: String, found: ConfigValue, expected: Kind },
}

/// The mathematical model of a [`ConfigError`].
pub enum ErrorModel {
    ReadError(Seq<char>),
    ParseError(Seq<char>),
    InvalidValue { field: Seq<char>, value: Seq<char>, details: Seq<char> },
    Conflict { field: Seq<char>, existing: Tree },
    SchemaError { field: Seq<char>, found: Tree, expected: Kind },
}

impl View for ConfigError {
    type V = ErrorModel;

    open spec fn view(&self) -> ErrorModel {
        match self {
            ConfigError::ReadError(cause) => ErrorModel::ReadError(cause@),
            ConfigError::ParseError(cause) => ErrorModel::ParseError(cause@),
            ConfigError::InvalidValue { field, value, details } => ErrorModel::InvalidValue {
                field: field@,
                value: value@,
                details: details@,
            },
            ConfigError::Conflict { field, existing } => ErrorModel::Conflict {
                field: field@,
                existing: existing@,
            },
            ConfigError::SchemaError { field, found, expected } => ErrorModel::SchemaError {
                field: field@,
                found: found@,
                expected: *expected,
            },
        }
    }
}

/// The kind of a value.
pub open spec fn kind_of(tree: Tree) -> Kind {
    match tree {
        Tree::Null => Kind::Null,
        Tree::Bool(_) => Kind::Bool,
        Tree::Number(_) => Kind::Number,
        Tree::String(_) => Kind::String,
        Tree::Sequence(_) => Kind::Sequence,
        Tree::Mapping(_) => Kind::Mapping,
    }
}

/// The name of a kind in messages.
pub open spec fn kind_name(kind: Kind) -> Seq<char> {
    match kind {
        Kind::Null => "null"@,
        Kind::Bool => "a boolean"@,
        Kind::Number => "a number"@,
        Kind::String => "a string"@,
        Kind::Sequence => "a sequence"@,
        Kind::Mapping => "a mapping"@,
    }
}

/// The message of an error.
pub open spec fn message_of(error: ErrorModel) -> Seq<char> {
    match error {
        ErrorModel::ReadError(cause) => "failed to read config file: "@ + cause,
        ErrorModel::ParseError(cause) => "failed to parse config file: "@ + cause,
        ErrorModel::InvalidValue { field, value, details } => "invalid value for field '"@ + field
            + "': '"@ + value + "' - "@ + details,
        ErrorModel::Conflict { field, existing } => "conflict at field '"@ + field + "': found "@
            + kind_name(kind_of(existing)) + ", expected a mapping"@,
        ErrorModel::SchemaError { field, found, expected } => "invalid type for field '"@ + field
            + "': found "@ + kind_name(kind_of(found)) + ", expected "@ + kind_name(expected),
    }
}

impl Kind {
    /// The name of the kind in messages.
    pub fn name(self) -> (r: &'static str)
        ensures
            r@ == kind_name(self),
    {
        match self {
            Kind::Null => "null",
            Kind::Bool => "a boolean",
            Kind::Number => "a number",
            Kind::String => "a string",
            Kind::Sequence => "a sequence",
            Kind::Mapping => "a mapping",
        }
    }
}

impl ConfigValue {
    /// The kind of the value.
    pub fn kind(&self) -> (r: Kind)
        ensures
            r == kind_of(self@),
    {
        match self {
            ConfigValue::Null => Kind::Null,
            ConfigValue::Bool(_) => Kind::Bool,
            ConfigValue::Number(_) => Kind::Number,
            ConfigValue::String(_) => Kind::String,
            ConfigValue::Sequence(_) => Kind::Sequence,
            ConfigValue::Mapping(_) => Kind::Mapping,
        }
    }
}

impl ConfigError {
    /// The message of the error, as it is shown to the user.
    pub fn message(&self) -> (r: String)
        ensures
            r@ == message_of(self@),
    {
        match self {
            ConfigError::ReadError(cause) => {
                let mut out = String::from_str("failed to read config file: ");
                out.append(cause.as_str());
                out
            },
            ConfigError::ParseError(cause) => {
                let mut out = String::from_str("failed to parse config file: ");
                out.append(cause.as_str());
                out
            },
            ConfigError::InvalidValue { field, value, details } => {
                let mut out = String::from_str("invalid value for field '");
                out.append(field.as_str());
                out.append("': '");
                out.append(value.as_str());
                out.append("' - ");
                out.append(details.as_str());
                out
            },
            ConfigError::Conflict { field, existing } => {
                let mut out = String::from_str("conflict at field '");
                out.append(field.as_str());
                out.append("': found ");
                out.append(existing.kind().name());
                out.append(", expected a mapping");
                out
            },
            ConfigError::SchemaError { field, found, expected } => {
                let mut out = String::from_str("invalid type for field '");
                out.append(field.as_str());
                out.append("': found ");
                out.append(found.kind().name());
                out.append(", expected ");
                out.append(expected.name());
                out
            },
        }
    }
}

} // verus!

//! A schema-driven marshalling engine for contract entry points.
//!
//! A runtime type schema (the registry of named struct and enum
//! definitions, together with the recursive [`schema::TypeDescriptor`])
//! describes the argument and return types of remote procedures.  This
//! crate turns a schema-typed argument into an ordered list of flat,
//! dotted-path leaves (the flattener), reassembles flat text values into
//! one binary payload (the composer and the leaf codec), and renders a
//! binary payload back into a human-readable value (the decoder).

pub mod args;
pub mod commands;
pub mod container;
pub mod hexfmt;
pub mod numeric;
pub mod outside;
pub mod registry;
pub mod schema;
pub mod strutil;
pub mod types;

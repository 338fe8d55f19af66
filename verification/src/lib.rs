//! Normalization of JSON Schema documents for a strict tool-calling dialect:
//! references are flattened against the root's definitions, validation-only
//! keywords are folded into descriptions, and type names are lowercased.
//!
//! [`clean_json_schema`] is the entry point. Its contract is stated over
//! [`json::JsonView`], the mathematical model of a [`Json`] tree, by the
//! functions `schema::normalized`, `flatten::flatten_object` and
//! `clean::clean_object`. The modules `laws`, `description` and `unique`
//! prove what holds of every normalized schema.

pub mod clean;
pub mod description;
pub mod flatten;
pub mod json;
pub mod laws;
pub mod schema;
pub mod text;
pub mod unique;

pub use crate::json::Json;
pub use crate::schema::clean_json_schema;

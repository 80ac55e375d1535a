//! Reverse lookup over a GraphQL introspection result: find the queries and
//! mutations that lead to a type, by name, by field or by description.
pub mod args;
pub mod network;
pub mod path;
pub mod schema;
pub mod search;
pub mod text;
pub mod laws;

//! The schema language's own messages, as plain values.
//!
//! Whatever a message may hold in a form that cannot be read (a broken
//! pointer, an unknown union member) is held here as a `Result`: the value, or
//! the error that reading it gives.
pub mod annotation;
pub mod code_generator_request;
pub mod enumerant;
pub mod field;
pub mod node;
pub mod type_;
pub mod value;

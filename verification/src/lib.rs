//! Arithmetization of the SHA-256 compression function as constraints over a
//! prime field, together with the field-level part of proof aggregation.

pub mod field;
pub mod cs;
pub mod bits;
pub mod gadgets;
pub mod constants;
pub mod sha256;
pub mod aggregate;

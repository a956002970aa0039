//! Fixed-layout binary records with per-field byte order.
//!
//! A type is described by a declaration (its fields, their attributes and, for
//! tagged unions, the representation and discriminants). `layout::derive`
//! turns the declaration into a layout that fixes, field by field, how the
//! value is laid out on the wire; `io::Registry` holds the generated layouts
//! and encodes and decodes values with them.
pub mod endian;
pub mod primitive;
pub mod layout;
pub mod io;
pub mod laws;

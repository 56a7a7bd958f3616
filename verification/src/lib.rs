//! Decoding of a container job's parameter line, a comma-separated list of
//! `KEY=VALUE` pairs, into a typed and validated record.
//!
//! [`ContainerParams::decode`] is the entry point. What a line decodes to is
//! stated by `params::decode_result`; `laws` holds what follows from it for
//! every line.

pub mod address;
pub mod error;
pub mod field;
pub mod laws;
pub mod number;
pub mod params;
pub mod text;

pub use address::Address;
pub use error::DecodeError;
pub use field::Field;
pub use params::ContainerParams;

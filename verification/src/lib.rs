//! Ownership and lifecycle of a quadrature-function context handle.
//!
//! A context handle owns one token that a backend issued for a block of
//! context data. This crate decides what is asked of the backend and when;
//! the caller performs the requests and hands the answers back.
//!
//! - [`context`] holds the handle: how it comes to own a token, which
//!   requests it makes of the backend, and how it lets go.
//! - [`text`] reads what the backend wrote into a capture buffer as text.
//! - [`lifecycle`] proves, over whole lives of a handle, that its token is
//!   released exactly once.
//! - [`std_specs`] lists what is assumed of the standard library.
pub mod context;
pub mod lifecycle;
pub mod std_specs;
pub mod text;

pub use context::{BackendFault, Lifecycle, QFunctionContext, Request, Token};

//! A small pseudo-multiline terminal input editing library.
//!
//! The crate is organized around three cooperating pieces: a dual-buffer
//! text model with a cursor ([`editor`]), a byte-stream decoder for
//! multi-byte characters ([`iter`]), and a line-reading session with
//! bounded history ([`repline`]).  A prepared menu loop over a session
//! lives in [`prebaked`].

pub mod editor;
pub mod error;
pub mod iter;
pub mod prebaked;
pub mod repline;

pub use error::Error;
pub use prebaked::{read_and, Response};
pub use repline::Repline;

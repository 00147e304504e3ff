//! HTTP/1.x message framing and prefix routing.
//!
//! The crate turns a stream of bytes into typed frames, typed frames back
//! into bytes, and matches a request to a registered route by method and
//! URI prefix. The grammar of a message is defined over bytes in
//! [`wire`]; every function states in its contract what it computes in
//! terms of that grammar.

pub mod text;
pub mod error;
pub mod method;
pub mod version;
pub mod headers;
pub mod compress;
pub mod wire;
pub mod frame;
pub mod parse;
pub mod router;
pub mod dispatch;
pub mod cursor;
pub mod laws;

pub use cursor::{ByteCursor, CursorStep};
pub use error::{HttpError, HttpErrorKind};
pub use frame::{HttpFrame, StatusCode};
pub use headers::HeaderMap;
pub use method::Method;
pub use router::HttpServer;
pub use version::Version;

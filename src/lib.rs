//! A single-threaded HTTP/1.1 server core: incremental request assembly from
//! arbitrarily split reads (`Content-Length` and chunked framing), request
//! parsing, routing by port and path pattern, a session store with expiry, and
//! the decisions of a readiness-driven event loop.
pub mod conn;
pub mod helpers;
pub mod https;
pub mod router;
pub mod session;
pub mod strmap;
pub mod text;

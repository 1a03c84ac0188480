//! A verified core for a small directory-serving HTTP server.
//!
//! The library resolves an untrusted request-target to a path contained in a
//! configured root directory, renders directory listings as HTML, classifies
//! file contents for the `Content-Type` header, and assembles the HTTP
//! responses. Reading the request, probing the filesystem and writing to the
//! connection are left to the caller.
pub mod classify;
pub mod listing;
pub mod numfmt;
pub mod paths;
pub mod request;
pub mod response;
pub mod server;

//! The query surface: what is answered to a reader. The answers are made
//! here; listening and encoding them are left to the server around this
//! library.

pub mod handlers;
pub mod models;

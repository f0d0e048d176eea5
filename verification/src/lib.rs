//! A small web server's request handling, verified: request parsing, page
//! building, the priority request queue, the static-file cache and the
//! server's event step.
pub mod addr;
pub mod args;
pub mod assoc;
pub mod bytes;
pub mod cache;
pub mod dynamic;
pub mod laws;
pub mod pages;
pub mod path;
pub mod server;

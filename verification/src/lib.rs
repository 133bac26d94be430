//! A small web server's decision logic, verified: request ordering and the
//! static-file request queue, the page cache, request routing, the pages the
//! server answers with, server-side includes, and the visitor-log analysis.

pub mod bytes;
pub mod text;
pub mod priority;
pub mod queue;
pub mod lru;
pub mod request;
pub mod pages;
pub mod shtml;
pub mod waiting;
pub mod server;
pub mod countmap;
pub mod analyze;
pub mod args;

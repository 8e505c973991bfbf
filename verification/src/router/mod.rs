//! The client's app-map: URL path segments to pages and back.

pub mod page;

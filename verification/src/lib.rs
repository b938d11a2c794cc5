//! A small static-asset web server core: request-path sanitization and
//! normalization, the pretty-URL candidate chain, the dual (embedded /
//! disk) asset backend with its root-containment guarantee, the HTTP
//! response decisions, the server lifecycle state machine, and the memory
//! figures of the diagnostic endpoint.

pub mod assets;
pub mod config;
pub mod lifecycle;
pub mod paths;
pub mod response;
pub mod stats;

pub use paths::candidate_paths;
pub use paths::normalize_request_path;
pub use paths::sanitize_relative_path;

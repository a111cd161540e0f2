//! Reports the files of a directory tree with the most recent (or the
//! oldest) access times, optionally filtered by glob patterns and grouped
//! by file extension.

pub mod error;
pub mod options;
pub mod select;
pub mod extindex;
pub mod filter;
pub mod paths;
pub mod scan;
pub mod timefmt;

pub use error::ConfigError;
pub use options::Options;

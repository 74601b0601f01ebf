//! Verified core of a small ranged HTTP downloader: request text, response
//! parsing, download planning and progress accounting.
pub mod decimal;
pub mod text;
pub mod http;
pub mod plan;
pub mod progress;
pub mod url;
pub mod stress;
pub mod window;

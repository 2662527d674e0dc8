pub mod text;
pub mod binary64;
pub mod fixed;
pub mod style;
pub mod theme;
pub mod json;
pub mod parser;
pub mod modules;
pub mod formatter;
pub mod config;
pub mod setup;
pub mod watch;

//! Rule-configuration expansion and the pure parts of the kernel probes of a
//! process monitor.
pub mod text;
pub mod table;
pub mod error;
pub mod macros;
pub mod yaml;
pub mod procmon;
pub mod co_re;
pub mod config;

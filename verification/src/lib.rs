//! Parsers and delta arithmetic for Linux system metrics read from `/proc`
//! and `/sys`.
pub mod battery;
pub mod clock;
pub mod cpu;
pub mod disk;
pub mod gpu;
pub mod memory;
pub mod network;
pub mod processes;
pub mod static_info;
pub mod text;

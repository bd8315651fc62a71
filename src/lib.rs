//! Line-oriented command parsing for a device-control protocol: a byte-level
//! scanner and a recursive-descent parser that turns lines such as
//! `wb 0x00012000 0x42\r\n` into typed commands.

pub mod parser;
pub mod reader;
pub mod scanner;
pub mod util;
pub mod literals;
pub mod lines;

//! The frame-to-command pipeline: typed commands and the validation
//! that turns a decoded frame into one.

pub mod command;

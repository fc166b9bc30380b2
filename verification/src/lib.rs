//! A small toolkit for live-coded notebook panels: fixed-size strings, a byte
//! arena with named values and growable arrays, render and input descriptions,
//! and the scanner that finds user functions in a panel source file.

pub mod memory_tools;
pub mod source_scan;
pub mod instructions;
pub mod interaction_tools;
pub mod render_tools;
pub mod dynamic_lib_loading;

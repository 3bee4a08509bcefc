//! A reader for 3DL, a small language for describing the design of a
//! software system, and the conversation state of a design assistant that
//! produces such designs.
pub mod design_prompter;
pub mod parser;

//! A small register machine: an instruction codec, an assembler from text to
//! a binary word stream, and a virtual machine that runs that stream.

pub mod assembler;
pub mod codec;
pub mod text;
pub mod vm;

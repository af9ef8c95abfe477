use vstd::prelude::*;

pub mod endian;
pub mod helper;
pub mod text;
pub mod compiler;
pub mod stack;
pub mod vm;

use vstd::prelude::*;

pub mod common;
pub mod text;
pub mod target;
pub mod encoder;
pub mod bytestream;
pub mod preprocess;
pub mod program;
pub mod machine;
pub mod arm_machine;

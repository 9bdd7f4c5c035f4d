use vstd::prelude::*;

pub mod bpe;
pub mod config;
pub mod kernel;
pub mod layout;
pub mod log;
pub mod prefix;
pub mod sampler;
pub mod state;
pub mod tensors;
pub mod transformer;
pub mod weights;

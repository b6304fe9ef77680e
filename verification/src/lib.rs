//! Masks the values of environment assignments so that secrets stay hidden.

pub mod cli;
pub mod keys;
pub mod mask;
pub mod plan;
pub mod properties;
pub mod disclose;
pub mod ssh;
pub mod text;

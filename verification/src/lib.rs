pub mod error;
pub mod args;
pub mod assoc;
pub mod compiler;
pub mod env;
pub mod exec;
pub mod matrix;
pub mod output;
pub mod pattern;
pub mod plan;
pub mod render;
pub mod stratify;
pub mod strutil;
pub mod watch;
pub mod workflow;

//! Reformat `//!` and `///` documentation comments by handing each run of
//! them to an external reflowing agent and splicing its output back in place.
//!
//! - [`text`]: lines of a text, as `str::lines` sees them
//! - [`extract`]: documentation lines and their grouping into chunks
//! - [`render`]: agent output turned back into documentation lines
//! - [`rewrite`]: whole-line replacement through the `rewriter` crate
//! - [`pipeline`]: the rewriting of one file, chunk by chunk
//! - [`rerun`]: why a second run on rewritten text changes nothing
//! - [`parallelism`]: the bound on live agent processes
//! - [`agent`]: run options and the arguments each agent gets
//! - [`config`]: the width setting of a `rustfmt.toml`
//! - [`args`]: the command line

pub mod text;
pub mod extract;
pub mod render;
pub mod rewrite;
pub mod pipeline;
pub mod parallelism;
pub mod agent;
pub mod config;
pub mod args;
pub mod rerun;

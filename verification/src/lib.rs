//! A continuous evaluator core for a declarative build-recipe file.
//!
//! The library holds the verified logic of a build loop: parsing the
//! instrumented evaluator's output into structured build information,
//! reducing the discovered source paths to a watchable set, planning
//! durable garbage-collection roots for produced artifacts, and driving
//! the started / completed / failed event cycle. The surrounding
//! process, filesystem and watch plumbing lives with the embedder.

pub mod build_loop;
pub mod builder;
pub mod parse;
pub mod reduce;

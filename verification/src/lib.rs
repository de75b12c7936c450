//! Imitates the following of flake inputs on a lock file.
//!
//! A lock file is a graph: nodes by identifier, each with named edges to
//! other nodes. An edge names its target, or gives a path of input names to
//! be walked from the root. This library
//!
//! - resolves edges ([`lock`], over the model in [`model`]),
//! - counts how often the walk from a node steps on each node ([`visits`]),
//! - redirects the inputs of the root's inputs to the root's own inputs of
//!   the same name ([`follows`]),
//! - removes the nodes that the walk from the root never reaches
//!   ([`prune`]),
//! - generates the block of `follows` declarations that says the same in a
//!   manifest ([`config`]), and puts it in place there ([`manifest`]).
//!
//! Every function states what it computes over the mathematical model of
//! its arguments; [`laws`] and [`pruning_laws`] hold what follows for all
//! graphs. Nodes and edges are kept in insertion order ([`ordered_map`]),
//! on top of the key index of the `indexmap` crate ([`keys`]); a tally is
//! a map of that crate ([`counts`]).

pub mod assoc;
pub mod cli_args;
pub mod config;
pub mod counts;
pub mod follows;
pub mod keys;
pub mod laws;
pub mod lock;
pub mod manifest;
pub mod model;
pub mod names;
pub mod ordered_map;
pub mod progress;
pub mod prune;
pub mod pruning_laws;
pub mod visits;

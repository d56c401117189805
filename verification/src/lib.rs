//! Online mining of log templates: lines that share a shape are gathered
//! into clusters while the stream is still arriving.
//!
//! A line is split into tokens ([`token`]). The engine ([`drain`]) looks
//! for the cluster of its shape through a prefix tree ([`tree`]), scores
//! the candidates ([`similarity`]) and keeps the clusters in a store that
//! evicts the least recently used ([`store`]). What the engine does is
//! stated over plain values ([`model`]); what follows for a run of lines
//! is proved from that ([`run`], [`repeat`]). Around the engine,
//! [`pipeline`] decides what is made of a line that arrives and which
//! clusters are drawn.

pub mod cluster;
pub mod drain;
pub mod keyed;
pub mod model;
pub mod pipeline;
pub mod repeat;
pub mod run;
pub mod similarity;
pub mod store;
pub mod token;
pub mod tree;

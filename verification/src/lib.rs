//! Fraud detection by nearest-neighbour search over quantized transaction vectors.
//!
//! - [`request`], [`vector`], [`calendar`], [`text`], [`quoted`], [`fields`],
//!   [`written`]: what a scoring request says, read from its text or its fields;
//! - [`writer`], [`dataset`], [`partition`], [`sorting`], [`bytes`]: the reference data, built
//!   into files and loaded from them;
//! - [`index`], [`ivf`], [`ivf_build`], [`nearest`], [`topk`], [`distance`], [`accuracy`]: the
//!   search for neighbours, exact and by cells;
//! - [`http`], [`config`], [`balancer`]: the service around it.

pub mod accuracy;
pub mod balancer;
pub mod bytes;
pub mod calendar;
pub mod config;
pub mod dataset;
pub mod distance;
pub mod fields;
pub mod http;
pub mod index;
pub mod ivf;
pub mod ivf_build;
pub mod nearest;
pub mod partition;
pub mod quoted;
pub mod request;
pub mod sorting;
pub mod text;
pub mod topk;
pub mod vector;
pub mod writer;
pub mod written;

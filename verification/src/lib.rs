//! Verified core of a TCP connect scanner: target-address enumeration
//! (literal, CIDR block, address range), port-set building, banner
//! classification for service fingerprinting, and the bookkeeping of a
//! bounded-concurrency scan scheduler.

pub mod args;
pub mod errors;
pub mod ip;
pub mod network;
pub mod ports;
pub mod report;
pub mod scheduler;
pub mod service;
pub mod strutil;

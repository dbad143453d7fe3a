//! A Raft consensus library: leader election, log replication, and the
//! simulated cluster that drives them, each operation stated by a contract
//! and proved against it.
//!
//! `model` says what a node does; `node` does it. `world` lets whole clusters
//! run, and `safety` states what holds of every run.
pub mod catch_up;
pub mod cluster;
pub mod communication;
pub mod completeness;
pub mod conduct;
pub mod config;
pub mod consistency;
pub mod course;
pub mod driver;
pub mod elections;
pub mod error;
pub mod frame;
pub mod framing;
pub mod log;
pub mod logger;
pub mod model;
pub mod network;
pub mod node;
pub mod node_id;
pub mod node_map;
pub mod nonzero;
pub mod options;
pub mod progress;
pub mod proto;
pub mod quorum;
pub mod replication;
pub mod rng;
pub mod role;
pub mod runner;
pub mod safety;
pub mod server;
pub mod simulation;
pub mod steps;
pub mod storage;
pub mod text;
pub mod visualizer;
pub mod wasm_cluster;
pub mod wasm_types;
pub mod web;
pub mod world;

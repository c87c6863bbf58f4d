//! Boolean masking of gate-level circuits.
//!
//! A circuit is a directed multigraph of typed nodes joined by port-to-port
//! wires. The masking pass marks the cone that depends on secret inputs and
//! rewrites it so that every sensitive wire is carried by `order + 1` shares.

pub mod dot;
pub mod drafts;
pub mod cell_library;
pub mod circuit;
pub mod expand;
pub mod from_netlist;
pub mod into_netlist;
pub mod logic;
pub mod masking;
pub mod netlist;
pub mod node;
pub mod normalize;
pub mod order;
pub mod reach;
pub mod shares;
pub mod table;
pub mod text;
pub mod utils;
pub mod verilog;
pub mod wiring;

//! The rules of a circuit simulator for Verilog-A models, apart from its numerics.
//!
//! The library decides; it does not compute with real numbers. It places models and
//! devices, claims unknowns and names them, gates analyses, reads tables, lays out
//! matrices, tallies checked files and writes reports. Real numbers pass through it in
//! their binary64 encoding ([`number::Real`]): they are stored, ordered and negated, and
//! where a sum or a product is needed, the caller hands in the operation.
//!
//! - Numbers and texts: [`number`], [`text`], [`search`], [`sizes`].
//! - What a model contributes: [`analysis`], [`events`], [`state`], [`stamps`],
//!   [`reference`], [`multiplicity`], [`noise`].
//! - Circuits: [`netlist`], [`place`], [`device`], [`circuit`], [`assembly`],
//!   [`build_message`], [`quantity`].
//! - Analyses: [`session`], [`solve`], [`waveform`], [`ac`], [`block`], [`spectrum`],
//!   [`estimate`].
//! - Model libraries: [`library`], [`refusal`], [`listing`], [`check`].
//! - What the user sees: [`args`], [`report`], [`chart`].
//!
//! What holds of these, whatever they are given, stands in modules of its own:
//!
//! - of numbers and texts in [`number_laws`] and [`text_laws`];
//! - of devices and circuits in [`device_laws`], [`place_laws`], [`circuit_laws`] and
//!   [`build_laws`];
//! - of analyses in [`run_laws`], [`solve_laws`], [`ac_laws`], [`spectrum_laws`],
//!   [`noise_laws`] and [`estimate_laws`];
//! - of libraries and checks in [`library_laws`] and [`check_laws`];
//! - of the command line and of what is printed in [`args_laws`], [`report_laws`] and
//!   [`line_laws`].
pub mod ac;
pub mod ac_laws;
pub mod analysis;
pub mod args;
pub mod args_laws;
pub mod assembly;
pub mod block;
pub mod build_laws;
pub mod build_message;
pub mod chart;
pub mod check;
pub mod check_laws;
pub mod circuit;
pub mod circuit_laws;
pub mod device;
pub mod device_laws;
pub mod estimate;
pub mod estimate_laws;
pub mod events;
pub mod library;
pub mod library_laws;
pub mod line_laws;
pub mod listing;
pub mod multiplicity;
pub mod netlist;
pub mod noise;
pub mod noise_laws;
pub mod number;
pub mod number_laws;
pub mod place;
pub mod place_laws;
pub mod quantity;
pub mod reference;
pub mod refusal;
pub mod report;
pub mod report_laws;
pub mod run_laws;
pub mod search;
pub mod session;
pub mod sizes;
pub mod solve;
pub mod solve_laws;
pub mod spectrum;
pub mod spectrum_laws;
pub mod stamps;
pub mod state;
pub mod text;
pub mod text_laws;
pub mod waveform;

//! A quantum circuit compiler: circuit text in, hardware schedules out.
use vstd::prelude::*;

pub mod action;
pub mod amplitude;
pub mod angle;
pub mod backend;
pub mod bignat;
pub mod binary64;
pub mod coupling;
pub mod diagram;
pub mod display;
pub mod emit;
pub mod fidelity;
pub mod histogram;
pub mod ibm_export;
pub mod ibm_export_law;
pub mod ir;
pub mod ir_optimize;
pub mod ir_optimize_law;
pub mod kak;
pub mod kak_law;
pub mod native;
pub mod native_law;
pub mod noise;
pub mod number;
pub mod numerals;
pub mod optimize;
pub mod optimize_law;
pub mod placement;
pub mod pulse;
pub mod qasm;
pub mod qec;
pub mod read_back;
pub mod readout;
pub mod resource_estimate;
pub mod rewrite;
pub mod text;

verus! {

} // verus!

//! Heisenberg-picture propagation of sums of operator strings: the strings and their algebra,
//! the stores that hold sums of them, the rotations, Clifford conjugations and noise that act on
//! a sum, and the policies that keep it small.

#![allow(unused_imports)]

pub mod basis;
pub mod bits;
pub mod bitset;
pub mod clifford_frame;
pub mod clifford_ops;
pub mod coeff;
pub mod column_laws;
pub mod conjugation;
pub mod deferral_laws;
pub mod emit;
pub mod engines;
pub mod exact;
pub mod exchange;
pub mod exchange_laws;
pub mod frame_laws;
pub mod fusion_laws;
pub mod gate;
pub mod group;
pub mod inverted_index;
pub mod kernels;
pub mod map_laws;
pub mod noise;
pub mod operator_index;
pub mod partition_laws;
pub mod partitioned_termsum;
pub mod pauli;
pub mod pauli_laws;
pub mod plane_pauli;
pub mod plugins;
pub mod run_config;
pub mod slots;
pub mod soa_propagator;
pub mod sparse;
pub mod store;
pub mod strings;
pub mod sums;
pub mod tableau;
pub mod term_io;
pub mod term_kernel;
pub mod termsum;
pub mod timing;
pub mod traits;
pub mod truncators;
pub mod weights;

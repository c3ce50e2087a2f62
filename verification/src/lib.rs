//! A simulation of quantum-dot cellular automata by the bistable model.
//!
//! Cells sit in layers and act on each other through the charges of their dots. A
//! simulation takes over a design ([`bistable::initiate`]), and then runs
//! iterations: it feeds the inputs ([`bistable::pre_calculate`]) and lets each cell
//! follow its neighbours ([`bistable::calculate`]) until every cell has settled.
//!
//! The library leaves the number format to its user ([`numerics`]).

pub mod bistable;
pub mod cell_map;
pub mod design;
pub mod exact;
pub mod numerics;
pub mod objects;
pub mod option_laws;
pub mod options;
pub mod reals;
pub mod rounding;
pub mod settings;
pub mod sums;

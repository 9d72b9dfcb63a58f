//! Outputs kept for the sake of other tools.
pub mod rojo;

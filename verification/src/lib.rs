//! Verified core of a proto-matrix PCB editor: a KiCad footprint s-expression reader,
//! the matrix autorouter and the board editing rules.

pub mod text;
pub mod kicad9;
pub mod strmap;
pub mod protomatrix;
pub mod router;
pub mod board;
pub mod layers;

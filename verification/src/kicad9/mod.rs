//! KiCad 9 footprint library reader: the s-expression reader, error type and the
//! parts of footprint extraction that read text (names, layers, pad kinds).

pub mod error;
pub mod sexp;
pub mod footprint;

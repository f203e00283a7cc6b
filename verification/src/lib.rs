//! Coverage bookkeeping, dictionary handling and scheduling decisions of a
//! helper that lets the SymCC concolic executor collaborate with AFL.

pub mod afl;
pub mod buf;
pub mod config;
pub mod state;
pub mod stats;
pub mod symcc;
pub mod symdict;
pub mod testcase;
pub mod text;

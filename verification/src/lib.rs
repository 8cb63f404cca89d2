//! Core of a perpetual-futures exchange engine: order book, matching,
//! position accounting, funding and liquidation, with machine-checked contracts.

pub mod codec;
pub mod constants;
pub mod engine;
pub mod error;
pub mod event;
pub mod instructions;
pub mod keybits;
pub mod state;
pub mod utils;

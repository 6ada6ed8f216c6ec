//! A hexagonal-grid path search library.
//!
//! A grid is a rectangular table of non-negative cell weights laid out as
//! pointy-topped hexagons, so each cell's neighbor set depends on its column
//! parity. The search engine answers two queries against the same grid: the
//! minimum-total-cost path and the maximum-total-cost path from the top-left
//! cell to the bottom-right cell, where a path's cost is the sum of the
//! weights of every cell it visits, both endpoints included.
//!
//! Around that core: decoding and rendering of the textual hex map format,
//! random grid population, hex and decimal numeral parsing for the byte
//! tool, and the modular exponentiation the chat front end uses.

pub mod grid;
pub mod search;
pub mod modexp;
pub mod hexnum;
pub mod gen;
pub mod parse;

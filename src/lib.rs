//! A grid of lights driven by rectangle instructions: a tokenizer and parser for the
//! instruction lines, an enumerator of the cells of a rectangle, and two grids that keep their
//! totals as they change, one of on/off lights and one of brightness counters.
pub mod bitmap;
pub mod bytemap;
pub mod engine;
pub mod parser;
pub mod range;

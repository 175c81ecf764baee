//! A windowed frequency-ranking engine.
//!
//! The engine ingests a stream of extracted string values and keeps, for the
//! last `W` values seen, a live ranking: a mapping from occurrence count to
//! the set of values currently sharing that count, enumerable in ascending
//! count order. Values are extracted from text lines by a user-supplied
//! pattern with one capture group; pattern compilation and matching are
//! delegated to an external regular-expression engine.

pub mod engine;
pub mod extract;
pub mod tracker;
mod window;

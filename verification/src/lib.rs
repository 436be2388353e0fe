//! Counts, for each window length `L` from 1 up to a configured maximum, how
//! often each possible sequence of `L` hexadecimal digits occurs as a
//! contiguous substring of the payload of a byte stream (the bytes strictly
//! after the first `.`). Each counter keeps an exact frequency table indexed
//! by the numeric value of the current rolling window.

pub mod config;
pub mod counter;
pub mod digits;
pub mod laws;
pub mod payload;
pub mod pipeline;

pub use counter::DigitSequenceCounter;
pub use counter::LARGEST_SEQUENCE_LENGTH;

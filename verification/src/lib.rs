//! Base-Han: a streaming, reversible transcoding between arbitrary bytes and
//! a dense block of Unicode code points, 13 bits per symbol.
//!
//! Raw bytes are repacked into 13-bit symbols (each transported as the code
//! point `BASE_OFFSET + value`); the final symbol of a stream comes from the
//! disjoint terminal range at `ENDING_OFFSET` and carries the leftover bits.
pub mod model;
pub mod codec;
pub mod laws;

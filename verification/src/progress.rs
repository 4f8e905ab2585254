//! Progress reports while a stream is encoded or decoded.
use vstd::prelude::*;

verus! {

/// Receives progress: the direction, then byte counts as blocks are done,
/// then the final counts.
pub trait ProgressLogger {
    fn set_is_encode(&mut self, is_encode: bool);

    fn log(&mut self, num_input_bytes: usize, num_output_bytes: usize);

    fn finish(&mut self, num_input_bytes: usize, num_output_bytes: usize);
}

/// Reports nothing.
pub struct SilentProgressLogger;

impl ProgressLogger for SilentProgressLogger {
    fn set_is_encode(&mut self, _is_encode: bool) {
    }

    fn log(&mut self, _num_input_bytes: usize, _num_output_bytes: usize) {
    }

    fn finish(&mut self, _num_input_bytes: usize, _num_output_bytes: usize) {
    }
}

} // verus!

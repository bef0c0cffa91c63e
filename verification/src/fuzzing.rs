//! Entry points that take arbitrary bytes.

use vstd::prelude::*;

use crate::envelope;
use crate::generations;

verus! {

/// Opens arbitrary bytes as an envelope: no input makes it panic.
pub fn fuzz_envelope_unwrap(data: &[u8]) {
    let _ = envelope::unwrap("fuzz/path", data);
}

/// Reads arbitrary bytes as a generation index: no input makes it panic.
pub fn fuzz_generations_parse(data: &[u8]) {
    let _ = generations::parse(data);
}

} // verus!

//! The constants of a protocol: how many records a spend has, and how many
//! bytes each of its parts takes on the wire.

use vstd::prelude::*;

verus! {

/// What a protocol fixes and no byte stream carries.
#[derive(Clone, Copy, Debug, PartialEq, Eq)]
pub struct Parameters {
    /// The number of records that a spend consumes.
    pub num_input_records: usize,
    /// The number of records that a spend produces.
    pub num_output_records: usize,
    /// The number of bytes of a valid kernel.
    pub kernel_size: usize,
    /// The number of bytes of a record's payload.
    pub record_payload_size: usize,
    /// The number of bytes of a signature.
    pub signature_size: usize,
    /// The number of bytes of a compute key.
    pub compute_key_size: usize,
}

impl Parameters {
    /// The number of records of a spend, consumed and produced.
    pub open spec fn num_total_records(&self) -> nat {
        (self.num_input_records + self.num_output_records) as nat
    }
}

} // verus!

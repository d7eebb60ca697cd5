//! Records, and the plain parts of a spend.

use crate::identifier::{Identifier, IdentifierView};
use vstd::prelude::*;
use vstd::slice::slice_to_vec;

verus! {

/// The descriptor of a spend's intent, as the bytes that an upstream
/// component produced and validated.
pub type TransactionKernel = Vec<u8>;

/// A caller's signature, as its bytes.
pub type Signature = Vec<u8>;

/// A compute key, as its bytes.
pub type ComputeKey = Vec<u8>;

/// A record: the program that governs it, and the rest of its content as
/// bytes.
#[derive(Clone, Debug, PartialEq, Eq)]
pub struct Record {
    pub program_id: Identifier,
    pub payload: Vec<u8>,
}

/// What a record is.
pub struct RecordView {
    pub program_id: IdentifierView,
    pub payload: Seq<u8>,
}

impl View for Record {
    type V = RecordView;

    open spec fn view(&self) -> RecordView {
        RecordView { program_id: self.program_id@, payload: self.payload@ }
    }
}

impl Record {
    /// A record of a program, with its payload.
    pub fn new(program_id: Identifier, payload: Vec<u8>) -> (record: Record)
        ensures
            record@ == (RecordView { program_id: program_id@, payload: payload@ }),
    {
        Record { program_id, payload }
    }

    /// The identifier of the program that governs the record.
    pub fn program_id(&self) -> (id: Identifier)
        ensures
            id@ == self@.program_id,
    {
        self.program_id
    }

    /// A copy of the record.
    pub fn duplicate(&self) -> (copy: Record)
        ensures
            copy@ == self@,
    {
        Record { program_id: self.program_id, payload: slice_to_vec(self.payload.as_slice()) }
    }
}

/// What a sequence of records is.
pub open spec fn records_view(records: Seq<Record>) -> Seq<RecordView> {
    Seq::new(records.len(), |i: int| records[i]@)
}

/// What a sequence of byte strings is.
pub open spec fn blobs_view(blobs: Seq<Vec<u8>>) -> Seq<Seq<u8>> {
    Seq::new(blobs.len(), |i: int| blobs[i]@)
}

/// What an optional compute key is.
pub open spec fn key_view(key: Option<ComputeKey>) -> Option<Seq<u8>> {
    match key {
        Some(bytes) => Some(bytes@),
        None => None,
    }
}

/// What a sequence of optional compute keys is.
pub open spec fn keys_view(keys: Seq<Option<ComputeKey>>) -> Seq<Option<Seq<u8>>> {
    Seq::new(keys.len(), |i: int| key_view(keys[i]))
}

/// A copy of a sequence of records.
pub fn copy_records(records: &Vec<Record>) -> (copy: Vec<Record>)
    ensures
        records_view(copy@) == records_view(records@),
{
    let mut copy: Vec<Record> = Vec::new();
    let mut i: usize = 0;
    while i < records.len()
        invariant
            i <= records@.len(),
            copy@.len() == i,
            forall|j: int| 0 <= j < i ==> copy@[j]@ == records@[j]@,
        decreases records@.len() - i,
    {
        copy.push(records[i].duplicate());
        i = i + 1;
    }
    proof {
        assert(records_view(copy@) =~= records_view(records@));
    }
    copy
}

/// A copy of a sequence of optional compute keys.
pub fn copy_keys(keys: &Vec<Option<ComputeKey>>) -> (copy: Vec<Option<ComputeKey>>)
    ensures
        keys_view(copy@) == keys_view(keys@),
{
    let mut copy: Vec<Option<ComputeKey>> = Vec::new();
    let mut i: usize = 0;
    while i < keys.len()
        invariant
            i <= keys@.len(),
            copy@.len() == i,
            forall|j: int| 0 <= j < i ==> key_view(copy@[j]) == key_view(keys@[j]),
        decreases keys@.len() - i,
    {
        let key: Option<ComputeKey> = match &keys[i] {
            Some(bytes) => Some(slice_to_vec(bytes.as_slice())),
            None => None,
        };
        copy.push(key);
        i = i + 1;
    }
    proof {
        assert(keys_view(copy@) =~= keys_view(keys@));
    }
    copy
}

} // verus!

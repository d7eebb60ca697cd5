//! The primitives that a protocol supplies: record encryption, the hash of a
//! ciphertext, and the constructor of local data.
//!
//! An authorization does not choose them. It hands each the values that the
//! protocol asks for and passes on what comes back, failures included.

use crate::error::Error;
use crate::record::{records_view, Record, RecordView, TransactionKernel};
use rand::rngs::StdRng;
use vstd::prelude::*;

verus! {

/// A record-encryption scheme, with the hash that commits to a ciphertext.
pub trait RecordEncryption {
    /// Whether `ciphertext` encrypts `record` under `randomizer`. A scheme
    /// that states nothing of its ciphertexts keeps this body.
    open spec fn encrypts(
        &self,
        record: RecordView,
        randomizer: Seq<u8>,
        ciphertext: Seq<u8>,
    ) -> bool {
        true
    }

    /// Whether `hash` is the hash of `ciphertext`. A scheme that states
    /// nothing of its hashes keeps this body.
    open spec fn hashes(&self, ciphertext: Seq<u8>, hash: Seq<u8>) -> bool {
        true
    }

    /// Whether the scheme refuses to encrypt `record`, with `error`. A scheme
    /// that states nothing of its failures keeps this body.
    open spec fn refuses_record(&self, record: RecordView, error: Error) -> bool {
        true
    }

    /// Whether the scheme refuses to hash `ciphertext`, with `error`. A
    /// scheme that states nothing of its failures keeps this body.
    open spec fn refuses_ciphertext(&self, ciphertext: Seq<u8>, error: Error) -> bool {
        true
    }

    /// Encrypts a record, or refuses it. The result holds the ciphertext and
    /// the randomizer that the recipient needs to recover the record.
    fn encrypt(&self, record: &Record, rng: &mut StdRng) -> (r: Result<(Vec<u8>, Vec<u8>), Error>)
        ensures
            match r {
                Ok((ciphertext, randomizer)) => self.encrypts(record@, randomizer@, ciphertext@),
                Err(error) => self.refuses_record(record@, error),
            },
    ;

    /// Hashes a ciphertext, or refuses it.
    fn hash(&self, ciphertext: &Vec<u8>) -> (r: Result<Vec<u8>, Error>)
        ensures
            match r {
                Ok(hash) => self.hashes(ciphertext@, hash@),
                Err(error) => self.refuses_ciphertext(ciphertext@, error),
            },
    ;
}

/// Whether a scheme can seal a record: encrypt it to some ciphertext, and
/// hash that ciphertext.
pub open spec fn seals<E: RecordEncryption>(scheme: &E, record: RecordView) -> bool {
    exists|randomizer: Seq<u8>, ciphertext: Seq<u8>, hash: Seq<u8>|
        #[trigger] scheme.encrypts(record, randomizer, ciphertext) && #[trigger] scheme.hashes(
            ciphertext,
            hash,
        )
}

/// Whether sealing a record fails with `error`: the scheme refuses the
/// record with it, or refuses with it a ciphertext that encrypts the record.
pub open spec fn fails_at<E: RecordEncryption>(scheme: &E, record: RecordView, error: Error) -> bool {
    scheme.refuses_record(record, error) || exists|randomizer: Seq<u8>, ciphertext: Seq<u8>|
        #[trigger] scheme.encrypts(record, randomizer, ciphertext) && scheme.refuses_ciphertext(
            ciphertext,
            error,
        )
}

/// The constructor of local data: what binds the kernel and the records of a
/// spend into the public inputs of its proof.
pub trait LocalDataScheme {
    /// The local data.
    type LocalData;

    /// Whether `data` binds this kernel and these records. A scheme that
    /// states nothing of its local data keeps this body.
    open spec fn binds(
        &self,
        kernel: Seq<u8>,
        input_records: Seq<RecordView>,
        output_records: Seq<RecordView>,
        data: Self::LocalData,
    ) -> bool {
        true
    }

    /// Whether the constructor refuses this kernel and these records with
    /// `error`. A scheme that states nothing of its failures keeps this body.
    open spec fn refuses(
        &self,
        kernel: Seq<u8>,
        input_records: Seq<RecordView>,
        output_records: Seq<RecordView>,
        error: Error,
    ) -> bool {
        true
    }

    /// Binds a kernel and the records of a spend, or refuses them.
    fn bind(
        &self,
        kernel: &TransactionKernel,
        input_records: &Vec<Record>,
        output_records: &Vec<Record>,
        rng: &mut StdRng,
    ) -> (r: Result<Self::LocalData, Error>)
        ensures
            match r {
                Ok(data) => self.binds(
                    kernel@,
                    records_view(input_records@),
                    records_view(output_records@),
                    data,
                ),
                Err(error) => self.refuses(
                    kernel@,
                    records_view(input_records@),
                    records_view(output_records@),
                    error,
                ),
            },
    ;
}

} // verus!

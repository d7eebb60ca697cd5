//! The authorization of a spend: its kernel, records, signatures and keys,
//! and what a prover needs derived from them.

use crate::commitment::{blake2s_commitment, commit, sample_randomness};
use crate::error::Error;
use crate::field::{lemma_pow2_landmarks, modulus, REPR_BYTES};
use crate::hex_text::{decode, encode, hex_bytes, hex_text, is_hex, lemma_hex_round_trip};
use crate::parameters::Parameters;
use crate::radix::{le_bytes, lemma_le_bytes_len, lemma_value_of_le_bytes};
use crate::record::{
    blobs_view, copy_keys, copy_records, keys_view, records_view, ComputeKey, Record, RecordView,
    Signature, TransactionKernel,
};
use crate::schemes::{fails_at, seals, LocalDataScheme, RecordEncryption};
use crate::wire::{
    append_bytes, authorization_wire, concat_all, lemma_concat_all_add, lemma_concat_all_push,
    lemma_parse_inverts_wire, lemma_parsed_is_well_formed, parse_authorization, read_blob,
    read_blobs, read_keys, read_records, well_formed, well_formed_record, write_blobs,
    write_keys, write_records, AuthorizationView,
};
use rand::rngs::StdRng;
use vstd::prelude::*;
use vstd::slice::slice_to_vec;

verus! {

/// What a spend consumes and produces, as the component that built it hands
/// it over.
#[derive(Clone, Debug, PartialEq, Eq)]
pub struct StateTransition {
    pub kernel: TransactionKernel,
    /// Whether the kernel is valid by the rules of the component that made
    /// it.
    pub kernel_is_valid: bool,
    pub input_records: Vec<Record>,
    pub output_records: Vec<Record>,
    pub noop_compute_keys: Vec<Option<ComputeKey>>,
}

/// The transaction authorization: the state transition of a spend with the
/// signatures of its callers. It is what the final proof is made from.
#[derive(Clone, Debug, PartialEq, Eq)]
pub struct TransactionAuthorization {
    pub kernel: TransactionKernel,
    pub input_records: Vec<Record>,
    pub output_records: Vec<Record>,
    pub signatures: Vec<Signature>,
    pub noop_compute_keys: Vec<Option<ComputeKey>>,
}

impl View for TransactionAuthorization {
    type V = AuthorizationView;

    open spec fn view(&self) -> AuthorizationView {
        AuthorizationView {
            kernel: self.kernel@,
            input_records: records_view(self.input_records@),
            output_records: records_view(self.output_records@),
            signatures: blobs_view(self.signatures@),
            noop_compute_keys: keys_view(self.noop_compute_keys@),
        }
    }
}

/// The authorization that a state transition and signatures make.
pub open spec fn assembled(state: StateTransition, signatures: Seq<Signature>) -> AuthorizationView {
    AuthorizationView {
        kernel: state.kernel@,
        input_records: records_view(state.input_records@),
        output_records: records_view(state.output_records@),
        signatures: blobs_view(signatures),
        noop_compute_keys: keys_view(state.noop_compute_keys@),
    }
}

/// The bytes that stand for a record in the program commitment: the field
/// value of its program identifier.
pub open spec fn program_id_wire_fn() -> spec_fn(RecordView) -> Seq<u8> {
    |record: RecordView| le_bytes(record.program_id.value, REPR_BYTES as nat)
}

/// The records that the program commitment covers: the input records, then
/// the output records, and of those no more than the protocol's total.
pub open spec fn committed_records(a: AuthorizationView, params: Parameters) -> Seq<RecordView> {
    let all = a.input_records + a.output_records;
    if all.len() <= params.num_total_records() {
        all
    } else {
        all.take(params.num_total_records() as int)
    }
}

/// The message of the program commitment: the program identifiers of the
/// records it covers, each as the 32 bytes of its field value, in order.
pub open spec fn program_id_message(a: AuthorizationView, params: Parameters) -> Seq<u8> {
    concat_all(committed_records(a, params), program_id_wire_fn())
}

/// The number of output records that are encrypted: all of them, and no more
/// than the protocol's number.
pub open spec fn encrypted_count(a: AuthorizationView, params: Parameters) -> nat {
    if a.output_records.len() <= params.num_output_records {
        a.output_records.len()
    } else {
        params.num_output_records as nat
    }
}

/// Whether every record of a sequence has the form that the protocol fixes.
fn records_are_well_formed(records: &Vec<Record>, params: &Parameters) -> (ok: bool)
    ensures
        ok == (forall|i: int|
            0 <= i < records@.len() ==> well_formed_record(
                #[trigger] records_view(records@)[i],
                *params,
            )),
{
    let mut i: usize = 0;
    while i < records.len()
        invariant
            i <= records@.len(),
            forall|j: int|
                0 <= j < i ==> well_formed_record(#[trigger] records_view(records@)[j], *params),
        decreases records@.len() - i,
    {
        let id = records[i].program_id();
        let value = id.value();
        let length: u8 = id.length();
        proof {
            use_type_invariant(&value);
        }
        if records[i].payload.len() != params.record_payload_size {
            proof {
                assert(!well_formed_record(records_view(records@)[i as int], *params));
            }
            return false;
        }
        i = i + 1;
    }
    true
}

/// Whether every byte string of a sequence has `size` bytes.
fn blobs_have_size(blobs: &Vec<Vec<u8>>, size: usize) -> (ok: bool)
    ensures
        ok == (forall|i: int|
            0 <= i < blobs@.len() ==> (#[trigger] blobs_view(blobs@)[i]).len() == size),
{
    let mut i: usize = 0;
    while i < blobs.len()
        invariant
            i <= blobs@.len(),
            forall|j: int| 0 <= j < i ==> (#[trigger] blobs_view(blobs@)[j]).len() == size,
        decreases blobs@.len() - i,
    {
        if blobs[i].len() != size {
            proof {
                assert(blobs_view(blobs@)[i as int].len() != size);
            }
            return false;
        }
        i = i + 1;
    }
    true
}

/// Whether every key that a sequence holds has `size` bytes.
fn keys_have_size(keys: &Vec<Option<ComputeKey>>, size: usize) -> (ok: bool)
    ensures
        ok == (forall|i: int|
            0 <= i < keys@.len() ==> (#[trigger] keys_view(keys@)[i] matches Some(key)
                ==> key.len() == size)),
{
    let mut i: usize = 0;
    while i < keys.len()
        invariant
            i <= keys@.len(),
            forall|j: int|
                0 <= j < i ==> (#[trigger] keys_view(keys@)[j] matches Some(key) ==> key.len()
                    == size),
        decreases keys@.len() - i,
    {
        let fits: bool = match &keys[i] {
            Some(key) => key.len() == size,
            None => true,
        };
        if !fits {
            proof {
                assert(keys_view(keys@)[i as int] is Some);
            }
            return false;
        }
        i = i + 1;
    }
    true
}

/// Appends to a buffer the program identifiers of the first `count` records,
/// each as the 32 bytes of its field value.
fn write_program_ids(out: &mut Vec<u8>, records: &Vec<Record>, count: usize)
    requires
        count <= records@.len(),
    ensures
        final(out)@ == old(out)@ + concat_all(
            records_view(records@).take(count as int),
            program_id_wire_fn(),
        ),
{
    let ghost base = out@;
    let ghost items = records_view(records@);
    let mut i: usize = 0;
    proof {
        assert(base + concat_all(items.take(0), program_id_wire_fn()) =~= base);
    }
    while i < count
        invariant
            i <= count <= records@.len(),
            items == records_view(records@),
            out@ == base + concat_all(items.take(i as int), program_id_wire_fn()),
        decreases count - i,
    {
        let id_bytes: Vec<u8> = records[i].program_id().to_bytes_le();
        append_bytes(out, id_bytes.as_slice());
        proof {
            assert(items.take(i + 1) =~= items.take(i as int).push(items[i as int]));
            lemma_concat_all_push(items.take(i as int), items[i as int], program_id_wire_fn());
            assert(out@ =~= base + concat_all(items.take(i + 1), program_id_wire_fn()));
        }
        i = i + 1;
    }
}

impl TransactionAuthorization {
    /// Whether the authorization has the form that the protocol fixes.
    pub fn is_well_formed(&self, params: &Parameters) -> (ok: bool)
        ensures
            ok == well_formed(self@, *params),
    {
        self.kernel.len() == params.kernel_size && self.input_records.len()
            == params.num_input_records && self.output_records.len() == params.num_output_records
            && self.signatures.len() == params.num_input_records && self.noop_compute_keys.len()
            == params.num_input_records && records_are_well_formed(&self.input_records, params)
            && records_are_well_formed(&self.output_records, params) && blobs_have_size(
            &self.signatures,
            params.signature_size,
        ) && keys_have_size(&self.noop_compute_keys, params.compute_key_size)
    }

    /// Builds the authorization of a state transition from the signatures of
    /// its callers.
    ///
    /// Fails where the kernel is not valid, where a count of records,
    /// signatures or keys is not the protocol's, or where the kernel or one
    /// of them has not the protocol's size. It copies the kernel, the records
    /// and the keys from the state transition and attaches the signatures.
    pub fn from(params: &Parameters, state: &StateTransition, signatures: Vec<Signature>) -> (r:
        Result<TransactionAuthorization, Error>)
        ensures
            signatures@.len() != params.num_input_records ==> r == Err::<
                TransactionAuthorization,
                Error,
            >(Error::Invariant),
            !state.kernel_is_valid ==> r == Err::<TransactionAuthorization, Error>(
                Error::Invariant,
            ),
            match r {
                Ok(authorization) => state.kernel_is_valid && authorization@ == assembled(
                    *state,
                    signatures@,
                ) && well_formed(authorization@, *params),
                Err(e) => e == Error::Invariant && (!state.kernel_is_valid || !well_formed(
                    assembled(*state, signatures@),
                    *params,
                )),
            },
    {
        let authorization = TransactionAuthorization {
            kernel: slice_to_vec(state.kernel.as_slice()),
            input_records: copy_records(&state.input_records),
            output_records: copy_records(&state.output_records),
            signatures,
            noop_compute_keys: copy_keys(&state.noop_compute_keys),
        };
        if state.kernel_is_valid && authorization.is_well_formed(params) {
            Ok(authorization)
        } else {
            Err(Error::Invariant)
        }
    }

    /// The bytes of the authorization, in the layout that the protocol
    /// fixes. Fails where the authorization has not the form that the
    /// protocol fixes.
    pub fn write_le(&self, params: &Parameters) -> (r: Result<Vec<u8>, Error>)
        ensures
            match r {
                Ok(bytes) => well_formed(self@, *params) && bytes@ == authorization_wire(self@),
                Err(e) => e == Error::Invariant && !well_formed(self@, *params),
            },
    {
        if !self.is_well_formed(params) {
            return Err(Error::Invariant);
        }
        let mut out: Vec<u8> = Vec::new();
        append_bytes(&mut out, self.kernel.as_slice());
        write_records(&mut out, &self.input_records);
        write_records(&mut out, &self.output_records);
        write_blobs(&mut out, &self.signatures);
        write_keys(&mut out, &self.noop_compute_keys);
        proof {
            assert(Seq::<u8>::empty() + self.kernel@ =~= self.kernel@);
        }
        Ok(out)
    }

    /// Reads an authorization from the front of a byte string. The result
    /// holds the authorization and the number of bytes it took. Fails where
    /// the bytes end early or are malformed.
    pub fn read_le_prefix(params: &Parameters, bytes: &[u8]) -> (r: Result<
        (TransactionAuthorization, usize),
        Error,
    >)
        ensures
            match r {
                Ok((authorization, used)) => used <= bytes@.len() && well_formed(
                    authorization@,
                    *params,
                ) && parse_authorization(bytes@, *params) == Some((authorization@, used as nat)),
                Err(e) => e == Error::Io && parse_authorization(bytes@, *params) is None,
            },
    {
        proof {
            assert(bytes@.skip(0) =~= bytes@);
            if parse_authorization(bytes@, *params) is Some {
                lemma_parsed_is_well_formed(bytes@, *params);
            }
        }
        let (kernel, after_kernel) = match read_blob(bytes, 0, params.kernel_size) {
            Some(read) => read,
            None => {
                return Err(Error::Io);
            },
        };
        let (input_records, after_inputs) = match read_records(
            bytes,
            after_kernel,
            params.num_input_records,
            params.record_payload_size,
        ) {
            Some(read) => read,
            None => {
                return Err(Error::Io);
            },
        };
        let (output_records, after_outputs) = match read_records(
            bytes,
            after_inputs,
            params.num_output_records,
            params.record_payload_size,
        ) {
            Some(read) => read,
            None => {
                return Err(Error::Io);
            },
        };
        let (signatures, after_signatures) = match read_blobs(
            bytes,
            after_outputs,
            params.num_input_records,
            params.signature_size,
        ) {
            Some(read) => read,
            None => {
                return Err(Error::Io);
            },
        };
        let (noop_compute_keys, after_keys) = match read_keys(
            bytes,
            after_signatures,
            params.num_input_records,
            params.compute_key_size,
        ) {
            Some(read) => read,
            None => {
                return Err(Error::Io);
            },
        };
        Ok(
            (
                TransactionAuthorization {
                    kernel,
                    input_records,
                    output_records,
                    signatures,
                    noop_compute_keys,
                },
                after_keys,
            ),
        )
    }

    /// Reads an authorization from the front of a byte string. Bytes that
    /// follow it are not looked at. Fails where the bytes end early or are
    /// malformed.
    pub fn read_le(params: &Parameters, bytes: &[u8]) -> (r: Result<TransactionAuthorization, Error>)
        ensures
            match r {
                Ok(authorization) => well_formed(authorization@, *params) && (parse_authorization(
                    bytes@,
                    *params,
                ) matches Some((a, _)) && a == authorization@),
                Err(e) => e == Error::Io && parse_authorization(bytes@, *params) is None,
            },
    {
        match TransactionAuthorization::read_le_prefix(params, bytes) {
            Ok((authorization, _used)) => Ok(authorization),
            Err(e) => Err(e),
        }
    }

    /// The text form: the bytes of the authorization in lowercase
    /// hexadecimal. Fails where the authorization has not the form that the
    /// protocol fixes.
    pub fn to_string(&self, params: &Parameters) -> (r: Result<String, Error>)
        ensures
            match r {
                Ok(text) => well_formed(self@, *params) && text@ == hex_text(
                    authorization_wire(self@),
                ),
                Err(e) => e == Error::Invariant && !well_formed(self@, *params),
            },
    {
        match self.write_le(params) {
            Ok(bytes) => Ok(encode(bytes.as_slice())),
            Err(e) => Err(e),
        }
    }

    /// Reads an authorization from its text form. Fails where the text is
    /// not hexadecimal, or where its bytes end early or are malformed.
    pub fn from_str(params: &Parameters, text: &str) -> (r: Result<TransactionAuthorization, Error>)
        ensures
            match r {
                Ok(authorization) => is_hex(text@) && well_formed(authorization@, *params) && (
                parse_authorization(hex_bytes(text@), *params) matches Some((a, _)) && a
                    == authorization@),
                Err(e) => e == Error::Parse && (!is_hex(text@) || parse_authorization(
                    hex_bytes(text@),
                    *params,
                ) is None),
            },
    {
        match decode(text) {
            Ok(bytes) => match TransactionAuthorization::read_le(params, bytes.as_slice()) {
                Ok(authorization) => Ok(authorization),
                Err(_) => Err(Error::Parse),
            },
            Err(_) => Err(Error::Parse),
        }
    }

    /// The local data of the spend. The scheme is handed the kernel and all
    /// the records of the authorization. Its answer is the result: local data
    /// that binds them, or the error with which the scheme refuses them.
    pub fn to_local_data<L: LocalDataScheme>(&self, scheme: &L, rng: &mut StdRng) -> (r: Result<
        L::LocalData,
        Error,
    >)
        ensures
            match r {
                Ok(data) => scheme.binds(
                    self@.kernel,
                    self@.input_records,
                    self@.output_records,
                    data,
                ),
                Err(error) => scheme.refuses(
                    self@.kernel,
                    self@.input_records,
                    self@.output_records,
                    error,
                ),
            },
    {
        scheme.bind(&self.kernel, &self.input_records, &self.output_records, rng)
    }

    /// The message that the program commitment commits to.
    pub fn to_program_id_message(&self, params: &Parameters) -> (message: Vec<u8>)
        ensures
            message@ == program_id_message(self@, *params),
    {
        let total: u128 = params.num_input_records as u128 + params.num_output_records as u128;
        let inputs: usize = self.input_records.len();
        let outputs: usize = self.output_records.len();
        let take_inputs: usize = if inputs as u128 <= total {
            inputs
        } else {
            total as usize
        };
        let left: u128 = total - take_inputs as u128;
        let take_outputs: usize = if outputs as u128 <= left {
            outputs
        } else {
            left as usize
        };
        let mut message: Vec<u8> = Vec::new();
        write_program_ids(&mut message, &self.input_records, take_inputs);
        write_program_ids(&mut message, &self.output_records, take_outputs);
        proof {
            let a = self@;
            let low = a.input_records.take(take_inputs as int);
            let high = a.output_records.take(take_outputs as int);
            assert(committed_records(a, *params) =~= low + high);
            lemma_concat_all_add(low, high, program_id_wire_fn());
            assert(message@ =~= program_id_message(a, *params));
        }
        message
    }

    /// The program commitment under given randomness: the Blake2s commitment
    /// to the program identifiers of the records.
    pub fn to_program_commitment_with(&self, params: &Parameters, randomness: &[u8; 32]) -> (r:
        Result<[u8; 32], Error>)
        ensures
            r matches Ok(commitment) && commitment@ == blake2s_commitment(
                program_id_message(self@, *params),
                randomness@,
            ),
    {
        let message: Vec<u8> = self.to_program_id_message(params);
        match commit(message.as_slice(), randomness) {
            Ok(commitment) => Ok(commitment),
            Err(_) => Err(Error::Crypto),
        }
    }

    /// The program commitment under fresh randomness, and that randomness.
    pub fn to_program_commitment(&self, params: &Parameters, rng: &mut StdRng) -> (r: Result<
        ([u8; 32], [u8; 32]),
        Error,
    >)
        ensures
            r matches Ok((commitment, randomness)) && commitment@ == blake2s_commitment(
                program_id_message(self@, *params),
                randomness@,
            ),
    {
        let randomness: [u8; 32] = sample_randomness(rng);
        match self.to_program_commitment_with(params, &randomness) {
            Ok(commitment) => Ok((commitment, randomness)),
            Err(e) => Err(e),
        }
    }

    /// The encrypted output records: for each of the output records, and of
    /// those no more than the protocol's number, its ciphertext, the hash of
    /// the ciphertext and the randomizer, in three sequences with the record's
    /// place in each. The first failure of the scheme is the result: the
    /// records before it were sealed, and nothing of them is returned.
    pub fn to_encrypted_records<E: RecordEncryption>(
        &self,
        params: &Parameters,
        scheme: &E,
        rng: &mut StdRng,
    ) -> (r: Result<(Vec<Vec<u8>>, Vec<Vec<u8>>, Vec<Vec<u8>>), Error>)
        ensures
            encrypted_count(self@, *params) == 0 ==> r is Ok,
            well_formed(self@, *params) ==> encrypted_count(self@, *params)
                == params.num_output_records,
            r matches Ok((ciphertexts, hashes, randomizers)) ==> {
                &&& ciphertexts@.len() == encrypted_count(self@, *params)
                &&& hashes@.len() == encrypted_count(self@, *params)
                &&& randomizers@.len() == encrypted_count(self@, *params)
                &&& forall|i: int|
                    0 <= i < encrypted_count(self@, *params) ==> scheme.encrypts(
                        self@.output_records[i],
                        #[trigger] randomizers@[i]@,
                        ciphertexts@[i]@,
                    )
                &&& forall|i: int|
                    0 <= i < encrypted_count(self@, *params) ==> scheme.hashes(
                        ciphertexts@[i]@,
                        #[trigger] hashes@[i]@,
                    )
            },
            r matches Err(error) ==> exists|k: int|
                0 <= k < encrypted_count(self@, *params) && fails_at(
                    scheme,
                    #[trigger] self@.output_records[k],
                    error,
                ) && forall|j: int| 0 <= j < k ==> seals(scheme, #[trigger] self@.output_records[j]),
    {
        let count: usize = if self.output_records.len() <= params.num_output_records {
            self.output_records.len()
        } else {
            params.num_output_records
        };
        let mut ciphertexts: Vec<Vec<u8>> = Vec::new();
        let mut hashes: Vec<Vec<u8>> = Vec::new();
        let mut randomizers: Vec<Vec<u8>> = Vec::new();
        let mut i: usize = 0;
        while i < count
            invariant
                i <= count <= self.output_records@.len(),
                count == encrypted_count(self@, *params),
                ciphertexts@.len() == i,
                hashes@.len() == i,
                randomizers@.len() == i,
                forall|j: int|
                    0 <= j < i ==> scheme.encrypts(
                        self@.output_records[j],
                        #[trigger] randomizers@[j]@,
                        ciphertexts@[j]@,
                    ),
                forall|j: int|
                    0 <= j < i ==> scheme.hashes(ciphertexts@[j]@, #[trigger] hashes@[j]@),
                forall|j: int| 0 <= j < i ==> seals(scheme, #[trigger] self@.output_records[j]),
            decreases count - i,
        {
            let ghost record = self@.output_records[i as int];
            let (ciphertext, randomizer) = match scheme.encrypt(&self.output_records[i], rng) {
                Ok(sealed) => sealed,
                Err(e) => {
                    proof {
                        assert(fails_at(scheme, record, e));
                    }
                    return Err(e);
                },
            };
            let hash: Vec<u8> = match scheme.hash(&ciphertext) {
                Ok(hash) => hash,
                Err(e) => {
                    proof {
                        assert(scheme.encrypts(record, randomizer@, ciphertext@));
                        assert(fails_at(scheme, record, e));
                    }
                    return Err(e);
                },
            };
            proof {
                assert(scheme.encrypts(record, randomizer@, ciphertext@) && scheme.hashes(
                    ciphertext@,
                    hash@,
                ));
                assert(seals(scheme, record));
            }
            hashes.push(hash);
            ciphertexts.push(ciphertext);
            randomizers.push(randomizer);
            i = i + 1;
        }
        Ok((ciphertexts, hashes, randomizers))
    }
}

/// The round trip of the binary form: the bytes of an authorization of the
/// protocol's form read back as that authorization, all of them used.
pub proof fn lemma_read_inverts_write(a: AuthorizationView, params: Parameters)
    requires
        well_formed(a, params),
    ensures
        parse_authorization(authorization_wire(a), params) == Some(
            (a, authorization_wire(a).len()),
        ),
{
    lemma_parse_inverts_wire(a, params, Seq::empty());
    assert(authorization_wire(a) + Seq::<u8>::empty() =~= authorization_wire(a));
}

/// The round trip of the text form: the text of an authorization of the
/// protocol's form is hexadecimal and reads back as that authorization.
pub proof fn lemma_from_str_inverts_to_string(a: AuthorizationView, params: Parameters)
    requires
        well_formed(a, params),
    ensures
        is_hex(hex_text(authorization_wire(a))),
        parse_authorization(hex_bytes(hex_text(authorization_wire(a))), params) == Some(
            (a, authorization_wire(a).len()),
        ),
{
    lemma_hex_round_trip(authorization_wire(a));
    lemma_read_inverts_write(a, params);
}

/// The program commitment is a function of the records and the randomness:
/// authorizations with the same records give, under the same randomness,
/// the same commitment.
pub proof fn lemma_program_commitment_is_deterministic(
    a: AuthorizationView,
    b: AuthorizationView,
    params: Parameters,
    randomness: Seq<u8>,
)
    requires
        a.input_records == b.input_records,
        a.output_records == b.output_records,
    ensures
        blake2s_commitment(program_id_message(a, params), randomness) == blake2s_commitment(
            program_id_message(b, params),
            randomness,
        ),
{
}

/// The message of the program commitment holds the program of every place:
/// records with the same message have, place by place, the same program
/// identifier values.
pub proof fn lemma_program_id_message_fixes_each_place(a: Seq<RecordView>, b: Seq<RecordView>)
    requires
        a.len() == b.len(),
        forall|i: int| 0 <= i < a.len() ==> (#[trigger] a[i]).program_id.value < modulus(),
        forall|i: int| 0 <= i < b.len() ==> (#[trigger] b[i]).program_id.value < modulus(),
        concat_all(a, program_id_wire_fn()) == concat_all(b, program_id_wire_fn()),
    ensures
        forall|i: int|
            0 <= i < a.len() ==> (#[trigger] a[i]).program_id.value == b[i].program_id.value,
    decreases a.len(),
{
    if a.len() > 0 {
        let first_a = le_bytes(a[0].program_id.value, REPR_BYTES as nat);
        let first_b = le_bytes(b[0].program_id.value, REPR_BYTES as nat);
        let rest_a = concat_all(a.drop_first(), program_id_wire_fn());
        let rest_b = concat_all(b.drop_first(), program_id_wire_fn());
        lemma_le_bytes_len(a[0].program_id.value, REPR_BYTES as nat);
        lemma_le_bytes_len(b[0].program_id.value, REPR_BYTES as nat);
        assert((first_a + rest_a).subrange(0, REPR_BYTES as int) =~= first_a);
        assert((first_b + rest_b).subrange(0, REPR_BYTES as int) =~= first_b);
        assert((first_a + rest_a).skip(REPR_BYTES as int) =~= rest_a);
        assert((first_b + rest_b).skip(REPR_BYTES as int) =~= rest_b);
        lemma_pow2_landmarks();
        lemma_value_of_le_bytes(a[0].program_id.value, REPR_BYTES as nat);
        lemma_value_of_le_bytes(b[0].program_id.value, REPR_BYTES as nat);
        assert forall|i: int| 0 <= i < a.len() - 1 implies (#[trigger] a.drop_first()[i])
            .program_id.value < modulus() by {
            assert(a.drop_first()[i] == a[i + 1]);
        }
        assert forall|i: int| 0 <= i < b.len() - 1 implies (#[trigger] b.drop_first()[i])
            .program_id.value < modulus() by {
            assert(b.drop_first()[i] == b[i + 1]);
        }
        lemma_program_id_message_fixes_each_place(a.drop_first(), b.drop_first());
        assert forall|i: int| 0 <= i < a.len() implies (#[trigger] a[i]).program_id.value
            == b[i].program_id.value by {
            if i > 0 {
                assert(a.drop_first()[i - 1] == a[i]);
                assert(b.drop_first()[i - 1] == b[i]);
            }
        }
    }
}

/// The program commitment binds which program governs which place: two
/// authorizations of the protocol's form with the same message have the same
/// program identifier value at every input place and every output place. So
/// a change in the order of records with different programs changes the
/// message.
pub proof fn lemma_program_id_message_binds_order(
    a: AuthorizationView,
    b: AuthorizationView,
    params: Parameters,
)
    requires
        well_formed(a, params),
        well_formed(b, params),
        program_id_message(a, params) == program_id_message(b, params),
    ensures
        forall|i: int|
            0 <= i < a.input_records.len() ==> (#[trigger] a.input_records[i]).program_id.value
                == b.input_records[i].program_id.value,
        forall|i: int|
            0 <= i < a.output_records.len() ==> (#[trigger] a.output_records[i]).program_id.value
                == b.output_records[i].program_id.value,
{
    let all_a = a.input_records + a.output_records;
    let all_b = b.input_records + b.output_records;
    lemma_program_id_message_fixes_each_place(all_a, all_b);
    assert forall|i: int| 0 <= i < a.input_records.len() implies (#[trigger] a.input_records[i])
        .program_id.value == b.input_records[i].program_id.value by {
        assert(all_a[i] == a.input_records[i]);
        assert(all_b[i] == b.input_records[i]);
    }
    assert forall|i: int| 0 <= i < a.output_records.len() implies (
    #[trigger] a.output_records[i]).program_id.value == b.output_records[i].program_id.value by {
        let k = a.input_records.len() + i;
        assert(all_a[k] == a.output_records[i]);
        assert(all_b[k] == b.output_records[i]);
    }
}

} // verus!

use rand::rngs::StdRng;
use rand::{RngCore, SeedableRng};
use snarkvm_algorithms::commitment::Blake2sCommitment;
use snarkvm_algorithms::CommitmentScheme;
use spend_authorization::authorization::{StateTransition, TransactionAuthorization};
use spend_authorization::error::Error;
use spend_authorization::identifier::Identifier;
use spend_authorization::parameters::Parameters;
use spend_authorization::record::Record;
use spend_authorization::schemes::{LocalDataScheme, RecordEncryption};
use spend_authorization::wire::{bytes_wanted, fixed_wire_size};

fn params() -> Parameters {
    Parameters {
        num_input_records: 2,
        num_output_records: 2,
        kernel_size: 5,
        record_payload_size: 3,
        signature_size: 4,
        compute_key_size: 2,
    }
}

fn record(program: &str, fill: u8) -> Record {
    Record::new(Identifier::from_str(program).unwrap(), vec![fill; 3])
}

fn state() -> StateTransition {
    StateTransition {
        kernel: vec![9, 8, 7, 6, 5],
        kernel_is_valid: true,
        input_records: vec![record("token", 1), record("noop", 2)],
        output_records: vec![record("token", 3), record("swap_v2", 4)],
        noop_compute_keys: vec![None, Some(vec![0xaa, 0xbb])],
    }
}

fn signatures() -> Vec<Vec<u8>> {
    vec![vec![1, 2, 3, 4], vec![5, 6, 7, 8]]
}

fn authorization() -> TransactionAuthorization {
    TransactionAuthorization::from(&params(), &state(), signatures()).unwrap()
}

/// A toy scheme: the randomizer is four random bytes, the ciphertext is the
/// payload with each byte moved by the randomizer's first, and the hash is the
/// sum of the ciphertext's bytes.
struct ToyEncryption {
    fail_on: Option<u8>,
}

impl RecordEncryption for ToyEncryption {
    fn encrypt(&self, record: &Record, rng: &mut StdRng) -> Result<(Vec<u8>, Vec<u8>), Error> {
        if Some(record.payload[0]) == self.fail_on {
            return Err(Error::Crypto);
        }
        let mut randomizer = vec![0u8; 4];
        rng.fill_bytes(&mut randomizer);
        let ciphertext = record.payload.iter().map(|b| b.wrapping_add(randomizer[0])).collect();
        Ok((ciphertext, randomizer))
    }

    fn hash(&self, ciphertext: &Vec<u8>) -> Result<Vec<u8>, Error> {
        Ok(vec![ciphertext.iter().fold(0u8, |sum, b| sum.wrapping_add(*b))])
    }
}

/// A toy constructor of local data: it counts what it was handed.
struct ToyLocalData {
    fail: bool,
}

impl LocalDataScheme for ToyLocalData {
    type LocalData = (usize, usize, usize);

    fn bind(
        &self,
        kernel: &Vec<u8>,
        input_records: &Vec<Record>,
        output_records: &Vec<Record>,
        _rng: &mut StdRng,
    ) -> Result<Self::LocalData, Error> {
        if self.fail {
            return Err(Error::Crypto);
        }
        Ok((kernel.len(), input_records.len(), output_records.len()))
    }
}

#[test]
fn built_authorization_holds_the_state_and_the_signatures() {
    let auth = authorization();
    let state = state();
    assert_eq!(auth.kernel, state.kernel);
    assert_eq!(auth.input_records, state.input_records);
    assert_eq!(auth.output_records, state.output_records);
    assert_eq!(auth.noop_compute_keys, state.noop_compute_keys);
    assert_eq!(auth.signatures, signatures());
    assert!(auth.is_well_formed(&params()));
}

#[test]
fn wrong_number_of_signatures_is_an_invariant_error() {
    let one = vec![vec![1, 2, 3, 4]];
    assert_eq!(TransactionAuthorization::from(&params(), &state(), one), Err(Error::Invariant));
    let three = vec![vec![1, 2, 3, 4], vec![5, 6, 7, 8], vec![9, 9, 9, 9]];
    assert_eq!(TransactionAuthorization::from(&params(), &state(), three), Err(Error::Invariant));
    assert_eq!(TransactionAuthorization::from(&params(), &state(), vec![]), Err(Error::Invariant));
}

#[test]
fn a_kernel_that_is_not_valid_is_an_invariant_error() {
    let mut s = state();
    s.kernel_is_valid = false;
    assert_eq!(TransactionAuthorization::from(&params(), &s, signatures()), Err(Error::Invariant));
    s.kernel_is_valid = true;
    assert!(TransactionAuthorization::from(&params(), &s, signatures()).is_ok());
}

#[test]
fn wrong_counts_and_sizes_are_invariant_errors() {
    let build = |state: StateTransition, signatures: Vec<Vec<u8>>| {
        TransactionAuthorization::from(&params(), &state, signatures)
    };
    let mut s = state();
    s.kernel.pop();
    assert_eq!(build(s, signatures()), Err(Error::Invariant));
    let mut s = state();
    s.input_records.pop();
    assert_eq!(build(s, signatures()), Err(Error::Invariant));
    let mut s = state();
    s.output_records.push(record("extra", 0));
    assert_eq!(build(s, signatures()), Err(Error::Invariant));
    let mut s = state();
    s.noop_compute_keys.pop();
    assert_eq!(build(s, signatures()), Err(Error::Invariant));
    let mut s = state();
    s.noop_compute_keys[1] = Some(vec![1, 2, 3]);
    assert_eq!(build(s, signatures()), Err(Error::Invariant));
    let mut s = state();
    s.output_records[0].payload.push(0);
    assert_eq!(build(s, signatures()), Err(Error::Invariant));
    assert_eq!(build(state(), vec![vec![1, 2, 3, 4], vec![5, 6, 7]]), Err(Error::Invariant));
    assert!(build(state(), signatures()).is_ok());
}

#[test]
fn bytes_follow_the_layout() {
    let bytes = authorization().write_le(&params()).unwrap();
    let mut expected: Vec<u8> = vec![9, 8, 7, 6, 5];
    for (program, fill) in [("token", 1u8), ("noop", 2), ("token", 3), ("swap_v2", 4)] {
        let mut value = [0u8; 32];
        value[..program.len()].copy_from_slice(program.as_bytes());
        expected.extend_from_slice(&value);
        expected.push(program.len() as u8);
        expected.extend_from_slice(&[fill; 3]);
    }
    expected.extend_from_slice(&[1, 2, 3, 4, 5, 6, 7, 8]);
    expected.extend_from_slice(&[0, 1, 0xaa, 0xbb]);
    assert_eq!(bytes, expected);
    assert_eq!(bytes.len(), 5 + 4 * 36 + 8 + 4);
}

#[test]
fn reading_inverts_writing() {
    let auth = authorization();
    let bytes = auth.write_le(&params()).unwrap();
    assert_eq!(TransactionAuthorization::read_le(&params(), &bytes), Ok(auth.clone()));
    // What follows the authorization is not looked at.
    let mut longer = bytes.clone();
    longer.extend_from_slice(&[1, 2, 3]);
    assert_eq!(TransactionAuthorization::read_le(&params(), &longer), Ok(auth.clone()));
    assert_eq!(
        TransactionAuthorization::read_le_prefix(&params(), &longer),
        Ok((auth, bytes.len()))
    );
}

#[test]
fn truncated_bytes_are_io_errors() {
    let bytes = authorization().write_le(&params()).unwrap();
    for len in 0..bytes.len() {
        assert_eq!(
            TransactionAuthorization::read_le(&params(), &bytes[..len]),
            Err(Error::Io),
            "{}",
            len
        );
    }
}

#[test]
fn malformed_bytes_are_io_errors() {
    let bytes = authorization().write_le(&params()).unwrap();
    // A key discriminant that is neither 0 nor 1.
    let mut bad = bytes.clone();
    let first_tag = bytes.len() - 4;
    bad[first_tag] = 2;
    assert_eq!(TransactionAuthorization::read_le(&params(), &bad), Err(Error::Io));
    // A field value at or above the modulus.
    let mut bad = bytes.clone();
    for byte in bad[5..37].iter_mut() {
        *byte = 0xff;
    }
    assert_eq!(TransactionAuthorization::read_le(&params(), &bad), Err(Error::Io));
    // A discriminant of 1 takes the key's bytes from what follows.
    let mut other = bytes.clone();
    other[first_tag] = 1;
    assert_eq!(TransactionAuthorization::read_le(&params(), &other), Err(Error::Io));
}

#[test]
fn an_authorization_of_another_form_is_not_written() {
    let mut auth = authorization();
    auth.signatures.pop();
    assert_eq!(auth.write_le(&params()), Err(Error::Invariant));
    assert_eq!(auth.to_string(&params()), Err(Error::Invariant));
    assert!(!auth.is_well_formed(&params()));
    let mut other = params();
    other.num_input_records = 3;
    assert_eq!(authorization().write_le(&other), Err(Error::Invariant));
}

#[test]
fn text_form_is_lowercase_hex_and_parses_back() {
    let auth = authorization();
    let text = auth.to_string(&params()).unwrap();
    assert_eq!(text, hex::encode(auth.write_le(&params()).unwrap()));
    assert!(text.starts_with("0908070605746f6b656e00"));
    assert!(text.ends_with("0001aabb"));
    assert_eq!(TransactionAuthorization::from_str(&params(), &text), Ok(auth.clone()));
    assert_eq!(TransactionAuthorization::from_str(&params(), &text.to_uppercase()), Ok(auth));
}

#[test]
fn bad_text_is_a_parse_error() {
    let text = authorization().to_string(&params()).unwrap();
    let from_str = |text: &str| TransactionAuthorization::from_str(&params(), text);
    assert_eq!(from_str("zz"), Err(Error::Parse));
    assert_eq!(from_str(&text[..text.len() - 1]), Err(Error::Parse));
    assert_eq!(from_str(&text[..text.len() - 2]), Err(Error::Parse));
    assert_eq!(from_str(""), Err(Error::Parse));
    assert_eq!(from_str(&format!("{}g0", &text[..text.len() - 2])), Err(Error::Parse));
    assert_eq!(from_str("\u{e9}\u{e9}"), Err(Error::Parse));
}

#[test]
fn an_empty_protocol_has_an_empty_authorization() {
    let empty = Parameters {
        num_input_records: 0,
        num_output_records: 0,
        kernel_size: 0,
        record_payload_size: 0,
        signature_size: 0,
        compute_key_size: 0,
    };
    let state = StateTransition {
        kernel: vec![],
        kernel_is_valid: true,
        input_records: vec![],
        output_records: vec![],
        noop_compute_keys: vec![],
    };
    let auth = TransactionAuthorization::from(&empty, &state, vec![]).unwrap();
    assert_eq!(auth.write_le(&empty), Ok(vec![]));
    assert_eq!(auth.to_string(&empty).unwrap(), "");
    assert_eq!(TransactionAuthorization::from_str(&empty, ""), Ok(auth.clone()));
    let mut rng = StdRng::seed_from_u64(1);
    let sealed = auth.to_encrypted_records(&empty, &ToyEncryption { fail_on: Some(0) }, &mut rng);
    assert_eq!(sealed, Ok((vec![], vec![], vec![])));
    assert_eq!(auth.to_program_id_message(&empty), Vec::<u8>::new());
}

#[test]
fn program_commitment_is_blake2s_of_the_program_identifiers() {
    let auth = authorization();
    let mut message = Vec::new();
    for program in ["token", "noop", "token", "swap_v2"] {
        let mut value = [0u8; 32];
        value[..program.len()].copy_from_slice(program.as_bytes());
        message.extend_from_slice(&value);
    }
    assert_eq!(auth.to_program_id_message(&params()), message);
    let randomness = [7u8; 32];
    let expected = Blake2sCommitment.commit(&message, &randomness).unwrap();
    assert_eq!(auth.to_program_commitment_with(&params(), &randomness), Ok(expected));
    assert_ne!(expected.to_vec(), message);
    assert_ne!(expected, randomness);
}

#[test]
fn program_commitment_is_deterministic_and_bound_to_the_order() {
    let auth = authorization();
    let randomness = [3u8; 32];
    let first = auth.to_program_commitment_with(&params(), &randomness).unwrap();
    let second = auth.to_program_commitment_with(&params(), &randomness).unwrap();
    assert_eq!(first, second);
    let other = auth.to_program_commitment_with(&params(), &[4u8; 32]).unwrap();
    assert_ne!(first, other);

    let mut swapped = auth.clone();
    swapped.input_records.swap(0, 1);
    assert_ne!(swapped.to_program_id_message(&params()), auth.to_program_id_message(&params()));
    let moved = swapped.to_program_commitment_with(&params(), &randomness).unwrap();
    assert_ne!(first, moved);

    let mut swapped = auth.clone();
    swapped.output_records.swap(0, 1);
    let moved = swapped.to_program_commitment_with(&params(), &randomness).unwrap();
    assert_ne!(first, moved);
}

#[test]
fn program_commitment_samples_its_randomness() {
    let auth = authorization();
    let mut rng = StdRng::seed_from_u64(42);
    let (commitment, randomness) = auth.to_program_commitment(&params(), &mut rng).unwrap();
    assert_eq!(auth.to_program_commitment_with(&params(), &randomness), Ok(commitment));
    let (_, again) = auth.to_program_commitment(&params(), &mut rng).unwrap();
    assert_ne!(randomness, again);
    let mut same_seed = StdRng::seed_from_u64(42);
    let (repeat, repeat_randomness) =
        auth.to_program_commitment(&params(), &mut same_seed).unwrap();
    assert_eq!((repeat, repeat_randomness), (commitment, randomness));
}

#[test]
fn program_commitment_covers_no_more_than_the_total() {
    let mut auth = authorization();
    auth.output_records.push(record("extra", 9));
    let message = auth.to_program_id_message(&params());
    assert_eq!(message.len(), 4 * 32);
    assert_eq!(message, authorization().to_program_id_message(&params()));
    auth.input_records.truncate(1);
    auth.output_records.truncate(1);
    assert_eq!(auth.to_program_id_message(&params()).len(), 2 * 32);
}

#[test]
fn encrypted_records_come_in_three_aligned_sequences() {
    let auth = authorization();
    let scheme = ToyEncryption { fail_on: None };
    let mut rng = StdRng::seed_from_u64(5);
    let (ciphertexts, hashes, randomizers) =
        auth.to_encrypted_records(&params(), &scheme, &mut rng).unwrap();
    assert_eq!(ciphertexts.len(), 2);
    assert_eq!(hashes.len(), 2);
    assert_eq!(randomizers.len(), 2);
    for i in 0..2 {
        let expected: Vec<u8> = auth.output_records[i]
            .payload
            .iter()
            .map(|b| b.wrapping_add(randomizers[i][0]))
            .collect();
        assert_eq!(ciphertexts[i], expected);
        assert_eq!(hashes[i], scheme.hash(&ciphertexts[i]).unwrap());
    }
}

#[test]
fn encrypted_records_stop_at_the_number_of_outputs() {
    let mut auth = authorization();
    auth.output_records.push(record("extra", 9));
    let scheme = ToyEncryption { fail_on: Some(9) };
    let mut rng = StdRng::seed_from_u64(5);
    let (ciphertexts, _, _) = auth.to_encrypted_records(&params(), &scheme, &mut rng).unwrap();
    assert_eq!(ciphertexts.len(), 2);
}

#[test]
fn a_failure_of_the_scheme_is_the_result() {
    let auth = authorization();
    let mut rng = StdRng::seed_from_u64(5);
    let scheme = ToyEncryption { fail_on: Some(4) };
    assert_eq!(auth.to_encrypted_records(&params(), &scheme, &mut rng), Err(Error::Crypto));
    assert_eq!(auth.to_local_data(&ToyLocalData { fail: true }, &mut rng), Err(Error::Crypto));
}

#[test]
fn local_data_is_made_from_the_kernel_and_all_records() {
    let auth = authorization();
    let mut rng = StdRng::seed_from_u64(5);
    assert_eq!(auth.to_local_data(&ToyLocalData { fail: false }, &mut rng), Ok((5, 2, 2)));
}

#[test]
fn reading_piece_by_piece_takes_one_authorization() {
    let auth = authorization();
    let bytes = auth.write_le(&params()).unwrap();
    let mut stream = bytes.clone();
    stream.extend_from_slice(&[0xee; 7]);
    let mut read: Vec<u8> = Vec::new();
    let mut steps = Vec::new();
    loop {
        let wanted = bytes_wanted(&params(), &read).unwrap();
        if wanted == 0 {
            break;
        }
        steps.push(wanted);
        let start = read.len();
        read.extend_from_slice(&stream[start..start + wanted]);
    }
    // The front in one piece, then a discriminant, then a discriminant and
    // the two bytes of its key.
    assert_eq!(steps, vec![5 + 4 * 36 + 8, 1, 1, 2]);
    assert_eq!(read, bytes);
    assert_eq!(TransactionAuthorization::read_le(&params(), &read), Ok(auth));
}

#[test]
fn the_next_read_is_exact() {
    let bytes = authorization().write_le(&params()).unwrap();
    let front = 5 + 4 * 36 + 8;
    assert_eq!(fixed_wire_size(&params()), Some(front));
    assert_eq!(bytes_wanted(&params(), &[]), Ok(front));
    assert_eq!(bytes_wanted(&params(), &bytes[..10]), Ok(front - 10));
    assert_eq!(bytes_wanted(&params(), &bytes[..front]), Ok(1));
    assert_eq!(bytes_wanted(&params(), &bytes[..front + 1]), Ok(1));
    assert_eq!(bytes_wanted(&params(), &bytes[..front + 2]), Ok(2));
    assert_eq!(bytes_wanted(&params(), &bytes[..front + 3]), Ok(1));
    assert_eq!(bytes_wanted(&params(), &bytes), Ok(0));
    let mut bad = bytes[..front + 1].to_vec();
    bad[front] = 7;
    assert_eq!(bytes_wanted(&params(), &bad), Err(Error::Io));
}

#[test]
fn sizes_beyond_the_machine_are_refused() {
    let mut huge = params();
    huge.record_payload_size = usize::MAX;
    assert_eq!(fixed_wire_size(&huge), None);
    assert_eq!(bytes_wanted(&huge, &[]), Err(Error::Io));
    huge.num_input_records = 0;
    huge.num_output_records = 0;
    assert_eq!(fixed_wire_size(&huge), Some(5));
    let mut huge = params();
    huge.num_input_records = usize::MAX;
    assert_eq!(fixed_wire_size(&huge), None);
}

#[test]
fn a_failure_of_the_hash_is_the_result() {
    struct NoHash;
    impl RecordEncryption for NoHash {
        fn encrypt(&self, record: &Record, _: &mut StdRng) -> Result<(Vec<u8>, Vec<u8>), Error> {
            Ok((record.payload.clone(), vec![0]))
        }

        fn hash(&self, _: &Vec<u8>) -> Result<Vec<u8>, Error> {
            Err(Error::Io)
        }
    }
    let mut rng = StdRng::seed_from_u64(5);
    assert_eq!(authorization().to_encrypted_records(&params(), &NoHash, &mut rng), Err(Error::Io));
}

//! The binary layout of an authorization.
//!
//! The layout has no length prefixes. The kernel comes first, then the input
//! records, the output records, the signatures and the optional compute keys,
//! each as many as the protocol fixes. A record is the 32 bytes of its
//! program identifier's field value, the identifier's length byte and the
//! payload. An optional compute key is a byte that is 1 or 0, followed by the
//! key where the byte is 1.

use crate::error::Error;
use crate::field::{lemma_pow2_landmarks, modulus, FieldValue, REPR_BYTES};
use crate::identifier::{Identifier, IdentifierView};
use crate::parameters::Parameters;
use crate::radix::{
    bytes_value, le_bytes, lemma_le_bytes_len, lemma_le_bytes_of_value, lemma_value_of_le_bytes,
};
use crate::record::{
    blobs_view, key_view, keys_view, records_view, ComputeKey, Record, RecordView,
};
use vstd::prelude::*;
use vstd::slice::{slice_subrange, slice_to_vec};

verus! {

/// What an authorization is: its kernel, records, signatures and optional
/// compute keys, as plain values.
pub struct AuthorizationView {
    pub kernel: Seq<u8>,
    pub input_records: Seq<RecordView>,
    pub output_records: Seq<RecordView>,
    pub signatures: Seq<Seq<u8>>,
    pub noop_compute_keys: Seq<Option<Seq<u8>>>,
}

/// The bytes of the items of a sequence, one after the other.
pub open spec fn concat_all<T>(items: Seq<T>, wire: spec_fn(T) -> Seq<u8>) -> Seq<u8>
    decreases items.len(),
{
    if items.len() == 0 {
        Seq::empty()
    } else {
        wire(items[0]) + concat_all(items.drop_first(), wire)
    }
}

/// What was read so far, followed by what the rest of a reading gives.
pub open spec fn extend<T>(done: Seq<T>, used: nat, more: Option<(Seq<T>, nat)>) -> Option<
    (Seq<T>, nat),
> {
    match more {
        Some((rest, further)) => Some((done + rest, used + further)),
        None => None,
    }
}

/// Reads `count` items from the front of `bytes`, one after the other. The
/// result holds the items and the number of bytes they took.
pub open spec fn parse_many<T>(
    bytes: Seq<u8>,
    count: nat,
    item: spec_fn(Seq<u8>) -> Option<(T, nat)>,
) -> Option<(Seq<T>, nat)>
    decreases count,
{
    if count == 0 {
        Some((Seq::empty(), 0))
    } else {
        match item(bytes) {
            Some((first, used)) => extend(
                seq![first],
                used,
                parse_many(bytes.skip(used as int), (count - 1) as nat, item),
            ),
            None => None,
        }
    }
}

/// The bytes of a record.
pub open spec fn record_wire(record: RecordView) -> Seq<u8> {
    le_bytes(record.program_id.value, REPR_BYTES as nat) + seq![record.program_id.length as u8]
        + record.payload
}

/// Reads a record from the front of `bytes`. The field value must be below
/// the modulus.
pub open spec fn parse_record(bytes: Seq<u8>, payload_size: nat) -> Option<(RecordView, nat)> {
    let value = bytes_value(bytes.subrange(0, REPR_BYTES as int));
    if bytes.len() >= REPR_BYTES + 1 + payload_size && value < modulus() {
        Some(
            (
                RecordView {
                    program_id: IdentifierView { value, length: bytes[REPR_BYTES as int] as nat },
                    payload: bytes.subrange(
                        REPR_BYTES + 1,
                        REPR_BYTES + 1 + payload_size as int,
                    ),
                },
                (REPR_BYTES + 1 + payload_size) as nat,
            ),
        )
    } else {
        None
    }
}

/// Reads `size` bytes from the front of `bytes`.
pub open spec fn parse_blob(bytes: Seq<u8>, size: nat) -> Option<(Seq<u8>, nat)> {
    if bytes.len() >= size {
        Some((bytes.subrange(0, size as int), size))
    } else {
        None
    }
}

/// The bytes of an optional compute key.
pub open spec fn key_wire(key: Option<Seq<u8>>) -> Seq<u8> {
    match key {
        Some(bytes) => seq![1u8] + bytes,
        None => seq![0u8],
    }
}

/// Reads an optional compute key from the front of `bytes`.
pub open spec fn parse_key(bytes: Seq<u8>, size: nat) -> Option<(Option<Seq<u8>>, nat)> {
    if bytes.len() >= 1 && bytes[0] == 0 {
        Some((None, 1))
    } else if bytes.len() >= 1 + size && bytes[0] == 1 {
        Some((Some(bytes.subrange(1, 1 + size as int)), 1 + size))
    } else {
        None
    }
}

/// [`record_wire`] as a function value.
pub open spec fn record_wire_fn() -> spec_fn(RecordView) -> Seq<u8> {
    |record: RecordView| record_wire(record)
}

/// The bytes of a byte string, which are the string itself, as a function
/// value.
pub open spec fn blob_wire_fn() -> spec_fn(Seq<u8>) -> Seq<u8> {
    |blob: Seq<u8>| blob
}

/// [`key_wire`] as a function value.
pub open spec fn key_wire_fn() -> spec_fn(Option<Seq<u8>>) -> Seq<u8> {
    |key: Option<Seq<u8>>| key_wire(key)
}

/// [`parse_record`] for one payload size, as a function value.
pub open spec fn parse_record_fn(payload_size: nat) -> spec_fn(Seq<u8>) -> Option<
    (RecordView, nat),
> {
    |bytes: Seq<u8>| parse_record(bytes, payload_size)
}

/// [`parse_blob`] for one size, as a function value.
pub open spec fn parse_blob_fn(size: nat) -> spec_fn(Seq<u8>) -> Option<(Seq<u8>, nat)> {
    |bytes: Seq<u8>| parse_blob(bytes, size)
}

/// [`parse_key`] for one key size, as a function value.
pub open spec fn parse_key_fn(size: nat) -> spec_fn(Seq<u8>) -> Option<(Option<Seq<u8>>, nat)> {
    |bytes: Seq<u8>| parse_key(bytes, size)
}

/// Whether a record has the form that the protocol fixes.
pub open spec fn well_formed_record(record: RecordView, params: Parameters) -> bool {
    &&& record.program_id.value < modulus()
    &&& record.program_id.length < 256
    &&& record.payload.len() == params.record_payload_size
}

/// Whether an authorization has the form that the protocol fixes: a kernel
/// of the right size, the right number of records, signatures and optional
/// keys, and each of them of the right size.
pub open spec fn well_formed(a: AuthorizationView, params: Parameters) -> bool {
    &&& a.kernel.len() == params.kernel_size
    &&& a.input_records.len() == params.num_input_records
    &&& a.output_records.len() == params.num_output_records
    &&& a.signatures.len() == params.num_input_records
    &&& a.noop_compute_keys.len() == params.num_input_records
    &&& forall|i: int|
        0 <= i < a.input_records.len() ==> well_formed_record(#[trigger] a.input_records[i], params)
    &&& forall|i: int|
        0 <= i < a.output_records.len() ==> well_formed_record(
            #[trigger] a.output_records[i],
            params,
        )
    &&& forall|i: int|
        0 <= i < a.signatures.len() ==> (#[trigger] a.signatures[i]).len()
            == params.signature_size
    &&& forall|i: int|
        0 <= i < a.noop_compute_keys.len() ==> (#[trigger] a.noop_compute_keys[i] matches Some(
            key,
        ) ==> key.len() == params.compute_key_size)
}

/// The bytes of an authorization.
pub open spec fn authorization_wire(a: AuthorizationView) -> Seq<u8> {
    a.kernel + concat_all(a.input_records, record_wire_fn()) + concat_all(
        a.output_records,
        record_wire_fn(),
    ) + concat_all(a.signatures, blob_wire_fn()) + concat_all(
        a.noop_compute_keys,
        key_wire_fn(),
    )
}

/// Reads an authorization from the front of `bytes`. The result holds the
/// authorization and the number of bytes it took; what follows them is not
/// looked at.
pub open spec fn parse_authorization(bytes: Seq<u8>, params: Parameters) -> Option<
    (AuthorizationView, nat),
> {
    match parse_blob(bytes, params.kernel_size as nat) {
        None => None,
        Some((kernel, n0)) => match parse_many(
            bytes.skip(n0 as int),
            params.num_input_records as nat,
            parse_record_fn(params.record_payload_size as nat),
        ) {
            None => None,
            Some((input_records, n1)) => match parse_many(
                bytes.skip((n0 + n1) as int),
                params.num_output_records as nat,
                parse_record_fn(params.record_payload_size as nat),
            ) {
                None => None,
                Some((output_records, n2)) => match parse_many(
                    bytes.skip((n0 + n1 + n2) as int),
                    params.num_input_records as nat,
                    parse_blob_fn(params.signature_size as nat),
                ) {
                    None => None,
                    Some((signatures, n3)) => match parse_many(
                        bytes.skip((n0 + n1 + n2 + n3) as int),
                        params.num_input_records as nat,
                        parse_key_fn(params.compute_key_size as nat),
                    ) {
                        None => None,
                        Some((noop_compute_keys, n4)) => Some(
                            (
                                AuthorizationView {
                                    kernel,
                                    input_records,
                                    output_records,
                                    signatures,
                                    noop_compute_keys,
                                },
                                n0 + n1 + n2 + n3 + n4,
                            ),
                        ),
                    },
                },
            },
        },
    }
}

/// The bytes of a concatenation are the bytes of its parts.
pub proof fn lemma_concat_all_add<T>(low: Seq<T>, high: Seq<T>, wire: spec_fn(T) -> Seq<u8>)
    ensures
        concat_all(low + high, wire) == concat_all(low, wire) + concat_all(high, wire),
    decreases low.len(),
{
    if low.len() == 0 {
        assert(low + high =~= high);
        assert(concat_all(low, wire) + concat_all(high, wire) =~= concat_all(high, wire));
    } else {
        assert((low + high).drop_first() =~= low.drop_first() + high);
        lemma_concat_all_add(low.drop_first(), high, wire);
        assert(concat_all(low + high, wire) =~= concat_all(low, wire) + concat_all(high, wire));
    }
}

/// The bytes of a sequence with one more item.
pub proof fn lemma_concat_all_push<T>(items: Seq<T>, last: T, wire: spec_fn(T) -> Seq<u8>)
    ensures
        concat_all(items.push(last), wire) == concat_all(items, wire) + wire(last),
{
    let one = seq![last];
    assert(items.push(last) =~= items + one);
    lemma_concat_all_add(items, one, wire);
    assert(one.drop_first() =~= Seq::<T>::empty());
    assert(concat_all(one, wire) =~= wire(last)) by {
        reveal_with_fuel(concat_all, 2);
    }
}

/// One more item read: it moves from what is to come to what is done.
pub proof fn lemma_extend_step<T>(
    done: Seq<T>,
    used: nat,
    first: T,
    taken: nat,
    more: Option<(Seq<T>, nat)>,
)
    ensures
        extend(done, used, extend(seq![first], taken, more)) == extend(
            done.push(first),
            used + taken,
            more,
        ),
{
    if let Some((rest, further)) = more {
        assert(done + (seq![first] + rest) =~= done.push(first) + rest);
    }
}

/// Where every item is read back from its own bytes, whatever follows them,
/// a sequence of items is read back from its bytes.
pub proof fn lemma_parse_many_inverts<T>(
    items: Seq<T>,
    rest: Seq<u8>,
    wire: spec_fn(T) -> Seq<u8>,
    item: spec_fn(Seq<u8>) -> Option<(T, nat)>,
)
    requires
        forall|i: int, tail: Seq<u8>|
            0 <= i < items.len() ==> #[trigger] item(wire(items[i]) + tail) == Some(
                (items[i], wire(items[i]).len()),
            ),
    ensures
        parse_many(concat_all(items, wire) + rest, items.len(), item) == Some(
            (items, concat_all(items, wire).len()),
        ),
    decreases items.len(),
{
    if items.len() > 0 {
        let first = wire(items[0]);
        let others = items.drop_first();
        let tail = concat_all(others, wire) + rest;
        let bytes = concat_all(items, wire) + rest;
        assert(bytes =~= first + tail);
        assert(item(first + tail) == Some((items[0], first.len())));
        assert(bytes.skip(first.len() as int) =~= tail);
        assert forall|i: int, more: Seq<u8>| 0 <= i < others.len() implies #[trigger] item(
            wire(others[i]) + more,
        ) == Some((others[i], wire(others[i]).len())) by {
            assert(others[i] == items[i + 1]);
        }
        lemma_parse_many_inverts(others, rest, wire, item);
        assert(seq![items[0]] + others =~= items);
    } else {
        assert(Seq::<T>::empty() =~= items);
    }
}

/// A well-formed record is read back from its bytes.
pub proof fn lemma_parse_record_inverts(record: RecordView, params: Parameters, tail: Seq<u8>)
    requires
        well_formed_record(record, params),
    ensures
        parse_record(record_wire(record) + tail, params.record_payload_size as nat) == Some(
            (record, record_wire(record).len()),
        ),
{
    let value_bytes = le_bytes(record.program_id.value, REPR_BYTES as nat);
    let bytes = record_wire(record) + tail;
    lemma_le_bytes_len(record.program_id.value, REPR_BYTES as nat);
    lemma_pow2_landmarks();
    lemma_value_of_le_bytes(record.program_id.value, REPR_BYTES as nat);
    assert(bytes.subrange(0, REPR_BYTES as int) =~= value_bytes);
    assert(bytes[REPR_BYTES as int] == record.program_id.length as u8);
    assert(bytes.subrange(REPR_BYTES + 1, REPR_BYTES + 1 + params.record_payload_size as int)
        =~= record.payload);
}

/// Well-formed records are read back from their bytes.
pub proof fn lemma_parse_records_inverts(
    records: Seq<RecordView>,
    params: Parameters,
    tail: Seq<u8>,
)
    requires
        forall|i: int| 0 <= i < records.len() ==> well_formed_record(#[trigger] records[i], params),
    ensures
        parse_many(
            concat_all(records, record_wire_fn()) + tail,
            records.len(),
            parse_record_fn(params.record_payload_size as nat),
        ) == Some((records, concat_all(records, record_wire_fn()).len())),
{
    let payload = params.record_payload_size as nat;
    assert forall|i: int, more: Seq<u8>| 0 <= i < records.len() implies (
    #[trigger] parse_record_fn(payload)(record_wire_fn()(records[i]) + more)) == Some(
        (records[i], record_wire_fn()(records[i]).len()),
    ) by {
        lemma_parse_record_inverts(records[i], params, more);
    }
    lemma_parse_many_inverts(records, tail, record_wire_fn(), parse_record_fn(payload));
}

/// Byte strings of one size are read back from their bytes.
pub proof fn lemma_parse_blobs_inverts(blobs: Seq<Seq<u8>>, size: nat, tail: Seq<u8>)
    requires
        forall|i: int| 0 <= i < blobs.len() ==> (#[trigger] blobs[i]).len() == size,
    ensures
        parse_many(concat_all(blobs, blob_wire_fn()) + tail, blobs.len(), parse_blob_fn(size))
            == Some((blobs, concat_all(blobs, blob_wire_fn()).len())),
{
    assert forall|i: int, more: Seq<u8>| 0 <= i < blobs.len() implies (
    #[trigger] parse_blob_fn(size)(blob_wire_fn()(blobs[i]) + more)) == Some(
        (blobs[i], blob_wire_fn()(blobs[i]).len()),
    ) by {
        let blob = blobs[i];
        assert((blob + more).subrange(0, size as int) =~= blob);
    }
    lemma_parse_many_inverts(blobs, tail, blob_wire_fn(), parse_blob_fn(size));
}

/// Optional keys of one size are read back from their bytes.
pub proof fn lemma_parse_keys_inverts(keys: Seq<Option<Seq<u8>>>, size: nat, tail: Seq<u8>)
    requires
        forall|i: int|
            0 <= i < keys.len() ==> (#[trigger] keys[i] matches Some(key) ==> key.len() == size),
    ensures
        parse_many(concat_all(keys, key_wire_fn()) + tail, keys.len(), parse_key_fn(size))
            == Some((keys, concat_all(keys, key_wire_fn()).len())),
{
    assert forall|i: int, more: Seq<u8>| 0 <= i < keys.len() implies (#[trigger] parse_key_fn(
        size,
    )(key_wire_fn()(keys[i]) + more)) == Some((keys[i], key_wire_fn()(keys[i]).len())) by {
        let key = keys[i];
        if let Some(key_bytes) = key {
            assert((key_wire(key) + more).subrange(1, 1 + size as int) =~= key_bytes);
        }
    }
    lemma_parse_many_inverts(keys, tail, key_wire_fn(), parse_key_fn(size));
}

/// A well-formed authorization is read back from its bytes, whatever follows
/// them.
pub proof fn lemma_parse_inverts_wire(a: AuthorizationView, params: Parameters, tail: Seq<u8>)
    requires
        well_formed(a, params),
    ensures
        parse_authorization(authorization_wire(a) + tail, params) == Some(
            (a, authorization_wire(a).len()),
        ),
{
    let inputs = concat_all(a.input_records, record_wire_fn());
    let outputs = concat_all(a.output_records, record_wire_fn());
    let signatures = concat_all(a.signatures, blob_wire_fn());
    let keys = concat_all(a.noop_compute_keys, key_wire_fn());
    let bytes = authorization_wire(a) + tail;
    let after_signatures = keys + tail;
    let after_outputs = signatures + after_signatures;
    let after_inputs = outputs + after_outputs;
    let after_kernel = inputs + after_inputs;
    let n0 = a.kernel.len();
    let n1 = inputs.len();
    let n2 = outputs.len();
    let n3 = signatures.len();
    assert(bytes =~= a.kernel + after_kernel);
    assert(bytes.subrange(0, n0 as int) =~= a.kernel);
    assert(bytes.skip(n0 as int) =~= after_kernel);
    assert(bytes.skip((n0 + n1) as int) =~= after_inputs);
    assert(bytes.skip((n0 + n1 + n2) as int) =~= after_outputs);
    assert(bytes.skip((n0 + n1 + n2 + n3) as int) =~= after_signatures);
    lemma_parse_records_inverts(a.input_records, params, after_inputs);
    lemma_parse_records_inverts(a.output_records, params, after_outputs);
    lemma_parse_blobs_inverts(a.signatures, params.signature_size as nat, after_signatures);
    lemma_parse_keys_inverts(a.noop_compute_keys, params.compute_key_size as nat, tail);
}

/// What is read is as many items as were asked for, and each is what the
/// reader of one item can give.
pub proof fn lemma_parse_many_items<T>(
    bytes: Seq<u8>,
    count: nat,
    item: spec_fn(Seq<u8>) -> Option<(T, nat)>,
    good: spec_fn(T) -> bool,
)
    requires
        forall|input: Seq<u8>| (#[trigger] item(input)) is Some ==> good(item(input).unwrap().0),
        parse_many(bytes, count, item) is Some,
    ensures
        parse_many(bytes, count, item).unwrap().0.len() == count,
        forall|i: int| 0 <= i < count ==> good(#[trigger] parse_many(bytes, count, item).unwrap().0[i]),
    decreases count,
{
    if count > 0 {
        let (first, used) = item(bytes).unwrap();
        lemma_parse_many_items(bytes.skip(used as int), (count - 1) as nat, item, good);
        assert(good(first));
    }
}

/// What is read from bytes has the form that the protocol fixes.
pub proof fn lemma_parsed_is_well_formed(bytes: Seq<u8>, params: Parameters)
    requires
        parse_authorization(bytes, params) is Some,
    ensures
        well_formed(parse_authorization(bytes, params).unwrap().0, params),
{
    let a = parse_authorization(bytes, params).unwrap().0;
    let n0 = params.kernel_size as nat;
    let records = parse_record_fn(params.record_payload_size as nat);
    let good_record = |record: RecordView| well_formed_record(record, params);
    let n1 = parse_many(bytes.skip(n0 as int), params.num_input_records as nat, records).unwrap().1;
    lemma_parse_many_items(
        bytes.skip(n0 as int),
        params.num_input_records as nat,
        records,
        good_record,
    );
    let n2 = parse_many(
        bytes.skip((n0 + n1) as int),
        params.num_output_records as nat,
        records,
    ).unwrap().1;
    lemma_parse_many_items(
        bytes.skip((n0 + n1) as int),
        params.num_output_records as nat,
        records,
        good_record,
    );
    let blobs = parse_blob_fn(params.signature_size as nat);
    let good_blob = |blob: Seq<u8>| blob.len() == params.signature_size;
    let n3 = parse_many(
        bytes.skip((n0 + n1 + n2) as int),
        params.num_input_records as nat,
        blobs,
    ).unwrap().1;
    lemma_parse_many_items(
        bytes.skip((n0 + n1 + n2) as int),
        params.num_input_records as nat,
        blobs,
        good_blob,
    );
    let keys = parse_key_fn(params.compute_key_size as nat);
    let good_key = |key: Option<Seq<u8>>|
        key matches Some(key_bytes) ==> key_bytes.len() == params.compute_key_size;
    lemma_parse_many_items(
        bytes.skip((n0 + n1 + n2 + n3) as int),
        params.num_input_records as nat,
        keys,
        good_key,
    );
}

/// Where every item that is read writes back as the bytes it was read
/// from, so does a sequence of items.
pub proof fn lemma_concat_inverts_parse_many<T>(
    bytes: Seq<u8>,
    count: nat,
    item: spec_fn(Seq<u8>) -> Option<(T, nat)>,
    wire: spec_fn(T) -> Seq<u8>,
)
    requires
        forall|input: Seq<u8>|
            (#[trigger] item(input)) is Some ==> item(input).unwrap().1 <= input.len() && wire(
                item(input).unwrap().0,
            ) == input.subrange(0, item(input).unwrap().1 as int),
        parse_many(bytes, count, item) is Some,
    ensures
        parse_many(bytes, count, item).unwrap().1 <= bytes.len(),
        concat_all(parse_many(bytes, count, item).unwrap().0, wire) == bytes.subrange(
            0,
            parse_many(bytes, count, item).unwrap().1 as int,
        ),
    decreases count,
{
    let (items, total) = parse_many(bytes, count, item).unwrap();
    if count > 0 {
        let (first, used) = item(bytes).unwrap();
        let rest = bytes.skip(used as int);
        lemma_concat_inverts_parse_many(rest, (count - 1) as nat, item, wire);
        let (others, further) = parse_many(rest, (count - 1) as nat, item).unwrap();
        assert(items =~= seq![first] + others);
        assert(items.drop_first() =~= others);
        assert(rest.subrange(0, further as int) =~= bytes.subrange(
            used as int,
            (used + further) as int,
        ));
        assert(concat_all(items, wire) =~= bytes.subrange(0, total as int));
    } else {
        assert(concat_all(items, wire) =~= bytes.subrange(0, total as int));
    }
}

/// A record that is read writes back as the bytes it was read from.
pub proof fn lemma_record_wire_inverts_parse(bytes: Seq<u8>, payload_size: nat)
    requires
        parse_record(bytes, payload_size) is Some,
    ensures
        parse_record(bytes, payload_size).unwrap().1 <= bytes.len(),
        record_wire(parse_record(bytes, payload_size).unwrap().0) == bytes.subrange(
            0,
            parse_record(bytes, payload_size).unwrap().1 as int,
        ),
{
    let (record, used) = parse_record(bytes, payload_size).unwrap();
    let value_bytes = bytes.subrange(0, REPR_BYTES as int);
    lemma_le_bytes_of_value(value_bytes, REPR_BYTES as nat);
    assert(value_bytes + crate::radix::zero_bytes(0) =~= value_bytes);
    assert(record_wire(record) =~= bytes.subrange(0, used as int));
}

/// What is read writes back as the bytes it was read from.
pub proof fn lemma_wire_inverts_parse(bytes: Seq<u8>, params: Parameters)
    requires
        parse_authorization(bytes, params) is Some,
    ensures
        parse_authorization(bytes, params).unwrap().1 <= bytes.len(),
        authorization_wire(parse_authorization(bytes, params).unwrap().0) == bytes.subrange(
            0,
            parse_authorization(bytes, params).unwrap().1 as int,
        ),
{
    let (a, total) = parse_authorization(bytes, params).unwrap();
    let n0 = params.kernel_size as nat;
    let payload = params.record_payload_size as nat;
    let records = parse_record_fn(payload);
    assert forall|input: Seq<u8>| (#[trigger] records(input)) is Some implies records(
        input,
    ).unwrap().1 <= input.len() && record_wire_fn()(records(input).unwrap().0) == input.subrange(
        0,
        records(input).unwrap().1 as int,
    ) by {
        lemma_record_wire_inverts_parse(input, payload);
    }
    let after_kernel = bytes.skip(n0 as int);
    lemma_concat_inverts_parse_many(
        after_kernel,
        params.num_input_records as nat,
        records,
        record_wire_fn(),
    );
    let n1 = parse_many(after_kernel, params.num_input_records as nat, records).unwrap().1;
    let after_inputs = bytes.skip((n0 + n1) as int);
    lemma_concat_inverts_parse_many(
        after_inputs,
        params.num_output_records as nat,
        records,
        record_wire_fn(),
    );
    let n2 = parse_many(after_inputs, params.num_output_records as nat, records).unwrap().1;
    let blobs = parse_blob_fn(params.signature_size as nat);
    let after_outputs = bytes.skip((n0 + n1 + n2) as int);
    lemma_concat_inverts_parse_many(
        after_outputs,
        params.num_input_records as nat,
        blobs,
        blob_wire_fn(),
    );
    let n3 = parse_many(after_outputs, params.num_input_records as nat, blobs).unwrap().1;
    let keys = parse_key_fn(params.compute_key_size as nat);
    assert forall|input: Seq<u8>| (#[trigger] keys(input)) is Some implies keys(input).unwrap().1
        <= input.len() && key_wire_fn()(keys(input).unwrap().0) == input.subrange(
        0,
        keys(input).unwrap().1 as int,
    ) by {
        let (key, used) = keys(input).unwrap();
        assert(key_wire(key) =~= input.subrange(0, used as int));
    }
    let after_signatures = bytes.skip((n0 + n1 + n2 + n3) as int);
    lemma_concat_inverts_parse_many(
        after_signatures,
        params.num_input_records as nat,
        keys,
        key_wire_fn(),
    );
    let n4 = parse_many(after_signatures, params.num_input_records as nat, keys).unwrap().1;
    assert(after_kernel.subrange(0, n1 as int) =~= bytes.subrange(n0 as int, (n0 + n1) as int));
    assert(after_inputs.subrange(0, n2 as int) =~= bytes.subrange(
        (n0 + n1) as int,
        (n0 + n1 + n2) as int,
    ));
    assert(after_outputs.subrange(0, n3 as int) =~= bytes.subrange(
        (n0 + n1 + n2) as int,
        (n0 + n1 + n2 + n3) as int,
    ));
    assert(after_signatures.subrange(0, n4 as int) =~= bytes.subrange(
        (n0 + n1 + n2 + n3) as int,
        total as int,
    ));
    assert(authorization_wire(a) =~= bytes.subrange(0, total as int));
}

/// Truncated bytes are refused: no strict prefix of the bytes of an
/// authorization of the protocol's form reads as an authorization.
pub proof fn lemma_strict_prefix_is_refused(a: AuthorizationView, params: Parameters, len: int)
    requires
        well_formed(a, params),
        0 <= len < authorization_wire(a).len(),
    ensures
        parse_authorization(authorization_wire(a).subrange(0, len), params) is None,
{
    let whole = authorization_wire(a);
    let prefix = whole.subrange(0, len);
    if parse_authorization(prefix, params) is Some {
        let (b, used) = parse_authorization(prefix, params).unwrap();
        lemma_wire_inverts_parse(prefix, params);
        lemma_parsed_is_well_formed(prefix, params);
        let tail = whole.skip(used as int);
        assert(whole =~= authorization_wire(b) + tail);
        lemma_parse_inverts_wire(b, params, tail);
        lemma_parse_inverts_wire(a, params, Seq::empty());
        assert(whole + Seq::<u8>::empty() =~= whole);
        assert(false);
    }
}

/// Where the items at the front are read back and what follows them is no
/// item, a reading of more items than stand at the front fails.
pub proof fn lemma_parse_many_fails_after<T>(
    items: Seq<T>,
    rest: Seq<u8>,
    count: nat,
    wire: spec_fn(T) -> Seq<u8>,
    item: spec_fn(Seq<u8>) -> Option<(T, nat)>,
)
    requires
        forall|i: int, tail: Seq<u8>|
            0 <= i < items.len() ==> #[trigger] item(wire(items[i]) + tail) == Some(
                (items[i], wire(items[i]).len()),
            ),
        items.len() < count,
        item(rest) is None,
    ensures
        parse_many(concat_all(items, wire) + rest, count, item) is None,
    decreases items.len(),
{
    if items.len() > 0 {
        let first = wire(items[0]);
        let others = items.drop_first();
        let tail = concat_all(others, wire) + rest;
        let bytes = concat_all(items, wire) + rest;
        assert(bytes =~= first + tail);
        assert(item(first + tail) == Some((items[0], first.len())));
        assert(bytes.skip(first.len() as int) =~= tail);
        assert forall|i: int, more: Seq<u8>| 0 <= i < others.len() implies #[trigger] item(
            wire(others[i]) + more,
        ) == Some((others[i], wire(others[i]).len())) by {
            assert(others[i] == items[i + 1]);
        }
        lemma_parse_many_fails_after(others, rest, (count - 1) as nat, wire, item);
    } else {
        assert(concat_all(items, wire) + rest =~= rest);
    }
}

/// The bytes of an authorization before its optional keys.
pub open spec fn wire_front(a: AuthorizationView) -> Seq<u8> {
    a.kernel + concat_all(a.input_records, record_wire_fn()) + concat_all(
        a.output_records,
        record_wire_fn(),
    ) + concat_all(a.signatures, blob_wire_fn())
}

/// The bytes of an authorization up to the discriminant of its optional key
/// at place `place`.
pub open spec fn wire_before_key(a: AuthorizationView, place: int) -> Seq<u8> {
    wire_front(a) + concat_all(a.noop_compute_keys.take(place), key_wire_fn())
}

/// After the bytes that come before the optional keys of an authorization of
/// the protocol's form, a reading stands or falls with the reading of the
/// keys.
pub proof fn lemma_parse_front(a: AuthorizationView, params: Parameters, rest: Seq<u8>)
    requires
        well_formed(a, params),
    ensures
        parse_authorization(wire_front(a) + rest, params) is Some <==> parse_many(
            rest,
            params.num_input_records as nat,
            parse_key_fn(params.compute_key_size as nat),
        ) is Some,
{
    let inputs = concat_all(a.input_records, record_wire_fn());
    let outputs = concat_all(a.output_records, record_wire_fn());
    let signatures = concat_all(a.signatures, blob_wire_fn());
    let bytes = wire_front(a) + rest;
    let after_outputs = signatures + rest;
    let after_inputs = outputs + after_outputs;
    let after_kernel = inputs + after_inputs;
    let n0 = a.kernel.len();
    let n1 = inputs.len();
    let n2 = outputs.len();
    let n3 = signatures.len();
    assert(bytes =~= a.kernel + after_kernel);
    assert(bytes.subrange(0, n0 as int) =~= a.kernel);
    assert(bytes.skip(n0 as int) =~= after_kernel);
    assert(bytes.skip((n0 + n1) as int) =~= after_inputs);
    assert(bytes.skip((n0 + n1 + n2) as int) =~= after_outputs);
    assert(bytes.skip((n0 + n1 + n2 + n3) as int) =~= rest);
    lemma_parse_records_inverts(a.input_records, params, after_inputs);
    lemma_parse_records_inverts(a.output_records, params, after_outputs);
    lemma_parse_blobs_inverts(a.signatures, params.signature_size as nat, rest);
}

/// A discriminant other than 0 and 1 is refused: bytes that are those of an
/// authorization of the protocol's form up to the discriminant of one of its
/// optional keys, and hold another value there, read as no authorization,
/// whatever follows.
pub proof fn lemma_bad_discriminant_is_refused(
    a: AuthorizationView,
    params: Parameters,
    place: int,
    discriminant: u8,
    rest: Seq<u8>,
)
    requires
        well_formed(a, params),
        0 <= place < a.noop_compute_keys.len(),
        discriminant != 0 && discriminant != 1,
    ensures
        parse_authorization(wire_before_key(a, place) + seq![discriminant] + rest, params) is None,
{
    let keys = a.noop_compute_keys.take(place);
    let bad = seq![discriminant] + rest;
    let bytes = wire_before_key(a, place) + seq![discriminant] + rest;
    let key_size = params.compute_key_size as nat;
    let after_front = concat_all(keys, key_wire_fn()) + bad;
    assert(bytes =~= wire_front(a) + after_front);
    lemma_parse_front(a, params, after_front);
    assert(parse_many(after_front, params.num_input_records as nat, parse_key_fn(key_size))
        is None) by {
        assert forall|i: int, more: Seq<u8>| 0 <= i < keys.len() implies (
        #[trigger] parse_key_fn(key_size)(key_wire_fn()(keys[i]) + more)) == Some(
            (keys[i], key_wire_fn()(keys[i]).len()),
        ) by {
            let key = keys[i];
            assert(key == a.noop_compute_keys[i]);
            if let Some(key_bytes) = key {
                assert((key_wire(key) + more).subrange(1, 1 + key_size as int) =~= key_bytes);
            }
        }
        assert(bad[0] == discriminant);
        lemma_parse_many_fails_after(
            keys,
            bad,
            params.num_input_records as nat,
            key_wire_fn(),
            parse_key_fn(key_size),
        );
    }
}

/// The number of bytes of a record.
pub open spec fn record_size(params: Parameters) -> nat {
    (REPR_BYTES + 1 + params.record_payload_size) as nat
}

/// The number of bytes of an authorization before its optional keys: the
/// kernel, the records and the signatures.
pub open spec fn fixed_size(params: Parameters) -> nat {
    (params.kernel_size + (params.num_input_records + params.num_output_records) * record_size(
        params,
    ) + params.num_input_records * params.signature_size) as nat
}

/// How many bytes to read next, where `bytes` is what was read so far of
/// `count` optional keys: nothing where they are complete, one byte where a
/// discriminant is due, the rest of a key where one is cut short. Nothing can
/// be said after a discriminant other than 0 and 1.
pub open spec fn keys_next_read(bytes: Seq<u8>, count: nat, size: nat) -> Option<nat>
    decreases count,
{
    if count == 0 {
        Some(0)
    } else if bytes.len() == 0 {
        Some(1)
    } else if bytes[0] == 0 {
        keys_next_read(bytes.skip(1), (count - 1) as nat, size)
    } else if bytes[0] == 1 {
        if bytes.len() < 1 + size {
            Some((1 + size - bytes.len()) as nat)
        } else {
            keys_next_read(bytes.skip(1 + size as int), (count - 1) as nat, size)
        }
    } else {
        None
    }
}

/// How many bytes to read next, where `bytes` is what was read so far of an
/// authorization: first all that comes before the optional keys, then what
/// the keys ask for one by one, and nothing when the authorization is
/// complete.
pub open spec fn next_read(bytes: Seq<u8>, params: Parameters) -> Option<nat> {
    if bytes.len() < fixed_size(params) {
        Some((fixed_size(params) - bytes.len()) as nat)
    } else {
        keys_next_read(
            bytes.skip(fixed_size(params) as int),
            params.num_input_records as nat,
            params.compute_key_size as nat,
        )
    }
}

/// The bytes of items of one size are as many as the items times the size.
pub proof fn lemma_concat_all_len<T>(items: Seq<T>, wire: spec_fn(T) -> Seq<u8>, size: nat)
    requires
        forall|i: int| 0 <= i < items.len() ==> (#[trigger] wire(items[i])).len() == size,
    ensures
        concat_all(items, wire).len() == items.len() * size,
    decreases items.len(),
{
    if items.len() > 0 {
        let others = items.drop_first();
        assert forall|i: int| 0 <= i < others.len() implies (#[trigger] wire(others[i])).len()
            == size by {
            assert(others[i] == items[i + 1]);
        }
        lemma_concat_all_len(others, wire, size);
        assert(items.len() * size == size + (items.len() - 1) * size) by (nonlinear_arith);
    } else {
        assert(items.len() * size == 0) by (nonlinear_arith)
            requires
                items.len() == 0,
        ;
    }
}

/// The bytes of an authorization of the protocol's form before its optional
/// keys are as many as the protocol fixes.
pub proof fn lemma_fixed_size(a: AuthorizationView, params: Parameters)
    requires
        well_formed(a, params),
    ensures
        wire_front(a).len() == fixed_size(params),
        authorization_wire(a) == wire_front(a) + concat_all(a.noop_compute_keys, key_wire_fn()),
{
    let size = record_size(params);
    assert forall|i: int| 0 <= i < a.input_records.len() implies (#[trigger] record_wire_fn()(
        a.input_records[i],
    )).len() == size by {
        lemma_le_bytes_len(a.input_records[i].program_id.value, REPR_BYTES as nat);
    }
    assert forall|i: int| 0 <= i < a.output_records.len() implies (#[trigger] record_wire_fn()(
        a.output_records[i],
    )).len() == size by {
        lemma_le_bytes_len(a.output_records[i].program_id.value, REPR_BYTES as nat);
    }
    lemma_concat_all_len(a.input_records, record_wire_fn(), size);
    lemma_concat_all_len(a.output_records, record_wire_fn(), size);
    lemma_concat_all_len(a.signatures, blob_wire_fn(), params.signature_size as nat);
    let n_in = params.num_input_records as int;
    let n_out = params.num_output_records as int;
    assert((n_in + n_out) * size == n_in * size + n_out * size) by (nonlinear_arith);
}

/// Reading what is asked for, over and over, reads the optional keys and no
/// more: of any part of their bytes that was read so far, the next read
/// stays within them, and it is empty exactly when all was read.
pub proof fn lemma_keys_next_read(keys: Seq<Option<Seq<u8>>>, size: nat, len: int)
    requires
        forall|i: int|
            0 <= i < keys.len() ==> (#[trigger] keys[i] matches Some(key) ==> key.len() == size),
        0 <= len <= concat_all(keys, key_wire_fn()).len(),
    ensures
        keys_next_read(concat_all(keys, key_wire_fn()).subrange(0, len), keys.len(), size)
            is Some,
        len + keys_next_read(
            concat_all(keys, key_wire_fn()).subrange(0, len),
            keys.len(),
            size,
        ).unwrap() <= concat_all(keys, key_wire_fn()).len(),
        keys_next_read(
            concat_all(keys, key_wire_fn()).subrange(0, len),
            keys.len(),
            size,
        ).unwrap() == 0 <==> len == concat_all(keys, key_wire_fn()).len(),
    decreases keys.len(),
{
    let whole = concat_all(keys, key_wire_fn());
    let read = whole.subrange(0, len);
    if keys.len() > 0 {
        let first = key_wire(keys[0]);
        let others = keys.drop_first();
        let tail = concat_all(others, key_wire_fn());
        assert(whole =~= first + tail);
        assert forall|i: int| 0 <= i < others.len() implies (#[trigger] others[i] matches Some(
            key,
        ) ==> key.len() == size) by {
            assert(others[i] == keys[i + 1]);
        }
        if len >= first.len() {
            assert(read.skip(first.len() as int) =~= tail.subrange(0, len - first.len()));
            assert(read[0] == first[0]);
            lemma_keys_next_read(others, size, len - first.len());
        } else if len > 0 {
            assert(read[0] == first[0]);
        }
    } else {
        assert(whole =~= Seq::<u8>::empty());
    }
}

/// Reading what is asked for, over and over, reads one authorization and no
/// more: of any part that was read so far of the bytes of an authorization of
/// the protocol's form, the next read stays within those bytes, and it is
/// empty exactly when all of them were read.
pub proof fn lemma_next_read(a: AuthorizationView, params: Parameters, len: int)
    requires
        well_formed(a, params),
        0 <= len <= authorization_wire(a).len(),
    ensures
        next_read(authorization_wire(a).subrange(0, len), params) is Some,
        len + next_read(authorization_wire(a).subrange(0, len), params).unwrap()
            <= authorization_wire(a).len(),
        next_read(authorization_wire(a).subrange(0, len), params).unwrap() == 0 <==> len
            == authorization_wire(a).len(),
{
    let whole = authorization_wire(a);
    let keys = concat_all(a.noop_compute_keys, key_wire_fn());
    let fixed = fixed_size(params);
    lemma_fixed_size(a, params);
    if len >= fixed {
        assert(whole.subrange(0, len).skip(fixed as int) =~= keys.subrange(0, len - fixed));
        lemma_keys_next_read(a.noop_compute_keys, params.compute_key_size as nat, len - fixed);
    } else {
        lemma_keys_next_read(a.noop_compute_keys, params.compute_key_size as nat, 0);
    }
}

/// The number of bytes of an authorization before its optional keys, where
/// it fits in the machine's range.
pub fn fixed_wire_size(params: &Parameters) -> (r: Option<usize>)
    ensures
        r is Some <==> fixed_size(*params) <= usize::MAX,
        r matches Some(size) ==> size == fixed_size(*params),
{
    let ghost n_in = params.num_input_records as int;
    let ghost n_out = params.num_output_records as int;
    let ghost each = record_size(*params) as int;
    let ghost signature = params.signature_size as int;
    let records: usize = if params.num_input_records == 0 && params.num_output_records == 0 {
        proof {
            assert((n_in + n_out) * each == 0) by (nonlinear_arith)
                requires
                    n_in + n_out == 0,
            ;
        }
        0
    } else {
        proof {
            assert((n_in + n_out) * each >= n_in + n_out && (n_in + n_out) * each >= each)
                by (nonlinear_arith)
                requires
                    n_in + n_out >= 1,
                    each >= 1,
            ;
        }
        let count: usize = match params.num_input_records.checked_add(
            params.num_output_records,
        ) {
            Some(count) => count,
            None => {
                return None;
            },
        };
        let each: usize = match (REPR_BYTES + 1).checked_add(params.record_payload_size) {
            Some(each) => each,
            None => {
                return None;
            },
        };
        match count.checked_mul(each) {
            Some(records) => records,
            None => {
                return None;
            },
        }
    };
    proof {
        assert(n_in * signature >= 0) by (nonlinear_arith)
            requires
                n_in >= 0,
                signature >= 0,
        ;
    }
    let signatures: usize = match params.num_input_records.checked_mul(params.signature_size) {
        Some(signatures) => signatures,
        None => {
            return None;
        },
    };
    match params.kernel_size.checked_add(records) {
        Some(front) => front.checked_add(signatures),
        None => None,
    }
}

/// How many bytes to read next, where `bytes` is what was read so far of an
/// authorization; nothing when it is complete. Fails after a discriminant
/// other than 0 and 1, and where the protocol's sizes leave the machine's
/// range.
pub fn bytes_wanted(params: &Parameters, bytes: &[u8]) -> (r: Result<usize, Error>)
    ensures
        match r {
            Ok(wanted) => next_read(bytes@, *params) == Some(wanted as nat),
            Err(e) => e == Error::Io && (next_read(bytes@, *params) is None || fixed_size(*params)
                > usize::MAX),
        },
{
    let fixed: usize = match fixed_wire_size(params) {
        Some(fixed) => fixed,
        None => {
            return Err(Error::Io);
        },
    };
    let len: usize = bytes.len();
    if len < fixed {
        return Ok(fixed - len);
    }
    let count: usize = params.num_input_records;
    let size: usize = params.compute_key_size;
    let mut pos: usize = fixed;
    let mut i: usize = 0;
    while i < count
        invariant
            i <= count,
            fixed <= pos <= len,
            len == bytes@.len(),
            fixed == fixed_size(*params),
            count == params.num_input_records,
            size == params.compute_key_size,
            keys_next_read(bytes@.skip(fixed as int), count as nat, size as nat) == keys_next_read(
                bytes@.skip(pos as int),
                (count - i) as nat,
                size as nat,
            ),
        decreases count - i,
    {
        if pos == len {
            return Ok(1);
        }
        let tag: u8 = bytes[pos];
        proof {
            assert(bytes@.skip(pos as int)[0] == tag);
        }
        if tag == 0 {
            proof {
                assert(bytes@.skip(pos as int).skip(1) =~= bytes@.skip(pos + 1));
            }
            pos = pos + 1;
        } else if tag == 1 {
            let available: usize = len - pos - 1;
            if available < size {
                return Ok(size - available);
            }
            proof {
                assert(bytes@.skip(pos as int).skip(1 + size as int) =~= bytes@.skip(
                    pos + 1 + size,
                ));
            }
            pos = pos + 1 + size;
        } else {
            return Err(Error::Io);
        }
        i = i + 1;
    }
    Ok(0)
}

/// Appends bytes to a buffer.
pub fn append_bytes(out: &mut Vec<u8>, bytes: &[u8])
    ensures
        final(out)@ == old(out)@ + bytes@,
{
    let ghost base = out@;
    let mut i: usize = 0;
    while i < bytes.len()
        invariant
            i <= bytes@.len(),
            out@ == base + bytes@.subrange(0, i as int),
        decreases bytes@.len() - i,
    {
        out.push(bytes[i]);
        i = i + 1;
        proof {
            assert(out@ =~= base + bytes@.subrange(0, i as int));
        }
    }
    proof {
        assert(bytes@.subrange(0, i as int) =~= bytes@);
    }
}

/// Appends the bytes of a record to a buffer.
pub fn write_record(out: &mut Vec<u8>, record: &Record)
    ensures
        final(out)@ == old(out)@ + record_wire(record@),
{
    let ghost base = out@;
    let value_bytes: Vec<u8> = record.program_id.to_bytes_le();
    append_bytes(out, value_bytes.as_slice());
    out.push(record.program_id.length());
    append_bytes(out, record.payload.as_slice());
    proof {
        assert(out@ =~= base + record_wire(record@));
    }
}

/// Appends the bytes of an optional compute key to a buffer.
pub fn write_key(out: &mut Vec<u8>, key: &Option<ComputeKey>)
    ensures
        final(out)@ == old(out)@ + key_wire(key_view(*key)),
{
    let ghost base = out@;
    match key {
        Some(bytes) => {
            out.push(1u8);
            append_bytes(out, bytes.as_slice());
        },
        None => {
            out.push(0u8);
        },
    }
    proof {
        assert(out@ =~= base + key_wire(key_view(*key)));
    }
}

/// Appends the bytes of records to a buffer, in their order.
pub fn write_records(out: &mut Vec<u8>, records: &Vec<Record>)
    ensures
        final(out)@ == old(out)@ + concat_all(records_view(records@), record_wire_fn()),
{
    let ghost base = out@;
    let ghost items = records_view(records@);
    let mut i: usize = 0;
    proof {
        assert(base + concat_all(items.take(0), record_wire_fn()) =~= base);
    }
    while i < records.len()
        invariant
            i <= records@.len(),
            items == records_view(records@),
            out@ == base + concat_all(items.take(i as int), record_wire_fn()),
        decreases records@.len() - i,
    {
        let ghost before = out@;
        write_record(out, &records[i]);
        proof {
            assert(items.take(i + 1) =~= items.take(i as int).push(items[i as int]));
            lemma_concat_all_push(items.take(i as int), items[i as int], record_wire_fn());
            assert(out@ =~= base + concat_all(items.take(i + 1), record_wire_fn()));
        }
        i = i + 1;
    }
    proof {
        assert(items.take(i as int) =~= items);
    }
}

/// Appends byte strings to a buffer, in their order.
pub fn write_blobs(out: &mut Vec<u8>, blobs: &Vec<Vec<u8>>)
    ensures
        final(out)@ == old(out)@ + concat_all(blobs_view(blobs@), blob_wire_fn()),
{
    let ghost base = out@;
    let ghost items = blobs_view(blobs@);
    let mut i: usize = 0;
    proof {
        assert(base + concat_all(items.take(0), blob_wire_fn()) =~= base);
    }
    while i < blobs.len()
        invariant
            i <= blobs@.len(),
            items == blobs_view(blobs@),
            out@ == base + concat_all(items.take(i as int), blob_wire_fn()),
        decreases blobs@.len() - i,
    {
        append_bytes(out, blobs[i].as_slice());
        proof {
            assert(items.take(i + 1) =~= items.take(i as int).push(items[i as int]));
            lemma_concat_all_push(items.take(i as int), items[i as int], blob_wire_fn());
            assert(out@ =~= base + concat_all(items.take(i + 1), blob_wire_fn()));
        }
        i = i + 1;
    }
    proof {
        assert(items.take(i as int) =~= items);
    }
}

/// Appends the bytes of optional compute keys to a buffer, in their order.
pub fn write_keys(out: &mut Vec<u8>, keys: &Vec<Option<ComputeKey>>)
    ensures
        final(out)@ == old(out)@ + concat_all(keys_view(keys@), key_wire_fn()),
{
    let ghost base = out@;
    let ghost items = keys_view(keys@);
    let mut i: usize = 0;
    proof {
        assert(base + concat_all(items.take(0), key_wire_fn()) =~= base);
    }
    while i < keys.len()
        invariant
            i <= keys@.len(),
            items == keys_view(keys@),
            out@ == base + concat_all(items.take(i as int), key_wire_fn()),
        decreases keys@.len() - i,
    {
        write_key(out, &keys[i]);
        proof {
            assert(items.take(i + 1) =~= items.take(i as int).push(items[i as int]));
            lemma_concat_all_push(items.take(i as int), items[i as int], key_wire_fn());
            assert(out@ =~= base + concat_all(items.take(i + 1), key_wire_fn()));
        }
        i = i + 1;
    }
    proof {
        assert(items.take(i as int) =~= items);
    }
}

/// Reads `size` bytes at a position. The result holds the bytes and the
/// position after them.
pub(crate) fn read_blob(bytes: &[u8], pos: usize, size: usize) -> (r: Option<(Vec<u8>, usize)>)
    requires
        pos <= bytes@.len(),
    ensures
        match r {
            Some((blob, next)) => next == pos + size && next <= bytes@.len() && parse_blob(
                bytes@.skip(pos as int),
                size as nat,
            ) == Some((blob@, size as nat)),
            None => parse_blob(bytes@.skip(pos as int), size as nat) is None,
        },
{
    if bytes.len() - pos < size {
        return None;
    }
    let blob: Vec<u8> = slice_to_vec(slice_subrange(bytes, pos, pos + size));
    proof {
        assert(bytes@.skip(pos as int).subrange(0, size as int) =~= blob@);
    }
    Some((blob, pos + size))
}

/// Reads a record at a position. The result holds the record and the
/// position after it.
pub(crate) fn read_record(bytes: &[u8], pos: usize, payload_size: usize) -> (r: Option<(Record, usize)>)
    requires
        pos <= bytes@.len(),
    ensures
        match r {
            Some((record, next)) => next == pos + REPR_BYTES + 1 + payload_size && next
                <= bytes@.len() && parse_record(bytes@.skip(pos as int), payload_size as nat)
                == Some((record@, (REPR_BYTES + 1 + payload_size) as nat)),
            None => parse_record(bytes@.skip(pos as int), payload_size as nat) is None,
        },
{
    let available: usize = bytes.len() - pos;
    if available < REPR_BYTES + 1 || available - (REPR_BYTES + 1) < payload_size {
        return None;
    }
    let ghost rest = bytes@.skip(pos as int);
    let value_bytes: &[u8] = slice_subrange(bytes, pos, pos + REPR_BYTES);
    proof {
        assert(rest.subrange(0, REPR_BYTES as int) =~= value_bytes@);
    }
    match FieldValue::from_bytes_le(value_bytes) {
        None => None,
        Some(value) => {
            let length: u8 = bytes[pos + REPR_BYTES];
            let start: usize = pos + REPR_BYTES + 1;
            let payload: Vec<u8> = slice_to_vec(slice_subrange(bytes, start, start + payload_size));
            proof {
                assert(rest[REPR_BYTES as int] == length);
                assert(rest.subrange(REPR_BYTES + 1, REPR_BYTES + 1 + payload_size as int)
                    =~= payload@);
            }
            Some((Record::new(Identifier::from_parts(value, length), payload), start + payload_size))
        },
    }
}

/// Reads an optional compute key at a position. The result holds the key,
/// if there is one, and the position after it.
pub(crate) fn read_key(bytes: &[u8], pos: usize, size: usize) -> (r: Option<(Option<ComputeKey>, usize)>)
    requires
        pos <= bytes@.len(),
    ensures
        match r {
            Some((key, next)) => pos <= next <= bytes@.len() && parse_key(
                bytes@.skip(pos as int),
                size as nat,
            ) == Some((key_view(key), (next - pos) as nat)),
            None => parse_key(bytes@.skip(pos as int), size as nat) is None,
        },
{
    let available: usize = bytes.len() - pos;
    if available < 1 {
        return None;
    }
    let ghost rest = bytes@.skip(pos as int);
    let tag: u8 = bytes[pos];
    proof {
        assert(rest[0] == tag);
    }
    if tag == 0 {
        Some((None, pos + 1))
    } else if tag == 1 && available - 1 >= size {
        let key: Vec<u8> = slice_to_vec(slice_subrange(bytes, pos + 1, pos + 1 + size));
        proof {
            assert(rest.subrange(1, 1 + size as int) =~= key@);
        }
        Some((Some(key), pos + 1 + size))
    } else {
        None
    }
}

/// Reads `count` records from a position on. The result holds the records
/// and the position after them.
pub(crate) fn read_records(bytes: &[u8], pos: usize, count: usize, payload_size: usize) -> (r: Option<
    (Vec<Record>, usize),
>)
    requires
        pos <= bytes@.len(),
    ensures
        match r {
            Some((records, next)) => pos <= next <= bytes@.len() && parse_many(
                bytes@.skip(pos as int),
                count as nat,
                parse_record_fn(payload_size as nat),
            ) == Some((records_view(records@), (next - pos) as nat)),
            None => parse_many(
                bytes@.skip(pos as int),
                count as nat,
                parse_record_fn(payload_size as nat),
            ) is None,
        },
{
    let ghost item = parse_record_fn(payload_size as nat);
    let ghost whole = parse_many(bytes@.skip(pos as int), count as nat, item);
    let mut records: Vec<Record> = Vec::new();
    let mut cur: usize = pos;
    let mut i: usize = 0;
    proof {
        let more = parse_many(bytes@.skip(pos as int), count as nat, item);
        if let Some((rest, further)) = more {
            assert(records_view(records@) + rest =~= rest);
        }
    }
    while i < count
        invariant
            i <= count,
            pos <= cur <= bytes@.len(),
            item == parse_record_fn(payload_size as nat),
            whole == parse_many(bytes@.skip(pos as int), count as nat, item),
            whole == extend(
                records_view(records@),
                (cur - pos) as nat,
                parse_many(bytes@.skip(cur as int), (count - i) as nat, item),
            ),
        decreases count - i,
    {
        match read_record(bytes, cur, payload_size) {
            None => {
                return None;
            },
            Some((record, next)) => {
                proof {
                    let used = (next - cur) as nat;
                    assert(bytes@.skip(cur as int).skip(used as int) =~= bytes@.skip(next as int));
                    lemma_extend_step(
                        records_view(records@),
                        (cur - pos) as nat,
                        record@,
                        used,
                        parse_many(bytes@.skip(next as int), (count - i - 1) as nat, item),
                    );
                    assert(records_view(records@.push(record)) =~= records_view(records@).push(
                        record@,
                    ));
                }
                records.push(record);
                cur = next;
                i = i + 1;
            },
        }
    }
    proof {
        assert(records_view(records@) + Seq::<RecordView>::empty() =~= records_view(records@));
    }
    Some((records, cur))
}

/// Reads `count` byte strings of `size` bytes from a position on. The result
/// holds them and the position after them.
pub(crate) fn read_blobs(bytes: &[u8], pos: usize, count: usize, size: usize) -> (r: Option<
    (Vec<Vec<u8>>, usize),
>)
    requires
        pos <= bytes@.len(),
    ensures
        match r {
            Some((blobs, next)) => pos <= next <= bytes@.len() && parse_many(
                bytes@.skip(pos as int),
                count as nat,
                parse_blob_fn(size as nat),
            ) == Some((blobs_view(blobs@), (next - pos) as nat)),
            None => parse_many(bytes@.skip(pos as int), count as nat, parse_blob_fn(size as nat))
                is None,
        },
{
    let ghost item = parse_blob_fn(size as nat);
    let ghost whole = parse_many(bytes@.skip(pos as int), count as nat, item);
    let mut blobs: Vec<Vec<u8>> = Vec::new();
    let mut cur: usize = pos;
    let mut i: usize = 0;
    proof {
        let more = parse_many(bytes@.skip(pos as int), count as nat, item);
        if let Some((rest, further)) = more {
            assert(blobs_view(blobs@) + rest =~= rest);
        }
    }
    while i < count
        invariant
            i <= count,
            pos <= cur <= bytes@.len(),
            item == parse_blob_fn(size as nat),
            whole == parse_many(bytes@.skip(pos as int), count as nat, item),
            whole == extend(
                blobs_view(blobs@),
                (cur - pos) as nat,
                parse_many(bytes@.skip(cur as int), (count - i) as nat, item),
            ),
        decreases count - i,
    {
        match read_blob(bytes, cur, size) {
            None => {
                return None;
            },
            Some((blob, next)) => {
                proof {
                    let used = (next - cur) as nat;
                    assert(bytes@.skip(cur as int).skip(used as int) =~= bytes@.skip(next as int));
                    lemma_extend_step(
                        blobs_view(blobs@),
                        (cur - pos) as nat,
                        blob@,
                        used,
                        parse_many(bytes@.skip(next as int), (count - i - 1) as nat, item),
                    );
                    assert(blobs_view(blobs@.push(blob)) =~= blobs_view(blobs@).push(blob@));
                }
                blobs.push(blob);
                cur = next;
                i = i + 1;
            },
        }
    }
    proof {
        assert(blobs_view(blobs@) + Seq::<Seq<u8>>::empty() =~= blobs_view(blobs@));
    }
    Some((blobs, cur))
}

/// Reads `count` optional compute keys from a position on. The result holds
/// them and the position after them.
pub(crate) fn read_keys(bytes: &[u8], pos: usize, count: usize, size: usize) -> (r: Option<
    (Vec<Option<ComputeKey>>, usize),
>)
    requires
        pos <= bytes@.len(),
    ensures
        match r {
            Some((keys, next)) => pos <= next <= bytes@.len() && parse_many(
                bytes@.skip(pos as int),
                count as nat,
                parse_key_fn(size as nat),
            ) == Some((keys_view(keys@), (next - pos) as nat)),
            None => parse_many(bytes@.skip(pos as int), count as nat, parse_key_fn(size as nat))
                is None,
        },
{
    let ghost item = parse_key_fn(size as nat);
    let ghost whole = parse_many(bytes@.skip(pos as int), count as nat, item);
    let mut keys: Vec<Option<ComputeKey>> = Vec::new();
    let mut cur: usize = pos;
    let mut i: usize = 0;
    proof {
        let more = parse_many(bytes@.skip(pos as int), count as nat, item);
        if let Some((rest, further)) = more {
            assert(keys_view(keys@) + rest =~= rest);
        }
    }
    while i < count
        invariant
            i <= count,
            pos <= cur <= bytes@.len(),
            item == parse_key_fn(size as nat),
            whole == parse_many(bytes@.skip(pos as int), count as nat, item),
            whole == extend(
                keys_view(keys@),
                (cur - pos) as nat,
                parse_many(bytes@.skip(cur as int), (count - i) as nat, item),
            ),
        decreases count - i,
    {
        match read_key(bytes, cur, size) {
            None => {
                return None;
            },
            Some((key, next)) => {
                proof {
                    let used = (next - cur) as nat;
                    assert(bytes@.skip(cur as int).skip(used as int) =~= bytes@.skip(next as int));
                    lemma_extend_step(
                        keys_view(keys@),
                        (cur - pos) as nat,
                        key_view(key),
                        used,
                        parse_many(bytes@.skip(next as int), (count - i - 1) as nat, item),
                    );
                    assert(keys_view(keys@.push(key)) =~= keys_view(keys@).push(key_view(key)));
                }
                keys.push(key);
                cur = next;
                i = i + 1;
            },
        }
    }
    proof {
        assert(keys_view(keys@) + Seq::<Option<Seq<u8>>>::empty() =~= keys_view(keys@));
    }
    Some((keys, cur))
}

} // verus!

//! The artifact ingestion pipeline and the handler decisions of the
//! proving service.
//!
//! A multipart request arrives field by field.  A prove request carries
//! the compressed `trace` and `memory` artifacts plus free-form text
//! fields; a verify request carries the compressed `proof`.  Binary
//! fields run through the archive decompressor; a missing required field,
//! a malformed archive or an unreadable text field is a typed error the
//! dispatcher turns into a client-visible failure, never an abort.

use vstd::prelude::*;
use crate::archive::{
    archive_entries, concat_entries, decompress_ok, decompress_zip_data, zip_opens,
    DecompressError,
};
use vstd::slice::slice_to_vec;
use vstd::string::StringSliceAdditionalSpecFns;

verus! {

/// One multipart form field, as the transport hands it over.
#[derive(Debug)]
pub enum FieldData {
    Bytes(Vec<u8>),
    Text(String),
}

#[derive(Debug)]
pub struct FormField {
    pub name: String,
    pub data: FieldData,
}

/// The decompressed artifacts and auxiliary text fields of one prove
/// request; lives for the duration of that request only.
#[derive(Debug)]
pub struct UploadPayload {
    pub trace: Vec<u8>,
    pub memory: Vec<u8>,
    pub texts: Vec<(String, String)>,
}

/// Ingestion failure, surfaced as a client error by the dispatcher.
#[derive(Debug)]
pub enum IngestError {
    MissingTrace,
    MissingMemory,
    MissingProof,
    Decompress(DecompressError),
    BadText,
}

pub open spec fn trace_name() -> Seq<u8> {
    seq![116u8, 114u8, 97u8, 99u8, 101u8]
}

pub open spec fn memory_name() -> Seq<u8> {
    seq![109u8, 101u8, 109u8, 111u8, 114u8, 121u8]
}

pub open spec fn proof_name() -> Seq<u8> {
    seq![112u8, 114u8, 111u8, 111u8, 102u8]
}

pub open spec fn output_name() -> Seq<u8> {
    seq![111u8, 117u8, 116u8, 112u8, 117u8, 116u8]
}

/// The UTF-8 bytes of a string value.
pub open spec fn str_bytes(s: Seq<char>) -> Seq<u8> {
    vstd::utf8::encode_utf8(s)
}

pub open spec fn field_name_bytes(f: FormField) -> Seq<u8> {
    str_bytes(f.name@)
}

/// The raw payload bytes of a field: a text field's payload is its UTF-8
/// encoding.
pub open spec fn field_data_bytes(d: FieldData) -> Seq<u8> {
    match d {
        FieldData::Bytes(b) => b@,
        FieldData::Text(t) => str_bytes(t@),
    }
}

/// The payload bytes of the last field named `n`, if any: a repeated
/// field overwrites an earlier one.
pub open spec fn last_binary_data(fields: Seq<FormField>, n: Seq<u8>) -> Option<Seq<u8>>
    decreases fields.len(),
{
    if fields.len() == 0 {
        None
    } else if field_name_bytes(fields.last()) == n {
        Some(field_data_bytes(fields.last().data))
    } else {
        last_binary_data(fields.drop_last(), n)
    }
}

/// The auxiliary text fields of a prove request, in arrival order: every
/// field not named `trace` or `memory`, as (name bytes, text) pairs.
pub open spec fn texts_of(fields: Seq<FormField>) -> Seq<(Seq<u8>, Seq<char>)>
    decreases fields.len(),
{
    if fields.len() == 0 {
        Seq::empty()
    } else {
        let f = fields.last();
        let rest = texts_of(fields.drop_last());
        if field_name_bytes(f) == trace_name() || field_name_bytes(f) == memory_name() {
            rest
        } else {
            rest + seq![
                (
                    field_name_bytes(f),
                    match f.data {
                        FieldData::Text(t) => t@,
                        FieldData::Bytes(b) => Seq::empty(),
                    },
                ),
            ]
        }
    }
}

/// The prove route reads these field names as binary artifacts.
pub open spec fn is_prove_binary(f: FormField) -> bool {
    field_name_bytes(f) == trace_name() || field_name_bytes(f) == memory_name()
}

/// The verify route reads this field name as a binary artifact.
pub open spec fn is_verify_binary(f: FormField) -> bool {
    field_name_bytes(f) == proof_name()
}

/// The error of the one field a scan fails on: a binary artifact that
/// does not decompress.
pub open spec fn field_decompress_error(f: FormField) -> IngestError {
    IngestError::Decompress(
        if !zip_opens(field_data_bytes(f.data)) {
            DecompressError::BadArchive
        } else {
            DecompressError::BadEntry
        },
    )
}

/// The first field the prove scan fails on, in arrival order, if any: a
/// binary artifact that does not decompress, or an auxiliary field that
/// did not arrive as text.
pub open spec fn first_prove_field_error(fields: Seq<FormField>) -> Option<IngestError>
    decreases fields.len(),
{
    if fields.len() == 0 {
        None
    } else {
        let f = fields[0];
        if is_prove_binary(f) {
            if !decompress_ok(field_data_bytes(f.data)) {
                Some(field_decompress_error(f))
            } else {
                first_prove_field_error(fields.skip(1))
            }
        } else {
            if f.data is Bytes {
                Some(IngestError::BadText)
            } else {
                first_prove_field_error(fields.skip(1))
            }
        }
    }
}

/// The outcome of prove ingestion: the first field error, else a missing
/// required artifact, else success.
pub open spec fn spec_prove_error(fields: Seq<FormField>) -> Option<IngestError> {
    match first_prove_field_error(fields) {
        Some(e) => Some(e),
        None => if last_binary_data(fields, trace_name()) is None {
            Some(IngestError::MissingTrace)
        } else if last_binary_data(fields, memory_name()) is None {
            Some(IngestError::MissingMemory)
        } else {
            None
        },
    }
}

/// The first field the verify scan fails on, in arrival order, if any.
pub open spec fn first_verify_field_error(fields: Seq<FormField>) -> Option<IngestError>
    decreases fields.len(),
{
    if fields.len() == 0 {
        None
    } else {
        let f = fields[0];
        if is_verify_binary(f) {
            if !decompress_ok(field_data_bytes(f.data)) {
                Some(field_decompress_error(f))
            } else {
                first_verify_field_error(fields.skip(1))
            }
        } else {
            if f.data is Bytes {
                Some(IngestError::BadText)
            } else {
                first_verify_field_error(fields.skip(1))
            }
        }
    }
}

/// The outcome of verify ingestion.
pub open spec fn spec_verify_error(fields: Seq<FormField>) -> Option<IngestError> {
    match first_verify_field_error(fields) {
        Some(e) => Some(e),
        None => if last_binary_data(fields, proof_name()) is None {
            Some(IngestError::MissingProof)
        } else {
            None
        },
    }
}

/// The model of the stored text pairs.
pub open spec fn texts_model(ts: Seq<(String, String)>) -> Seq<(Seq<u8>, Seq<char>)> {
    ts.map(|i: int, p: (String, String)| (str_bytes(p.0@), p.1@))
}

/// The value of the last stored text field named `n`, if any.
pub open spec fn spec_lookup(ts: Seq<(Seq<u8>, Seq<char>)>, n: Seq<u8>) -> Option<Seq<char>>
    decreases ts.len(),
{
    if ts.len() == 0 {
        None
    } else if ts.last().0 == n {
        Some(ts.last().1)
    } else {
        spec_lookup(ts.drop_last(), n)
    }
}

fn bytes_eq(a: &[u8], b: &[u8]) -> (r: bool)
    ensures
        r == (a@ == b@),
{
    if a.len() != b.len() {
        proof {
            assert(a@ != b@);
        }
        return false;
    }
    let n = a.len();
    let mut i: usize = 0;
    while i < n
        invariant
            0 <= i <= n,
            n == a@.len() && n == b@.len(),
            forall|k: int| 0 <= k < i ==> a@[k] == b@[k],
        decreases n - i,
    {
        if a[i] != b[i] {
            return false;
        }
        i = i + 1;
    }
    proof {
        assert(a@ =~= b@);
    }
    true
}

/// The field names the prove route reads as binary artifacts.
pub fn prove_field_is_binary(name: &str) -> (r: bool)
    ensures
        r == (name.spec_bytes() == trace_name() || name.spec_bytes() == memory_name()),
{
    let b = name.as_bytes();
    let tr = bytes_eq(b, &[116u8, 114u8, 97u8, 99u8, 101u8]);
    let me = bytes_eq(b, &[109u8, 101u8, 109u8, 111u8, 114u8, 121u8]);
    proof {
        assert(seq![116u8, 114u8, 97u8, 99u8, 101u8] =~= trace_name());
        assert(seq![109u8, 101u8, 109u8, 111u8, 114u8, 121u8] =~= memory_name());
    }
    tr || me
}

/// The field name the verify route reads as a binary artifact.
pub fn verify_field_is_binary(name: &str) -> (r: bool)
    ensures
        r == (name.spec_bytes() == proof_name()),
{
    let b = name.as_bytes();
    let r = bytes_eq(b, &[112u8, 114u8, 111u8, 111u8, 102u8]);
    proof {
        assert(seq![112u8, 114u8, 111u8, 111u8, 102u8] =~= proof_name());
    }
    r
}

/// Prove ingestion: decompresses the `trace` and `memory` artifacts and
/// collects the remaining fields as text.  Fails if either artifact is
/// absent, if an artifact does not decompress, or if an auxiliary field
/// did not arrive as text.
pub fn ingest_prove(fields: Vec<FormField>) -> (r: Result<UploadPayload, IngestError>)
    ensures
        (match spec_prove_error(fields@) {
            None => r is Ok,
            Some(e) => r matches Err(e2) && e2 == e,
        }),
        r matches Ok(p) ==> {
            &&& last_binary_data(fields@, trace_name()) matches Some(d) && p.trace@
                == concat_entries(archive_entries(d))
            &&& last_binary_data(fields@, memory_name()) matches Some(d) && p.memory@
                == concat_entries(archive_entries(d))
            &&& texts_model(p.texts@) == texts_of(fields@)
        },
{
    let mut trace_slot: Option<Vec<u8>> = None;
    let mut memory_slot: Option<Vec<u8>> = None;
    let mut texts: Vec<(String, String)> = Vec::new();
    let mut i: usize = 0;
    let n = fields.len();
    proof {
        assert(fields@.take(0) =~= Seq::<FormField>::empty());
        assert(texts_model(texts@) =~= texts_of(fields@.take(0)));
        assert(fields@.skip(0) =~= fields@);
    }
    while i < n
        invariant
            0 <= i <= n,
            n == fields@.len(),
            first_prove_field_error(fields@) == first_prove_field_error(
                fields@.skip(i as int),
            ),
            (match last_binary_data(fields@.take(i as int), trace_name()) {
                Some(d) => trace_slot matches Some(v) && v@ == concat_entries(archive_entries(d)),
                None => trace_slot is None,
            }),
            (match last_binary_data(fields@.take(i as int), memory_name()) {
                Some(d) => memory_slot matches Some(v) && v@ == concat_entries(archive_entries(d)),
                None => memory_slot is None,
            }),
            texts_model(texts@) == texts_of(fields@.take(i as int)),
        decreases n - i,
    {
        let f = &fields[i];
        proof {
            assert(fields@.take(i + 1).last() == fields@[i as int]);
            assert(fields@.take(i + 1).drop_last() =~= fields@.take(i as int));
            assert(fields@.skip(i as int)[0] == fields@[i as int]);
            assert(fields@.skip(i as int).skip(1) =~= fields@.skip(i + 1));
        }
        let tname = vec![116u8, 114u8, 97u8, 99u8, 101u8];
        let mname = vec![109u8, 101u8, 109u8, 111u8, 114u8, 121u8];
        proof {
            assert(tname@ =~= trace_name());
            assert(mname@ =~= memory_name());
        }
        let is_trace = bytes_eq(f.name.as_str().as_bytes(), tname.as_slice());
        let is_memory = bytes_eq(f.name.as_str().as_bytes(), mname.as_slice());
        if is_trace || is_memory {
            let data = match &f.data {
                FieldData::Bytes(b) => slice_to_vec(b.as_slice()),
                FieldData::Text(t) => slice_to_vec(t.as_str().as_bytes()),
            };
            proof {
                assert(data@ == field_data_bytes(fields@[i as int].data));
            }
            let dec = match decompress_zip_data(data) {
                Ok(v) => v,
                Err(e) => {
                    proof {
                        assert(is_prove_binary(fields@[i as int]));
                        assert(!decompress_ok(field_data_bytes(fields@[i as int].data)));
                        assert(first_prove_field_error(fields@.skip(i as int))
                            == Some(field_decompress_error(fields@[i as int])));
                        assert(IngestError::Decompress(e) == field_decompress_error(
                            fields@[i as int],
                        ));
                    }
                    return Err(IngestError::Decompress(e));
                },
            };
            if is_trace {
                trace_slot = Some(dec);
            } else {
                memory_slot = Some(dec);
            }
        } else {
            match &f.data {
                FieldData::Text(t) => {
                    let name = f.name.as_str().to_owned();
                    let value = t.as_str().to_owned();
                    proof {
                        assert(texts_model(texts@.push((name, value))) =~= texts_model(
                            texts@,
                        ).push((field_name_bytes(fields@[i as int]), value@)));
                    }
                    texts.push((name, value));
                },
                FieldData::Bytes(_) => {
                    proof {
                        assert(!is_prove_binary(fields@[i as int]));
                        assert(first_prove_field_error(fields@.skip(i as int)) == Some(
                            IngestError::BadText,
                        ));
                    }
                    return Err(IngestError::BadText);
                },
            }
        }
        i = i + 1;
    }
    proof {
        assert(fields@.take(n as int) =~= fields@);
        assert(fields@.skip(n as int) =~= Seq::<FormField>::empty());
        assert(first_prove_field_error(Seq::<FormField>::empty()) is None);
    }
    let trace = match trace_slot {
        Some(v) => v,
        None => {
            return Err(IngestError::MissingTrace);
        },
    };
    let memory = match memory_slot {
        Some(v) => v,
        None => {
            return Err(IngestError::MissingMemory);
        },
    };
    Ok(UploadPayload { trace, memory, texts })
}

/// Verify ingestion: decompresses the `proof` artifact; other fields must
/// arrive as text and are discarded.  Fails if the artifact is absent or
/// does not decompress.
pub fn ingest_verify(fields: Vec<FormField>) -> (r: Result<Vec<u8>, IngestError>)
    ensures
        (match spec_verify_error(fields@) {
            None => r is Ok,
            Some(e) => r matches Err(e2) && e2 == e,
        }),
        r matches Ok(v) ==> (last_binary_data(fields@, proof_name()) matches Some(d) && v@
            == concat_entries(archive_entries(d))),
{
    let mut proof_slot: Option<Vec<u8>> = None;
    let mut i: usize = 0;
    let n = fields.len();
    proof {
        assert(fields@.take(0) =~= Seq::<FormField>::empty());
        assert(fields@.skip(0) =~= fields@);
    }
    while i < n
        invariant
            0 <= i <= n,
            n == fields@.len(),
            first_verify_field_error(fields@) == first_verify_field_error(
                fields@.skip(i as int),
            ),
            (match last_binary_data(fields@.take(i as int), proof_name()) {
                Some(d) => proof_slot matches Some(v) && v@ == concat_entries(archive_entries(d)),
                None => proof_slot is None,
            }),
        decreases n - i,
    {
        let f = &fields[i];
        proof {
            assert(fields@.take(i + 1).last() == fields@[i as int]);
            assert(fields@.take(i + 1).drop_last() =~= fields@.take(i as int));
            assert(fields@.skip(i as int)[0] == fields@[i as int]);
            assert(fields@.skip(i as int).skip(1) =~= fields@.skip(i + 1));
        }
        if verify_field_is_binary(f.name.as_str()) {
            let data = match &f.data {
                FieldData::Bytes(b) => slice_to_vec(b.as_slice()),
                FieldData::Text(t) => slice_to_vec(t.as_str().as_bytes()),
            };
            proof {
                assert(data@ == field_data_bytes(fields@[i as int].data));
            }
            let dec = match decompress_zip_data(data) {
                Ok(v) => v,
                Err(e) => {
                    proof {
                        assert(is_verify_binary(fields@[i as int]));
                        assert(!decompress_ok(field_data_bytes(fields@[i as int].data)));
                        assert(first_verify_field_error(fields@.skip(i as int))
                            == Some(field_decompress_error(fields@[i as int])));
                        assert(IngestError::Decompress(e) == field_decompress_error(
                            fields@[i as int],
                        ));
                    }
                    return Err(IngestError::Decompress(e));
                },
            };
            proof_slot = Some(dec);
        } else {
            match &f.data {
                FieldData::Text(_) => {},
                FieldData::Bytes(_) => {
                    proof {
                        assert(!is_verify_binary(fields@[i as int]));
                        assert(first_verify_field_error(fields@.skip(i as int)) == Some(
                            IngestError::BadText,
                        ));
                    }
                    return Err(IngestError::BadText);
                },
            }
        }
        i = i + 1;
    }
    proof {
        assert(fields@.take(n as int) =~= fields@);
        assert(fields@.skip(n as int) =~= Seq::<FormField>::empty());
        assert(first_verify_field_error(Seq::<FormField>::empty()) is None);
    }
    match proof_slot {
        Some(v) => Ok(v),
        None => Err(IngestError::MissingProof),
    }
}

/// Returns the value of the last text field with the given name, if any.
pub fn lookup_text(texts: &Vec<(String, String)>, name: &[u8]) -> (r: Option<String>)
    ensures
        (match spec_lookup(texts_model(texts@), name@) {
            Some(v) => r matches Some(s) && s@ == v,
            None => r is None,
        }),
{
    let n = texts.len();
    let mut i: usize = n;
    proof {
        assert(texts_model(texts@).take(n as int) =~= texts_model(texts@));
    }
    while i > 0
        invariant
            0 <= i <= n,
            n == texts@.len(),
            spec_lookup(texts_model(texts@), name@) == spec_lookup(
                texts_model(texts@).take(i as int),
                name@,
            ),
        decreases i,
    {
        i = i - 1;
        proof {
            assert(texts_model(texts@).take(i + 1).last() == texts_model(texts@)[i as int]);
            assert(texts_model(texts@).take(i + 1).drop_last() =~= texts_model(texts@).take(
                i as int,
            ));
        }
        if bytes_eq(texts[i].0.as_str().as_bytes(), name) {
            return Some(texts[i].1.as_str().to_owned());
        }
    }
    proof {
        assert(texts_model(texts@).take(0) =~= Seq::<(Seq<u8>, Seq<char>)>::empty());
    }
    None
}

/// The prove handler's decision after ingestion: only a payload carrying
/// an `output` text field invokes the engine; without one the response is
/// empty and the engine is never called.
pub enum ProveStep {
    Invoke { trace: Vec<u8>, memory: Vec<u8>, output: String },
    Empty,
}

/// Decides what the prove handler does with an ingested payload.
pub fn prove_step(payload: UploadPayload) -> (s: ProveStep)
    ensures
        (match spec_lookup(texts_model(payload.texts@), output_name()) {
            Some(o) => s matches ProveStep::Invoke { trace, memory, output } && trace@
                == payload.trace@ && memory@ == payload.memory@ && output@ == o,
            None => s is Empty,
        }),
{
    let oname = vec![111u8, 117u8, 116u8, 112u8, 117u8, 116u8];
    proof {
        assert(oname@ =~= output_name());
    }
    match lookup_text(&payload.texts, oname.as_slice()) {
        Some(output) => ProveStep::Invoke { trace: payload.trace, memory: payload.memory, output },
        None => ProveStep::Empty,
    }
}

/// The base64 text of a byte string: a function of the bytes alone.
pub uninterp spec fn b64_of(b: Seq<u8>) -> Seq<char>;

/// Relies on `base64::encode` with the standard padded alphabet: four
/// output characters for every three input bytes, a function of the
/// bytes alone.
#[verifier::external_body]
fn base64_encode(data: &Vec<u8>) -> (r: String)
    ensures
        r@ == b64_of(data@) && r@.len() == 4 * ((data@.len() + 2) / 3),
{
    base64::encode(data)
}

/// The prove response for an engine-produced proof: its base64 text.
pub fn prove_response(proof_bytes: &Vec<u8>) -> (r: String)
    ensures
        r@ == b64_of(proof_bytes@),
{
    base64_encode(proof_bytes)
}

/// The verify response body: the engine's own output on success, `KO` on
/// a verification failure — always with success status, a business
/// result rather than a transport error.
pub fn verify_response(outcome: Option<String>) -> (body: String)
    ensures
        (match outcome {
            Some(s) => body@ == s@,
            None => body@ == "KO"@,
        }),
{
    match outcome {
        Some(s) => s,
        None => "KO".to_owned(),
    }
}

} // verus!

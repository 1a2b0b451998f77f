use cairo_proving_server::codec::{
    decode_memory, decode_trace, encode_memory, encode_trace, CodecError, TraceEntry,
};
use cairo_proving_server::runner::{build_run_output, run_output_from_parts, RunnerError};
use cairo_vm::Felt252;

#[test]
fn trace_entry_is_24_little_endian_bytes() {
    let entries = [TraceEntry { ap: 1, fp: 0x0203, pc: 0x0405060708090a0b }];
    let bytes = encode_trace(&entries);
    assert_eq!(bytes.len(), 24);
    assert_eq!(&bytes[0..8], &[1, 0, 0, 0, 0, 0, 0, 0]);
    assert_eq!(&bytes[8..16], &[3, 2, 0, 0, 0, 0, 0, 0]);
    assert_eq!(&bytes[16..24], &[0x0b, 0x0a, 9, 8, 7, 6, 5, 4]);
}

#[test]
fn trace_round_trip() {
    let entries = vec![
        TraceEntry { ap: 7, fp: 8, pc: 9 },
        TraceEntry { ap: u64::MAX, fp: 0, pc: 42 },
        TraceEntry { ap: 1, fp: 2, pc: 3 },
    ];
    let bytes = encode_trace(&entries);
    assert_eq!(bytes.len() % 24, 0);
    assert_eq!(decode_trace(&bytes).unwrap(), entries);
}

#[test]
fn empty_trace_round_trip() {
    let bytes = encode_trace(&[]);
    assert!(bytes.is_empty());
    assert_eq!(decode_trace(&bytes).unwrap(), Vec::<TraceEntry>::new());
}

#[test]
fn trailing_partial_trace_record_is_framing_error() {
    let bytes = vec![0u8; 23];
    assert_eq!(decode_trace(&bytes).unwrap_err(), CodecError::Framing);
}

#[test]
fn memory_is_sparse_records_in_address_order() {
    let one = Felt252::from_dec_str("1").unwrap();
    let big = Felt252::from_dec_str("123456789123456789").unwrap();
    let cells = vec![None, Some(one), None, Some(big)];
    let bytes = encode_memory(&cells);
    assert_eq!(bytes.len(), 80);
    assert_eq!(&bytes[0..8], &[1, 0, 0, 0, 0, 0, 0, 0]);
    assert_eq!(&bytes[8..40], &one.to_bytes_le());
    assert_eq!(&bytes[40..48], &[3, 0, 0, 0, 0, 0, 0, 0]);
    assert_eq!(&bytes[48..80], &big.to_bytes_le());
}

#[test]
fn memory_round_trip() {
    let a = Felt252::from_dec_str("5").unwrap();
    let b = Felt252::from_dec_str("3618502788666131213697322783095070105623107215331596699973092056135872020480")
        .unwrap();
    let cells = vec![Some(a), None, None, Some(b), None];
    let bytes = encode_memory(&cells);
    let pairs = decode_memory(&bytes).unwrap();
    assert_eq!(pairs, vec![(0u64, a), (3u64, b)]);
}

#[test]
fn all_absent_memory_encodes_to_nothing() {
    let cells: Vec<Option<Felt252>> = vec![None, None, None];
    let bytes = encode_memory(&cells);
    assert!(bytes.is_empty());
    assert_eq!(decode_memory(&bytes).unwrap(), Vec::<(u64, Felt252)>::new());
}

#[test]
fn trailing_partial_memory_record_is_framing_error() {
    let bytes = vec![0u8; 39];
    assert_eq!(decode_memory(&bytes).unwrap_err(), CodecError::Framing);
}

#[test]
fn run_output_packages_encoded_artifacts() {
    let entries = [TraceEntry { ap: 1, fp: 2, pc: 3 }];
    let one = Felt252::from_dec_str("1").unwrap();
    let cells = vec![Some(one)];
    let out = build_run_output(&entries, &cells, String::from("[4 5]"));
    assert_eq!(out.trace, encode_trace(&entries));
    assert_eq!(out.memory, encode_memory(&cells));
    assert_eq!(out.output, "[4 5]");
}

#[test]
fn missing_relocated_trace_is_a_runner_error() {
    let cells: Vec<Option<Felt252>> = vec![];
    let err = run_output_from_parts(None, &cells, String::new()).unwrap_err();
    assert!(matches!(err, RunnerError::GenericError(_)));
}

#[test]
fn relocated_trace_packages_into_run_output() {
    let entries = vec![TraceEntry { ap: 4, fp: 5, pc: 6 }];
    let cells: Vec<Option<Felt252>> = vec![None];
    let out = run_output_from_parts(Some(entries.clone()), &cells, "x".to_string()).unwrap();
    assert_eq!(out.trace, encode_trace(&entries));
    assert!(out.memory.is_empty());
}

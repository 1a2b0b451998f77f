use std::io::Write;

use cairo_proving_server::admission::Admission;
use cairo_proving_server::archive::{decompress_zip_data, DecompressError};
use cairo_proving_server::config::Config;
use cairo_proving_server::pipeline::{
    ingest_prove, ingest_verify, lookup_text, prove_field_is_binary, prove_response, prove_step,
    verify_field_is_binary, verify_response, FieldData, FormField, IngestError, ProveStep,
};

fn archive_of(entries: &[&[u8]]) -> Vec<u8> {
    let cursor = std::io::Cursor::new(Vec::new());
    let mut writer = zip::ZipWriter::new(cursor);
    for (i, data) in entries.iter().enumerate() {
        writer
            .start_file(format!("entry{}", i), zip::write::SimpleFileOptions::default())
            .unwrap();
        writer.write_all(data).unwrap();
    }
    writer.finish().unwrap().into_inner()
}

fn bytes_field(name: &str, data: Vec<u8>) -> FormField {
    FormField { name: name.to_string(), data: FieldData::Bytes(data) }
}

fn text_field(name: &str, value: &str) -> FormField {
    FormField { name: name.to_string(), data: FieldData::Text(value.to_string()) }
}

#[test]
fn single_entry_archive_decompresses_to_its_bytes() {
    let data = b"artifact bytes".to_vec();
    let compressed = archive_of(&[&data]);
    assert_eq!(decompress_zip_data(compressed).unwrap(), data);
}

#[test]
fn multi_entry_archive_decompresses_to_concatenation() {
    let compressed = archive_of(&[b"first ", b"second ", b"third"]);
    assert_eq!(decompress_zip_data(compressed).unwrap(), b"first second third".to_vec());
}

#[test]
fn garbage_is_a_decompression_error() {
    let err = decompress_zip_data(vec![1, 2, 3, 4, 5]).unwrap_err();
    assert_eq!(err, DecompressError::BadArchive);
}

#[test]
fn prove_ingestion_decompresses_both_artifacts() {
    let trace = b"trace-bytes".to_vec();
    let memory = b"memory-bytes".to_vec();
    let fields = vec![
        bytes_field("trace", archive_of(&[&trace])),
        bytes_field("memory", archive_of(&[&memory])),
        text_field("output", "res"),
    ];
    let payload = ingest_prove(fields).unwrap();
    assert_eq!(payload.trace, trace);
    assert_eq!(payload.memory, memory);
    match prove_step(payload) {
        ProveStep::Invoke { trace: t, memory: m, output } => {
            assert_eq!(t, trace);
            assert_eq!(m, memory);
            assert_eq!(output, "res");
        },
        ProveStep::Empty => panic!("engine should be invoked"),
    }
}

#[test]
fn prove_response_is_base64_of_the_proof() {
    let proof = b"hello".to_vec();
    assert_eq!(prove_response(&proof), "aGVsbG8=");
    assert_eq!(prove_response(&proof), base64::encode(&proof));
}

#[test]
fn missing_output_field_skips_the_engine() {
    let fields = vec![
        bytes_field("trace", archive_of(&[b"t"])),
        bytes_field("memory", archive_of(&[b"m"])),
        text_field("note", "irrelevant"),
    ];
    let payload = ingest_prove(fields).unwrap();
    assert!(matches!(prove_step(payload), ProveStep::Empty));
}

#[test]
fn missing_memory_field_is_a_typed_error() {
    let fields = vec![bytes_field("trace", archive_of(&[b"t"]))];
    assert!(matches!(ingest_prove(fields).unwrap_err(), IngestError::MissingMemory));
}

#[test]
fn missing_trace_field_is_a_typed_error() {
    let fields = vec![bytes_field("memory", archive_of(&[b"m"]))];
    assert!(matches!(ingest_prove(fields).unwrap_err(), IngestError::MissingTrace));
}

#[test]
fn corrupt_artifact_is_a_typed_error() {
    let fields = vec![bytes_field("trace", vec![0, 1, 2])];
    assert!(matches!(ingest_prove(fields).unwrap_err(), IngestError::Decompress(_)));
}

#[test]
fn verify_ingestion_decompresses_the_proof() {
    let proof = b"proof-bytes".to_vec();
    let fields = vec![text_field("note", "x"), bytes_field("proof", archive_of(&[&proof]))];
    assert_eq!(ingest_verify(fields).unwrap(), proof);
}

#[test]
fn missing_proof_field_is_a_typed_error() {
    let fields = vec![text_field("note", "x")];
    assert!(matches!(ingest_verify(fields).unwrap_err(), IngestError::MissingProof));
}

#[test]
fn verify_failure_reports_ko_with_success_status() {
    assert_eq!(verify_response(None), "KO");
}

#[test]
fn verify_success_reports_the_engine_output() {
    assert_eq!(verify_response(Some("OK done".to_string())), "OK done");
}

#[test]
fn binary_field_names_are_exact() {
    assert!(prove_field_is_binary("trace"));
    assert!(prove_field_is_binary("memory"));
    assert!(!prove_field_is_binary("proof"));
    assert!(!prove_field_is_binary("output"));
    assert!(verify_field_is_binary("proof"));
    assert!(!verify_field_is_binary("trace"));
}

#[test]
fn repeated_text_field_last_wins() {
    let texts = vec![
        ("output".to_string(), "first".to_string()),
        ("other".to_string(), "x".to_string()),
        ("output".to_string(), "second".to_string()),
    ];
    assert_eq!(lookup_text(&texts, b"output").unwrap(), "second");
    assert!(lookup_text(&texts, b"absent").is_none());
}

#[test]
fn config_reads_values_and_defaults() {
    let c = Config::new(Some("4"), Some("8080"), Some("/api".to_string()));
    assert_eq!(c.concurrency_limit, Some(4));
    assert_eq!(c.server_port, 8080);
    assert_eq!(c.routes_prefix.as_deref(), Some("/api"));

    let d = Config::new(None, None, None);
    assert_eq!(d.concurrency_limit, Some(1));
    assert_eq!(d.server_port, 3000);
    assert!(d.routes_prefix.is_none());

    let e = Config::new(Some("abc"), Some("70000"), None);
    assert_eq!(e.concurrency_limit, Some(1));
    assert_eq!(e.server_port, 3000);
}

#[test]
fn config_parser_matches_std() {
    assert_eq!(Config::load_opt_usize(Some("+7")), Some(7));
    assert_eq!(Config::load_opt_usize(Some("")), None);
    assert_eq!(Config::load_opt_usize(Some("1 2")), None);
    assert_eq!(Config::load_opt_u16(Some("65535")), Some(65535));
    assert_eq!(Config::load_opt_u16(Some("65536")), None);
    assert_eq!(Config::load_opt_u16(None), None);
}

#[test]
fn admission_bounds_in_flight_handlers() {
    let mut a = Admission::new(2);
    assert!(a.try_acquire());
    assert!(a.try_acquire());
    assert!(!a.try_acquire());
    a.release();
    assert!(a.try_acquire());
    assert!(!a.try_acquire());
    a.release();
    a.release();
    assert_eq!(a.in_flight, 0);
}

#[test]
fn binary_data_under_a_text_name_is_a_typed_error() {
    let fields = vec![
        bytes_field("trace", archive_of(&[b"t"])),
        bytes_field("memory", archive_of(&[b"m"])),
        bytes_field("other", vec![0xff, 0xfe]),
    ];
    assert!(matches!(ingest_prove(fields).unwrap_err(), IngestError::BadText));
}

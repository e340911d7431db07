use vecmath_cli::binary::{decode_binary, encode_binary, fault_error, scan_binary, BinaryFault};
use vecmath_cli::error::VecMathError;

fn bits(values: &[f64]) -> Vec<u64> {
    values.iter().map(|v| v.to_bits()).collect()
}

fn message(e: &VecMathError) -> String {
    match e {
        VecMathError::ParseError(m) => m.clone(),
        other => panic!("unexpected {:?}", other),
    }
}

#[test]
fn encoding_layout() {
    let out = encode_binary(&[bits(&[1.0]), vec![]]);
    let mut expected = vec![0x4D, 0x43, 0x45, 0x56, 1, 0, 0, 0, 2, 0, 0, 0, 1, 0, 0, 0];
    expected.extend_from_slice(&1.0f64.to_le_bytes());
    expected.extend_from_slice(&[0, 0, 0, 0]);
    assert_eq!(out, expected);
}

#[test]
fn round_trip_gives_back_the_vectors() {
    let vs = vec![bits(&[1.0, 2.0, 3.0]), bits(&[-0.5]), bits(&[4.25, 1e300])];
    let buf = encode_binary(&vs);
    let decoded = decode_binary(&buf);
    assert!(decoded.error.is_none());
    let got: Vec<Vec<u64>> = decoded.records.into_iter().map(|r| r.unwrap()).collect();
    assert_eq!(got, vs);
}

#[test]
fn refused_records_are_reported_in_place() {
    let vs = vec![bits(&[1.0]), bits(&[2.0, f64::NAN]), vec![], bits(&[f64::INFINITY]), bits(&[5.0])];
    let decoded = decode_binary(&encode_binary(&vs));
    assert!(decoded.error.is_none());
    assert_eq!(decoded.records.len(), 5);
    assert_eq!(decoded.records[0].as_ref().unwrap(), &vs[0]);
    assert!(matches!(decoded.records[1], Err(VecMathError::NaNInInput { index: 1 })));
    assert!(matches!(decoded.records[2], Err(VecMathError::EmptyVector)));
    assert!(matches!(decoded.records[3], Err(VecMathError::InfInInput { index: 0 })));
    assert_eq!(decoded.records[4].as_ref().unwrap(), &vs[4]);
}

#[test]
fn short_file_is_refused() {
    let decoded = decode_binary(&[0x4D, 0x43, 0x45]);
    assert!(decoded.records.is_empty());
    assert_eq!(message(&decoded.error.unwrap()), "binary file too short");
}

#[test]
fn bad_magic_and_version_are_reported() {
    let mut buf = encode_binary(&[]);
    buf[0] = 0xEF;
    buf[1] = 0xBE;
    buf[2] = 0xAD;
    buf[3] = 0xDE;
    assert_eq!(
        message(&decode_binary(&buf).error.unwrap()),
        "invalid binary magic: expected 0x5645434D, got 0xDEADBEEF"
    );
    let mut buf = encode_binary(&[]);
    buf[4] = 7;
    assert_eq!(
        message(&decode_binary(&buf).error.unwrap()),
        "unsupported binary version: expected 1, got 7"
    );
    let mut buf = encode_binary(&[]);
    buf[4] = 0;
    buf[5] = 1;
    assert_eq!(
        message(&decode_binary(&buf).error.unwrap()),
        "unsupported binary version: expected 1, got 256"
    );
}

#[test]
fn truncated_files_keep_what_was_read() {
    let vs = vec![bits(&[1.0, 2.0]), bits(&[3.0])];
    let full = encode_binary(&vs);
    let cut = &full[..full.len() - 3];
    let decoded = decode_binary(cut);
    assert_eq!(decoded.records.len(), 1);
    assert_eq!(message(&decoded.error.unwrap()), "unexpected EOF at vector data");
    let cut = &full[..12 + 4 + 16 + 2];
    let decoded = decode_binary(cut);
    assert_eq!(decoded.records.len(), 1);
    assert_eq!(message(&decoded.error.unwrap()), "unexpected EOF at dim");
    let (raw, fault) = scan_binary(cut);
    assert_eq!(raw, vec![vs[0].clone()]);
    assert_eq!(fault, Some(BinaryFault::EofAtDim));
}

#[test]
fn fault_messages() {
    assert_eq!(message(&fault_error(BinaryFault::BadMagic(0))), "invalid binary magic: expected 0x5645434D, got 0x0");
    assert_eq!(message(&fault_error(BinaryFault::BadMagic(0xA))), "invalid binary magic: expected 0x5645434D, got 0xA");
    assert_eq!(message(&fault_error(BinaryFault::BadVersion(4294967295))), "unsupported binary version: expected 1, got 4294967295");
    assert_eq!(message(&fault_error(BinaryFault::BadVersion(0))), "unsupported binary version: expected 1, got 0");
}

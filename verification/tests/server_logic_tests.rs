use ldpc_rust::ldpc_decoder::LdpcDecoder;
use ldpc_rust::server_router::{
    decode_bitflip, spa_decode_response, spa_iterations, DecodeRequest, RequestError,
    MAX_ITERATIONS,
};

/// A 256 x 512 parity-check matrix `[A | I]`, where `A` is the circulant with
/// ones at offsets 0, 1 and 3 of each row.
fn h_256_512() -> Box<[[u8; 512]; 256]> {
    let mut h = Box::new([[0u8; 512]; 256]);
    for (i, row) in h.iter_mut().enumerate() {
        for d in [0usize, 1, 3] {
            row[(i + d) % 256] = 1;
        }
        row[256 + i] = 1;
    }
    h
}

fn decoder() -> Box<LdpcDecoder<256, 512>> {
    Box::new(LdpcDecoder::new(&h_256_512()))
}

#[test]
fn bitflip_request_on_zero_word_is_valid() {
    let dec = decoder();
    let req = DecodeRequest { cw: [0u8; 512], iterations: 10 };
    let resp = decode_bitflip(&dec, &req).unwrap();
    assert!(resp.valid);
    assert_eq!(resp.cw, vec![0u8; 512]);
    assert_eq!(resp.syndrome_weight, 0);
}

#[test]
fn bitflip_request_corrects_single_error() {
    let dec = decoder();
    let mut cw = [0u8; 512];
    cw[42] = 1;
    let resp = decode_bitflip(&dec, &DecodeRequest { cw, iterations: 5 }).unwrap();
    assert!(resp.valid);
    assert_eq!(resp.cw, vec![0u8; 512]);
    assert_eq!(resp.syndrome_weight, 0);
}

#[test]
fn bitflip_request_stops_at_iteration_limit() {
    let dec = decoder();
    // Two separated errors tie on score: one WBF step fixes only the first.
    let mut cw = [0u8; 512];
    cw[10] = 1;
    cw[100] = 1;
    let resp = decode_bitflip(&dec, &DecodeRequest { cw, iterations: 1 }).unwrap();
    assert!(!resp.valid);
    assert_eq!(resp.syndrome_weight, 3);
    assert_eq!(resp.cw.iter().filter(|&&b| b == 1).count(), 1);
    assert_eq!(resp.cw[100], 1);

    let resp = decode_bitflip(&dec, &DecodeRequest { cw, iterations: 2 }).unwrap();
    assert!(resp.valid);
    assert_eq!(resp.cw, vec![0u8; 512]);
}

#[test]
fn bitflip_request_rejects_first_non_bit() {
    let dec = decoder();
    let mut cw = [0u8; 512];
    cw[7] = 42;
    cw[9] = 3;
    let err = decode_bitflip(&dec, &DecodeRequest { cw, iterations: 10 }).err().unwrap();
    assert_eq!(err, RequestError::InvalidBit { index: 7, value: 42 });
}

#[test]
fn bitflip_request_rejects_bad_iteration_counts() {
    let dec = decoder();
    for iterations in [0, MAX_ITERATIONS + 1, usize::MAX] {
        let err = decode_bitflip(&dec, &DecodeRequest { cw: [0u8; 512], iterations })
            .err()
            .unwrap();
        assert_eq!(err, RequestError::IterationsOutOfRange);
    }
    assert!(decode_bitflip(&dec, &DecodeRequest { cw: [0u8; 512], iterations: 200 }).is_ok());
}

#[test]
fn bit_errors_are_reported_before_iteration_errors() {
    let dec = decoder();
    let mut cw = [0u8; 512];
    cw[511] = 2;
    let err = decode_bitflip(&dec, &DecodeRequest { cw, iterations: 0 }).err().unwrap();
    assert_eq!(err, RequestError::InvalidBit { index: 511, value: 2 });
}

#[test]
fn spa_iteration_limit_defaults_and_bounds() {
    assert_eq!(spa_iterations(None), Ok(20));
    assert_eq!(spa_iterations(Some(1)), Ok(1));
    assert_eq!(spa_iterations(Some(200)), Ok(200));
    assert_eq!(spa_iterations(Some(0)), Err(RequestError::IterationsOutOfRange));
    assert_eq!(spa_iterations(Some(201)), Err(RequestError::IterationsOutOfRange));
}

#[test]
fn spa_response_reports_syndrome_of_decoded_bits() {
    let dec = decoder();
    let resp = spa_decode_response(&dec, vec![0u8; 512], 3, true);
    assert!(resp.valid);
    assert_eq!(resp.syndrome_weight, 0);
    assert_eq!(resp.iterations, 3);
    assert!(resp.converged);
    assert_eq!(resp.cw, vec![0u8; 512]);

    let mut bits = vec![0u8; 512];
    bits[10] = 1;
    let resp = spa_decode_response(&dec, bits.clone(), 20, false);
    assert!(!resp.valid);
    assert_eq!(resp.syndrome_weight, 3);
    assert_eq!(resp.cw, bits);

    // Not converged: never valid, even on a codeword.
    let resp = spa_decode_response(&dec, vec![0u8; 512], 20, false);
    assert!(!resp.valid);
    assert_eq!(resp.syndrome_weight, 0);
}

use ldpc_rust::bitarray::BitArray;
use ldpc_rust::ldpc_decoder::LdpcDecoder;

/// A 256 x 512 parity-check matrix `[A | I]`, where `A` is the circulant with
/// ones at offsets 0, 1 and 3 of each row (no two of its columns share more
/// than one check).
fn h_256_512() -> Box<[[u8; 512]; 256]> {
    let mut h = Box::new([[0u8; 512]; 256]);
    for (i, row) in h.iter_mut().enumerate() {
        for d in [0usize, 1, 3] {
            row[(i + d) % 256] = 1;
        }
        row[256 + i] = 1;
    }
    h
}

#[test]
fn test_parity_all_zero_codeword_is_valid() {
    let decoder = LdpcDecoder::new(&h_256_512());

    let cw = [0u8; 64];
    let mut sn = [0u8; 256];

    assert!(decoder.get_parity(&cw, &mut sn));
    assert!(sn.iter().all(|&b| b == 0));
}

#[test]
fn test_parity_single_bit_error_is_invalid() {
    let decoder = LdpcDecoder::new(&h_256_512());

    let mut cw = [0u8; 64];
    BitArray::set_bit(&mut cw, 10, true);

    let mut sn = [0u8; 256];
    assert!(!decoder.get_parity(&cw, &mut sn));
}

#[test]
fn test_score_all_zero_is_zero() {
    let decoder = LdpcDecoder::new(&h_256_512());

    let sn = [0u8; 256];
    let mut en = [0u8; 512];

    decoder.get_score(&sn, &mut en);

    assert!(en.iter().all(|&v| v == 0));
}

#[test]
fn test_bitflip_runs_safely_on_single_error() {
    let decoder = LdpcDecoder::new(&h_256_512());

    let mut cw = [0u8; 64];
    BitArray::xor_bit(&mut cw, 42);

    for _ in 0..20 {
        decoder.iterate_bitflip(&mut cw);
    }

    let mut sn = [0u8; 256];
    decoder.get_parity(&cw, &mut sn);

    assert_eq!(cw.len(), 64);
    assert_eq!(sn.len(), 256);
}

#[test]
fn test_bitflip_multiple_errors_runs_safely() {
    let decoder = LdpcDecoder::new(&h_256_512());

    let mut cw = [0u8; 64];
    BitArray::xor_bit(&mut cw, 10);
    BitArray::xor_bit(&mut cw, 200);
    BitArray::xor_bit(&mut cw, 350);

    for _ in 0..30 {
        decoder.iterate_bitflip(&mut cw);
    }

    let mut sn = [0u8; 256];
    decoder.get_parity(&cw, &mut sn);

    assert_eq!(cw.len(), 64);
    assert_eq!(sn.len(), 256);
}

#[test]
fn test_decoder_does_not_modify_outside_bounds() {
    let decoder = LdpcDecoder::new(&h_256_512());

    let mut cw = [0u8; 64];
    let before = cw;

    decoder.iterate_bitflip(&mut cw);

    assert_eq!(cw, before);
}

#[test]
fn test_wbf_runs_and_preserves_lengths() {
    let decoder = LdpcDecoder::new(&h_256_512());

    let mut cw = [0u8; 64];
    BitArray::xor_bit(&mut cw, 123);

    for _ in 0..20 {
        decoder.iterate_wbf(&mut cw);
    }

    let mut sn = [0u8; 256];
    decoder.get_parity(&cw, &mut sn);

    assert_eq!(cw.len(), 64);
    assert_eq!(sn.len(), 256);
}

#[test]
fn test_mwbf_runs_and_preserves_lengths() {
    let decoder = LdpcDecoder::new(&h_256_512());

    let mut cw = [0u8; 64];
    BitArray::xor_bit(&mut cw, 77);

    for _ in 0..20 {
        decoder.iterate_mwbf(&mut cw);
    }

    let mut sn = [0u8; 256];
    decoder.get_parity(&cw, &mut sn);

    assert_eq!(cw.len(), 64);
    assert_eq!(sn.len(), 256);
}

#[test]
fn test_nwbf_runs_and_preserves_lengths() {
    let decoder = LdpcDecoder::new(&h_256_512());

    let mut cw = [0u8; 64];
    BitArray::xor_bit(&mut cw, 5);

    for _ in 0..20 {
        decoder.iterate_nwbf(&mut cw);
    }

    let mut sn = [0u8; 256];
    decoder.get_parity(&cw, &mut sn);

    assert_eq!(cw.len(), 64);
    assert_eq!(sn.len(), 256);
}

#[test]
fn test_gallager_a_runs_and_preserves_lengths() {
    let decoder = LdpcDecoder::new(&h_256_512());

    let mut cw = [0u8; 64];
    BitArray::xor_bit(&mut cw, 19);

    for _ in 0..20 {
        decoder.iterate_gallager_a(&mut cw);
    }

    let mut sn = [0u8; 256];
    decoder.get_parity(&cw, &mut sn);

    assert_eq!(cw.len(), 64);
    assert_eq!(sn.len(), 256);
}

#[test]
fn test_gallager_b_runs_and_preserves_lengths() {
    let decoder = LdpcDecoder::new(&h_256_512());

    let mut cw = [0u8; 64];
    BitArray::xor_bit(&mut cw, 201);

    for _ in 0..20 {
        decoder.iterate_gallager_b(&mut cw);
    }

    let mut sn = [0u8; 256];
    decoder.get_parity(&cw, &mut sn);

    assert_eq!(cw.len(), 64);
    assert_eq!(sn.len(), 256);
}

#[test]
fn test_wbf_runs_safely_on_single_bit_error() {
    let decoder = LdpcDecoder::new(&h_256_512());
    let mut cw = [0u8; 64];
    BitArray::xor_bit(&mut cw, 123);

    for _ in 0..200 {
        decoder.iterate_wbf(&mut cw);
    }

    assert_eq!(cw.len(), 64);
}

#[test]
fn test_gallager_b_converges_on_single_error() {
    let mut decoder = LdpcDecoder::new(&h_256_512());
    decoder.set_gallager_b_threshold(2);

    let mut cw = [0u8; 64];
    BitArray::xor_bit(&mut cw, 10);

    let mut converged = false;
    for _ in 0..10 {
        if decoder.iterate_gallager_b(&mut cw) {
            converged = true;
            break;
        }
    }

    assert!(
        converged,
        "Gallager-B failed to converge on a single bit error"
    );

    let mut sn = [0u8; 256];
    assert!(decoder.get_parity(&cw, &mut sn));
}

#[test]
fn wbf_corrects_single_error_in_message_part() {
    let decoder = LdpcDecoder::new(&h_256_512());
    for bit in [0usize, 10, 99, 255] {
        let mut cw = [0u8; 64];
        BitArray::xor_bit(&mut cw, bit);
        assert!(!decoder.iterate_wbf(&mut cw));
        assert_eq!(cw, [0u8; 64]);
        assert!(decoder.iterate_wbf(&mut cw));
    }
}

#[test]
fn syndrome_of_single_error_lists_its_checks() {
    let decoder = LdpcDecoder::new(&h_256_512());
    let mut cw = [0u8; 64];
    BitArray::xor_bit(&mut cw, 10);
    let mut sn = [0u8; 256];
    assert!(!decoder.get_parity(&cw, &mut sn));
    // Column 10 of the circulant holds ones in rows 10, 9 and 7.
    let failing: Vec<usize> = (0..256).filter(|&i| sn[i] == 1).collect();
    assert_eq!(failing, vec![7, 9, 10]);

    let mut en = [0u8; 512];
    decoder.get_score(&sn, &mut en);
    assert_eq!(en[10], 3);
    assert_eq!(en[256 + 7], 1);
    assert_eq!(en[11], 1);
}

#[test]
fn gallager_b_and_mwbf_correct_every_single_message_bit_error() {
    let mut decoder = LdpcDecoder::new(&h_256_512());
    decoder.set_gallager_b_threshold(2);
    // Any codeword works; use one with a few ones in both halves.
    let mut codeword = [0u8; 64];
    for i in [3usize, 40, 200] {
        BitArray::xor_bit(&mut codeword, i);
        for r in [i, (i + 255) % 256, (i + 253) % 256] {
            BitArray::xor_bit(&mut codeword, 256 + r);
        }
    }
    let mut sn = [0u8; 256];
    assert!(decoder.get_parity(&codeword, &mut sn));

    for j in 0..256 {
        let mut cw = codeword;
        BitArray::xor_bit(&mut cw, j);
        assert!(!decoder.iterate_gallager_b(&mut cw));
        assert_eq!(cw, codeword);

        let mut cw = codeword;
        BitArray::xor_bit(&mut cw, j);
        assert!(!decoder.iterate_mwbf(&mut cw));
        assert_eq!(cw, codeword);
    }
}

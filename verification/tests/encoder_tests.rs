use ldpc_rust::bitarray::BitArray;
use ldpc_rust::encoder::LdpcEncoder;
use ldpc_rust::ldpc_decoder::LdpcDecoder;
use ldpc_rust::spa_decoder_llr::TannerGraph;
use rand::Rng;

/// A 256 x 512 parity-check matrix `[A | I]`, where `A` is the circulant with
/// ones at offsets 0, 1 and 3 of each row.
fn h_256_512() -> Box<[[u8; 512]; 256]> {
    let mut h = Box::new([[0u8; 512]; 256]);
    for (i, row) in h.iter_mut().enumerate() {
        for d in [0usize, 1, 3] {
            row[(i + d) % 256] = 1;
        }
        row[256 + i] = 1;
    }
    h
}

fn encoder() -> Box<LdpcEncoder<256, 512>> {
    Box::new(LdpcEncoder::new(&h_256_512()))
}

/// Helper: compute syndrome using existing decoder parity function.
fn syndrome_is_zero(codeword: &[u8; 512]) -> bool {
    let decoder: LdpcDecoder<256, 512> = LdpcDecoder::new(&h_256_512());

    let mut cw_bytes = [0u8; 64];
    for (i, &bit) in codeword.iter().enumerate() {
        if bit == 1 {
            let byte = i / 8;
            let bit_pos = i % 8;
            cw_bytes[byte] |= 1 << bit_pos;
        }
    }

    let mut sn = [0u8; 256];
    decoder.get_parity(&cw_bytes, &mut sn)
}

#[test]
fn test_systematic_property() {
    let encoder = encoder();
    let mut msg = [0u8; 256];
    for (i, m) in msg.iter_mut().enumerate() {
        *m = (i % 2) as u8;
    }

    let cw = encoder.encode(&msg);
    assert_eq!(&cw[..256], &msg);
}

#[test]
fn test_all_zero_message_encodes_valid_codeword() {
    let encoder = encoder();
    let msg = [0u8; 256];
    let cw = encoder.encode(&msg);

    assert!(syndrome_is_zero(&cw));
    assert!(cw[256..].iter().all(|&b| b == 0));
}

#[test]
fn test_single_bit_message_encodes_valid_codeword() {
    let encoder = encoder();
    for pos in [0, 1, 42, 127, 200, 255] {
        let mut msg = [0u8; 256];
        msg[pos] = 1;

        let cw = encoder.encode(&msg);
        assert!(syndrome_is_zero(&cw));
    }
}

#[test]
fn test_random_messages_produce_valid_codewords() {
    let encoder = encoder();
    let mut rng = rand::rng();

    for _ in 0..50 {
        let mut msg = [0u8; 256];
        for m in msg.iter_mut() {
            *m = (rng.next_u32() & 1) as u8;
        }

        let cw = encoder.encode(&msg);
        assert!(syndrome_is_zero(&cw));
    }
}

#[test]
fn test_parity_changes_when_message_bit_flips() {
    let encoder = encoder();
    let mut msg = [0u8; 256];
    msg[10] = 1;

    let cw1 = encoder.encode(&msg);

    msg[10] = 0;
    let cw2 = encoder.encode(&msg);

    assert_ne!(&cw1[256..], &cw2[256..]);
}

#[test]
fn test_dense_and_sparse_messages() {
    let encoder = encoder();
    let mut sparse = [0u8; 256];
    sparse[42] = 1;
    assert!(syndrome_is_zero(&encoder.encode(&sparse)));

    let dense = [1u8; 256];
    assert!(syndrome_is_zero(&encoder.encode(&dense)));
}

#[test]
fn test_encoder_lazy_initialization() {
    let encoder = encoder();
    let msg = [0u8; 256];
    let cw1 = encoder.encode(&msg);
    let cw2 = encoder.encode(&msg);

    assert_eq!(cw1, cw2);
}

#[test]
fn test_hard_decision_decoders_roundtrip() {
    let encoder = encoder();
    let mut msg = [0u8; 256];
    msg[5] = 1;
    msg[100] = 1;
    let cw = encoder.encode(&msg);

    // Pack into 64 bytes for hard-decision decoders
    let mut cw_bytes = [0u8; 64];
    for (i, &bit) in cw.iter().enumerate() {
        if bit == 1 {
            BitArray::xor_bit(&mut cw_bytes, i);
        }
    }

    let decoder: LdpcDecoder<256, 512> = LdpcDecoder::new(&h_256_512());
    assert!(decoder.iterate_wbf(&mut cw_bytes));
}

#[test]
fn test_spa_syndrome_validation() {
    let graph: TannerGraph<256, 512> = TannerGraph::new(&h_256_512());
    let valid_cw = vec![0u8; 512];
    assert!(graph.check_syndrome(&valid_cw));

    let mut invalid_cw = vec![0u8; 512];
    invalid_cw[0] = 1;
    assert!(!graph.check_syndrome(&invalid_cw));
}

#[test]
fn parity_bits_of_single_message_bit_are_its_column() {
    // With the parity block equal to the identity, P = A: message bit 10
    // yields parity bits at the rows of column 10 of A (rows 7, 9, 10).
    let encoder = encoder();
    let mut msg = [0u8; 256];
    msg[10] = 1;
    let cw = encoder.encode(&msg);
    let ones: Vec<usize> = (256..512).filter(|&k| cw[k] == 1).map(|k| k - 256).collect();
    assert_eq!(ones, vec![7, 9, 10]);
}

#[test]
fn encoded_words_survive_every_hard_decoder() {
    let encoder = encoder();
    let decoder: LdpcDecoder<256, 512> = LdpcDecoder::new(&h_256_512());
    let mut msg = [0u8; 256];
    for (i, m) in msg.iter_mut().enumerate() {
        *m = ((i * 7 + 3) % 5 == 0) as u8;
    }
    let cw = encoder.encode(&msg);
    let mut packed = [0u8; 64];
    for (i, &bit) in cw.iter().enumerate() {
        BitArray::set_bit(&mut packed, i, bit == 1);
    }
    let mut w = packed;
    assert!(decoder.iterate_gallager_a(&mut w));
    assert!(decoder.iterate_gallager_b(&mut w));
    assert!(decoder.iterate_mwbf(&mut w));
    assert!(decoder.iterate_nwbf(&mut w));
    assert!(decoder.iterate_bitflip(&mut w));
    assert_eq!(w, packed);
}

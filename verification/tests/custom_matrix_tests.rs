use ldpc_rust::encoder::LdpcEncoder;
use ldpc_rust::ldpc_decoder::LdpcDecoder;
use ldpc_rust::matrix_text::parse_bit_row;
use ldpc_rust::spa_decoder_llr::TannerGraph;

/// A custom (4, 8) parity-check matrix.
#[derive(Debug, Clone, Copy)]
pub struct TestMatrix4x8;

impl TestMatrix4x8 {
    pub const ROWS: usize = 4;
    pub const COLS: usize = 8;
    pub const DATA: [[u8; 8]; 4] = [
        [1, 1, 0, 0, 1, 0, 0, 0],
        [0, 1, 1, 0, 0, 1, 0, 0],
        [0, 0, 1, 1, 0, 0, 1, 0],
        [1, 0, 0, 1, 0, 0, 0, 1],
    ];
}

fn decoder() -> LdpcDecoder<4, 8> {
    LdpcDecoder::new(&TestMatrix4x8::DATA)
}

fn pack(bits: &[u8; 8]) -> [u8; 1] {
    let mut byte = 0u8;
    for (j, &b) in bits.iter().enumerate() {
        byte |= (b & 1) << j;
    }
    [byte]
}

#[test]
fn test_custom_matrix_dimensions() {
    assert_eq!(TestMatrix4x8::ROWS, 4);
    assert_eq!(TestMatrix4x8::COLS, 8);
    assert_eq!(TestMatrix4x8::DATA.len(), 4);
    assert_eq!(TestMatrix4x8::DATA[0].len(), 8);
}

#[test]
fn custom_decoder_defaults() {
    let dec = decoder();
    assert_eq!(dec.max_iter, 50);
    assert_eq!(dec.gallager_b_threshold, 2);
}

#[test]
fn custom_syndrome_of_single_error_marks_its_checks() {
    let dec = decoder();
    let mut sn = [9u8; 4];
    assert!(dec.get_parity(&[0u8], &mut sn));
    assert_eq!(sn, [0, 0, 0, 0]);

    // Bit 0 takes part in checks 0 and 3.
    assert!(!dec.get_parity(&[0b0000_0001], &mut sn));
    assert_eq!(sn, [1, 0, 0, 1]);

    // Bit 5 takes part in check 1 only.
    assert!(!dec.get_parity(&[0b0010_0000], &mut sn));
    assert_eq!(sn, [0, 1, 0, 0]);
}

#[test]
fn custom_score_counts_unsatisfied_checks() {
    let dec = decoder();
    let mut en = [0u8; 8];
    dec.get_score(&[1, 0, 0, 1], &mut en);
    assert_eq!(en, [2, 1, 0, 1, 1, 0, 0, 1]);

    dec.get_score(&[0, 0, 0, 0], &mut en);
    assert_eq!(en, [0; 8]);
}

#[test]
fn custom_gallager_a_flips_majority_bits() {
    let dec = decoder();
    let mut cw = [0b0000_0001u8];
    assert!(!dec.iterate_gallager_a(&mut cw));
    // Bit 0 (2 of 2 checks), bit 4 and bit 7 (1 of 1 check) flip.
    assert_eq!(cw, [0b1001_0000]);
}

#[test]
fn custom_gallager_b_corrects_single_error() {
    let mut dec = decoder();
    dec.set_gallager_b_threshold(2);
    let mut cw = [0b0000_0001u8];
    assert!(!dec.iterate_gallager_b(&mut cw));
    assert_eq!(cw, [0]);
    assert!(dec.iterate_gallager_b(&mut cw));
    assert_eq!(cw, [0]);
}

#[test]
fn custom_wbf_flips_first_best_bit() {
    let dec = decoder();
    let mut cw = [0b0000_0001u8];
    assert!(!dec.iterate_wbf(&mut cw));
    assert_eq!(cw, [0]);

    // Bit 4 alone: its single check has weight 65536 / 3; bits 0, 1 and 4
    // tie on it, and the first of them flips.
    let mut cw = [0b0001_0000u8];
    assert!(!dec.iterate_bitflip(&mut cw));
    assert_eq!(cw, [0b0001_0001]);
}

#[test]
fn custom_mwbf_flips_all_best_bits() {
    let dec = decoder();
    let mut cw = [0b0000_0001u8];
    assert!(!dec.iterate_mwbf(&mut cw));
    assert_eq!(cw, [0]);

    let mut cw = [0b0001_0000u8];
    assert!(!dec.iterate_mwbf(&mut cw));
    // Bits 0, 1 and 4 each see one failing check.
    assert_eq!(cw, [0b0000_0011]);
}

#[test]
fn custom_nwbf_normalizes_by_degree() {
    let dec = decoder();
    let mut cw = [0b0000_0001u8];
    assert!(!dec.iterate_nwbf(&mut cw));
    // Bit 0: (2 << 16) / 2; bits 4 and 7: (1 << 16) / 1; all tie at 65536.
    assert_eq!(cw, [0b1001_0000]);
}

#[test]
fn custom_codewords_are_left_alone() {
    let dec = decoder();
    let enc: LdpcEncoder<4, 8> = LdpcEncoder::new(&TestMatrix4x8::DATA);
    for m in 0..16u8 {
        let msg = [m & 1, (m >> 1) & 1, (m >> 2) & 1, (m >> 3) & 1];
        let packed = pack(&enc.encode(&msg));
        for step in 0..6 {
            let mut cw = packed;
            let done = match step {
                0 => dec.iterate_gallager_a(&mut cw),
                1 => dec.iterate_gallager_b(&mut cw),
                2 => dec.iterate_wbf(&mut cw),
                3 => dec.iterate_mwbf(&mut cw),
                4 => dec.iterate_nwbf(&mut cw),
                _ => dec.iterate_bitflip(&mut cw),
            };
            assert!(done);
            assert_eq!(cw, packed);
        }
    }
}

#[test]
fn custom_encoder_is_systematic_with_identity_parity_block() {
    let enc: LdpcEncoder<4, 8> = LdpcEncoder::new(&TestMatrix4x8::DATA);
    // With B = I the parity bits are A u.
    assert_eq!(enc.encode(&[1, 0, 0, 0]), [1, 0, 0, 0, 1, 0, 0, 1]);
    assert_eq!(enc.encode(&[0, 1, 0, 0]), [0, 1, 0, 0, 1, 1, 0, 0]);
    assert_eq!(enc.encode(&[1, 1, 1, 1]), [1, 1, 1, 1, 0, 0, 0, 0]);
    assert_eq!(enc.encode(&[0, 0, 0, 0]), [0; 8]);
}

#[test]
fn encoder_inverts_a_non_identity_parity_block() {
    // H = [A | B] with A = I and B = [[1, 1], [0, 1]], so P = B^-1 = B.
    let h = [[1u8, 0, 1, 1], [0, 1, 0, 1]];
    let enc: LdpcEncoder<2, 4> = LdpcEncoder::new(&h);
    assert_eq!(enc.encode(&[1, 0]), [1, 0, 1, 0]);
    assert_eq!(enc.encode(&[0, 1]), [0, 1, 1, 1]);
    assert_eq!(enc.encode(&[1, 1]), [1, 1, 0, 1]);
}

#[test]
fn custom_tanner_graph_edges_point_back() {
    let g: TannerGraph<4, 8> = TannerGraph::new(&TestMatrix4x8::DATA);
    assert_eq!(g.row_to_cols()[0], vec![0, 1, 4]);
    assert_eq!(g.row_to_cols()[3], vec![0, 3, 7]);
    assert_eq!(g.col_to_rows()[0], vec![0, 3]);
    assert_eq!(g.col_to_rows()[5], vec![1]);
    assert_eq!(g.col_to_row_edge_idxs()[0], vec![0, 0]);
    assert_eq!(g.col_to_row_edge_idxs()[3], vec![1, 1]);
    for j in 0..8 {
        let rows = &g.col_to_rows()[j];
        let edges = &g.col_to_row_edge_idxs()[j];
        assert_eq!(rows.len(), edges.len());
        for (t, &i) in rows.iter().enumerate() {
            assert_eq!(g.row_to_cols()[i][edges[t]], j);
        }
    }
}

#[test]
fn custom_tanner_graph_checks_unpacked_words() {
    let g: TannerGraph<4, 8> = TannerGraph::new(&TestMatrix4x8::DATA);
    assert!(g.check_syndrome(&[0u8; 8]));
    assert!(g.check_syndrome(&[1, 0, 0, 0, 1, 0, 0, 1]));
    assert!(!g.check_syndrome(&[1, 0, 0, 0, 0, 0, 0, 0]));
    assert!(!g.check_syndrome(&[0, 0, 0, 0, 0, 0, 1, 0]));
}

#[test]
fn bit_rows_parse_from_text() {
    assert_eq!(parse_bit_row(b"11001000"), Ok(vec![1, 1, 0, 0, 1, 0, 0, 0]));
    assert_eq!(parse_bit_row(b""), Ok(vec![]));
    assert_eq!(parse_bit_row(b"0102"), Err(3));
    assert_eq!(parse_bit_row(b"x1"), Err(0));
}

#[test]
fn bitflip_step_is_wbf_step() {
    let dec = decoder();
    for w in 0..=255u8 {
        let mut a = [w];
        let mut b = [w];
        assert_eq!(dec.iterate_bitflip(&mut a), dec.iterate_wbf(&mut b));
        assert_eq!(a, b);
    }
}

#[test]
fn nwbf_corrects_single_error_when_overlaps_are_below_degrees() {
    // Every column has degree 2 and any two columns share at most one check.
    let h = [
        [1u8, 1, 1, 0, 0, 0, 0, 0],
        [1, 0, 0, 1, 1, 0, 0, 0],
        [0, 1, 0, 1, 0, 1, 0, 0],
        [0, 0, 1, 0, 1, 1, 0, 0],
        [0, 0, 0, 0, 0, 0, 1, 1],
        [0, 0, 0, 0, 0, 0, 1, 1],
    ];
    let dec: LdpcDecoder<6, 8> = LdpcDecoder::new(&h);
    for j in 0..6 {
        let mut cw = [1u8 << j];
        assert!(!dec.iterate_nwbf(&mut cw));
        assert_eq!(cw, [0]);
    }
}

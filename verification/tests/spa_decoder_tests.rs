use ldpc_rust::spa_decoder_llr::{DecodeResult, DecoderError, TannerGraph};

/// A 256 x 512 parity-check matrix `[A | I]`, where `A` is the circulant with
/// ones at offsets 0, 1 and 3 of each row.
fn h_256_512() -> Box<[[u8; 512]; 256]> {
    let mut h = Box::new([[0u8; 512]; 256]);
    for (i, row) in h.iter_mut().enumerate() {
        for d in [0usize, 1, 3] {
            row[(i + d) % 256] = 1;
        }
        row[256 + i] = 1;
    }
    h
}

#[test]
fn test_edge_alignment_sparse() {
    let decoder: TannerGraph<256, 512> = TannerGraph::new(&h_256_512());

    for j in 0..512 {
        let check_nodes = &decoder.col_to_rows()[j];
        let edge_idxs = &decoder.col_to_row_edge_idxs()[j];

        assert_eq!(check_nodes.len(), edge_idxs.len());

        for idx in 0..check_nodes.len() {
            let i = check_nodes[idx];
            let k = edge_idxs[idx];

            assert!(k < decoder.row_to_cols()[i].len());
            assert_eq!(
                decoder.row_to_cols()[i][k],
                j,
                "Edge misalignment: row {} edge {} does not map back to col {}",
                i,
                k,
                j
            );
        }
    }
}

#[test]
fn test_syndrome_check_sparse() {
    let decoder: TannerGraph<256, 512> = TannerGraph::new(&h_256_512());

    let cw = vec![0u8; 512];
    assert!(decoder.check_syndrome(&cw));

    let mut cw_err = cw.clone();
    cw_err[10] = 1;
    assert!(!decoder.check_syndrome(&cw_err));
}

#[test]
fn graph_rows_and_columns_list_ones_in_order() {
    let g: TannerGraph<256, 512> = TannerGraph::new(&h_256_512());
    assert_eq!(g.row_to_cols()[0], vec![0, 1, 3, 256]);
    assert_eq!(g.row_to_cols()[254], vec![1, 254, 255, 510]);
    assert_eq!(g.col_to_rows()[0], vec![0, 253, 255]);
    assert_eq!(g.col_to_rows()[300], vec![44]);
    assert_eq!(g.col_to_row_edge_idxs()[0], vec![0, 0, 0]);
    assert_eq!(g.col_to_row_edge_idxs()[300], vec![3]);
}

#[test]
fn unpacked_syndrome_check_xors_entries() {
    let g: TannerGraph<256, 512> = TannerGraph::new(&h_256_512());
    // Two ones in the same check row cancel; a lone one does not.
    let mut cw = vec![0u8; 512];
    cw[0] = 1;
    cw[1] = 1;
    assert!(!g.check_syndrome(&cw));
    let mut cw = vec![0u8; 512];
    cw[0] = 1;
    cw[256] = 1;
    cw[253 + 256] = 1;
    cw[255 + 256] = 1;
    assert!(g.check_syndrome(&cw));
}

#[test]
fn decode_result_and_error_values() {
    let r = DecodeResult { codeword: vec![0, 1], iterations: 3, converged: false };
    let copy = r.clone();
    assert_eq!(copy.codeword, vec![0, 1]);
    assert_eq!(copy.iterations, 3);
    assert!(!copy.converged);
    assert_eq!(DecoderError::InvalidInputLength, DecoderError::InvalidInputLength);
}

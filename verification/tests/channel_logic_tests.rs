use ldpc_rust::channel::{bsc_output, burst_step};
use ldpc_rust::encoder::LdpcEncoder;

#[test]
fn bsc_output_flips_only_on_draw() {
    assert_eq!(bsc_output(0, false), 0);
    assert_eq!(bsc_output(1, false), 1);
    assert_eq!(bsc_output(0, true), 1);
    assert_eq!(bsc_output(1, true), 0);
}

#[test]
fn burst_step_flips_a_clipped_run() {
    let mut bits = vec![0u8, 1, 0, 1, 0];
    assert_eq!(burst_step(&mut bits, 1, true, 2), 3);
    assert_eq!(bits, vec![0, 0, 1, 1, 0]);
    assert_eq!(burst_step(&mut bits, 3, true, 10), 5);
    assert_eq!(bits, vec![0, 0, 1, 0, 1]);
    assert_eq!(burst_step(&mut bits, 0, false, 10), 1);
    assert_eq!(bits, vec![0, 0, 1, 0, 1]);
}

#[test]
fn burst_step_of_zero_length_stays_put() {
    let mut bits = vec![1u8, 1];
    assert_eq!(burst_step(&mut bits, 1, true, 0), 1);
    assert_eq!(bits, vec![1, 1]);
}

#[test]
fn checking_encoder_constructor() {
    let good = [[1u8, 0, 1, 1], [0, 1, 0, 1]];
    let enc: LdpcEncoder<2, 4> = LdpcEncoder::try_new(&good).unwrap();
    assert_eq!(enc.encode(&[1, 0]), [1, 0, 1, 0]);

    // Singular parity block.
    let singular = [[1u8, 0, 1, 1], [0, 1, 1, 1]];
    assert!(LdpcEncoder::<2, 4>::try_new(&singular).is_none());
    // Entry other than 0 or 1.
    let non_binary = [[1u8, 0, 1, 2], [0, 1, 0, 1]];
    assert!(LdpcEncoder::<2, 4>::try_new(&non_binary).is_none());
    // Not twice as many columns as rows.
    let wide = [[1u8, 0, 1, 0, 0], [0, 1, 0, 1, 0]];
    assert!(LdpcEncoder::<2, 5>::try_new(&wide).is_none());
}

#[test]
fn encoding_is_linear() {
    let h = [
        [1u8, 1, 0, 0, 1, 0, 0, 0],
        [0, 1, 1, 0, 0, 1, 0, 0],
        [0, 0, 1, 1, 0, 0, 1, 0],
        [1, 0, 0, 1, 0, 0, 0, 1],
    ];
    let enc: LdpcEncoder<4, 8> = LdpcEncoder::new(&h);
    for a in 0..16u8 {
        for b in 0..16u8 {
            let u = [a & 1, (a >> 1) & 1, (a >> 2) & 1, (a >> 3) & 1];
            let v = [b & 1, (b >> 1) & 1, (b >> 2) & 1, (b >> 3) & 1];
            let w = [u[0] ^ v[0], u[1] ^ v[1], u[2] ^ v[2], u[3] ^ v[3]];
            let (cu, cv, cw) = (enc.encode(&u), enc.encode(&v), enc.encode(&w));
            for k in 0..8 {
                assert_eq!(cw[k], cu[k] ^ cv[k]);
            }
        }
    }
}

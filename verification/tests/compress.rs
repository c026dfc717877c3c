use rle::compress;
use rle::END_OF_TRANSMISSION;

#[test]
fn no_change_compress() {
    let exp1: &[u8] = &[0, 1, 2, 3, 4, 5, 6, 7];
    let exp2: &[u8] = &[0, 0, 0, 0, 0];
    let exp3: &[u8] = &[0, 1, 1, 1, 1, 1, 0, 0, 0, 0, 0, 1, 0, 0, 0, 0, 0];

    assert_eq!(compress(exp1), exp1);
    assert_eq!(compress(exp2), exp2);
    assert_eq!(compress(exp3), exp3);
}

#[test]
fn simple_compress() {
    let six = 6u32.to_be_bytes();
    let sixty_four = 64u32.to_be_bytes();

    assert_eq!(
        compress(&[0, 0, 0, 0, 0, 0, 1, 1, 1, 1, 1, 1]),
        &[
            END_OF_TRANSMISSION,
            six[0],
            six[1],
            six[2],
            six[3],
            0,
            END_OF_TRANSMISSION,
            six[0],
            six[1],
            six[2],
            six[3],
            1
        ]
    );

    assert_eq!(
        compress(&[
            0, 0, 0, 0, 0, 0, 0, 0, 0, 0, 0, 0, 0, 0, 0, 0, 0, 0, 0, 0, 0, 0, 0, 0, 0, 0, 0, 0,
            0, 0, 0, 0, 0, 0, 0, 0, 0, 0, 0, 0, 0, 0, 0, 0, 0, 0, 0, 0, 0, 0, 0, 0, 0, 0, 0, 0,
            0, 0, 0, 0, 0, 0, 0, 0, 64, 64, 230
        ]),
        &[
            END_OF_TRANSMISSION,
            sixty_four[0],
            sixty_four[1],
            sixty_four[2],
            sixty_four[3],
            0,
            64,
            64,
            230
        ]
    );
}

#[test]
fn empty_input() {
    let empty: &[u8] = &[];
    assert_eq!(compress(empty), empty);
}

#[test]
fn threshold_boundary() {
    // A run of five stays literal; a run of six becomes a block.
    assert_eq!(compress(&[7, 7, 7, 7, 7]), &[7, 7, 7, 7, 7]);
    assert_eq!(compress(&[7, 7, 7, 7, 7, 7]), &[4, 0, 0, 0, 6, 7]);
}

#[test]
fn long_run_block() {
    // 300 = 0x012C, so the big-endian length bytes are [0, 0, 1, 44].
    let input = vec![9u8; 300];
    assert_eq!(compress(&input), &[4, 0, 0, 1, 44, 9]);
}

#[test]
fn sixty_three_zeros_then_tail() {
    let mut input = vec![0u8; 63];
    input.extend_from_slice(&[64, 64, 230]);
    assert_eq!(compress(&input), &[4, 0, 0, 0, 63, 0, 64, 64, 230]);
}

#[test]
fn short_marker_run_stays_literal() {
    // The marker value itself passes through literally when the run is short.
    assert_eq!(compress(&[4, 4, 4]), &[4, 4, 4]);
}

#[test]
fn long_marker_run_is_encoded() {
    let input = vec![4u8; 10];
    assert_eq!(compress(&input), &[4, 0, 0, 0, 10, 4]);
}

#[test]
fn runs_between_literals() {
    let input: &[u8] = &[44, 43, 6, 10, 10, 10, 10, 10, 10, 10, 10, 10, 10, 10, 10, 3];
    assert_eq!(compress(input), &[44, 43, 6, 4, 0, 0, 0, 12, 10, 3]);
}

use chromaprint::{pack3, pack3_size, pack5, pack5_size, unpack3, unpack5};

#[test]
fn pack3_output() {
    let mut dest: Vec<u8> = Vec::new();
    pack3(vec![0u8, 1, 2, 3, 4, 5, 6, 7, 6], &mut dest);
    assert_eq!(
        dest,
        [0b10_001_000u8, 0b1_100_011_0, 0b111_110_10, 0b00_000_110],
        "Pack output did not match expected output"
    );

    let mut dest: Vec<u8> = Vec::new();
    pack3(vec![0u8, 1, 2, 3, 4, 5, 6, 7], &mut dest);
    assert_eq!(
        dest,
        [0b10_001_000u8, 0b1_100_011_0, 0b111_110_10],
        "Pack output did not match expected output"
    );

    let mut dest: Vec<u8> = Vec::new();
    pack3(vec![0u8, 1, 2, 3, 4, 5, 6], &mut dest);
    assert_eq!(
        dest,
        [0b10_001_000u8, 0b1_100_011_0, 0b000_110_10],
        "Pack output did not match expected output"
    );

    let mut dest: Vec<u8> = Vec::new();
    pack3(vec![0u8, 1, 2, 3, 4, 5], &mut dest);
    assert_eq!(
        dest,
        [0b10_001_000u8, 0b1_100_011_0, 0b000_000_10],
        "Pack output did not match expected output"
    );

    let mut dest: Vec<u8> = Vec::new();
    pack3(vec![0u8, 1, 2, 3, 4], &mut dest);
    assert_eq!(
        dest,
        [0b10_001_000u8, 0b0_100_011_0],
        "Pack output did not match expected output"
    );

    let mut dest: Vec<u8> = Vec::new();
    pack3(vec![0u8, 1, 2, 3], &mut dest);
    assert_eq!(
        dest,
        [0b10_001_000u8, 0b0_000_011_0],
        "Pack output did not match expected output"
    );

    let mut dest: Vec<u8> = Vec::new();
    pack3(vec![0u8, 1, 2], &mut dest);
    assert_eq!(
        dest,
        [0b10_001_000u8, 0b0_000_000_0],
        "Pack output did not match expected output"
    );

    let mut dest: Vec<u8> = Vec::new();
    pack3(vec![0u8, 1], &mut dest);
    assert_eq!(dest, [0b00_001_000u8], "Pack output did not match expected output");

    let mut dest: Vec<u8> = Vec::new();
    pack3(vec![1u8], &mut dest);
    assert_eq!(dest, [0b00_000_001u8], "Pack output did not match expected output");

    let mut dest: Vec<u8> = Vec::new();
    pack3(vec![], &mut dest);
    assert_eq!(dest, [0u8; 0], "Pack output did not match expected output");
}

#[test]
fn unpack3_output() {
    assert_eq!(
        unpack3(&[0b10_001_000u8, 0b1_100_011_0, 0b111_110_10, 0b00_000_110]),
        vec![0u8, 1, 2, 3, 4, 5, 6, 7, 6, 0],
        "Unpack output did not match expected output"
    );
    assert_eq!(
        unpack3(&[0b10_001_000u8, 0b1_100_011_0, 0b111_110_10]),
        vec![0u8, 1, 2, 3, 4, 5, 6, 7],
        "Unpack output did not match expected output"
    );
    assert_eq!(
        unpack3(&[0b10_001_000u8, 0b0_100_011_0]),
        vec![0u8, 1, 2, 3, 4],
        "Unpack output did not match expected output"
    );
    assert_eq!(
        unpack3(&[0b00_001_000u8]),
        vec![0u8, 1],
        "Unpack output did not match expected output"
    );
    assert_eq!(unpack3(&[]), Vec::<u8>::new(), "Unpack output did not match expected output");
}

#[test]
fn pack3_roundtrip() {
    let input = [4u8, 2, 0, 2, 2, 5, 4, 5, 3, 0, 0, 0, 2, 1, 1, 2, 1, 6, 4, 0, 1, 3, 2, 6];

    let mut packed: Vec<u8> = Vec::new();
    let mut pack_input: Vec<u8> = Vec::new();
    pack_input.resize(input.len(), 0);
    pack_input.copy_from_slice(&input);
    pack3(pack_input, &mut packed);

    let unpacked = unpack3(&packed);

    assert_eq!(unpacked, input, "unpack3(pack3(input)) != input");
}

#[test]
fn pack5_output() {
    // 0001 00010 00011 00100 00101 00110 00111 01000
    let mut dest: Vec<u8> = Vec::new();
    pack5(vec![0u8, 1, 2, 3, 4, 5, 6, 7, 8], &mut dest);
    assert_eq!(
        dest,
        [0b001_00000, 0b1_00010_00, 0b0100_0001, 0b10_00101_0, 0b00111_001, 0b000_01000],
        "Pack output did not match expected output"
    );

    let mut dest: Vec<u8> = Vec::new();
    pack5(vec![0u8, 1, 2, 3, 4, 5, 6, 7], &mut dest);
    assert_eq!(
        dest,
        [0b001_00000, 0b1_00010_00, 0b0100_0001, 0b10_00101_0, 0b00111_001],
        "Pack output did not match expected output"
    );

    let mut dest: Vec<u8> = Vec::new();
    pack5(vec![0u8, 1, 2, 3, 4, 5, 6], &mut dest);
    assert_eq!(
        dest,
        [0b001_00000, 0b1_00010_00, 0b0100_0001, 0b10_00101_0, 0b00000_001],
        "Pack output did not match expected output"
    );

    let mut dest: Vec<u8> = Vec::new();
    pack5(vec![0u8, 1, 2, 3, 4, 5], &mut dest);
    assert_eq!(
        dest,
        [0b001_00000, 0b1_00010_00, 0b0100_0001, 0b00_00101_0],
        "Pack output did not match expected output"
    );

    let mut dest: Vec<u8> = Vec::new();
    pack5(vec![0u8, 1, 2, 3, 4], &mut dest);
    assert_eq!(
        dest,
        [0b001_00000, 0b1_00010_00, 0b0100_0001, 0b00_00000_0],
        "Pack output did not match expected output"
    );

    let mut dest: Vec<u8> = Vec::new();
    pack5(vec![0u8, 1, 2, 3], &mut dest);
    assert_eq!(
        dest,
        [0b001_00000, 0b1_00010_00, 0b0000_0001],
        "Pack output did not match expected output"
    );

    let mut dest: Vec<u8> = Vec::new();
    pack5(vec![0u8, 1, 2], &mut dest);
    assert_eq!(
        dest,
        [0b001_00000, 0b0_00010_00],
        "Pack output did not match expected output"
    );

    let mut dest: Vec<u8> = Vec::new();
    pack5(vec![0u8, 1], &mut dest);
    assert_eq!(
        dest,
        [0b001_00000, 0b0_00000_00],
        "Pack output did not match expected output"
    );

    let mut dest: Vec<u8> = Vec::new();
    pack5(vec![15u8], &mut dest);
    assert_eq!(dest, [0b000_01111], "Pack output did not match expected output");

    let mut dest: Vec<u8> = Vec::new();
    pack5(vec![], &mut dest);
    assert_eq!(dest, [0u8; 0], "Pack output did not match expected output");
}

#[test]
fn unpack5_output() {
    assert_eq!(
        unpack5(&[0b001_00000, 0b1_00010_00, 0b0100_0001, 0b10_00101_0, 0b00111_001, 0b000_01000]),
        vec![0u8, 1, 2, 3, 4, 5, 6, 7, 8],
        "Unpack output did not match expected output"
    );
    assert_eq!(
        unpack5(&[0b001_00000, 0b1_00010_00, 0b0100_0001, 0b10_00101_0, 0b00111_001]),
        vec![0u8, 1, 2, 3, 4, 5, 6, 7],
        "Unpack output did not match expected output"
    );
    assert_eq!(
        unpack5(&[0b001_00000, 0b1_00010_00, 0b0100_0001, 0b00_00101_0]),
        vec![0u8, 1, 2, 3, 4, 5],
        "Unpack output did not match expected output"
    );
    assert_eq!(
        unpack5(&[0b001_00000, 0b1_00010_00, 0b0000_0001]),
        vec![0u8, 1, 2, 3],
        "Unpack output did not match expected output"
    );
    assert_eq!(
        unpack5(&[0b001_00000, 0b0_00010_00]),
        vec![0u8, 1, 2],
        "Unpack output did not match expected output"
    );
    assert_eq!(unpack5(&[0b000_01111]), vec![15u8], "Unpack output did not match expected output");
    assert_eq!(unpack5(&[]), Vec::<u8>::new(), "Unpack output did not match expected output");
}

#[test]
fn pack5_roundtrip() {
    let input = [15u8, 12, 20, 31, 10, 4, 2, 5, 6, 8, 12, 20, 0, 0, 13, 12];

    let mut packed: Vec<u8> = Vec::new();
    let mut pack_input: Vec<u8> = Vec::new();
    pack_input.resize(input.len(), 0);
    pack_input.copy_from_slice(&input);
    pack5(pack_input, &mut packed);

    let unpacked = unpack5(&packed);

    assert_eq!(unpacked, input, "unpack5(pack5(input)) != input");
}

/// The 3-bit size formula is a tight ceiling.
#[test]
fn pack3_size_values() {
    assert_eq!(pack3_size(0), 0);
    assert_eq!(pack3_size(1), 1);
    assert_eq!(pack3_size(2), 1);
    assert_eq!(pack3_size(3), 2);
    assert_eq!(pack3_size(8), 3);
    assert_eq!(pack3_size(9), 4);
}

/// The 5-bit size formula always reserves one spare stride.
#[test]
fn pack5_size_values() {
    assert_eq!(pack5_size(0), 5);
    assert_eq!(pack5_size(1), 5);
    assert_eq!(pack5_size(7), 5);
    assert_eq!(pack5_size(8), 10);
    assert_eq!(pack5_size(16), 15);
}

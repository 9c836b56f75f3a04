use leb128::CONTINUATION_BIT;
use leb128::read;
use leb128::read::Error;
use leb128::write::Sink;

fn unsigned_round_trip_one(v: u64) {
    let mut sink = Sink::new(16);
    let written = leb128::write::unsigned(&mut sink, v).expect("Should write number");
    assert_eq!(written, sink.len());
    let (back, rest) = read::unsigned(sink.data()).expect("Should read number");
    assert_eq!(v, back);
    assert!(rest.is_empty());
}

fn signed_round_trip_one(v: i64) {
    let mut sink = Sink::new(16);
    let written = leb128::write::signed(&mut sink, v).expect("Should write number");
    assert_eq!(written, sink.len());
    let (back, rest) = read::signed(sink.data()).expect("Should read number");
    assert_eq!(v, back);
    assert!(rest.is_empty());
}

#[test]
fn round_trip_unsigned_representatives() {
    for v in [0u64, 1, 127, 128, 129, 255, 256, 12857, u64::MAX, u64::MAX - 1] {
        unsigned_round_trip_one(v);
    }
    // A spread of pseudo-random samples.
    let mut x: u64 = 0x243f6a8885a308d3;
    for _ in 0..1000 {
        x = x.wrapping_mul(6364136223846793005).wrapping_add(1442695040888963407);
        unsigned_round_trip_one(x);
    }
}

#[test]
fn round_trip_signed_representatives() {
    for v in [0i64, -1, 1, 63, 64, -64, -65, i64::MIN, i64::MAX, i64::MIN + 1] {
        signed_round_trip_one(v);
    }
    // The boundary magnitudes where the encoding grows by one byte.
    for shift in [6u32, 13, 20, 27, 34, 41, 48, 55, 62] {
        let b: i64 = 1i64 << shift;
        for v in [b - 1, b, -b, -b - 1] {
            signed_round_trip_one(v);
        }
    }
    let mut x: u64 = 0x13198a2e03707344;
    for _ in 0..1000 {
        x = x.wrapping_mul(6364136223846793005).wrapping_add(1442695040888963407);
        signed_round_trip_one(x as i64);
    }
}

#[test]
fn minimal_length_unsigned() {
    // One byte per seven significant bits, and at least one byte.
    let cases: [(u64, usize); 8] = [
        (0, 1),
        (1, 1),
        (127, 1),
        (128, 2),
        (16383, 2),
        (16384, 3),
        (u64::MAX, 10),
        (1 << 63, 10),
    ];
    for (v, expected) in cases {
        let mut sink = Sink::new(16);
        let written = leb128::write::unsigned(&mut sink, v).expect("Should write number");
        assert_eq!(written, expected);
        let bits = if v == 0 { 0 } else { 64 - v.leading_zeros() as usize };
        let ceil = (bits + 6) / 7;
        assert_eq!(written, if ceil == 0 { 1 } else { ceil });
    }
}

#[test]
fn concatenated_values_read_in_order() {
    let mut sink = Sink::new(32);
    leb128::write::unsigned(&mut sink, 98765).expect("Should write first number");
    leb128::write::unsigned(&mut sink, 0).expect("Should write second number");
    leb128::write::unsigned(&mut sink, u64::MAX).expect("Should write third number");
    let (a, rest) = read::unsigned(sink.data()).expect("Should read first number");
    let (b, rest) = read::unsigned(rest).expect("Should read second number");
    let (c, rest) = read::unsigned(rest).expect("Should read third number");
    assert_eq!(a, 98765);
    assert_eq!(b, 0);
    assert_eq!(c, u64::MAX);
    assert!(rest.is_empty());

    let mut sink = Sink::new(32);
    leb128::write::signed(&mut sink, -12345).expect("Should write first number");
    leb128::write::signed(&mut sink, i64::MIN).expect("Should write second number");
    let (a, rest) = read::signed(sink.data()).expect("Should read first number");
    let (b, rest) = read::signed(rest).expect("Should read second number");
    assert_eq!(a, -12345);
    assert_eq!(b, i64::MIN);
    assert!(rest.is_empty());
}

#[test]
fn unsigned_tenth_group_over_one_bit_overflows() {
    // Ten groups with the continuation bit and payload two, then a clean
    // terminator: the tenth group already exceeds 64 bits.
    let mut buf = [2u8 | CONTINUATION_BIT; 11];
    buf[10] = 0x01;
    match read::unsigned(&buf) {
        Err(Error::Overflow) => {}
        otherwise => panic!("Unexpected: {:?}", otherwise),
    }
}

#[test]
fn signed_tenth_group_must_match_sign() {
    let mut buf = [CONTINUATION_BIT; 10];
    buf[9] = 0x01;
    match read::signed(&buf) {
        Err(Error::Overflow) => {}
        otherwise => panic!("Unexpected: {:?}", otherwise),
    }
    buf[9] = 0x00;
    assert_eq!(0, read::signed(&buf).expect("Should read number").0);
    buf[9] = 0x7f;
    assert_eq!(i64::MIN, read::signed(&buf).expect("Should read number").0);
}

#[test]
fn unsigned_tenth_group_one_bit_reads_high_bit() {
    let mut buf = [CONTINUATION_BIT; 10];
    buf[9] = 0x01;
    assert_eq!(1u64 << 63, read::unsigned(&buf).expect("Should read number").0);
    buf[9] = 0x02;
    match read::unsigned(&buf) {
        Err(Error::Overflow) => {}
        otherwise => panic!("Unexpected: {:?}", otherwise),
    }
}

#[test]
fn non_canonical_padding_is_accepted() {
    // A decoder must accept padded group sequences, not just the minimal
    // ones the encoder emits.
    let buf = [CONTINUATION_BIT, 0x00];
    let (v, rest) = read::unsigned(&buf).expect("Should read number");
    assert_eq!(v, 0);
    assert!(rest.is_empty());

    let buf = [0x7fu8 | CONTINUATION_BIT, 0x7f];
    let (v, _) = read::signed(&buf).expect("Should read number");
    assert_eq!(v, -1);
}

#[test]
fn failed_write_keeps_partial_bytes() {
    // A sink that fills up mid-value keeps the bytes already written.
    let mut sink = Sink::new(1);
    match leb128::write::unsigned(&mut sink, 98765) {
        Err(Error::IoError) => {}
        otherwise => panic!("Unexpected: {:?}", otherwise),
    }
    assert_eq!(sink.len(), 1);

    let mut sink = Sink::new(0);
    match leb128::write::signed(&mut sink, -1) {
        Err(Error::IoError) => {}
        otherwise => panic!("Unexpected: {:?}", otherwise),
    }
    assert_eq!(sink.len(), 0);
}

#[test]
fn write_fits_exactly() {
    // The encoding of 128 takes exactly two bytes.
    let mut sink = Sink::new(2);
    assert_eq!(2, leb128::write::unsigned(&mut sink, 128).expect("Should write number"));
    assert_eq!(sink.data().as_slice(), &[CONTINUATION_BIT, 1]);

    let mut sink = Sink::new(2);
    assert_eq!(2, leb128::write::signed(&mut sink, 128).expect("Should write number"));
    assert_eq!(sink.data().as_slice(), &[CONTINUATION_BIT, 1]);
}

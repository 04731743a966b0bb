use bytes::BytesMut;
use protohackers::cipher::{Codec, Operation, Spec, SpecError};

fn decode_all(codec: &mut Codec, input: &[u8]) -> Result<Vec<u8>, SpecError> {
    let mut buf = BytesMut::from(input);
    let mut out = vec![];
    loop {
        match codec.decode(&mut buf)? {
            Some(b) => out.push(b),
            None => return Ok(out),
        }
    }
}

fn first_error(input: &[u8]) -> SpecError {
    let mut codec = Codec::new();
    decode_all(&mut codec, input).unwrap_err()
}

#[test]
fn test_parse() {
    let mut codec = Codec::new();
    assert_eq!(decode_all(&mut codec, &[0x02, 0x01, 0x01, 0x00]), Ok(vec![]));

    assert_eq!(
        Codec::Complete(Spec(vec![Operation::Xor(0x01), Operation::Reversebits]), 0, 0),
        codec
    );
}

#[test]
fn test_noop_ciphers() {
    assert_eq!(first_error(&[0x00]), SpecError::Invalid(vec![]));

    assert_eq!(
        first_error(&[0x02, 0x00, 0x00]),
        SpecError::Invalid(vec![Operation::Xor(0)])
    );

    assert_eq!(
        first_error(&[0x02, 0xab, 0x02, 0xab, 0x00]),
        SpecError::Invalid(vec![Operation::Xor(0xab), Operation::Xor(0xab)])
    );

    assert_eq!(
        first_error(&[0x01, 0x01, 0x00]),
        SpecError::Invalid(vec![Operation::Reversebits, Operation::Reversebits])
    );

    assert_eq!(
        first_error(&[0x02, 0xa0, 0x02, 0x0b, 0x02, 0xab, 0x00]),
        SpecError::Invalid(vec![
            Operation::Xor(0xa0),
            Operation::Xor(0x0b),
            Operation::Xor(0xab)
        ])
    );
}

fn encode_all(spec: &[u8], data: &[u8]) -> Vec<u8> {
    let mut codec = Codec::new();
    decode_all(&mut codec, spec).unwrap();
    let mut out = BytesMut::new();
    for &b in data {
        codec.encode(b, &mut out).unwrap();
    }
    out.to_vec()
}

#[test]
fn test_encode_1() {
    assert_eq!(
        vec![0x96, 0x26, 0xb6, 0xb6, 0x76],
        encode_all(&[0x02, 0x01, 0x01, 0x00], &[0x68, 0x65, 0x6c, 0x6c, 0x6f])
    );
}

#[test]
fn test_encode_2() {
    assert_eq!(
        vec![0x68, 0x67, 0x70, 0x72, 0x77],
        encode_all(&[0x05, 0x05, 0x00], &[0x68, 0x65, 0x6c, 0x6c, 0x6f])
    );
}

#[test]
fn test_decode_1() {
    let mut codec = Codec::new();
    let out = decode_all(
        &mut codec,
        &[
            0x02, 0x7b, 0x05, 0x01, 0x00, 0xf2, 0x20, 0xba, 0x44, 0x18, 0x84, 0xba, 0xaa, 0xd0,
            0x26, 0x44, 0xa4, 0xa8, 0x7e,
        ],
    )
    .unwrap();
    assert_eq!(b"4x dog,5x car\n".as_slice(), out.as_slice());
}

#[test]
fn test_decode_2() {
    let mut codec = Codec::new();
    let out = decode_all(
        &mut codec,
        &[
            0x02, 0x7b, 0x05, 0x01, 0x00, 0xf2, 0x20, 0xba, 0x44, 0x18, 0x84, 0xba, 0xaa, 0xd0,
            0x26, 0x44, 0xa4, 0xa8, 0x7e, 0x6a, 0x48, 0xd6, 0x58, 0x34, 0x44, 0xd6, 0x7a, 0x98,
            0x4e, 0x0c, 0xcc, 0x94, 0x31,
        ],
    )
    .unwrap();
    assert_eq!(b"3x rat,2x cat\n".as_slice(), &out[14..]);
}

#[test]
fn invalid_opcode_is_refused_then_remembered() {
    let mut codec = Codec::new();
    let mut buf = BytesMut::from(&[0x07u8][..]);
    assert_eq!(codec.decode(&mut buf), Err(SpecError::InvalidOpcode(7)));
    let mut buf = BytesMut::from(&[0x00u8][..]);
    assert_eq!(
        codec.decode(&mut buf),
        Err(SpecError::Previous("Invalid opcode 7".to_string()))
    );
}

#[test]
fn encoding_then_decoding_gives_the_byte_back() {
    let spec = Spec(vec![
        Operation::Xor(0x7b),
        Operation::Addpos,
        Operation::Reversebits,
        Operation::Add(9),
        Operation::Xorpos,
    ]);
    for pos in [0usize, 1, 255, 256, 1000] {
        for v in [0u8, 1, 0x7f, 0x80, 0xff] {
            assert_eq!(spec.decode(pos, spec.encode(pos, v)), v);
        }
    }
    assert!(spec.is_valid());
    assert!(!Spec(vec![Operation::Xor(0)]).is_valid());
}

#[test]
fn encoding_before_the_spec_is_an_error() {
    let mut codec = Codec::new();
    let mut out = BytesMut::new();
    assert_eq!(
        codec.encode(1, &mut out),
        Err(SpecError::Previous("incomplete".to_string()))
    );
}

#[test]
fn default_codec_is_new() {
    assert_eq!(Codec::default(), Codec::new());
}

use sol_abi::errors::Error;
use sol_abi::token::{Token, Value};
use sol_abi::ty::SolType;

fn word_with_last(b: u8) -> Vec<u8> {
    let mut w = vec![0u8; 32];
    w[31] = b;
    w
}

fn uint256(n: u8) -> Value {
    Value::Uint(word_with_last(n))
}

#[test]
fn name_of_uint256_array() {
    let ty = SolType::Array(Box::new(SolType::Uint(256)));
    assert_eq!(ty.sol_type_name(), "uint256[]");
}

#[test]
fn name_of_erc20_args() {
    let ty = SolType::Tuple(vec![SolType::Address, SolType::Uint(256)]);
    assert_eq!(ty.sol_type_name(), "(address,uint256)");
}

#[test]
fn name_of_large_complex_type() {
    let ty = SolType::Tuple(vec![
        SolType::FixedArray(Box::new(SolType::Array(Box::new(SolType::Bool))), 2),
        SolType::Tuple(vec![SolType::FixedBytes(13), SolType::Str]),
    ]);
    assert_eq!(ty.sol_type_name(), "(bool[][2],(bytes13,string))");
}

#[test]
fn name_of_primitives() {
    assert_eq!(SolType::Bool.sol_type_name(), "bool");
    assert_eq!(SolType::Address.sol_type_name(), "address");
    assert_eq!(SolType::Int(8).sol_type_name(), "int8");
    assert_eq!(SolType::Bytes.sol_type_name(), "bytes");
    assert_eq!(SolType::Str.sol_type_name(), "string");
    assert_eq!(SolType::FixedBytes(32).sol_type_name(), "bytes32");
    let ty = SolType::FixedArray(Box::new(SolType::Uint(128)), 12);
    assert_eq!(ty.sol_type_name(), "uint128[12]");
}

#[test]
fn encoded_size_complements_dynamic() {
    let stat = SolType::Tuple(vec![SolType::Bool, SolType::Uint(256)]);
    assert!(!stat.dynamic());
    assert_eq!(stat.encoded_size(), Some(64));
    let dynam = SolType::Tuple(vec![SolType::Bool, SolType::Bytes]);
    assert!(dynam.dynamic());
    assert_eq!(dynam.encoded_size(), None);
}

#[test]
fn tuple_address_uint_scenario() {
    let ty = SolType::Tuple(vec![SolType::Address, SolType::Uint(256)]);
    let v = Value::List(vec![Value::Address(vec![0u8; 20]), uint256(1)]);
    let out = ty.abi_encode_params(&v);
    assert_eq!(out.len(), 64);
    assert_eq!(&out[0..32], &[0u8; 32][..]);
    let mut one = vec![0u8; 32];
    one[31] = 1;
    assert_eq!(&out[32..64], &one[..]);
    let back = ty.abi_decode_params(&out, true).unwrap();
    assert_eq!(back, v);
}

#[test]
fn bool_array_scenario_layout() {
    let ty = SolType::Array(Box::new(SolType::Bool));
    let v = Value::List(vec![Value::Bool(true), Value::Bool(false)]);
    let out = ty.abi_encode(&v);
    // single-element group: one offset word, then length word, then elements
    assert_eq!(out.len(), 128);
    assert_eq!(&out[0..32], &word_with_last(32)[..]);
    assert_eq!(&out[32..64], &word_with_last(2)[..]);
    assert_eq!(&out[64..96], &word_with_last(1)[..]);
    assert_eq!(&out[96..128], &word_with_last(0)[..]);
    let back = ty.abi_decode(&out, true).unwrap();
    assert_eq!(back, v);
}

#[test]
fn bool_array_scenario_invalid_word_fails_type_check() {
    let ty = SolType::Array(Box::new(SolType::Bool));
    let v = Value::List(vec![Value::Bool(true), Value::Bool(false)]);
    let mut out = ty.abi_encode(&v);
    out[127] = 2;  // the word that held `false` now holds 2
    let r = ty.abi_decode(&out, true);
    assert!(matches!(r, Err(Error::TypeCheckFail { .. })));
    // without validation the nonzero word still detokenizes, as true
    let loose = ty.abi_decode(&out, false).unwrap();
    assert_eq!(loose, Value::List(vec![Value::Bool(true), Value::Bool(true)]));
}

#[test]
fn bool_word_with_nonzero_leading_byte_fails_type_check() {
    let mut w = word_with_last(1);
    w[0] = 7;
    let t = Token::Word(w);
    assert!(!SolType::Bool.valid_token(&t));
    let r = SolType::Bool.type_check(&t);
    match r {
        Err(Error::TypeCheckFail { ty_name, .. }) => assert_eq!(ty_name, "bool"),
        _ => panic!("expected a type-check failure"),
    }
}

#[test]
fn uint8_high_bytes_must_be_zero() {
    let mut w = word_with_last(5);
    assert!(SolType::Uint(8).valid_token(&Token::Word(w.clone())));
    w[30] = 1;
    assert!(!SolType::Uint(8).valid_token(&Token::Word(w)));
}

#[test]
fn int8_sign_extension_checked() {
    let mut w = vec![0xffu8; 32];
    assert!(SolType::Int(8).valid_token(&Token::Word(w.clone())));
    w[0] = 0;
    assert!(!SolType::Int(8).valid_token(&Token::Word(w)));
    let pos = word_with_last(5);
    assert!(SolType::Int(8).valid_token(&Token::Word(pos)));
}

#[test]
fn round_trip_primitives() {
    let cases: Vec<(SolType, Value)> = vec![
        (SolType::Bool, Value::Bool(true)),
        (SolType::Bool, Value::Bool(false)),
        (SolType::Uint(256), uint256(77)),
        (SolType::Int(256), Value::Int(vec![0xff; 32])),
        (SolType::Address, Value::Address((1..=20).collect())),
        (SolType::FixedBytes(13), Value::FixedBytes((1..=13).collect())),
        (SolType::Bytes, Value::Bytes(vec![9, 8, 7])),
        (SolType::Str, Value::Str(b"hello".to_vec())),
    ];
    for (ty, v) in cases {
        let out = ty.abi_encode(&v);
        let back = ty.abi_decode(&out, true).unwrap();
        assert_eq!(back, v, "round trip failed for {}", ty.sol_type_name());
    }
}

#[test]
fn round_trip_nested_dynamic() {
    // (bytes, bool[], (string, uint256))
    let ty = SolType::Tuple(vec![
        SolType::Bytes,
        SolType::Array(Box::new(SolType::Bool)),
        SolType::Tuple(vec![SolType::Str, SolType::Uint(256)]),
    ]);
    let v = Value::List(vec![
        Value::Bytes(vec![1, 2, 3, 4, 5]),
        Value::List(vec![Value::Bool(false), Value::Bool(true), Value::Bool(true)]),
        Value::List(vec![Value::Str(b"abi".to_vec()), uint256(42)]),
    ]);
    let out = ty.abi_encode(&v);
    assert_eq!(ty.abi_decode(&out, true).unwrap(), v);
    let params = ty.abi_encode_params(&v);
    assert_eq!(ty.abi_decode_params(&params, true).unwrap(), v);
}

#[test]
fn round_trip_fixed_array_of_arrays() {
    let ty = SolType::FixedArray(Box::new(SolType::Array(Box::new(SolType::Uint(256)))), 2);
    let v = Value::List(vec![
        Value::List(vec![uint256(1)]),
        Value::List(vec![uint256(2), uint256(3)]),
    ]);
    let out = ty.abi_encode(&v);
    assert_eq!(ty.abi_decode(&out, true).unwrap(), v);
}

#[test]
fn round_trip_empty_values() {
    let ty = SolType::Array(Box::new(SolType::Uint(256)));
    let v = Value::List(vec![]);
    let out = ty.abi_encode(&v);
    assert_eq!(out.len(), 64);  // offset word + zero length word
    assert_eq!(ty.abi_decode(&out, true).unwrap(), v);

    let tb = SolType::Bytes;
    let vb = Value::Bytes(vec![]);
    let outb = tb.abi_encode(&vb);
    assert_eq!(tb.abi_decode(&outb, true).unwrap(), vb);
}

#[test]
fn offset_past_buffer_end_is_rejected() {
    let ty = SolType::Bytes;
    // a single head word whose offset points far past the end
    let crafted = word_with_last(64);
    let r = ty.abi_decode(&crafted, true);
    assert!(matches!(r, Err(Error::Overrun)));
}

#[test]
fn huge_offset_word_is_rejected_without_panic() {
    let ty = SolType::Bytes;
    let mut crafted = vec![0u8; 64];
    crafted[0] = 0xff;  // an offset near 2^256
    let r = ty.abi_decode(&crafted, true);
    assert!(matches!(r, Err(Error::Overrun)));
}

#[test]
fn truncated_buffer_is_rejected() {
    let ty = SolType::Tuple(vec![SolType::Uint(256), SolType::Uint(256)]);
    let r = ty.abi_decode_params(&[0u8; 32], true);
    assert!(matches!(r, Err(Error::Overrun)));
    let rb = SolType::Bool.abi_decode(&[], true);
    assert!(matches!(rb, Err(Error::Overrun)));
}

#[test]
fn declared_length_past_end_is_rejected() {
    let ty = SolType::Bytes;
    let mut crafted = vec![0u8; 64];
    crafted[31] = 32;  // offset 32
    crafted[63] = 77;  // length 77, but no content follows
    let r = ty.abi_decode(&crafted, true);
    assert!(matches!(r, Err(Error::Overrun)));
}

#[test]
fn packed_widths() {
    // uint16, address, bool at native widths, no separators
    let ty = SolType::Tuple(vec![SolType::Uint(16), SolType::Address, SolType::Bool]);
    let mut w16 = vec![0u8; 32];
    w16[30] = 1;
    w16[31] = 2;
    let v = Value::List(vec![
        Value::Uint(w16),
        Value::Address(vec![0xaa; 20]),
        Value::Bool(true),
    ]);
    let out = ty.abi_encode_packed(&v);
    assert_eq!(out.len(), 2 + 20 + 1);
    assert_eq!(&out[0..2], &[1, 2]);
    assert_eq!(&out[2..22], &[0xaa; 20][..]);
    assert_eq!(out[22], 1);
}

#[test]
fn packed_array_elements_are_word_padded() {
    let ty = SolType::Array(Box::new(SolType::Bool));
    let v = Value::List(vec![Value::Bool(true), Value::Bool(false)]);
    let out = ty.abi_encode_packed(&v);
    assert_eq!(out.len(), 64);
    assert_eq!(&out[0..32], &word_with_last(1)[..]);
    assert_eq!(&out[32..64], &word_with_last(0)[..]);
}

#[test]
fn packed_dynamic_content_in_place() {
    let ty = SolType::Tuple(vec![SolType::Str, SolType::Bytes]);
    let v = Value::List(vec![Value::Str(b"ab".to_vec()), Value::Bytes(vec![7])]);
    let out = ty.abi_encode_packed(&v);
    assert_eq!(out, vec![b'a', b'b', 7]);
}

#[test]
fn packed_to_appends() {
    let ty = SolType::Bool;
    let mut out = vec![9u8];
    ty.abi_encode_packed_to(&Value::Bool(true), &mut out);
    assert_eq!(out, vec![9, 1]);
}

#[test]
fn eip712_single_word_identity() {
    let v = uint256(99);
    let w = SolType::Uint(256).eip712_data_word(&v);
    assert_eq!(w, word_with_last(99));
    let a = Value::Address(vec![3u8; 20]);
    let wa = SolType::Address.eip712_data_word(&a);
    let mut expect = vec![0u8; 12];
    expect.extend_from_slice(&[3u8; 20]);
    assert_eq!(wa, expect);
}

#[test]
fn eip712_dynamic_content_is_hashed() {
    // Keccak-256 of the empty string, a fixed reference digest
    let expected = [
        0xc5u8, 0xd2, 0x46, 0x01, 0x86, 0xf7, 0x23, 0x3c, 0x92, 0x7e, 0x7d, 0xb2, 0xdc, 0xc7,
        0x03, 0xc0, 0xe5, 0x00, 0xb6, 0x53, 0xca, 0x82, 0x27, 0x3b, 0x7b, 0xfa, 0xd8, 0x04,
        0x5d, 0x85, 0xa4, 0x70,
    ];
    let w = SolType::Bytes.eip712_data_word(&Value::Bytes(vec![]));
    assert_eq!(w, expected.to_vec());
    // the word of a composite is a 32-byte digest, not the raw content
    let arr = SolType::Array(Box::new(SolType::Uint(256)));
    let w2 = arr.eip712_data_word(&Value::List(vec![uint256(1)]));
    assert_eq!(w2.len(), 32);
    assert_ne!(w2, word_with_last(1));
}

#[test]
fn abi_encoded_size_counts_head_and_tail() {
    assert_eq!(SolType::Uint(256).abi_encoded_size(&uint256(5)), 32);
    let arr = SolType::Array(Box::new(SolType::Bool));
    let v = Value::List(vec![Value::Bool(true), Value::Bool(false)]);
    assert_eq!(arr.abi_encoded_size(&v), 96);
    let stat = SolType::Tuple(vec![SolType::Address, SolType::Uint(256)]);
    let sv = Value::List(vec![Value::Address(vec![0; 20]), uint256(1)]);
    assert_eq!(stat.abi_encoded_size(&sv), 64);
}

#[test]
fn check_decode_validates_then_detokenizes() {
    let t = Token::Word(word_with_last(2));
    let r = sol_abi::token_ops::check_decode(&SolType::Bool, &t, true);
    assert!(matches!(r, Err(Error::TypeCheckFail { .. })));
    let r2 = sol_abi::token_ops::check_decode(&SolType::Bool, &t, false);
    assert_eq!(r2.unwrap(), Value::Bool(true));
}

#[test]
fn tokenize_detokenize_inverse() {
    let ty = SolType::Address;
    let v = Value::Address((100..=119).collect());
    let t = ty.tokenize(&v);
    match &t {
        Token::Word(w) => {
            assert_eq!(&w[0..12], &[0u8; 12][..]);
            assert_eq!(&w[12..32], &(100..=119).collect::<Vec<u8>>()[..]);
        },
        _ => panic!("address must tokenize to a word"),
    }
    assert_eq!(ty.detokenize(&t), v);
}

#[test]
fn string_content_encoded_like_bytes() {
    let ty = SolType::Str;
    let v = Value::Str(b"hello world, this is longer than one word".to_vec());
    let out = ty.abi_encode(&v);
    assert_eq!(out.len() % 32, 0);
    assert_eq!(ty.abi_decode(&out, true).unwrap(), v);
}

#[test]
fn uint256_any_word_is_valid() {
    let w = vec![0xffu8; 32];
    assert!(SolType::Uint(256).valid_token(&Token::Word(w.clone())));
    assert!(SolType::Int(256).valid_token(&Token::Word(w)));
}

#[test]
fn address_high_bytes_must_be_zero() {
    let mut w = vec![0u8; 32];
    w[11] = 1;
    assert!(!SolType::Address.valid_token(&Token::Word(w)));
}

#[test]
fn fixed_bytes_trailing_bytes_must_be_zero() {
    let mut w = vec![0u8; 32];
    w[4] = 9;
    assert!(!SolType::FixedBytes(4).valid_token(&Token::Word(w.clone())));
    w[4] = 0;
    w[3] = 9;
    assert!(SolType::FixedBytes(4).valid_token(&Token::Word(w)));
}

#[test]
fn wrong_shape_token_is_invalid() {
    assert!(!SolType::Bool.valid_token(&Token::PackedBytes(vec![1])));
    assert!(!SolType::Bytes.valid_token(&Token::Word(vec![0u8; 32])));
    let pair = SolType::Tuple(vec![SolType::Bool, SolType::Bool]);
    assert!(!pair.valid_token(&Token::FixedSeq(vec![Token::Word(vec![0u8; 32])])));
}

#[test]
fn empty_tuple_encodes_to_nothing() {
    let ty = SolType::Tuple(vec![]);
    let v = Value::List(vec![]);
    let out = ty.abi_encode_params(&v);
    assert!(out.is_empty());
    assert_eq!(ty.abi_decode_params(&out, true).unwrap(), v);
}

#[test]
fn name_of_nested_tuple_singleton() {
    let ty = SolType::Tuple(vec![SolType::Uint(8)]);
    assert_eq!(ty.sol_type_name(), "(uint8)");
}

#[test]
fn fixed_array_as_sequence() {
    let ty = SolType::FixedArray(Box::new(SolType::Uint(256)), 3);
    let v = Value::List(vec![uint256(1), uint256(2), uint256(3)]);
    let out = ty.abi_encode_params(&v);
    assert_eq!(out.len(), 96);
    let back = ty.abi_decode_params(&out, true).unwrap();
    assert_eq!(back, v);
}

#[test]
fn trailing_bytes_are_ignored_by_decode() {
    let ty = SolType::Tuple(vec![SolType::Uint(256)]);
    let mut data = word_with_last(9);
    data.extend_from_slice(&[0u8; 32]);
    let back = ty.abi_decode_params(&data, true).unwrap();
    assert_eq!(back, Value::List(vec![uint256(9)]));
}

#[test]
fn name_of_empty_tuple() {
    assert_eq!(SolType::Tuple(vec![]).sol_type_name(), "()");
}

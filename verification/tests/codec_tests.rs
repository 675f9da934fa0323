use xdr::streams::ReadStreamError;
use xdr::xdr_codec::XdrCodec;

#[test]
fn encoding_u32_300_yields_expected_bytes() {
    assert_eq!(300u32.to_xdr().unwrap(), vec![0x00, 0x00, 0x01, 0x2c]);
}

#[test]
fn decoding_a_three_byte_buffer_as_u32_fails_with_sudden_end() {
    let buffer = vec![0x00, 0x01, 0x2c];
    assert_eq!(
        u32::from_xdr(&buffer),
        Err(ReadStreamError::SuddenEnd { at_position: 3, expected_length: 4 })
    );
}

#[test]
fn integer_round_trips() {
    for v in [0u32, 1, 300, 0xffff_ffff] {
        assert_eq!(u32::from_xdr(&v.to_xdr().unwrap()).unwrap(), v);
    }
    for v in [0i32, 1, -1, i32::MIN, i32::MAX] {
        assert_eq!(i32::from_xdr(&v.to_xdr().unwrap()).unwrap(), v);
    }
    for v in [0u64, 42, u64::MAX] {
        assert_eq!(u64::from_xdr(&v.to_xdr().unwrap()).unwrap(), v);
    }
    for v in [0i64, -42, i64::MIN, i64::MAX] {
        assert_eq!(i64::from_xdr(&v.to_xdr().unwrap()).unwrap(), v);
    }
}

#[test]
fn signed_integers_use_twos_complement_bytes() {
    assert_eq!((-1i32).to_xdr().unwrap(), vec![0xff, 0xff, 0xff, 0xff]);
    assert_eq!((-2i64).to_xdr().unwrap(), vec![0xff; 7].into_iter().chain([0xfe]).collect::<Vec<u8>>());
    assert_eq!(i32::from_xdr(&vec![0x80, 0x00, 0x00, 0x00]).unwrap(), i32::MIN);
}

#[test]
fn boolean_encodes_as_four_byte_discriminant() {
    assert_eq!(false.to_xdr().unwrap(), vec![0, 0, 0, 0]);
    assert_eq!(true.to_xdr().unwrap(), vec![0, 0, 0, 1]);
    assert_eq!(bool::from_xdr(&vec![0, 0, 0, 0]).unwrap(), false);
    assert_eq!(bool::from_xdr(&vec![0, 0, 0, 1]).unwrap(), true);
}

#[test]
fn boolean_rejects_every_other_discriminant() {
    assert_eq!(
        bool::from_xdr(&vec![0, 0, 0, 2]),
        Err(ReadStreamError::InvalidBoolean { found_integer: 2 })
    );
    // The offending integer is reported as read, sign included.
    assert_eq!(
        bool::from_xdr(&vec![0xff, 0xff, 0xff, 0xff]),
        Err(ReadStreamError::InvalidBoolean { found_integer: -1 })
    );
}

#[test]
fn unit_encodes_to_no_bytes() {
    assert_eq!(().to_xdr().unwrap(), Vec::<u8>::new());
    assert_eq!(<()>::from_xdr(&Vec::new()).unwrap(), ());
}

#[test]
fn optional_none_encodes_to_four_zero_bytes() {
    let value: Option<u32> = None;
    assert_eq!(value.to_xdr().unwrap(), vec![0, 0, 0, 0]);
    assert_eq!(Option::<u32>::from_xdr(&vec![0, 0, 0, 0]).unwrap(), None);
}

#[test]
fn optional_some_prefixes_the_value_with_a_one() {
    let value: Option<u32> = Some(300);
    assert_eq!(value.to_xdr().unwrap(), vec![0, 0, 0, 1, 0x00, 0x00, 0x01, 0x2c]);
    assert_eq!(
        Option::<u32>::from_xdr(&vec![0, 0, 0, 1, 0x00, 0x00, 0x01, 0x2c]).unwrap(),
        Some(300)
    );
}

#[test]
fn optional_rejects_every_other_discriminant() {
    assert_eq!(
        Option::<u32>::from_xdr(&vec![0, 0, 0, 2, 0, 0, 0, 0]),
        Err(ReadStreamError::InvalidOptional { at_position: 4, has_code: 2 })
    );
}

#[test]
fn optional_round_trips() {
    for value in [None, Some(7u64)] {
        assert_eq!(Option::<u64>::from_xdr(&value.to_xdr().unwrap()).unwrap(), value);
    }
}

#[test]
fn boxed_value_encodes_exactly_as_its_contents() {
    let boxed: Box<u32> = Box::new(300);
    assert_eq!(boxed.to_xdr().unwrap(), 300u32.to_xdr().unwrap());
    assert_eq!(*Box::<u32>::from_xdr(&vec![0x00, 0x00, 0x01, 0x2c]).unwrap(), 300);
}

#[test]
fn fixed_byte_array_travels_as_one_padded_blob() {
    let value: [u8; 5] = [1, 2, 3, 4, 5];
    // No length prefix; three zero bytes pad the blob to a multiple of four.
    assert_eq!(value.to_xdr().unwrap(), vec![1, 2, 3, 4, 5, 0, 0, 0]);
    assert_eq!(<[u8; 5]>::from_xdr(&vec![1, 2, 3, 4, 5, 0, 0, 0]).unwrap(), value);
}

#[test]
fn fixed_byte_array_of_multiple_of_four_has_no_padding() {
    let value: [u8; 4] = [9, 8, 7, 6];
    assert_eq!(value.to_xdr().unwrap(), vec![9, 8, 7, 6]);
    assert_eq!(<[u8; 4]>::from_xdr(&vec![9, 8, 7, 6]).unwrap(), value);
}

#[test]
fn fixed_array_encodes_elements_back_to_back() {
    let value: [u32; 2] = [1, 300];
    assert_eq!(value.to_xdr().unwrap(), vec![0, 0, 0, 1, 0x00, 0x00, 0x01, 0x2c]);
    assert_eq!(<[u32; 2]>::from_xdr(&vec![0, 0, 0, 1, 0x00, 0x00, 0x01, 0x2c]).unwrap(), value);
}

#[test]
fn fixed_array_decode_fails_fast_on_a_bad_element() {
    // The second boolean carries discriminant 3.
    let buffer = vec![0, 0, 0, 1, 0, 0, 0, 3];
    assert_eq!(
        <[bool; 2]>::from_xdr(&buffer),
        Err(ReadStreamError::InvalidBoolean { found_integer: 3 })
    );
}

#[test]
fn trailing_bytes_fail_with_type_ends_too_early() {
    // A valid u32 encoding followed by one extra byte.
    let buffer = vec![0, 0, 1, 0x2c, 0xaa];
    assert_eq!(
        u32::from_xdr(&buffer),
        Err(ReadStreamError::TypeEndsTooEarly { missing_no_of_bytes: 1 })
    );
    // Three extra bytes after a valid boolean.
    let buffer = vec![0, 0, 0, 1, 1, 2, 3];
    assert_eq!(
        bool::from_xdr(&buffer),
        Err(ReadStreamError::TypeEndsTooEarly { missing_no_of_bytes: 3 })
    );
}

#[test]
fn zero_length_byte_array_occupies_no_bytes() {
    let value: [u8; 0] = [];
    assert_eq!(value.to_xdr().unwrap(), Vec::<u8>::new());
    assert_eq!(<[u8; 0]>::from_xdr(&Vec::new()).unwrap(), value);
}

#[test]
fn optional_propagates_the_inner_failure() {
    // Discriminant 1, then a boolean with discriminant 5.
    let buffer = vec![0, 0, 0, 1, 0, 0, 0, 5];
    assert_eq!(
        Option::<bool>::from_xdr(&buffer),
        Err(ReadStreamError::InvalidBoolean { found_integer: 5 })
    );
    // Discriminant 1 with nothing after it.
    let buffer = vec![0, 0, 0, 1];
    assert_eq!(
        Option::<u32>::from_xdr(&buffer),
        Err(ReadStreamError::SuddenEnd { at_position: 4, expected_length: 8 })
    );
}

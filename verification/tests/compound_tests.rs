use xdr::compound_types::LimitedString;
use xdr::compound_types::LimitedVarArray;
use xdr::compound_types::LimitedVarOpaque;
use xdr::compound_types::UnlimitedVarOpaque;
use xdr::streams::ReadStreamError;
use xdr::xdr_codec::XdrCodec;

#[test]
fn bounded_opaque_of_three_bytes_encodes_with_length_and_padding() {
    let value = LimitedVarOpaque::<4>::new(vec![1, 2, 3]).unwrap();
    assert_eq!(value.to_xdr().unwrap(), vec![0, 0, 0, 3, 1, 2, 3, 0]);
}

#[test]
fn bounded_opaque_length_above_bound_fails_before_the_payload() {
    // Length field 5 against bound 4: rejected on the length alone; no
    // payload bytes are even present in the buffer.
    let buffer = vec![0, 0, 0, 5];
    assert_eq!(
        LimitedVarOpaque::<4>::from_xdr(&buffer),
        Err(ReadStreamError::VarOpaqueExceedsMaxLength {
            at_position: 4,
            max_length: 4,
            actual_length: 5,
        })
    );
}

#[test]
fn bounded_opaque_round_trips() {
    for bytes in [vec![], vec![7], vec![1, 2, 3, 4], vec![1, 2, 3, 4, 5]] {
        let value = LimitedVarOpaque::<8>::new(bytes).unwrap();
        let decoded = LimitedVarOpaque::<8>::from_xdr(&value.to_xdr().unwrap()).unwrap();
        assert_eq!(decoded, value);
    }
}

#[test]
fn bounded_opaque_constructor_enforces_the_bound() {
    assert!(LimitedVarOpaque::<2>::new(vec![1, 2]).is_some());
    assert!(LimitedVarOpaque::<2>::new(vec![1, 2, 3]).is_none());
    let value = LimitedVarOpaque::<2>::new(vec![4, 5]).unwrap();
    assert_eq!(value.get_vec(), &vec![4, 5]);
}

#[test]
fn bounded_opaque_payload_must_fit_the_padded_range() {
    // Length 3 within bound, but only two payload bytes follow.
    let buffer = vec![0, 0, 0, 3, 9, 9];
    assert_eq!(
        LimitedVarOpaque::<4>::from_xdr(&buffer),
        Err(ReadStreamError::SuddenEnd { at_position: 6, expected_length: 8 })
    );
}

#[test]
fn unlimited_opaque_accepts_any_practical_length() {
    let value = UnlimitedVarOpaque::new(vec![0; 1000]).unwrap();
    let encoded = value.to_xdr().unwrap();
    assert_eq!(encoded.len(), 4 + 1000);
    assert_eq!(UnlimitedVarOpaque::from_xdr(&encoded).unwrap(), value);
}

#[test]
fn bounded_string_shares_the_opaque_wire_format() {
    let text = LimitedString::<8>::new(b"hi".to_vec()).unwrap();
    assert_eq!(text.to_xdr().unwrap(), vec![0, 0, 0, 2, b'h', b'i', 0, 0]);
    let opaque = LimitedVarOpaque::<8>::new(b"hi".to_vec()).unwrap();
    assert_eq!(text.to_xdr().unwrap(), opaque.to_xdr().unwrap());
}

#[test]
fn bounded_string_length_above_bound_fails_with_its_own_error() {
    let buffer = vec![0, 0, 0, 9];
    assert_eq!(
        LimitedString::<8>::from_xdr(&buffer),
        Err(ReadStreamError::StringExceedsMaxLength {
            at_position: 4,
            max_length: 8,
            actual_length: 9,
        })
    );
}

#[test]
fn bounded_string_round_trips() {
    let text = LimitedString::<16>::new(b"hello xdr".to_vec()).unwrap();
    let decoded = LimitedString::<16>::from_xdr(&text.to_xdr().unwrap()).unwrap();
    assert_eq!(decoded, text);
    assert_eq!(decoded.get_vec(), &b"hello xdr".to_vec());
}

#[test]
fn bounded_array_encodes_count_then_elements() {
    let value = LimitedVarArray::<u32, 4>::new(vec![1, 300]).unwrap();
    assert_eq!(value.to_xdr().unwrap(), vec![0, 0, 0, 2, 0, 0, 0, 1, 0x00, 0x00, 0x01, 0x2c]);
}

#[test]
fn bounded_array_count_above_bound_fails_before_the_elements() {
    let buffer = vec![0, 0, 0, 5];
    assert_eq!(
        LimitedVarArray::<u32, 4>::from_xdr(&buffer),
        Err(ReadStreamError::VarArrayExceedsMaxLength {
            at_position: 4,
            max_length: 4,
            actual_length: 5,
        })
    );
}

#[test]
fn bounded_array_round_trips() {
    let value = LimitedVarArray::<i64, 8>::new(vec![-1, 0, i64::MAX]).unwrap();
    let decoded = LimitedVarArray::<i64, 8>::from_xdr(&value.to_xdr().unwrap()).unwrap();
    assert_eq!(decoded, value);

    let empty = LimitedVarArray::<u32, 8>::new(vec![]).unwrap();
    let decoded = LimitedVarArray::<u32, 8>::from_xdr(&empty.to_xdr().unwrap()).unwrap();
    assert_eq!(decoded, empty);
}

#[test]
fn bounded_array_decode_fails_fast_on_the_first_bad_element() {
    // Count 2, first boolean fine, second carries discriminant 7.
    let buffer = vec![0, 0, 0, 2, 0, 0, 0, 0, 0, 0, 0, 7];
    assert_eq!(
        LimitedVarArray::<bool, 4>::from_xdr(&buffer),
        Err(ReadStreamError::InvalidBoolean { found_integer: 7 })
    );
}

#[test]
fn bounded_array_decode_count_at_the_bound_is_accepted() {
    let buffer = vec![0, 0, 0, 2, 0, 0, 0, 1, 0, 0, 0, 2];
    let decoded = LimitedVarArray::<u32, 2>::from_xdr(&buffer).unwrap();
    assert_eq!(decoded.get_vec(), &vec![1, 2]);
}

#[test]
fn bounded_array_push_rejects_only_past_the_bound() {
    let mut value = LimitedVarArray::<u32, 2>::new(vec![]).unwrap();
    assert_eq!(value.push(10), Ok(()));
    // The bound itself may be reached by appending, matching what decode
    // accepts.
    assert_eq!(value.push(20), Ok(()));
    assert_eq!(value.push(30), Err(()));
    assert_eq!(value.get_vec(), &vec![10, 20]);
}

#[test]
fn nested_compound_values_round_trip() {
    let inner = LimitedVarOpaque::<8>::new(vec![1, 2, 3]).unwrap();
    let value: Option<Box<LimitedVarOpaque<8>>> = Some(Box::new(inner));
    let encoded = value.to_xdr().unwrap();
    assert_eq!(encoded, vec![0, 0, 0, 1, 0, 0, 0, 3, 1, 2, 3, 0]);
    let decoded = Option::<Box<LimitedVarOpaque<8>>>::from_xdr(&encoded).unwrap();
    assert_eq!(decoded, value);
}

#[test]
fn compound_decode_with_trailing_bytes_fails() {
    let value = LimitedVarOpaque::<4>::new(vec![1, 2, 3]).unwrap();
    let mut encoded = value.to_xdr().unwrap();
    encoded.push(0);
    assert_eq!(
        LimitedVarOpaque::<4>::from_xdr(&encoded),
        Err(ReadStreamError::TypeEndsTooEarly { missing_no_of_bytes: 1 })
    );
}

#[test]
fn bounded_opaque_decode_length_at_the_bound_is_accepted() {
    let buffer = vec![0, 0, 0, 4, 1, 2, 3, 4];
    let decoded = LimitedVarOpaque::<4>::from_xdr(&buffer).unwrap();
    assert_eq!(decoded.get_vec(), &vec![1, 2, 3, 4]);
}

#[test]
fn bounded_array_element_count_is_checked_before_the_elements_are_read() {
    // Count 9 against bound 2, with no element bytes at all: the count alone
    // decides, so the failure is the bound error and not a sudden end.
    let buffer = vec![0, 0, 0, 9];
    assert_eq!(
        LimitedVarArray::<u64, 2>::from_xdr(&buffer),
        Err(ReadStreamError::VarArrayExceedsMaxLength {
            at_position: 4,
            max_length: 2,
            actual_length: 9,
        })
    );
}

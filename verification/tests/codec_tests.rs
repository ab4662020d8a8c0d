use cell_codec::codec::{prepend_dynamic_array, prepend_fixed_array, prepend_value};
use cell_codec::decode::{read_dynamic_array, read_fixed_array, read_value};
use cell_codec::node::{Builder, Cursor};
use cell_codec::value::{type_signature, ElemType, Value};
use cell_codec::{DecodeErrorKind, EncodeError};

fn bits_of(pattern: &str) -> Vec<bool> {
    pattern
        .chars()
        .filter(|c| *c == '0' || *c == '1')
        .map(|c| c == '1')
        .collect()
}

fn bytes_value(xs: &[u8]) -> Vec<Value> {
    xs.iter().map(|x| Value::Byte(*x)).collect()
}

#[test]
fn worked_example_bits() {
    // A dynamic array of 3 one-byte values [1, 2, 3]: 24 payload bits fit
    // inline, so the wire form is tag 10, length 00000011, then the bytes.
    let b = Builder::new();
    let r = prepend_dynamic_array(b, &bytes_value(&[1, 2, 3])).unwrap();
    let node = r.finalize();
    assert_eq!(
        node.bits(),
        &bits_of("10 00000011 00000001 00000010 00000011")
    );
    assert_eq!(node.child_count(), 0);
}

#[test]
fn worked_example_decode() {
    let b = Builder::new();
    let r = prepend_dynamic_array(b, &bytes_value(&[1, 2, 3])).unwrap();
    let cur = Cursor::over(r.finalize());
    let (vals, after) = read_dynamic_array(cur, &ElemType::Byte).unwrap();
    assert_eq!(vals, bytes_value(&[1, 2, 3]));
    // The cursor sits exactly after the last element bit.
    assert_eq!(after.bits_left(), 0);
    assert_eq!(after.refs_left(), 0);
}

#[test]
fn size_fidelity_inline() {
    // Bits written on the inline path equal the in-place size estimate.
    let v = Value::Dyn(bytes_value(&[1, 2, 3]));
    assert_eq!(v.in_place_size(), 34);
    let b = Builder::new();
    let r = prepend_value(b, &v).unwrap();
    assert_eq!(r.bits_used(), 34);
}

#[test]
fn size_estimate_of_oversized_array_is_tag_only() {
    // 128 bytes are 1024 payload bits + 8 length bits > 1023: only the
    // 2-bit branch tag is ever written inline.
    let v = Value::Dyn(bytes_value(&vec![7u8; 128]));
    assert_eq!(v.in_place_size(), 2);
}

#[test]
fn boundary_255_inlines() {
    let elems: Vec<Value> = (0..255).map(|_| Value::Bool(true)).collect();
    let b = Builder::new();
    let r = prepend_dynamic_array(b, &elems).unwrap();
    // tag + length + 255 single-bit elements, all inline: no child.
    assert_eq!(r.bits_used(), 2 + 8 + 255);
    assert_eq!(r.child_count(), 0);
}

#[test]
fn boundary_256_is_forced_to_branch() {
    // 256 single-bit elements would fit the node's bits, but the one-byte
    // length prefix cannot say 256: the placement is a branch spill, and the
    // spill reports the overflow since the child needs the length too.
    let elems: Vec<Value> = (0..256).map(|_| Value::Bool(true)).collect();
    let b = Builder::new();
    let r = prepend_dynamic_array(b, &elems);
    let e = match r {
        Err(e) => e,
        Ok(_) => panic!("expected an error"),
    };
    assert_eq!(e, EncodeError::LengthOverflow);
}

#[test]
fn fixed_array_has_no_length_bound() {
    // A fixed array of 256 booleans has no length prefix and fits inline.
    let elems: Vec<Value> = (0..256).map(|i| Value::Bool(i % 3 == 0)).collect();
    let b = Builder::new();
    let r = prepend_fixed_array(b, &elems).unwrap();
    assert_eq!(r.bits_used(), 2 + 256);
    let (vals, after) = read_fixed_array(Cursor::over(r.finalize()), &ElemType::Bool, 256).unwrap();
    assert_eq!(vals, elems);
    assert_eq!(after.bits_left(), 0);
}

#[test]
fn spill_once_round_trip() {
    // 120 bytes: 968 payload bits + 8 + 2 exceed nothing on their own, but
    // on a destination already holding bits they spill into a child node.
    let filler: Vec<Value> = (0..100).map(|_| Value::Bool(false)).collect();
    let b = Builder::new();
    let b = prepend_fixed_array(b, &filler).unwrap();
    let payload = bytes_value(&(0..120).map(|i| i as u8).collect::<Vec<u8>>());
    let b = prepend_dynamic_array(b, &payload).unwrap();
    assert_eq!(b.child_count(), 1);
    let cur = Cursor::over(b.finalize());
    let (vals, after) = read_dynamic_array(cur, &ElemType::Byte).unwrap();
    assert_eq!(vals, payload);
    // Only the tag was consumed from the parent's bits; the filler remains.
    assert_eq!(after.bits_left(), 2 + 100);
    assert_eq!(after.refs_left(), 0);
}

#[test]
fn nested_spill_two_levels() {
    // An array of two arrays of 120 bytes each: the outer cannot fit any
    // node inline, so it spills; inside the spilled node the two inner
    // arrays cannot both fit, so one spills again: a tree two levels deep.
    let outer = vec![
        Value::Dyn(bytes_value(&vec![5u8; 120])),
        Value::Dyn(bytes_value(&vec![9u8; 120])),
    ];
    let expected = vec![
        Value::Dyn(bytes_value(&vec![5u8; 120])),
        Value::Dyn(bytes_value(&vec![9u8; 120])),
    ];
    let b = Builder::new();
    let b = prepend_dynamic_array(b, &outer).unwrap();
    assert_eq!(b.bits_used(), 2);
    assert_eq!(b.child_count(), 1);
    let cur = Cursor::over(b.finalize());
    let (vals, after) = read_dynamic_array(cur, &ElemType::Dyn(Box::new(ElemType::Byte))).unwrap();
    assert_eq!(vals, expected);
    assert_eq!(after.bits_left(), 0);
    assert_eq!(after.refs_left(), 0);
}

#[test]
fn capacity_exhaustion_on_fifth_spill() {
    // Four spilled arrays fill the reference slots; the fifth fails.
    let big = bytes_value(&vec![1u8; 120]);
    let mut b = Builder::new();
    // Fill most of the node so each dynamic array must spill.
    let filler: Vec<Value> = (0..900).map(|_| Value::Bool(true)).collect();
    b = prepend_fixed_array(b, &filler).unwrap();
    for _ in 0..4 {
        b = prepend_dynamic_array(b, &big).unwrap();
    }
    assert_eq!(b.child_count(), 4);
    let r = prepend_dynamic_array(b, &big);
    let e = match r {
        Err(e) => e,
        Ok(_) => panic!("expected an error"),
    };
    assert_eq!(e, EncodeError::CapacityExceeded);
}

#[test]
fn scalar_round_trip() {
    let b = Builder::new();
    let b = prepend_value(b, &Value::Byte(0xA5)).unwrap();
    let b = prepend_value(b, &Value::Bool(true)).unwrap();
    let cur = Cursor::over(b.finalize());
    let (v1, cur) = read_value(cur, &ElemType::Bool).unwrap();
    let (v2, cur) = read_value(cur, &ElemType::Byte).unwrap();
    assert_eq!(v1, Value::Bool(true));
    assert_eq!(v2, Value::Byte(0xA5));
    assert_eq!(cur.bits_left(), 0);
}

#[test]
fn empty_dynamic_array_round_trip() {
    let b = Builder::new();
    let b = prepend_dynamic_array(b, &Vec::new()).unwrap();
    assert_eq!(b.bits_used(), 10);
    let (vals, after) = read_dynamic_array(Cursor::over(b.finalize()), &ElemType::Byte).unwrap();
    assert_eq!(vals, Vec::<Value>::new());
    assert_eq!(after.bits_left(), 0);
}

#[test]
fn fixed_of_fixed_round_trip() {
    let inner_ty = ElemType::Fixed(Box::new(ElemType::Bool), 3);
    let mk = |a: bool, b: bool, c: bool| {
        Value::Fixed(vec![Value::Bool(a), Value::Bool(b), Value::Bool(c)])
    };
    let outer = vec![mk(true, false, true), mk(false, false, true)];
    let b = Builder::new();
    let b = prepend_fixed_array(b, &outer).unwrap();
    let (vals, after) = read_fixed_array(Cursor::over(b.finalize()), &inner_ty, 2).unwrap();
    assert_eq!(vals, outer);
    assert_eq!(after.bits_left(), 0);
}

#[test]
fn malformed_tag_is_rejected() {
    let b = Builder::new();
    let b = b.prepend_bit(true).unwrap();
    let b = b.prepend_bit(true).unwrap();
    let r = read_dynamic_array(Cursor::over(b.finalize()), &ElemType::Byte);
    let e = match r {
        Err(e) => e,
        Ok(_) => panic!("expected an error"),
    };
    assert_eq!(e.kind, DecodeErrorKind::MalformedTag);
}

#[test]
fn truncated_input_is_rejected() {
    // Inline tag and length announce 3 bytes, but only one byte follows.
    let b = Builder::new();
    let b = b.prepend_u8(1).unwrap();
    let b = b.prepend_u8(3).unwrap();
    let b = b.prepend_bit(false).unwrap();
    let b = b.prepend_bit(true).unwrap();
    let r = read_dynamic_array(Cursor::over(b.finalize()), &ElemType::Byte);
    let err = match r {
        Err(e) => e,
        Ok(_) => panic!("expected an error"),
    };
    assert_eq!(err.kind, DecodeErrorKind::Truncated);
    assert_eq!(err.element, Some(1));
}

#[test]
fn branch_without_child_is_rejected() {
    let b = Builder::new();
    let b = b.prepend_bit(false).unwrap();
    let b = b.prepend_bit(false).unwrap();
    let r = read_dynamic_array(Cursor::over(b.finalize()), &ElemType::Byte);
    let e = match r {
        Err(e) => e,
        Ok(_) => panic!("expected an error"),
    };
    assert_eq!(e.kind, DecodeErrorKind::MissingChild);
}

#[test]
fn builder_capacity_is_enforced() {
    let b = Builder::new();
    assert_eq!(b.bits_capacity(), 1023);
    let too_many = vec![true; 1024];
    let r = b.prepend_raw(too_many);
    let e = match r {
        Err(e) => e,
        Ok(_) => panic!("expected an error"),
    };
    assert_eq!(e, EncodeError::CapacityExceeded);
}

#[test]
fn element_order_is_kept() {
    // Element i immediately follows element i - 1, with no padding.
    let b = Builder::new();
    let r = prepend_fixed_array(b, &bytes_value(&[0xAB, 0xCD])).unwrap();
    let node = r.finalize();
    assert_eq!(node.bits(), &bits_of("10 10101011 11001101"));
}

#[test]
fn type_signatures_are_canonical() {
    assert_eq!(type_signature(&ElemType::Bool), "bool");
    assert_eq!(type_signature(&ElemType::Byte), "uint8");
    assert_eq!(
        type_signature(&ElemType::Dyn(Box::new(ElemType::Byte))),
        "uint8[]"
    );
    assert_eq!(
        type_signature(&ElemType::Fixed(Box::new(ElemType::Bool), 5)),
        "bool[5]"
    );
    assert_eq!(
        type_signature(&ElemType::Fixed(
            Box::new(ElemType::Dyn(Box::new(ElemType::Byte))),
            255
        )),
        "uint8[][255]"
    );
}

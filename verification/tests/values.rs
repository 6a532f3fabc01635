use smug::value::Value;
use smug::Error;

#[test]
fn type_codes() {
    assert_eq!(Value::default_from_letter('b'), Ok(Value::U8(0)));
    assert_eq!(Value::default_from_letter('w'), Ok(Value::U16(0)));
    assert_eq!(Value::default_from_letter('d'), Ok(Value::U32(0)));
    assert_eq!(Value::default_from_letter('q'), Ok(Value::U64(0)));
    assert_eq!(Value::default_from_letter('B'), Ok(Value::I8(0)));
    assert_eq!(Value::default_from_letter('W'), Ok(Value::I16(0)));
    assert_eq!(Value::default_from_letter('D'), Ok(Value::I32(0)));
    assert_eq!(Value::default_from_letter('Q'), Ok(Value::I64(0)));
    assert_eq!(Value::default_from_letter('f'), Ok(Value::F32(0)));
    assert_eq!(Value::default_from_letter('F'), Ok(Value::F64(0)));
    assert_eq!(Value::default_from_letter('x'), Err(Error::UnknownTypeCode));
    assert_eq!(Value::default_from_letter('c'), Err(Error::UnknownTypeCode));
}

#[test]
fn widths() {
    assert_eq!(Value::U8(0).bytes(), 1);
    assert_eq!(Value::U16(0).bytes(), 2);
    assert_eq!(Value::U32(0).bytes(), 4);
    assert_eq!(Value::U64(0).bytes(), 8);
    assert_eq!(Value::I8(0).bytes(), 1);
    assert_eq!(Value::I64(0).bytes(), 8);
    assert_eq!(Value::F32(0).bytes(), 4);
    assert_eq!(Value::F64(0).bytes(), 8);
    assert_eq!(Value::U8(0).display(), 2);
    assert_eq!(Value::U64(0).display(), 16);
    assert_eq!(Value::I8(0).display(), 4);
    assert_eq!(Value::F64(0).display(), 25);
}

#[test]
fn round_trip_every_variant() {
    let samples = vec![
        Value::F32(0x3f80_0000),           // the bits of 1.0f32
        Value::F64(0x3ff0_0000_0000_0000), // the bits of 1.0f64
        Value::U8(0xab),
        Value::U16(0xabcd),
        Value::U32(0xdead_beef),
        Value::U64(0x0123_4567_89ab_cdef),
        Value::I8(-5),
        Value::I16(-1234),
        Value::I32(i32::MIN),
        Value::I64(-987_654_321),
    ];
    for v in samples {
        let bytes = v.encode_le();
        assert_eq!(bytes.len(), v.bytes());
        let back = Value::decode_le(v, bytes.as_slice());
        assert_eq!(back, v);
    }
}

#[test]
fn little_endian_layout() {
    assert_eq!(Value::U32(0x0403_0201).encode_le(), vec![1, 2, 3, 4]);
    let mut v = Value::U16(0);
    v.from_le_bytes(&[0x34, 0x12]);
    assert_eq!(v, Value::U16(0x1234));
    let mut w = Value::I8(0);
    w.from_le_bytes(&[0xff]);
    assert_eq!(w, Value::I8(-1));
}

#[test]
fn update_from_token() {
    let mut v = Value::U8(0);
    assert_eq!(v.update_str(b"200"), Ok(()));
    assert_eq!(v, Value::U8(200));
    assert_eq!(v.update_str(b"256"), Err(Error::ParseUnsigned));
    assert_eq!(v, Value::U8(200));
    let mut s = Value::I16(0);
    assert_eq!(s.update_str(b"-32768"), Ok(()));
    assert_eq!(s, Value::I16(i16::MIN));
    assert_eq!(s.update_str(b"40000"), Err(Error::ParseSigned));
    let mut q = Value::U64(0);
    assert_eq!(q.update_str(b"0xdeadbeef"), Ok(()));
    assert_eq!(q, Value::U64(0xdead_beef));
    let mut f = Value::F32(0);
    assert_eq!(f.update_str(b"1"), Err(Error::ParseFloat));
}

#[test]
fn widening_to_u64() {
    assert_eq!(Value::U8(0xff).as_u64(), 0xff);
    assert_eq!(Value::I8(-1).as_u64(), u64::MAX);
    assert_eq!(Value::I32(-2).as_u64(), 0xffff_ffff_ffff_fffe);
    assert_eq!(Value::F32(0x3f80_0000).as_u64(), 0x3f80_0000);
    assert_eq!(Value::U64(7).as_u64(), 7);
}

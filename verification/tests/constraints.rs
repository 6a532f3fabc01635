use smug::constraint::{CmpKind, Constraint};
use smug::value::Value;
use smug::Error;

fn parse(tok: &[u8], kind: Value) -> Constraint {
    Constraint::from_str_value(tok, kind).unwrap()
}

#[test]
fn constraint_grammar() {
    let k = Value::U32(0);
    assert_eq!(
        parse(b"=100", k),
        Constraint::Compare { op: CmpKind::Equal, operand: Value::U32(100) }
    );
    assert_eq!(
        parse(b"100", k),
        Constraint::Compare { op: CmpKind::Equal, operand: Value::U32(100) }
    );
    assert_eq!(
        parse(b"!7", k),
        Constraint::Compare { op: CmpKind::NotEqual, operand: Value::U32(7) }
    );
    assert_eq!(
        parse(b">=0x10", k),
        Constraint::Compare { op: CmpKind::GreaterEq, operand: Value::U32(16) }
    );
    assert_eq!(
        parse(b"<5", k),
        Constraint::Compare { op: CmpKind::Less, operand: Value::U32(5) }
    );
    assert_eq!(
        parse(b"10..20", k),
        Constraint::Within { lo: Value::U32(10), hi: Value::U32(20) }
    );
    assert_eq!(parse(b"+", k), Constraint::Increased);
    assert_eq!(parse(b"-", k), Constraint::Decreased);
    assert_eq!(parse(b"=", k), Constraint::Unchanged);
    assert_eq!(parse(b"!", k), Constraint::Changed);
    assert_eq!(parse(b"+5", k), Constraint::IncreasedBy { delta: Value::U32(5) });
    assert_eq!(parse(b"-5", k), Constraint::DecreasedBy { delta: Value::U32(5) });
    assert_eq!(
        Constraint::from_str_value(b"=abc", k),
        Err(Error::ParseUnsigned)
    );
}

#[test]
fn constraint_list_parsing() {
    let k = Value::U16(0);
    let toks = vec![b">10".to_vec(), b"<100".to_vec()];
    let cs = Constraint::parse_constraints(&toks, k).unwrap();
    assert_eq!(cs.len(), 2);
    assert_eq!(
        Constraint::parse_constraints(&Vec::new(), k),
        Err(Error::MissingArgument)
    );
    let bad = vec![b">10".to_vec(), b"zz!".to_vec()];
    assert!(Constraint::parse_constraints(&bad, k).is_err());
}

#[test]
fn literal_comparisons() {
    let eq100 = parse(b"=100", Value::U32(0));
    assert!(eq100.check(Value::U32(100), None));
    assert!(!eq100.check(Value::U32(101), None));
    let lt = parse(b"<5", Value::I32(0));
    assert!(lt.check(Value::I32(-10), None));
    assert!(!lt.check(Value::I32(5), None));
    let range = parse(b"10..20", Value::U8(0));
    assert!(range.check(Value::U8(10), None));
    assert!(range.check(Value::U8(20), None));
    assert!(!range.check(Value::U8(21), None));
}

#[test]
fn increased_by_exactly_five() {
    // a value that was 100 and is now 105 increased by five
    let c = parse(b"+5", Value::U32(0));
    assert!(c.check(Value::U32(105), Some(Value::U32(100))));
    // a value that is now 106 did not increase by five
    assert!(!c.check(Value::U32(106), Some(Value::U32(100))));
    // without a prior reading the delta forms never hold
    assert!(!c.check(Value::U32(105), None));
}

#[test]
fn delta_and_change_forms() {
    let inc = parse(b"+", Value::I8(0));
    assert!(inc.check(Value::I8(-3), Some(Value::I8(-5))));
    assert!(!inc.check(Value::I8(-5), Some(Value::I8(-3))));
    let dec5 = parse(b"-5", Value::I8(0));
    assert!(dec5.check(Value::I8(0), Some(Value::I8(5))));
    assert!(!dec5.check(Value::I8(1), Some(Value::I8(5))));
    let chg = parse(b"!", Value::U64(0));
    assert!(chg.check(Value::U64(1), Some(Value::U64(2))));
    assert!(!chg.check(Value::U64(2), Some(Value::U64(2))));
    let same = parse(b"=", Value::U64(0));
    assert!(same.check(Value::U64(2), Some(Value::U64(2))));
}

#[test]
fn signed_ordering_uses_signed_keys() {
    let gt = parse(b">-5", Value::I32(0));
    assert!(gt.check(Value::I32(0), None));
    assert!(!gt.check(Value::I32(-6), None));
}

#[test]
fn float_constraints_via_bits() {
    // the embedder parses float literals and hands over the bits:
    // 1.5f32 = 0x3FC00000, 2.5f32 = 0x40200000
    let c = Constraint::Compare { op: CmpKind::Greater, operand: Value::F32(0x3fc0_0000) };
    assert!(c.valid_for(&Value::F32(0)));
    assert!(c.check(Value::F32(0x4020_0000), None));
    assert!(!c.check(Value::F32(0x3fc0_0000), None));
    // a negative float sorts below a positive one in the total order
    // -1.0f32 = 0xBF800000
    assert!(!c.check(Value::F32(0xbf80_0000), None));
    // exact-delta constraints are not available on float kinds
    let d = Constraint::IncreasedBy { delta: Value::F32(0) };
    assert!(!d.valid_for(&Value::F32(0)));
    assert_eq!(
        Constraint::from_str_value(b"=1.5", Value::F32(0)),
        Err(Error::ParseFloat)
    );
}

#[test]
fn conjunction_of_constraints() {
    let k = Value::U8(0);
    let cs = vec![parse(b">10", k), parse(b"<20", k)];
    assert!(Constraint::check_all(&cs, Value::U8(15), None));
    assert!(!Constraint::check_all(&cs, Value::U8(25), None));
    assert!(!Constraint::check_all(&cs, Value::U8(5), None));
    assert!(Constraint::check_all(&Vec::new(), Value::U8(0), None));
}

use bytevm::opcode::OpCode;
use bytevm::value::{ObjectPtr, Value};

#[test]
fn opcode_bytes_are_the_stable_enumeration() {
    assert_eq!(OpCode::Return.byte(), 0);
    assert_eq!(OpCode::Goto.byte(), 1);
    assert_eq!(OpCode::GotoIf.byte(), 2);
    assert_eq!(OpCode::Load.byte(), 3);
    assert_eq!(OpCode::Store.byte(), 4);
    assert_eq!(OpCode::ImmI.byte(), 5);
    assert_eq!(OpCode::ImmF.byte(), 6);
    assert_eq!(OpCode::ImmW.byte(), 7);
    assert_eq!(OpCode::AddI.byte(), 8);
    assert_eq!(OpCode::SubI.byte(), 9);
    assert_eq!(OpCode::MulI.byte(), 10);
    assert_eq!(OpCode::DivI.byte(), 11);
    assert_eq!(OpCode::CmpEqI.byte(), 12);
    assert_eq!(OpCode::CmpGtI.byte(), 13);
    assert_eq!(OpCode::CmpGeI.byte(), 14);
    assert_eq!(OpCode::CmpLtI.byte(), 15);
    assert_eq!(OpCode::CmpLeI.byte(), 16);
    assert_eq!(OpCode::ImmIByte.byte(), 17);
    assert_eq!(OpCode::ImmIShort.byte(), 18);
    assert_eq!(OpCode::LoadConst.byte(), 19);
    assert_eq!(OpCode::LoadGlobal.byte(), 20);
    assert_eq!(OpCode::Call.byte(), 21);
    assert_eq!(OpCode::NegI.byte(), 22);
}

#[test]
fn every_opcode_decodes_from_its_own_byte() {
    for b in 0..=22u8 {
        let op = OpCode::decode(b).unwrap();
        assert_eq!(op.byte(), b);
    }
}

#[test]
fn bytes_outside_the_enumeration_do_not_decode() {
    for b in 23..=255u8 {
        assert_eq!(OpCode::decode(b), None);
    }
}

#[test]
fn value_yields_its_object_pointer_only_for_references() {
    let p = ObjectPtr::new(5);
    assert_eq!(Value::ObjectPtr(p).get_object_ptr(), Some(p));
    assert_eq!(Value::Integer(5).get_object_ptr(), None);
    assert_eq!(Value::Word(5).get_object_ptr(), None);
    assert_eq!(Value::Char('x').get_object_ptr(), None);
    assert_eq!(Value::Float(5).get_object_ptr(), None);
}

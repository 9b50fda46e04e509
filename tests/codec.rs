use regvm::{decode, encode, DecodeError, Instruction};

fn every_variant() -> Vec<Instruction> {
    vec![
        Instruction::MOV(1, 2),
        Instruction::MOVI(u64::MAX, 3),
        Instruction::PUSH(4),
        Instruction::POP(5),
        Instruction::JMP(0x0102_0304_0506_0708),
        Instruction::OUTPUT(0xBEEF),
        Instruction::HALT(),
    ]
}

#[test]
fn empty_program_bytes() {
    assert_eq!(encode(&vec![]), vec![0u8; 8]);
    assert_eq!(decode(&vec![0u8; 8]), Ok(vec![]));
}

#[test]
fn exact_layout() {
    let bytes = encode(&vec![Instruction::MOVI(100, 0), Instruction::OUTPUT(0x0102), Instruction::HALT()]);
    let mut expected = vec![3, 0, 0, 0, 0, 0, 0, 0];
    expected.extend_from_slice(&[1, 0, 0, 0]);
    expected.extend_from_slice(&[100, 0, 0, 0, 0, 0, 0, 0]);
    expected.extend_from_slice(&[0; 8]);
    expected.extend_from_slice(&[5, 0, 0, 0, 0x02, 0x01]);
    expected.extend_from_slice(&[6, 0, 0, 0]);
    assert_eq!(bytes, expected);
}

#[test]
fn round_trip_every_variant() {
    let program = every_variant();
    let bytes = encode(&program);
    assert_eq!(bytes.len(), 8 + 20 + 20 + 12 + 12 + 12 + 6 + 4);
    assert_eq!(decode(&bytes), Ok(program.clone()));
    assert_eq!(encode(&program), bytes);
}

#[test]
fn truncated_input() {
    assert_eq!(decode(&vec![]), Err(DecodeError::Truncated));
    assert_eq!(decode(&vec![1, 0, 0, 0, 0, 0, 0]), Err(DecodeError::Truncated));
    let bytes = encode(&every_variant());
    for cut in 0..bytes.len() {
        assert_eq!(decode(&bytes[..cut].to_vec()), Err(DecodeError::Truncated));
    }
}

#[test]
fn count_larger_than_contents() {
    let mut bytes = encode(&vec![Instruction::HALT()]);
    bytes[0] = 2;
    assert_eq!(decode(&bytes), Err(DecodeError::Truncated));
}

#[test]
fn unknown_tag() {
    let mut bytes = encode(&vec![Instruction::HALT()]);
    bytes[8] = 7;
    assert_eq!(decode(&bytes), Err(DecodeError::UnknownTag));
    bytes[8] = 6;
    bytes[11] = 1;
    assert_eq!(decode(&bytes), Err(DecodeError::UnknownTag));
}

#[test]
fn trailing_bytes() {
    let mut bytes = encode(&every_variant());
    bytes.push(0);
    assert_eq!(decode(&bytes), Err(DecodeError::TrailingBytes));
    let mut bytes = encode(&vec![Instruction::HALT()]);
    bytes[0] = 0;
    assert_eq!(decode(&bytes), Err(DecodeError::TrailingBytes));
}

use exec8::assembler::{assemble, data_value, AsmError};
use exec8::cpu::{run_program, CpuState, Stop};
use exec8::word::{
    address_of, encode_link, encode_plain, mask_word, opcode_of, operand_of, register_of, OP_ADD,
    OP_HLT, OP_LDA, OP_LMJ, OP_STA,
};

const SCENARIO: &str = "START: LDA VAL\n       ADD VAL\n       STA RESULT\n       HLT\nVAL:   DEC 5\nRESULT: DEC 0\n";

#[test]
fn scenario_assembles_to_six_words() {
    let words = assemble(SCENARIO).unwrap();
    let octal: Vec<String> = words.iter().map(|w| format!("{:012o}", w)).collect();
    assert_eq!(
        octal,
        vec![
            "100000000004",
            "101000000004",
            "102000000005",
            "777000000000",
            "000000000005",
            "000000000000"
        ]
    );
}

#[test]
fn scenario_runs_to_ten() {
    let mut memory = assemble(SCENARIO).unwrap();
    let mut state = CpuState::new();
    let report = run_program(&mut memory, &mut state, 1000);
    assert_eq!(report.stop, Stop::Halted);
    assert_eq!(report.steps, 4);
    assert_eq!(state.acc, 10);
    assert_eq!(memory[5], 10);
}

#[test]
fn label_on_its_own_line_binds_next_word() {
    let src = "  JMP HERE\n; comment only\nHERE:\n\n  HLT\n";
    let words = assemble(src).unwrap();
    assert_eq!(words, vec![0o103_000_000_001, 0o777_000_000_000]);
}

#[test]
fn label_resolves_to_first_word_after_it() {
    let src = "LDA DATA\nHLT\n// note\nDATA: DEC 7\n";
    let words = assemble(src).unwrap();
    assert_eq!(words.len(), 3);
    assert_eq!(words[0] & 0o777_777_777, 2);
    assert_eq!(words[2], 7);
}

#[test]
fn numeric_operand_and_missing_operand() {
    let words = assemble("lda 12 ; load\nsta\n").unwrap();
    assert_eq!(words, vec![0o100_000_000_014, 0o102_000_000_000]);
}

#[test]
fn operand_is_masked_to_27_bits() {
    let words = assemble("JMP 134217729").unwrap();
    assert_eq!(words, vec![0o103_000_000_001]);
}

#[test]
fn link_and_jump_encoding() {
    let words = assemble("LMJ 3, SUB\nHLT\nSUB: JMP 0\n").unwrap();
    assert_eq!(words[0], (0o106u64 << 27) | (3 << 23) | 2);
    assert_eq!(opcode_of(words[0]), OP_LMJ);
    assert_eq!(register_of(words[0]), 3);
    assert_eq!(address_of(words[0]), 2);
}

#[test]
fn data_directive_negative_value_wraps() {
    assert_eq!(assemble("DEC -1").unwrap(), vec![0o777_777_777_777]);
    assert_eq!(assemble("DEC +9").unwrap(), vec![9]);
    assert_eq!(data_value(-1), 0o777_777_777_777);
    assert_eq!(data_value(i64::MIN), 0);
    assert_eq!(data_value(1 << 40), 0);
    assert_eq!(data_value(0o1_000_000_000_005), 5);
}

#[test]
fn empty_source_gives_no_words() {
    assert_eq!(assemble("").unwrap(), Vec::<u64>::new());
    assert_eq!(assemble("\n   \n; x\n").unwrap(), Vec::<u64>::new());
}

#[test]
fn duplicate_label_last_wins() {
    let words = assemble("A: HLT\nA: HLT\nJMP A\n").unwrap();
    assert_eq!(words[2], 0o103_000_000_001);
}

#[test]
fn error_unknown_mnemonic() {
    assert_eq!(assemble("FOO 1"), Err(AsmError::UnknownMnemonic("FOO".to_string())));
}

#[test]
fn error_missing_value() {
    assert_eq!(assemble("X: DEC"), Err(AsmError::MissingValue));
}

#[test]
fn error_invalid_value() {
    assert_eq!(assemble("DEC 1x"), Err(AsmError::InvalidValue("1x".to_string())));
    assert_eq!(
        assemble("DEC 9223372036854775808"),
        Err(AsmError::InvalidValue("9223372036854775808".to_string()))
    );
}

#[test]
fn error_missing_operands() {
    assert_eq!(assemble("LMJ 1,X"), Err(AsmError::MissingOperands));
}

#[test]
fn error_invalid_register() {
    assert_eq!(assemble("LMJ r1, 5"), Err(AsmError::InvalidRegister("r1".to_string())));
}

#[test]
fn error_unresolved_operand() {
    assert_eq!(assemble("LDA NOWHERE"), Err(AsmError::UnresolvedOperand("NOWHERE".to_string())));
    assert_eq!(assemble("LMJ 1, -4"), Err(AsmError::UnresolvedOperand("-4".to_string())));
}

#[test]
fn first_error_wins() {
    assert_eq!(assemble("LDA X\nFOO\n"), Err(AsmError::UnresolvedOperand("X".to_string())));
}

#[test]
fn encode_round_trip() {
    for (op, operand) in [(OP_LDA, 0u64), (OP_ADD, 0o777_777_777), (OP_STA, 12345), (OP_HLT, 1)] {
        let w = encode_plain(op, operand);
        assert_eq!(opcode_of(w), op);
        assert_eq!(operand_of(w), operand);
    }
    let w = encode_link(OP_LMJ, 15, 0o777_777);
    assert_eq!((opcode_of(w), register_of(w), address_of(w)), (OP_LMJ, 15, 0o777_777));
    assert_eq!((w >> 18) & 0x1f, 0);
    assert_eq!(mask_word(u64::MAX), 0o777_777_777_777);
}

use exec8::cpu::{render_output, run_program, step, CpuState, Flow, Output, Stop};

#[test]
fn single_halt_takes_one_step() {
    let mut memory = vec![0o777_000_000_000u64];
    let mut state = CpuState::new();
    let report = run_program(&mut memory, &mut state, 10);
    assert_eq!(report.stop, Stop::Halted);
    assert_eq!(report.steps, 1);
    assert_eq!(memory, vec![0o777_000_000_000]);
    assert_eq!(state, CpuState::default());
}

#[test]
fn isz_on_minus_one_skips() {
    // ISZ 4; HLT (skipped); JMP 5 target; ...
    let mut memory = vec![
        0o107_000_000_004,
        0o777_000_000_000,
        0o100_000_000_004,
        0o777_000_000_000,
        0o777_777_777_777,
    ];
    let mut state = CpuState::new();
    let (flow, out) = step(&mut memory, &mut state, 0);
    assert_eq!(flow, Flow::Next(2));
    assert!(out.is_none());
    assert_eq!(memory[4], 0);
    let mut memory2 = vec![0o107_000_000_001, u64::MAX];
    let (flow2, _) = step(&mut memory2, &mut state, 0);
    assert_eq!(flow2, Flow::Next(2));
    assert_eq!(memory2[1], 0);
}

#[test]
fn isz_without_wrap_does_not_skip() {
    let mut memory = vec![0o107_000_000_001, 41];
    let mut state = CpuState::new();
    assert_eq!(step(&mut memory, &mut state, 0).0, Flow::Next(1));
    assert_eq!(memory[1], 42);
}

#[test]
fn add_and_sub_wrap_at_36_bits() {
    let mut memory = vec![0o101_000_000_003, 0o104_000_000_004, 0o777_000_000_000, 0o777_777_777_777, 2];
    let mut state = CpuState::new();
    state.acc = 1;
    let report = run_program(&mut memory, &mut state, 10);
    assert_eq!(report.stop, Stop::Halted);
    // 1 + (2^36 - 1) wraps to 0, then 0 - 2 wraps to 2^36 - 2.
    assert_eq!(state.acc, 0o777_777_777_776);
}

#[test]
fn link_and_jump_then_return() {
    // 0: LMJ 2, 3   1: HLT   2: (unused)   3: JMP 1
    let mut memory = vec![(0o106u64 << 27) | (2 << 23) | 3, 0o777_000_000_000, 0, 0o103_000_000_001];
    let mut state = CpuState::new();
    let report = run_program(&mut memory, &mut state, 10);
    assert_eq!(report.stop, Stop::Halted);
    assert_eq!(state.r[2], 1);
    assert_eq!(report.steps, 3);
}

#[test]
fn jnz_taken_and_not_taken() {
    let mut memory = vec![0o105_000_000_002, 0o777_000_000_000, 0o777_000_000_000];
    let mut state = CpuState::new();
    assert_eq!(step(&mut memory, &mut state, 0).0, Flow::Next(1));
    state.acc = 5;
    assert_eq!(step(&mut memory, &mut state, 0).0, Flow::Next(2));
}

#[test]
fn stops_out_of_bounds() {
    let mut memory = vec![0o103_000_000_007];
    let mut state = CpuState::new();
    let report = run_program(&mut memory, &mut state, 10);
    assert_eq!(report.stop, Stop::PcOutOfBounds);
    assert_eq!(report.steps, 1);
    let mut empty: Vec<u64> = vec![];
    assert_eq!(run_program(&mut empty, &mut state, 10).stop, Stop::PcOutOfBounds);
}

#[test]
fn stops_on_illegal_opcode() {
    let mut memory = vec![0o123_000_000_000];
    let mut state = CpuState::new();
    let report = run_program(&mut memory, &mut state, 10);
    assert_eq!(report.stop, Stop::IllegalOpcode(0o123));
}

#[test]
fn stops_on_bad_operand_and_register() {
    let mut memory = vec![0o100_000_000_077];
    let mut state = CpuState::new();
    assert_eq!(run_program(&mut memory, &mut state, 10).stop, Stop::OperandOutOfBounds);
    let mut memory = vec![(0o106u64 << 27) | (9 << 23)];
    assert_eq!(run_program(&mut memory, &mut state, 10).stop, Stop::BadRegister);
}

#[test]
fn step_limit_stops_endless_loop() {
    let mut memory = vec![0o103_000_000_000];
    let mut state = CpuState::new();
    let report = run_program(&mut memory, &mut state, 25);
    assert_eq!(report.stop, Stop::StepLimit);
    assert_eq!(report.steps, 25);
}

#[test]
fn output_text_and_number() {
    // "HI" packed least significant byte first, then a zero word.
    let mut memory = vec![0o110_000_000_002, 0o777_000_000_000, 0x4948, 0x21, 0];
    let mut state = CpuState::new();
    let report = run_program(&mut memory, &mut state, 10);
    assert_eq!(report.outputs, vec![Output::Text(vec![b'H', b'I', b'!'])]);
    assert_eq!(render_output(&[0, 7], 0), Output::Number(0));
    assert_eq!(render_output(&[0x4100_0042], 0), Output::Text(vec![0x42, 0x41]));
    assert_eq!(render_output(&[1u64 << 40], 0), Output::Silent);
}

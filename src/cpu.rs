//! The instruction-set simulator: fetch, decode and execute over a memory of words.
use vstd::prelude::*;

use crate::word::{
    lemma_plain_round_trip, plain_word, address_field, address_of, opcode_field, opcode_of, operand_field, operand_of,
    register_field, register_of, word_of, OP_ADD, OP_HLT, OP_ISZ, OP_JMP, OP_JNZ, OP_LDA,
    OP_LMJ, OP_OUT, OP_STA, OP_SUB, WORD_MASK,
};

verus! {

/// The accumulator and the eight auxiliary registers.
#[derive(Debug, PartialEq, Eq, Clone, Copy)]
pub struct CpuState {
    pub acc: u64,
    pub r: [usize; 8],
}

impl CpuState {
    /// A state with every register zero.
    pub fn new() -> (r: CpuState)
        ensures
            r.acc == 0,
            r.r@ == seq![0usize; 8],
    {
        let r = CpuState { acc: 0, r: [0usize; 8] };
        assert(r.r@ =~= seq![0usize; 8]);
        r
    }
}

impl Default for CpuState {
    fn default() -> (r: CpuState)
        ensures
            r.acc == 0,
            r.r@ == seq![0usize; 8],
    {
        CpuState::new()
    }
}

/// Why a run stopped.
#[derive(PartialEq, Eq, Structural, Clone, Copy, Debug)]
pub enum Stop {
    /// A halt instruction was executed.
    Halted,
    /// The program counter left memory.
    PcOutOfBounds,
    /// The word at the program counter holds no known opcode.
    IllegalOpcode(u64),
    /// An instruction named a memory address outside memory.
    OperandOutOfBounds,
    /// A link-and-jump named an auxiliary register that does not exist.
    BadRegister,
    /// The run used up the number of steps it was given.
    StepLimit,
}

/// Where control goes after one instruction.
#[derive(PartialEq, Eq, Structural, Clone, Copy, Debug)]
pub enum Flow {
    Next(usize),
    Stop(Stop),
}

/// What an output instruction shows.
#[derive(Debug, PartialEq, Eq)]
pub enum Output {
    /// The non-zero bytes of a run of words, read as characters.
    Text(Vec<u8>),
    /// The word itself, when the run holds no character.
    Number(u64),
    /// Nothing: the word is wider than 36 bits.
    Silent,
}

pub enum OutputView {
    Text(Seq<u8>),
    Number(u64),
    Silent,
}

impl View for Output {
    type V = OutputView;

    open spec fn view(&self) -> OutputView {
        match self {
            Output::Text(b) => OutputView::Text(b@),
            Output::Number(n) => OutputView::Number(*n),
            Output::Silent => OutputView::Silent,
        }
    }
}

/// The whole machine as a mathematical value.
pub struct Machine {
    pub mem: Seq<u64>,
    pub acc: u64,
    pub regs: Seq<usize>,
}

pub open spec fn machine_of(mem: Seq<u64>, st: CpuState) -> Machine {
    Machine { mem, acc: st.acc, regs: st.r@ }
}

/// The byte of `w` at position `k`, counting from the least significant.
pub open spec fn byte_at(w: u64, k: nat) -> u8 {
    ((w >> (8 * k) as u64) & 0xffu64) as u8
}

/// The non-zero bytes of `w` from position `k` on, least significant first.
pub open spec fn word_bytes(w: u64, k: nat) -> Seq<u8>
    decreases 8 - k,
{
    if k >= 8 {
        seq![]
    } else {
        (if byte_at(w, k) == 0 {
            seq![]
        } else {
            seq![byte_at(w, k)]
        }) + word_bytes(w, k + 1)
    }
}

/// The characters packed in the words from `i` up to the first zero word or
/// the end of memory.
pub open spec fn packed_text(mem: Seq<u64>, i: int) -> Seq<u8>
    decreases mem.len() - i,
{
    if i < 0 || i >= mem.len() || mem[i] == 0 {
        seq![]
    } else {
        word_bytes(mem[i], 0) + packed_text(mem, i + 1)
    }
}

/// What an output instruction on address `a` shows.
pub open spec fn shown(mem: Seq<u64>, a: int) -> OutputView {
    if mem[a] > WORD_MASK {
        OutputView::Silent
    } else if packed_text(mem, a).len() == 0 {
        OutputView::Number(mem[a])
    } else {
        OutputView::Text(packed_text(mem, a))
    }
}

/// The address operand of `w`: 18 bits for a link-and-jump, 27 bits otherwise.
pub open spec fn operand_addr(w: u64) -> int {
    if opcode_field(w) == OP_LMJ {
        address_field(w) as int
    } else {
        operand_field(w) as int
    }
}

/// Whether the instruction `op` reads or writes memory at its operand.
pub open spec fn touches_memory(op: u64) -> bool {
    op == OP_LDA || op == OP_ADD || op == OP_STA || op == OP_SUB || op == OP_ISZ || op == OP_OUT
}

/// One step of the machine at `pc`: the new machine and where control goes.
///
/// All arithmetic wraps at 36 bits: addition, subtraction and the increment of
/// increment-and-skip. A load copies the word as it is. An instruction whose
/// memory operand lies outside memory, and a link-and-jump to a register
/// beyond the eighth, stop the machine instead of touching anything.
#[verifier::opaque]
pub open spec fn step_spec(m: Machine, pc: int) -> (Machine, Flow) {
    if pc < 0 || pc >= m.mem.len() {
        (m, Flow::Stop(Stop::PcOutOfBounds))
    } else {
        let w = m.mem[pc];
        let op = opcode_field(w);
        let a = operand_addr(w);
        let next = Flow::Next((pc + 1) as usize);
        if touches_memory(op) && a >= m.mem.len() {
            (m, Flow::Stop(Stop::OperandOutOfBounds))
        } else if op == OP_LDA {
            (Machine { acc: m.mem[a], ..m }, next)
        } else if op == OP_ADD {
            (Machine { acc: word_of(m.acc + m.mem[a]) as u64, ..m }, next)
        } else if op == OP_STA {
            (Machine { mem: m.mem.update(a, m.acc), ..m }, next)
        } else if op == OP_JMP {
            (m, Flow::Next(a as usize))
        } else if op == OP_SUB {
            (Machine { acc: word_of(m.acc - m.mem[a]) as u64, ..m }, next)
        } else if op == OP_JNZ {
            (m, if m.acc != 0 { Flow::Next(a as usize) } else { next })
        } else if op == OP_LMJ {
            let reg = register_field(w) as int;
            if reg >= 8 {
                (m, Flow::Stop(Stop::BadRegister))
            } else {
                (Machine { regs: m.regs.update(reg, (pc + 1) as usize), ..m }, Flow::Next(a as usize))
            }
        } else if op == OP_ISZ {
            let v = word_of(m.mem[a] + 1) as u64;
            (
                Machine { mem: m.mem.update(a, v), ..m },
                if v == 0 { Flow::Next((pc + 2) as usize) } else { next },
            )
        } else if op == OP_OUT {
            (m, next)
        } else if op == OP_HLT {
            (m, Flow::Stop(Stop::Halted))
        } else {
            (m, Flow::Stop(Stop::IllegalOpcode(op)))
        }
    }
}

/// What the step at `pc` shows, if it is an output instruction.
pub open spec fn step_output(m: Machine, pc: int) -> Option<OutputView> {
    if 0 <= pc < m.mem.len() && opcode_field(m.mem[pc]) == OP_OUT && operand_addr(m.mem[pc]) < m.mem.len() {
        Some(shown(m.mem, operand_addr(m.mem[pc])))
    } else {
        None
    }
}

/// Renders the output instruction on address `addr`.
pub fn render_output(memory: &[u64], addr: usize) -> (r: Output)
    requires
        addr < memory@.len(),
    ensures
        r@ == shown(memory@, addr as int),
{
    let val = memory[addr];
    if val > WORD_MASK {
        return Output::Silent;
    }
    let mut text: Vec<u8> = Vec::new();
    let mut i = addr;
    let ghost whole = packed_text(memory@, addr as int);
    while i < memory.len() && memory[i] != 0
        invariant
            addr <= i <= memory@.len(),
            whole == packed_text(memory@, addr as int),
            whole == text@ + packed_text(memory@, i as int),
        decreases memory@.len() - i,
    {
        let w = memory[i];
        let ghost before = text@;
        let mut k: u64 = 0;
        while k < 8
            invariant
                k <= 8,
                before + word_bytes(w, 0) == text@ + word_bytes(w, k as nat),
            decreases 8 - k,
        {
            let b = ((w >> (8 * k)) & 0xffu64) as u8;
            assert(b == byte_at(w, k as nat));
            let ghost t0 = text@;
            if b != 0 {
                text.push(b);
            }
            assert(t0 + word_bytes(w, k as nat) =~= text@ + word_bytes(w, (k + 1) as nat));
            k = k + 1;
        }
        assert(word_bytes(w, 8) =~= Seq::<u8>::empty());
        assert(before + (word_bytes(w, 0) + packed_text(memory@, i + 1)) =~= text@ + packed_text(memory@, i + 1));
        i = i + 1;
    }
    assert(text@ + Seq::<u8>::empty() =~= text@);
    if text.len() == 0 {
        Output::Number(val)
    } else {
        Output::Text(text)
    }
}

/// Executes the instruction at `pc`, updating memory and registers in place,
/// and says where control goes next and what, if anything, was shown.
pub fn step(memory: &mut [u64], state: &mut CpuState, pc: usize) -> (r: (Flow, Option<Output>))
    requires
        old(memory)@.len() < usize::MAX,
    ensures
        (machine_of(final(memory)@, *final(state)), r.0) == step_spec(machine_of(old(memory)@, *old(state)), pc as int),
        match (r.1, step_output(machine_of(old(memory)@, *old(state)), pc as int)) {
            (None, None) => true,
            (Some(o), Some(v)) => o@ == v,
            _ => false,
        },
        final(memory)@.len() == old(memory)@.len(),
{
    reveal(step_spec);
    if pc >= memory.len() {
        return (Flow::Stop(Stop::PcOutOfBounds), None);
    }
    let w = memory[pc];
    let op = opcode_of(w);
    let a = if op == OP_LMJ {
        address_of(w)
    } else {
        operand_of(w)
    };
    let next = Flow::Next(pc + 1);
    let touches = op == OP_LDA || op == OP_ADD || op == OP_STA || op == OP_SUB || op == OP_ISZ
        || op == OP_OUT;
    if touches && a >= memory.len() as u64 {
        return (Flow::Stop(Stop::OperandOutOfBounds), None);
    }
    let ai = a as usize;
    if op == OP_LDA {
        state.acc = memory[ai];
        (next, None)
    } else if op == OP_ADD {
        let sum = state.acc.wrapping_add(memory[ai]) & WORD_MASK;
        proof {
            lemma_wrap_word(state.acc as int + memory@[ai as int], state.acc.wrapping_add(memory[ai as int]) as int);
        }
        state.acc = sum;
        (next, None)
    } else if op == OP_STA {
        memory[ai] = state.acc;
        (next, None)
    } else if op == OP_JMP {
        (Flow::Next(ai), None)
    } else if op == OP_SUB {
        let diff = state.acc.wrapping_sub(memory[ai]) & WORD_MASK;
        proof {
            lemma_wrap_word(state.acc as int - memory@[ai as int], state.acc.wrapping_sub(memory[ai as int]) as int);
        }
        state.acc = diff;
        (next, None)
    } else if op == OP_JNZ {
        if state.acc != 0 {
            (Flow::Next(ai), None)
        } else {
            (next, None)
        }
    } else if op == OP_LMJ {
        let reg = register_of(w);
        if reg >= 8 {
            return (Flow::Stop(Stop::BadRegister), None);
        }
        state.r[reg as usize] = pc + 1;
        (Flow::Next(ai), None)
    } else if op == OP_ISZ {
        let v = memory[ai].wrapping_add(1) & WORD_MASK;
        proof {
            lemma_wrap_word(memory@[ai as int] + 1, memory[ai as int].wrapping_add(1) as int);
        }
        memory[ai] = v;
        if v == 0 {
            (Flow::Next(pc + 2), None)
        } else {
            (next, None)
        }
    } else if op == OP_OUT {
        let o = render_output(memory, ai);
        (next, Some(o))
    } else if op == OP_HLT {
        (Flow::Stop(Stop::Halted), None)
    } else {
        (Flow::Stop(Stop::IllegalOpcode(op)), None)
    }
}

/// Masking a 64-bit wrap-around result to 36 bits gives the exact result
/// reduced to 36 bits.
proof fn lemma_wrap_word(x: int, wrapped: int)
    requires
        0 <= wrapped < 0x1_0000_0000_0000_0000,
        wrapped == x % 0x1_0000_0000_0000_0000,
    ensures
        (wrapped as u64 & 0o777_777_777_777u64) as int == word_of(x),
{
    let u = wrapped as u64;
    assert(u & 0o777_777_777_777u64 == u % 0x10_0000_0000) by (bit_vector);
    assert(word_of(wrapped) == word_of(x)) by {
        vstd::arithmetic::div_mod::lemma_mod_mod(x, 0x10_0000_0000, 0x1000_0000);
    }
}

/// The result of a run as a mathematical value.
pub struct RunView {
    pub m: Machine,
    pub stop: Stop,
    pub steps: nat,
    pub out: Seq<OutputView>,
}

/// Running the machine from `pc` for at most `fuel` instructions.
pub open spec fn run_spec(m: Machine, pc: int, fuel: nat) -> RunView
    decreases fuel,
{
    if pc < 0 || pc >= m.mem.len() {
        RunView { m, stop: Stop::PcOutOfBounds, steps: 0, out: seq![] }
    } else if fuel == 0 {
        RunView { m, stop: Stop::StepLimit, steps: 0, out: seq![] }
    } else {
        let (m2, flow) = step_spec(m, pc);
        let o = match step_output(m, pc) {
            Some(v) => seq![v],
            None => seq![],
        };
        match flow {
            Flow::Stop(s) => RunView { m: m2, stop: s, steps: 1, out: o },
            Flow::Next(q) => {
                let r = run_spec(m2, q as int, (fuel - 1) as nat);
                RunView { m: r.m, stop: r.stop, steps: r.steps + 1, out: o + r.out }
            },
        }
    }
}

pub open spec fn output_views(v: Seq<Output>) -> Seq<OutputView> {
    v.map_values(|o: Output| o@)
}

/// How a run ended, how many instructions it executed, and what it showed.
#[derive(Debug, PartialEq, Eq)]
pub struct RunReport {
    pub stop: Stop,
    pub steps: u64,
    pub outputs: Vec<Output>,
}

/// Runs the program in `memory` from address 0 until it halts, leaves memory,
/// meets an unknown opcode or a bad operand, or has executed `max_steps`
/// instructions. With `u64::MAX` as the bound a looping program runs, in
/// practice, for ever.
pub fn run_program(memory: &mut [u64], state: &mut CpuState, max_steps: u64) -> (r: RunReport)
    requires
        old(memory)@.len() < usize::MAX,
    ensures
        ({
            let v = run_spec(machine_of(old(memory)@, *old(state)), 0, max_steps as nat);
            &&& machine_of(final(memory)@, *final(state)) == v.m
            &&& r.stop == v.stop
            &&& r.steps == v.steps
            &&& output_views(r.outputs@) == v.out
        }),
{
    let ghost whole = run_spec(machine_of(memory@, *state), 0, max_steps as nat);
    let n = memory.len();
    let mut pc: usize = 0;
    let mut steps: u64 = 0;
    let mut outputs: Vec<Output> = Vec::new();
    loop
        invariant
            n == memory@.len(),
            n < usize::MAX,
            steps <= max_steps,
            whole == run_spec(machine_of(old(memory)@, *old(state)), 0, max_steps as nat),
            ({
                let rest = run_spec(machine_of(memory@, *state), pc as int, (max_steps - steps) as nat);
                &&& whole.m == rest.m
                &&& whole.stop == rest.stop
                &&& whole.steps == steps + rest.steps
                &&& whole.out == output_views(outputs@) + rest.out
            }),
        decreases max_steps - steps,
    {
        if pc >= n {
            assert(output_views(outputs@) + Seq::<OutputView>::empty() =~= output_views(outputs@));
            return RunReport { stop: Stop::PcOutOfBounds, steps, outputs };
        }
        if steps == max_steps {
            assert(output_views(outputs@) + Seq::<OutputView>::empty() =~= output_views(outputs@));
            return RunReport { stop: Stop::StepLimit, steps, outputs };
        }
        let ghost m = machine_of(memory@, *state);
        let ghost before = output_views(outputs@);
        let (flow, out) = step(memory, state, pc);
        let ghost o = match step_output(m, pc as int) {
            Some(v) => seq![v],
            None => Seq::<OutputView>::empty(),
        };
        match out {
            Some(x) => {
                outputs.push(x);
            },
            None => {},
        }
        assert(output_views(outputs@) =~= before + o);
        steps = steps + 1;
        match flow {
            Flow::Stop(s) => {
                return RunReport { stop: s, steps, outputs };
            },
            Flow::Next(q) => {
                let ghost rest = run_spec(machine_of(memory@, *state), q as int, (max_steps - steps) as nat);
                assert(before + (o + rest.out) =~= output_views(outputs@) + rest.out);
                pc = q;
            },
        }
    }
}

/// A program that is a single halt instruction stops after exactly one step,
/// with memory and every register as they were, and shows nothing.
pub proof fn lemma_single_halt(acc: u64, regs: Seq<usize>, fuel: nat)
    requires
        fuel >= 1,
    ensures
        ({
            let m = Machine { mem: seq![plain_word(OP_HLT, 0)], acc, regs };
            run_spec(m, 0, fuel) == RunView { m, stop: Stop::Halted, steps: 1, out: seq![] }
        }),
{
    reveal(step_spec);
    lemma_plain_round_trip(OP_HLT, 0);
    let m = Machine { mem: seq![plain_word(OP_HLT, 0)], acc, regs };
    assert(step_spec(m, 0) == (m, Flow::Stop(Stop::Halted)));
    assert(step_output(m, 0) is None);
}

/// Increment-and-skip on a cell that holds -1 (in 36 bits, or in any wider
/// two's complement) stores 0 there and skips the next instruction.
pub proof fn lemma_skip_on_minus_one(m: Machine, pc: int, a: u64)
    requires
        0 <= pc,
        pc + 2 <= usize::MAX,
        pc < m.mem.len(),
        a < m.mem.len(),
        a < 0x800_0000,
        m.mem[pc] == plain_word(OP_ISZ, a),
        m.mem[a as int] % 0x10_0000_0000 == 0o777_777_777_777,
    ensures
        step_spec(m, pc) == (Machine { mem: m.mem.update(a as int, 0), ..m }, Flow::Next((pc + 2) as usize)),
{
    reveal(step_spec);
    lemma_plain_round_trip(OP_ISZ, a);
    assert(word_of(m.mem[a as int] + 1) == 0);
}

} // verus!

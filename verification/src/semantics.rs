use vstd::prelude::*;
use crate::instructions::Instruction;

verus! {

/// The mathematical model of the machine: an unbounded tape of cells (every
/// non-negative address holds a value, zero until written), the current
/// position, the stack of open loop entry points, the fixed program, and the
/// instruction pointer.
pub ghost struct State {
    /// Total over the non-negative addresses; an address never written reads 0.
    pub cells: Map<int, i8>,
    /// The current cell address.
    pub pos: int,
    /// Instruction indices of loops entered and not yet exited, innermost last.
    pub branches: Seq<int>,
    /// The instruction sequence; never mutated during execution.
    pub prog: Seq<Instruction>,
    /// Index of the next instruction to execute.
    pub ip: int,
}

/// What a single execution step reports to its caller.
#[derive(Clone, Copy, PartialEq, Eq, Structural, Debug)]
pub enum StepEvent {
    /// One instruction executed; no observable effect.
    Ran,
    /// One `Print` instruction executed; the value is to be written to the
    /// output channel.
    Output(i8),
    /// The current instruction is `Input`: no step was taken; the caller must
    /// supply a value before execution can continue.
    AwaitingInput,
    /// The instruction pointer is past the end of the program; no step taken.
    Halted,
    /// A `End` executed with an empty branch stack, at the given instruction
    /// index: the fatal unmatched-loop-exit condition. No step was taken.
    UnmatchedLoopExit(usize),
}

/// How a bounded run ended.
#[derive(Clone, Copy, PartialEq, Eq, Structural, Debug)]
pub enum RunOutcome {
    /// The instruction pointer ran past the end of the program.
    Halted,
    /// The step budget was exhausted before the program ended.
    OutOfFuel,
    /// An `Input` instruction was reached with no input value left.
    InputExhausted,
    /// A `End` executed with an empty branch stack, at the given index.
    UnmatchedLoopExit(usize),
}

/// Increment within the 8-bit range, wrapping at the top.
pub open spec fn wrap_inc(v: i8) -> i8 {
    if v == i8::MAX {
        i8::MIN
    } else {
        (v + 1) as i8
    }
}

/// Decrement within the 8-bit range, wrapping at the bottom.
pub open spec fn wrap_dec(v: i8) -> i8 {
    if v == i8::MIN {
        i8::MAX
    } else {
        (v - 1) as i8
    }
}

/// The position after a move right: one cell further, wrapping only at the
/// machine word's own limit.
pub open spec fn next_pos(p: int) -> int {
    if p == usize::MAX as int {
        0
    } else {
        p + 1
    }
}

/// The position after a move left: one cell back, except that the tape does
/// not extend left of address 0, where the move is a no-op.
pub open spec fn prev_pos(p: int) -> int {
    if p >= 1 {
        p - 1
    } else {
        p
    }
}

/// Well-formedness of a machine state: the cell map is total over the
/// non-negative addresses, position and instruction pointer are in range, and
/// every branch stack entry is the index of a `Branch` instruction.
pub open spec fn state_wf(s: State) -> bool {
    &&& forall|p: int| #[trigger] s.cells.dom().contains(p) <==> p >= 0
    &&& 0 <= s.pos <= usize::MAX as int
    &&& 0 <= s.ip <= s.prog.len()
    &&& forall|j: int|
        0 <= j < s.branches.len() ==> 0 <= #[trigger] s.branches[j] < s.prog.len()
            && s.prog[s.branches[j]] is Branch
}

/// One step of execution: the successor state and the reported event, exactly
/// as the per-instruction semantics prescribe. With the pointer past the end
/// of the program the state is left unchanged and the step reports `Halted`;
/// at an `Input` instruction or on an unmatched loop exit the state is also
/// left unchanged, and the event says why.
pub open spec fn step(s: State) -> (State, StepEvent) {
    if !(0 <= s.ip < s.prog.len()) {
        (s, StepEvent::Halted)
    } else {
        match s.prog[s.ip] {
            Instruction::Add => (
                State {
                    cells: s.cells.insert(s.pos, wrap_inc(s.cells[s.pos])),
                    ip: s.ip + 1,
                    ..s
                },
                StepEvent::Ran,
            ),
            Instruction::Sub => (
                State {
                    cells: s.cells.insert(s.pos, wrap_dec(s.cells[s.pos])),
                    ip: s.ip + 1,
                    ..s
                },
                StepEvent::Ran,
            ),
            Instruction::Right => (State { pos: next_pos(s.pos), ip: s.ip + 1, ..s }, StepEvent::Ran),
            Instruction::Left => (State { pos: prev_pos(s.pos), ip: s.ip + 1, ..s }, StepEvent::Ran),
            Instruction::Print => (State { ip: s.ip + 1, ..s }, StepEvent::Output(s.cells[s.pos])),
            Instruction::Input => (s, StepEvent::AwaitingInput),
            Instruction::Branch => (
                State { branches: s.branches.push(s.ip), ip: s.ip + 1, ..s },
                StepEvent::Ran,
            ),
            Instruction::End => {
                if s.branches.len() == 0 {
                    (s, StepEvent::UnmatchedLoopExit(s.ip as usize))
                } else if s.cells[s.pos] != 0 {
                    (State { ip: s.branches.last() + 1, ..s }, StepEvent::Ran)
                } else {
                    (
                        State { branches: s.branches.drop_last(), ip: s.ip + 1, ..s },
                        StepEvent::Ran,
                    )
                }
            },
            Instruction::Noop => (State { ip: s.ip + 1, ..s }, StepEvent::Ran),
        }
    }
}

/// Executing the `Input` instruction once a value has been obtained: the value
/// replaces the current cell's content and the pointer advances.
pub open spec fn feed(s: State, v: i8) -> State {
    State { cells: s.cells.insert(s.pos, v), ip: s.ip + 1, ..s }
}

/// The all-zero tape.
pub open spec fn zero_cells() -> Map<int, i8> {
    Map::new(|p: int| p >= 0, |p: int| 0i8)
}

/// The state a fresh machine starts in: empty tape, position 0, no open
/// loops, pointer at the first instruction.
pub open spec fn initial_state(prog: Seq<Instruction>) -> State {
    State { cells: zero_cells(), pos: 0, branches: Seq::empty(), prog: prog, ip: 0 }
}

/// A bounded run: starting from `s`, take up to `fuel` steps, drawing from
/// `inputs` (front first) at each `Input` instruction and collecting every
/// `Print`ed value in order. Returns the final state, the collected output,
/// and how the run ended. On a fatal condition (unmatched loop exit, input
/// exhausted) the state at the fault is returned unchanged.
pub open spec fn run_model(s: State, inputs: Seq<i8>, fuel: nat) -> (State, Seq<i8>, RunOutcome)
    decreases fuel,
{
    if fuel == 0 {
        (s, Seq::empty(), RunOutcome::OutOfFuel)
    } else {
        let next = step(s).0;
        match step(s).1 {
            StepEvent::Halted => (s, Seq::empty(), RunOutcome::Halted),
            StepEvent::Ran => run_model(next, inputs, (fuel - 1) as nat),
            StepEvent::Output(v) => {
                let rest = run_model(next, inputs, (fuel - 1) as nat);
                (rest.0, seq![v] + rest.1, rest.2)
            },
            StepEvent::AwaitingInput => {
                if inputs.len() == 0 {
                    (s, Seq::empty(), RunOutcome::InputExhausted)
                } else {
                    run_model(feed(s, inputs[0]), inputs.drop_first(), (fuel - 1) as nat)
                }
            },
            StepEvent::UnmatchedLoopExit(i) => (s, Seq::empty(), RunOutcome::UnmatchedLoopExit(i)),
        }
    }
}

/// A step preserves well-formedness of the state.
pub proof fn lemma_step_preserves_wf(s: State)
    requires
        state_wf(s),
    ensures
        state_wf(step(s).0),
{
}

/// Supplying an input value at an `Input` instruction preserves
/// well-formedness of the state.
pub proof fn lemma_feed_preserves_wf(s: State, v: i8)
    requires
        state_wf(s),
        0 <= s.ip < s.prog.len(),
    ensures
        state_wf(feed(s, v)),
{
}

} // verus!

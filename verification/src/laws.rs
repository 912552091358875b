use vstd::prelude::*;
use crate::instructions::Instruction;
use crate::semantics::{
    State, StepEvent, RunOutcome, step, initial_state, run_model, state_wf, wrap_inc, wrap_dec,
    lemma_step_preserves_wf,
};

verus! {

/// An increment followed immediately by a decrement leaves every cell — in
/// particular the one at the current position — the position itself and the
/// branch stack exactly as they were, and only advances the instruction
/// pointer past the pair.
pub proof fn lemma_increment_then_decrement(s: State)
    requires
        state_wf(s),
        s.ip + 1 < s.prog.len(),
        s.prog[s.ip] is Add,
        s.prog[s.ip + 1] is Sub,
    ensures
        step(s).1 is Ran,
        step(step(s).0).1 is Ran,
        (step(step(s).0).0 == State { ip: s.ip + 2, ..s }),
{
    let v = s.cells[s.pos];
    assert(wrap_dec(wrap_inc(v)) == v);
    assert(step(step(s).0).0.cells =~= s.cells);
}

/// A move left taken at position 0 leaves the position at 0 — the tape does
/// not extend left of its origin — and changes nothing else but the pointer.
pub proof fn lemma_left_at_origin(s: State)
    requires
        state_wf(s),
        0 <= s.ip < s.prog.len(),
        s.prog[s.ip] is Left,
        s.pos == 0,
    ensures
        step(s).1 is Ran,
        step(s).0.pos == 0,
        (step(s).0 == State { ip: s.ip + 1, ..s }),
{
}

/// A `Noop` step is a pure pointer advance: no cell, no position, no branch
/// stack entry changes, and nothing is reported.
pub proof fn lemma_noop_advances(s: State)
    requires
        state_wf(s),
        0 <= s.ip < s.prog.len(),
        s.prog[s.ip] is Noop,
    ensures
        step(s).1 is Ran,
        (step(s).0 == State { ip: s.ip + 1, ..s }),
{
}

/// Every instruction of the program is a `Noop`.
pub open spec fn all_noops(prog: Seq<Instruction>) -> bool {
    forall|i: int| 0 <= i < prog.len() ==> (#[trigger] prog[i]) is Noop
}

/// Running a program made only of `Noop`s — as the tokenizer produces from
/// text with no recognized symbol — is a no-op sequence of pointer advances:
/// given enough fuel it halts, prints nothing, and leaves cells, position and
/// branch stack untouched.
pub proof fn lemma_noop_program_inert(s: State, inputs: Seq<i8>, fuel: nat)
    requires
        state_wf(s),
        all_noops(s.prog),
        fuel > s.prog.len() - s.ip,
    ensures
        (run_model(s, inputs, fuel).0 == State { ip: s.prog.len() as int, ..s }),
        run_model(s, inputs, fuel).1 == Seq::<i8>::empty(),
        run_model(s, inputs, fuel).2 == RunOutcome::Halted,
    decreases fuel,
{
    if s.ip < s.prog.len() {
        lemma_step_preserves_wf(s);
        lemma_noop_program_inert(step(s).0, inputs, (fuel - 1) as nat);
    }
}

/// The program uses no instruction besides the loop delimiters.
pub open spec fn loops_only(prog: Seq<Instruction>) -> bool {
    forall|i: int| 0 <= i < prog.len() ==> ((#[trigger] prog[i]) is Branch || prog[i] is End)
}

/// How many loops the first `n` instructions leave open: the number of
/// `Branch` symbols minus the number of `End` symbols among them.
pub open spec fn open_count(prog: Seq<Instruction>, n: int) -> int
    decreases n,
{
    if n <= 0 {
        0
    } else {
        open_count(prog, n - 1) + if prog[n - 1] is Branch {
            1
        } else if prog[n - 1] is End {
            -1
        } else {
            0
        }
    }
}

/// The loop delimiters of the program are balanced: no prefix closes more
/// loops than it opened, and the whole program closes every loop it opens.
pub open spec fn well_matched(prog: Seq<Instruction>) -> bool {
    &&& open_count(prog, prog.len() as int) == 0
    &&& forall|n: int| 0 <= n <= prog.len() ==> #[trigger] open_count(prog, n) >= 0
}

/// The inductive invariant carried through the execution of a balanced
/// program of loop delimiters only: every cell is still zero, and the branch
/// stack holds exactly the entry points of the loops left open before the
/// instruction pointer, in order of their nesting depth.
pub open spec fn balanced_run_inv(s: State) -> bool {
    &&& state_wf(s)
    &&& loops_only(s.prog)
    &&& well_matched(s.prog)
    &&& forall|p: int| p >= 0 ==> #[trigger] s.cells[p] == 0
    &&& s.branches.len() == open_count(s.prog, s.ip)
    &&& forall|j: int| 0 <= j < s.branches.len() ==> open_count(s.prog, #[trigger] s.branches[j]) == j
}

/// A balanced program of loop delimiters only starts inside the invariant.
pub proof fn lemma_balanced_init(prog: Seq<Instruction>)
    requires
        loops_only(prog),
        well_matched(prog),
        prog.len() <= usize::MAX,
    ensures
        balanced_run_inv(initial_state(prog)),
{
}

/// A step taken inside the invariant never reports the unmatched-loop-exit
/// error, and lands inside the invariant again.
pub proof fn lemma_balanced_step(s: State)
    requires
        balanced_run_inv(s),
    ensures
        !(step(s).1 is UnmatchedLoopExit),
        balanced_run_inv(step(s).0),
{
    lemma_step_preserves_wf(s);
    if 0 <= s.ip < s.prog.len() {
        assert(s.cells[s.pos] == 0);
        if s.prog[s.ip] is End {
            assert(open_count(s.prog, s.ip + 1) >= 0);
            assert(open_count(s.prog, s.ip + 1) == open_count(s.prog, s.ip) - 1);
            assert(s.branches.len() >= 1);
            let t = step(s).0;
            assert(t.branches =~= s.branches.drop_last());
            assert(t.branches.len() == open_count(s.prog, t.ip));
        } else {
            assert(s.prog[s.ip] is Branch);
            let t = step(s).0;
            assert(t.branches[t.branches.len() - 1] == s.ip);
            assert(open_count(s.prog, s.ip + 1) == open_count(s.prog, s.ip) + 1);
        }
    }
}

/// Executing a program consisting solely of balanced loop delimiters never
/// runs into the unmatched-loop-exit error, for every fuel — also one too
/// small to finish the run.
pub proof fn lemma_balanced_no_loop_error(s: State, inputs: Seq<i8>, fuel: nat)
    requires
        balanced_run_inv(s),
    ensures
        !(run_model(s, inputs, fuel).2 is UnmatchedLoopExit),
    decreases fuel,
{
    if fuel > 0 {
        lemma_balanced_step(s);
        match step(s).1 {
            StepEvent::Ran => lemma_balanced_no_loop_error(step(s).0, inputs, (fuel - 1) as nat),
            StepEvent::Output(_) => lemma_balanced_no_loop_error(
                step(s).0,
                inputs,
                (fuel - 1) as nat,
            ),
            StepEvent::AwaitingInput => {
                assert(s.prog[s.ip] is Input);
                assert(false);
            },
            _ => {},
        }
    }
}

/// Inside the invariant, every cell is zero, so each loop delimiter is left
/// behind after one visit: a step is always a plain pointer advance, and with
/// fuel beyond the remaining program the run halts, printing nothing.
pub proof fn lemma_balanced_program_terminates(s: State, inputs: Seq<i8>, fuel: nat)
    requires
        balanced_run_inv(s),
        fuel > s.prog.len() - s.ip,
    ensures
        run_model(s, inputs, fuel).2 == RunOutcome::Halted,
        run_model(s, inputs, fuel).1 == Seq::<i8>::empty(),
    decreases fuel,
{
    lemma_balanced_step(s);
    if s.ip < s.prog.len() {
        assert(s.cells[s.pos] == 0);
        assert(step(s).0.ip == s.ip + 1);
        lemma_balanced_program_terminates(step(s).0, inputs, (fuel - 1) as nat);
    }
}

/// The whole law: a run of a program consisting solely of balanced loop
/// delimiters, from the start state, never reports the unmatched-loop-exit
/// error, whatever input it is offered and however much fuel it is given;
/// and with fuel beyond the program's length it terminates, halting without
/// any error or output.
pub proof fn lemma_balanced_program_safe(prog: Seq<Instruction>, inputs: Seq<i8>, fuel: nat)
    requires
        loops_only(prog),
        well_matched(prog),
        prog.len() <= usize::MAX,
    ensures
        !(run_model(initial_state(prog), inputs, fuel).2 is UnmatchedLoopExit),
        fuel > prog.len() ==> run_model(initial_state(prog), inputs, fuel).2
            == RunOutcome::Halted,
{
    lemma_balanced_init(prog);
    lemma_balanced_no_loop_error(initial_state(prog), inputs, fuel);
    if fuel > prog.len() {
        lemma_balanced_program_terminates(initial_state(prog), inputs, fuel);
    }
}

} // verus!

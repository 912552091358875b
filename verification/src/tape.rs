use vstd::prelude::*;
use crate::instructions::Instruction;
use crate::semantics::{
    State, StepEvent, RunOutcome, step, feed, initial_state, zero_cells, wrap_inc, wrap_dec,
    state_wf, run_model, lemma_step_preserves_wf, lemma_feed_preserves_wf,
};

verus! {

/// The value the sparse entry list gives an address: the value of the first
/// entry recorded for it, or 0 where none is.
spec fn stored_val(entries: Seq<(i8, usize)>, p: int) -> i8
    decreases entries.len(),
{
    if entries.len() == 0 {
        0
    } else if entries[0].1 == p {
        entries[0].0
    } else {
        stored_val(entries.drop_first(), p)
    }
}

/// No two entries record the same address.
spec fn distinct_addrs(entries: Seq<(i8, usize)>) -> bool {
    forall|i: int, j: int|
        0 <= i < j < entries.len() ==> (#[trigger] entries[i]).1 != (#[trigger] entries[j]).1
}

proof fn lemma_stored_val_first(entries: Seq<(i8, usize)>, p: int, i: int)
    requires
        0 <= i < entries.len(),
        entries[i].1 == p,
        forall|j: int| 0 <= j < i ==> (#[trigger] entries[j]).1 != p,
    ensures
        stored_val(entries, p) == entries[i].0,
    decreases i,
{
    if i > 0 {
        let tail = entries.drop_first();
        assert forall|j: int| 0 <= j < i - 1 implies (#[trigger] tail[j]).1 != p by {
            assert(tail[j] == entries[j + 1]);
        }
        lemma_stored_val_first(tail, p, i - 1);
    }
}

proof fn lemma_stored_val_absent(entries: Seq<(i8, usize)>, p: int)
    requires
        forall|j: int| 0 <= j < entries.len() ==> (#[trigger] entries[j]).1 != p,
    ensures
        stored_val(entries, p) == 0,
    decreases entries.len(),
{
    if entries.len() > 0 {
        let tail = entries.drop_first();
        assert forall|j: int| 0 <= j < tail.len() implies (#[trigger] tail[j]).1 != p by {
            assert(tail[j] == entries[j + 1]);
        }
        lemma_stored_val_absent(tail, p);
    }
}

proof fn lemma_stored_val_update(entries: Seq<(i8, usize)>, i: int, w: i8, p: usize, q: int)
    requires
        0 <= i < entries.len(),
        entries[i].1 == p,
        forall|j: int| 0 <= j < i ==> (#[trigger] entries[j]).1 != p as int,
    ensures
        stored_val(entries.update(i, (w, p)), q) == if q == p as int {
            w
        } else {
            stored_val(entries, q)
        },
    decreases i,
{
    let updated = entries.update(i, (w, p));
    if i == 0 {
        if q != p as int {
            assert(updated.drop_first() =~= entries.drop_first());
        }
    } else {
        if entries[0].1 == q {
            assert(updated[0] == entries[0]);
        } else {
            let tail = entries.drop_first();
            assert forall|j: int| 0 <= j < i - 1 implies (#[trigger] tail[j]).1 != p as int by {
                assert(tail[j] == entries[j + 1]);
            }
            assert(tail[i - 1] == entries[i]);
            lemma_stored_val_update(tail, i - 1, w, p, q);
            assert(updated.drop_first() =~= tail.update(i - 1, (w, p)));
        }
    }
}

proof fn lemma_stored_val_push(entries: Seq<(i8, usize)>, w: i8, p: usize, q: int)
    requires
        forall|j: int| 0 <= j < entries.len() ==> (#[trigger] entries[j]).1 != p as int,
    ensures
        stored_val(entries.push((w, p)), q) == if q == p as int {
            w
        } else {
            stored_val(entries, q)
        },
    decreases entries.len(),
{
    let pushed = entries.push((w, p));
    if entries.len() == 0 {
        assert(pushed[0] == (w, p));
        if q != p as int {
            assert(pushed.drop_first() =~= Seq::<(i8, usize)>::empty());
            assert(stored_val(Seq::<(i8, usize)>::empty(), q) == 0);
        }
    } else {
        assert(pushed[0] == entries[0]);
        assert(entries[0].1 != p);
        if entries[0].1 == q {
            assert(stored_val(pushed, q) == entries[0].0);
            assert(stored_val(entries, q) == entries[0].0);
        } else {
            let tail = entries.drop_first();
            assert forall|j: int| 0 <= j < tail.len() implies (#[trigger] tail[j]).1 != p as int by {
                assert(tail[j] == entries[j + 1]);
            }
            lemma_stored_val_push(tail, w, p, q);
            assert(pushed.drop_first() =~= tail.push((w, p)));
            assert(stored_val(pushed, q) == stored_val(tail.push((w, p)), q));
        }
    }
}

/// The execution state: sparse cell storage (only written cells hold an
/// entry), the current position, the stack of open loop entry points, the
/// tokenized program, and the instruction pointer.
#[derive(Debug)]
pub struct Tape {
    storage: Vec<(i8, usize)>,
    position: usize,
    branches: Vec<usize>,
    instructions: Vec<Instruction>,
    instruction_pointer: usize,
}

impl View for Tape {
    type V = State;

    closed spec fn view(&self) -> State {
        State {
            cells: Map::new(|p: int| p >= 0, |p: int| stored_val(self.storage@, p)),
            pos: self.position as int,
            branches: self.branches@.map_values(|b: usize| b as int),
            prog: self.instructions@,
            ip: self.instruction_pointer as int,
        }
    }
}

impl Tape {
    /// The representation invariant: the abstract state is well formed and
    /// the storage never holds two entries for one address.
    pub closed spec fn wf(self) -> bool {
        &&& state_wf(self@)
        &&& distinct_addrs(self.storage@)
    }

    /// A well-formed machine always carries a well-formed abstract state.
    pub proof fn lemma_wf_state(self)
        requires
            self.wf(),
        ensures
            state_wf(self@),
    {
    }

    /// A fresh machine for the given program: empty storage, position 0,
    /// no open loops, pointer at the first instruction.
    pub fn new(instructions: Vec<Instruction>) -> (t: Tape)
        ensures
            t.wf(),
            t@ == initial_state(instructions@),
    {
        let t = Tape {
            storage: Vec::new(),
            position: 0,
            branches: Vec::new(),
            instructions,
            instruction_pointer: 0,
        };
        proof {
            assert(t@.cells =~= zero_cells());
            assert(t@.branches =~= Seq::<int>::empty());
            assert(t@ == initial_state(t.instructions@));
        }
        t
    }

    /// Index of the first storage entry for address `p`, if any.
    fn find_cell(&self, p: usize) -> (r: Option<usize>)
        ensures
            match r {
                Some(i) => i < self.storage@.len() && self.storage@[i as int].1 == p
                    && forall|j: int| 0 <= j < i as int ==> (#[trigger] self.storage@[j]).1 != p,
                None => forall|j: int|
                    0 <= j < self.storage@.len() ==> (#[trigger] self.storage@[j]).1 != p,
            },
    {
        let mut i: usize = 0;
        while i < self.storage.len()
            invariant
                i <= self.storage@.len(),
                forall|j: int| 0 <= j < i as int ==> (#[trigger] self.storage@[j]).1 != p,
            decreases self.storage@.len() - i,
        {
            if self.storage[i].1 == p {
                return Some(i);
            }
            i = i + 1;
        }
        None
    }

    /// The value held at address `p`: the stored entry's value, or 0 where no
    /// entry exists.
    pub fn cell_at(&self, p: usize) -> (v: i8)
        ensures
            v == self@.cells[p as int],
    {
        match self.find_cell(p) {
            Some(i) => {
                let v = self.storage[i].0;
                proof {
                    lemma_stored_val_first(self.storage@, p as int, i as int);
                }
                v
            },
            None => {
                proof {
                    lemma_stored_val_absent(self.storage@, p as int);
                }
                0
            },
        }
    }

    /// The value of the cell at the current position.
    pub fn current_cell(&self) -> (v: i8)
        ensures
            v == self@.cells[self@.pos],
    {
        self.cell_at(self.position)
    }

    /// Writes `w` to the cell at the current position, updating the entry in
    /// place or creating one.
    fn store_current(&mut self, w: i8)
        requires
            distinct_addrs(old(self).storage@),
        ensures
            distinct_addrs(final(self).storage@),
            final(self)@.cells == old(self)@.cells.insert(old(self)@.pos, w),
            final(self)@.pos == old(self)@.pos,
            final(self)@.branches == old(self)@.branches,
            final(self)@.prog == old(self)@.prog,
            final(self)@.ip == old(self)@.ip,
    {
        let p = self.position;
        match self.find_cell(p) {
            Some(i) => {
                self.storage[i] = (w, p);
                proof {
                    assert forall|q: int|
                        stored_val(self.storage@, q) == if q == p as int {
                            w
                        } else {
                            stored_val(old(self).storage@, q)
                        } by {
                        lemma_stored_val_update(old(self).storage@, i as int, w, p, q);
                    }
                    assert forall|a: int, b: int|
                        0 <= a < b < self.storage@.len() implies (#[trigger] self.storage@[a]).1
                        != (#[trigger] self.storage@[b]).1 by {
                        assert(self.storage@[a].1 == old(self).storage@[a].1);
                        assert(self.storage@[b].1 == old(self).storage@[b].1);
                    }
                }
            },
            None => {
                self.storage.push((w, p));
                proof {
                    assert forall|q: int|
                        stored_val(self.storage@, q) == if q == p as int {
                            w
                        } else {
                            stored_val(old(self).storage@, q)
                        } by {
                        lemma_stored_val_push(old(self).storage@, w, p, q);
                    }
                }
            },
        }
        proof {
            assert(self@.cells =~= old(self)@.cells.insert(old(self)@.pos, w));
        }
    }

    /// The current position on the tape.
    pub fn pos(&self) -> (p: usize)
        ensures
            p as int == self@.pos,
    {
        self.position
    }

    /// The instruction pointer.
    pub fn ip(&self) -> (i: usize)
        ensures
            i as int == self@.ip,
    {
        self.instruction_pointer
    }

    /// Whether execution is paused at an `Input` instruction, so that
    /// `provide_input` is the only way to make progress.
    pub fn awaiting_input(&self) -> (b: bool)
        ensures
            b == (self@.ip < self@.prog.len() && self@.prog[self@.ip] is Input),
    {
        self.instruction_pointer < self.instructions.len()
            && self.instructions[self.instruction_pointer] == Instruction::Input
    }

    /// Executes the instruction at the current pointer and reports what
    /// happened, exactly as the one-step semantics `step` prescribes. The
    /// machine is left unchanged when it has halted, when it must wait for
    /// input, and on the fatal unmatched-loop-exit condition; the event says
    /// which of these holds.
    pub fn handle_instruction(&mut self) -> (ev: StepEvent)
        requires
            old(self).wf(),
        ensures
            final(self).wf(),
            final(self)@ == step(old(self)@).0,
            ev == step(old(self)@).1,
    {
        proof {
            lemma_step_preserves_wf(old(self)@);
        }
        if self.instruction_pointer >= self.instructions.len() {
            return StepEvent::Halted;
        }
        let ins = self.instructions[self.instruction_pointer];
        match ins {
            Instruction::Add => {
                let v = self.cell_at(self.position);
                self.store_current(wrapping_inc(v));
                self.instruction_pointer = self.instruction_pointer + 1;
                proof {
                    assert(self@ == step(old(self)@).0);
                }
                StepEvent::Ran
            },
            Instruction::Sub => {
                let v = self.cell_at(self.position);
                self.store_current(wrapping_dec(v));
                self.instruction_pointer = self.instruction_pointer + 1;
                proof {
                    assert(self@ == step(old(self)@).0);
                }
                StepEvent::Ran
            },
            Instruction::Right => {
                if self.position == usize::MAX {
                    self.position = 0;
                } else {
                    self.position = self.position + 1;
                }
                self.instruction_pointer = self.instruction_pointer + 1;
                proof {
                    assert(self@ == step(old(self)@).0);
                }
                StepEvent::Ran
            },
            Instruction::Left => {
                if self.position >= 1 {
                    self.position = self.position - 1;
                }
                self.instruction_pointer = self.instruction_pointer + 1;
                proof {
                    assert(self@ == step(old(self)@).0);
                }
                StepEvent::Ran
            },
            Instruction::Print => {
                let v = self.cell_at(self.position);
                self.instruction_pointer = self.instruction_pointer + 1;
                proof {
                    assert(self@ == step(old(self)@).0);
                }
                StepEvent::Output(v)
            },
            Instruction::Input => StepEvent::AwaitingInput,
            Instruction::Branch => {
                self.branches.push(self.instruction_pointer);
                self.instruction_pointer = self.instruction_pointer + 1;
                proof {
                    assert(self@.branches =~= step(old(self)@).0.branches);
                    assert(self@ == step(old(self)@).0);
                }
                StepEvent::Ran
            },
            Instruction::End => {
                if self.branches.len() == 0 {
                    proof {
                        assert(self@.branches.len() == 0);
                    }
                    StepEvent::UnmatchedLoopExit(self.instruction_pointer)
                } else {
                    let v = self.cell_at(self.position);
                    if v != 0 {
                        let _n = self.instructions.len();
                        let b = self.branches[self.branches.len() - 1];
                        proof {
                            assert(b as int == self@.branches.last());
                            assert(self@.branches.last() < self@.prog.len());
                        }
                        self.instruction_pointer = b + 1;
                        proof {
                            assert(self@ == step(old(self)@).0);
                        }
                        StepEvent::Ran
                    } else {
                        let _popped = self.branches.pop();
                        self.instruction_pointer = self.instruction_pointer + 1;
                        proof {
                            assert(self@.branches =~= step(old(self)@).0.branches);
                            assert(self@ == step(old(self)@).0);
                        }
                        StepEvent::Ran
                    }
                }
            },
            Instruction::Noop => {
                self.instruction_pointer = self.instruction_pointer + 1;
                proof {
                    assert(self@ == step(old(self)@).0);
                }
                StepEvent::Ran
            },
        }
    }

    /// Completes a pending `Input` instruction: the supplied value replaces
    /// the current cell's content and the pointer advances, exactly as the
    /// `feed` semantics prescribes.
    pub fn provide_input(&mut self, value: i8)
        requires
            old(self).wf(),
            old(self)@.ip < old(self)@.prog.len(),
            old(self)@.prog[old(self)@.ip] is Input,
        ensures
            final(self).wf(),
            final(self)@ == feed(old(self)@, value),
    {
        proof {
            lemma_feed_preserves_wf(old(self)@, value);
        }
        let _n = self.instructions.len();
        self.store_current(value);
        self.instruction_pointer = self.instruction_pointer + 1;
        proof {
            assert(self@ == feed(old(self)@, value));
        }
    }

    /// Drives the machine for at most `fuel` steps, drawing from `inputs`
    /// (front first) at each `Input` instruction. Returns every value the
    /// program printed, in order, and how the run ended, exactly as the
    /// bounded-run semantics `run_model` prescribes.
    #[verifier::loop_isolation(false)]
    pub fn run(&mut self, inputs: &Vec<i8>, fuel: usize) -> (r: (Vec<i8>, RunOutcome))
        requires
            old(self).wf(),
        ensures
            final(self).wf(),
            final(self)@ == run_model(old(self)@, inputs@, fuel as nat).0,
            r.0@ == run_model(old(self)@, inputs@, fuel as nat).1,
            r.1 == run_model(old(self)@, inputs@, fuel as nat).2,
    {
        let ghost s0 = self@;
        let mut outputs: Vec<i8> = Vec::new();
        let mut cursor: usize = 0;
        let mut fuel_left: usize = fuel;
        proof {
            assert(inputs@.skip(0) =~= inputs@);
            assert(Seq::<i8>::empty() + run_model(s0, inputs@, fuel as nat).1 =~= run_model(
                s0,
                inputs@,
                fuel as nat,
            ).1);
        }
        loop
            invariant
                self.wf(),
                cursor <= inputs@.len(),
                run_model(s0, inputs@, fuel as nat).0 == run_model(
                    self@,
                    inputs@.skip(cursor as int),
                    fuel_left as nat,
                ).0,
                run_model(s0, inputs@, fuel as nat).1 == outputs@ + run_model(
                    self@,
                    inputs@.skip(cursor as int),
                    fuel_left as nat,
                ).1,
                run_model(s0, inputs@, fuel as nat).2 == run_model(
                    self@,
                    inputs@.skip(cursor as int),
                    fuel_left as nat,
                ).2,
            decreases fuel_left,
        {
            let ghost rem = inputs@.skip(cursor as int);
            if fuel_left == 0 {
                proof {
                    assert(outputs@ + Seq::<i8>::empty() =~= outputs@);
                }
                return (outputs, RunOutcome::OutOfFuel);
            }
            let ghost pre = self@;
            let ev = self.handle_instruction();
            match ev {
                StepEvent::Halted => {
                    proof {
                        assert(outputs@ + Seq::<i8>::empty() =~= outputs@);
                    }
                    return (outputs, RunOutcome::Halted);
                },
                StepEvent::Ran => {
                    fuel_left = fuel_left - 1;
                    proof {
                        assert(run_model(pre, rem, (fuel_left + 1) as nat) == run_model(
                            self@,
                            rem,
                            fuel_left as nat,
                        ));
                    }
                },
                StepEvent::Output(v) => {
                    let ghost outs_pre = outputs@;
                    outputs.push(v);
                    fuel_left = fuel_left - 1;
                    proof {
                        let rest = run_model(self@, rem, fuel_left as nat);
                        assert(run_model(pre, rem, (fuel_left + 1) as nat).0 == rest.0);
                        assert(run_model(pre, rem, (fuel_left + 1) as nat).1 == seq![v] + rest.1);
                        assert(run_model(pre, rem, (fuel_left + 1) as nat).2 == rest.2);
                        assert(outs_pre.push(v) + rest.1 =~= outs_pre + (seq![v] + rest.1));
                    }
                },
                StepEvent::AwaitingInput => {
                    if cursor < inputs.len() {
                        let v = inputs[cursor];
                        cursor = cursor + 1;
                        self.provide_input(v);
                        fuel_left = fuel_left - 1;
                        proof {
                            assert(rem[0] == v);
                            assert(inputs@.skip(cursor as int) =~= rem.drop_first());
                            assert(run_model(pre, rem, (fuel_left + 1) as nat) == run_model(
                                self@,
                                rem.drop_first(),
                                fuel_left as nat,
                            ));
                        }
                    } else {
                        proof {
                            assert(rem.len() == 0);
                            assert(outputs@ + Seq::<i8>::empty() =~= outputs@);
                        }
                        return (outputs, RunOutcome::InputExhausted);
                    }
                },
                StepEvent::UnmatchedLoopExit(i) => {
                    proof {
                        assert(outputs@ + Seq::<i8>::empty() =~= outputs@);
                    }
                    return (outputs, RunOutcome::UnmatchedLoopExit(i));
                },
            }
        }
    }
}

/// Increment with the 8-bit wraparound the cell semantics call for.
fn wrapping_inc(v: i8) -> (r: i8)
    ensures
        r == wrap_inc(v),
{
    if v == i8::MAX {
        i8::MIN
    } else {
        v + 1
    }
}

/// Decrement with the 8-bit wraparound the cell semantics call for.
fn wrapping_dec(v: i8) -> (r: i8)
    ensures
        r == wrap_dec(v),
{
    if v == i8::MIN {
        i8::MAX
    } else {
        v - 1
    }
}

} // verus!

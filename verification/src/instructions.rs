use vstd::prelude::*;

verus! {

/// The instruction set: seven meaningful opcodes, a loop delimiter pair, and a
/// no-op for every unrecognized byte, so that any byte sequence is a valid
/// program.
#[derive(Clone, Copy, PartialEq, Eq, Structural, Debug)]
pub enum Instruction {
    /// `+`: increment the current cell, wrapping within the `i8` range.
    Add,
    /// `-`: decrement the current cell, wrapping within the `i8` range.
    Sub,
    /// `>`: move the tape position one cell to the right.
    Right,
    /// `<`: move the tape position one cell to the left; a no-op at cell 0.
    Left,
    /// `[`: open a loop, recording the entry point on the branch stack.
    Branch,
    /// `]`: close a loop: while the current cell is non-zero, run the body
    /// after the recorded entry point again (the entry is kept); once it is
    /// zero, pop the entry and advance past. With no open entry this is the
    /// fatal unmatched-loop-exit condition, whatever the cell holds.
    End,
    /// `.`: emit the current cell's value on the output channel.
    Print,
    /// `,`: consume one value from the input channel into the current cell.
    Input,
    /// any other byte: advance past without any other effect.
    Noop,
}

/// The tokenizer's mapping: which instruction a single byte of program text
/// stands for. The mapping is total; no byte is rejected.
pub open spec fn instruction_of(b: u8) -> Instruction {
    if b == 43 {
        Instruction::Add
    } else if b == 45 {
        Instruction::Sub
    } else if b == 62 {
        Instruction::Right
    } else if b == 60 {
        Instruction::Left
    } else if b == 91 {
        Instruction::Branch
    } else if b == 93 {
        Instruction::End
    } else if b == 46 {
        Instruction::Print
    } else if b == 44 {
        Instruction::Input
    } else {
        Instruction::Noop
    }
}

/// Maps each byte of the program text to exactly one instruction, in order.
/// The result always has one instruction per input byte.
pub fn tokenize(src: &[u8]) -> (prog: Vec<Instruction>)
    ensures
        prog@.len() == src@.len(),
        forall|i: int| 0 <= i < src@.len() ==> prog@[i] == instruction_of(src@[i]),
{
    let mut prog: Vec<Instruction> = Vec::new();
    let mut i: usize = 0;
    while i < src.len()
        invariant
            i <= src@.len(),
            prog@.len() == i,
            forall|j: int| 0 <= j < i ==> prog@[j] == instruction_of(src@[j]),
        decreases src@.len() - i,
    {
        let b = src[i];
        let ins = if b == 43 {
            Instruction::Add
        } else if b == 45 {
            Instruction::Sub
        } else if b == 62 {
            Instruction::Right
        } else if b == 60 {
            Instruction::Left
        } else if b == 91 {
            Instruction::Branch
        } else if b == 93 {
            Instruction::End
        } else if b == 46 {
            Instruction::Print
        } else if b == 44 {
            Instruction::Input
        } else {
            Instruction::Noop
        };
        prog.push(ins);
        i = i + 1;
    }
    prog
}

} // verus!

use esolang::instructions::{tokenize, Instruction};

#[test]
fn tokenize_maps_each_symbol() {
    let prog = tokenize(b"+-><.,[]");
    assert_eq!(
        prog,
        vec![
            Instruction::Add,
            Instruction::Sub,
            Instruction::Right,
            Instruction::Left,
            Instruction::Print,
            Instruction::Input,
            Instruction::Branch,
            Instruction::End,
        ]
    );
}

#[test]
fn tokenize_empty_text() {
    let prog = tokenize(b"");
    assert_eq!(prog.len(), 0);
}

#[test]
fn tokenize_unrecognized_bytes_become_noops() {
    let text = b"ab +z\n#!";
    let prog = tokenize(text);
    assert_eq!(prog.len(), text.len());
    for (i, ins) in prog.iter().enumerate() {
        if i == 3 {
            assert_eq!(*ins, Instruction::Add);
        } else {
            assert_eq!(*ins, Instruction::Noop);
        }
    }
}

#[test]
fn tokenize_keeps_order() {
    let prog = tokenize(b"[x]");
    assert_eq!(
        prog,
        vec![Instruction::Branch, Instruction::Noop, Instruction::End]
    );
}

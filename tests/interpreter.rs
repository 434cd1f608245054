use boolfuck::{boolfuck, Instruction, Program, Runtime, Tape};

#[test]
fn tape_tests() {
    let mut tape = Tape::new();
    assert_eq!(tape.read(), false);
    tape.flip();
    assert_eq!(tape.read(), true);
    tape.inc_p();
    assert_eq!(tape.read(), false);
    tape.dec_p();
    assert_eq!(tape.read(), true);
    tape.dec_p();
    assert_eq!(tape.read(), false);
    tape.flip();
    assert_eq!(tape.read(), true);
    tape.inc_p();
    assert_eq!(tape.read(), true);
    tape.inc_p();
    assert_eq!(tape.read(), false);
}

#[test]
fn example_test_cases() {
    // Hello World Program taken from the official website
    assert_eq!(boolfuck(";;;+;+;;+;+;+;+;+;+;;+;;+;;;+;;+;+;;+;;;+;;+;+;;+;+;;;;+;+;;+;;;+;;+;+;+;;;;;;;+;+;;+;;;+;+;;;+;+;;;;+;+;;+;;+;+;;+;;;+;;;+;;+;+;;+;;;+;+;;+;;+;+;+;;;;+;+;;;+;+;+;", Vec::new()), b"Hello, world!\n", "Your interpreter did not work with the code example provided on the official website");
    // Echo until byte(0) encountered
    assert_eq!(boolfuck(">,>,>,>,>,>,>,>,>+<<<<<<<<+[>+]<[<]>>>>>>>>>[+<<<<<<<<[>]+<[+<]>;>;>;>;>;>;>;>;>+<<<<<<<<+[>+]<[<]>>>>>>>>>[+<<<<<<<<[>]+<[+<]>>>>>>>>>+<<<<<<<<+[>+]<[<]>>>>>>>>>[+]+<<<<<<<<+[>+]<[<]>>>>>>>>>]<[+<]>,>,>,>,>,>,>,>,>+<<<<<<<<+[>+]<[<]>>>>>>>>>]<[+<]", b"Codewars\x00".to_vec()), b"Codewars");
    // Two numbers multiplier
    assert_eq!(boolfuck(">,>,>,>,>,>,>,>,>>,>,>,>,>,>,>,>,<<<<<<<<+<<<<<<<<+[>+]<[<]>>>>>>>>>[+<<<<<<<<[>]+<[+<]>>>>>>>>>>>>>>>>>>+<<<<<<<<+[>+]<[<]>>>>>>>>>[+<<<<<<<<[>]+<[+<]>>>>>>>>>+<<<<<<<<+[>+]<[<]>>>>>>>>>[+]>[>]+<[+<]>>>>>>>>>[+]>[>]+<[+<]>>>>>>>>>[+]<<<<<<<<<<<<<<<<<<+<<<<<<<<+[>+]<[<]>>>>>>>>>]<[+<]>>>>>>>>>>>>>>>>>>>>>>>>>>>+<<<<<<<<+[>+]<[<]>>>>>>>>>[+<<<<<<<<[>]+<[+<]>>>>>>>>>+<<<<<<<<+[>+]<[<]>>>>>>>>>[+]<<<<<<<<<<<<<<<<<<<<<<<<<<[>]+<[+<]>>>>>>>>>[+]>>>>>>>>>>>>>>>>>>+<<<<<<<<+[>+]<[<]>>>>>>>>>]<[+<]<<<<<<<<<<<<<<<<<<+<<<<<<<<+[>+]<[<]>>>>>>>>>[+]+<<<<<<<<+[>+]<[<]>>>>>>>>>]<[+<]>>>>>>>>>>>>>>>>>>>;>;>;>;>;>;>;>;<<<<<<<<", vec![8, 9]), vec![72]);
}

#[test]
fn fresh_tape_flips_back_and_forth() {
    let mut tape = Tape::new();
    assert!(!tape.read());
    tape.flip();
    assert!(tape.read());
    tape.flip();
    assert!(!tape.read());
}

#[test]
fn tape_write_sets_and_clears() {
    let mut tape = Tape::new();
    tape.write(true);
    assert!(tape.read());
    tape.write(true);
    assert!(tape.read());
    tape.write(false);
    assert!(!tape.read());
    tape.write(false);
    assert!(!tape.read());
}

fn pattern(i: usize) -> bool {
    i % 3 == 0 || i % 7 == 1
}

#[test]
fn moves_keep_bits_far_to_the_right() {
    let mut tape = Tape::new();
    for i in 0..10_000 {
        if pattern(i) {
            tape.flip();
        }
        tape.inc_p();
        tape.dec_p();
        assert_eq!(tape.read(), pattern(i));
        tape.inc_p();
    }
    for i in (0..10_000).rev() {
        tape.dec_p();
        assert_eq!(tape.read(), pattern(i));
    }
}

#[test]
fn moves_keep_bits_far_to_the_left() {
    let mut tape = Tape::new();
    for i in 0..10_000 {
        if pattern(i) {
            tape.flip();
        }
        tape.dec_p();
        tape.inc_p();
        assert_eq!(tape.read(), pattern(i));
        tape.dec_p();
    }
    for i in (0..10_000).rev() {
        tape.inc_p();
        assert_eq!(tape.read(), pattern(i));
    }
}

#[test]
fn compile_ignores_comments() {
    let program = Program::compile("a > b < c + d ; e , f");
    assert_eq!(program.len(), 5);
    assert_eq!(program.get(0), Instruction::IncP);
    assert_eq!(program.get(1), Instruction::DecP);
    assert_eq!(program.get(2), Instruction::FlipBit);
    assert_eq!(program.get(3), Instruction::Write);
    assert_eq!(program.get(4), Instruction::Read);
}

#[test]
fn compile_pairs_brackets_by_instruction_index() {
    let program = Program::compile("x[+[>]]y[]");
    assert_eq!(program.len(), 8);
    assert_eq!(program.get(0), Instruction::JmpF(5));
    assert_eq!(program.get(1), Instruction::FlipBit);
    assert_eq!(program.get(2), Instruction::JmpF(4));
    assert_eq!(program.get(3), Instruction::IncP);
    assert_eq!(program.get(4), Instruction::JmpT(2));
    assert_eq!(program.get(5), Instruction::JmpT(0));
    assert_eq!(program.get(6), Instruction::JmpF(7));
    assert_eq!(program.get(7), Instruction::JmpT(6));
}

#[test]
fn compile_twice_gives_same_instructions() {
    let code = "[[+]>[<]],;[;]";
    let first = Program::compile(code);
    let second = Program::compile(code);
    assert_eq!(first.len(), second.len());
    for i in 0..first.len() {
        assert_eq!(first.get(i), second.get(i));
    }
}

#[test]
fn jumps_point_at_their_partners() {
    let program = Program::compile("+[>[+<]>[[;]]]+[]");
    for i in 0..program.len() {
        match program.get(i) {
            Instruction::JmpF(t) => {
                assert!(t > i);
                assert_eq!(program.get(t), Instruction::JmpT(i));
            }
            Instruction::JmpT(t) => {
                assert!(t < i);
                assert_eq!(program.get(t), Instruction::JmpF(i));
            }
            _ => {}
        }
    }
}

#[test]
fn empty_program_writes_nothing() {
    assert_eq!(boolfuck("", Vec::new()), Vec::<u8>::new());
}

#[test]
fn partial_byte_fills_from_low_bit() {
    assert_eq!(boolfuck("+;", Vec::new()), vec![1]);
    assert_eq!(boolfuck(";+;", Vec::new()), vec![2]);
    assert_eq!(boolfuck("+;;;;;;;;;", Vec::new()), vec![255, 1]);
}

#[test]
fn input_is_read_from_low_bit() {
    assert_eq!(boolfuck(",;", vec![1]), vec![1]);
    assert_eq!(boolfuck(",;", vec![2]), vec![0]);
    assert_eq!(boolfuck(",,,,,,,,,;", vec![0, 1]), vec![1]);
}

#[test]
fn read_overwrites_a_set_bit() {
    assert_eq!(boolfuck("+,;", vec![1]), vec![1]);
    assert_eq!(boolfuck("+,;", vec![0]), vec![0]);
}

#[test]
fn loop_skipped_when_bit_clear() {
    assert_eq!(boolfuck("[+;];", Vec::new()), vec![0]);
}

#[test]
fn runtime_steps_through_program() {
    let program = Program::compile("+[+]");
    let mut runtime = Runtime::new(program, Vec::new());
    assert_eq!(runtime.next(), Some(Instruction::FlipBit));
    assert_eq!(runtime.next(), Some(Instruction::JmpF(3)));
    assert_eq!(runtime.next(), Some(Instruction::FlipBit));
    assert_eq!(runtime.next(), Some(Instruction::JmpT(1)));
    assert_eq!(runtime.next(), None);
    assert_eq!(runtime.next(), None);
    runtime.run();
    assert!(runtime.output().is_empty());
}

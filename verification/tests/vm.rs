use binsex::opcode::Opcode;
use binsex::vm::{Fault, Machine, Step, MEMORY_SIZE};

const PUSH: u8 = 0x02;

fn run_to_event(code: &Vec<u8>) -> (Machine, Result<Step, Fault>) {
    let mut m = Machine::new();
    for _ in 0..10_000 {
        match m.step(code) {
            Ok(Step::Continue) => {}
            other => return (m, other),
        }
    }
    panic!("program did not stop");
}

#[test]
fn opcode_bytes_round_trip() {
    for b in 0u8..=255 {
        match Opcode::try_from(b) {
            Ok(op) => assert_eq!(op.to_byte(), b),
            Err(()) => assert!(!(0x01..=0x11).contains(&b) && b != 0xff),
        }
    }
    assert_eq!(Opcode::try_from(0x01), Ok(Opcode::Add));
    assert_eq!(Opcode::try_from(0x11), Ok(Opcode::Eq));
    assert_eq!(Opcode::try_from(0xff), Ok(Opcode::Ret));
    assert_eq!(Opcode::try_from(0x00), Err(()));
    assert_eq!(Opcode::try_from(0x12), Err(()));
    assert_eq!(Opcode::Print.to_byte(), 0x10);
}

#[test]
fn binary_from_code_sets_header() {
    let b = binsex::opcode::Binary::from_code(vec![1, 2, 3]);
    assert_eq!(b.magic, [0xCA, 0xFE, 0xCA, 0xFE]);
    assert_eq!(b.version, 67);
    assert_eq!(b.code, vec![1, 2, 3]);
}

#[test]
fn new_machine_is_empty() {
    let m = Machine::new();
    assert_eq!(m.ip(), 0);
    assert!(m.stack().is_empty());
    assert_eq!(m.memory().len(), MEMORY_SIZE);
    assert!(m.memory().iter().all(|&b| b == 0));
}

#[test]
fn add_then_ret_exits_with_sum() {
    let code = vec![PUSH, 2, PUSH, 3, 0x01, 0xff];
    let (m, r) = run_to_event(&code);
    assert_eq!(r, Ok(Step::Exit(5)));
    assert!(m.stack().is_empty());
}

#[test]
fn operand_order_of_sub_div_mod_lt_gte() {
    let cases: [(u8, u8); 5] = [(0x05, 7), (0x0a, 3), (0x0b, 1), (0x0e, 0), (0x0f, 1)];
    for (op, expected) in cases {
        let code = vec![PUSH, 10, PUSH, 3, op];
        let mut m = Machine::new();
        for _ in 0..3 {
            assert_eq!(m.step(&code), Ok(Step::Continue));
        }
        assert_eq!(m.stack(), &vec![expected], "opcode {op:#x}");
        assert_eq!(m.ip(), 5);
    }
}

#[test]
fn mul_and_eq() {
    let code = vec![PUSH, 6, PUSH, 7, 0x09, PUSH, 42, 0x11];
    let mut m = Machine::new();
    for _ in 0..5 {
        assert_eq!(m.step(&code), Ok(Step::Continue));
    }
    assert_eq!(m.stack(), &vec![1]);
    assert_eq!(m.step(&code), Ok(Step::Halt));
}

#[test]
fn arithmetic_overflow_is_a_fault_and_changes_nothing() {
    let code = vec![PUSH, 200, PUSH, 100, 0x01];
    let mut m = Machine::new();
    m.step(&code).unwrap();
    m.step(&code).unwrap();
    assert_eq!(m.step(&code), Err(Fault::ArithmeticOverflow));
    assert_eq!(m.ip(), 4);
    assert_eq!(m.stack(), &vec![200, 100]);

    let code = vec![PUSH, 1, PUSH, 2, 0x05];
    let (_, r) = run_to_event(&code);
    assert_eq!(r, Err(Fault::ArithmeticOverflow));

    let code = vec![PUSH, 16, PUSH, 16, 0x09];
    let (_, r) = run_to_event(&code);
    assert_eq!(r, Err(Fault::ArithmeticOverflow));
}

#[test]
fn division_by_zero_is_a_fault() {
    let (_, r) = run_to_event(&vec![PUSH, 1, PUSH, 0, 0x0a]);
    assert_eq!(r, Err(Fault::DivisionByZero));
    let (_, r) = run_to_event(&vec![PUSH, 1, PUSH, 0, 0x0b]);
    assert_eq!(r, Err(Fault::DivisionByZero));
}

#[test]
fn stack_underflow_and_missing_operand() {
    let (m, r) = run_to_event(&vec![0x01]);
    assert_eq!(r, Err(Fault::StackUnderflow));
    assert_eq!(m.ip(), 0);
    let (_, r) = run_to_event(&vec![0xff]);
    assert_eq!(r, Err(Fault::StackUnderflow));
    let (_, r) = run_to_event(&vec![PUSH]);
    assert_eq!(r, Err(Fault::MissingOperand));
    let (_, r) = run_to_event(&vec![0x03, 0x00]);
    assert_eq!(r, Err(Fault::MissingOperand));
    let (_, r) = run_to_event(&vec![PUSH, 1, 0x10]);
    assert_eq!(r, Err(Fault::MissingOperand));
    let (_, r) = run_to_event(&vec![PUSH, 1, 0x10, 2]);
    assert_eq!(r, Err(Fault::StackUnderflow));
}

#[test]
fn unknown_opcode_is_a_fault() {
    let (_, r) = run_to_event(&vec![PUSH, 1, 0x42]);
    assert_eq!(r, Err(Fault::UnknownOpcode(0x42)));
}

#[test]
fn print_hands_out_the_top_bytes_in_order() {
    let code = vec![PUSH, 7, PUSH, b'H', PUSH, b'i', 0x10, 2, 0xff];
    let (m, r) = run_to_event(&code);
    assert_eq!(r, Ok(Step::Print(b"Hi".to_vec())));
    assert_eq!(m.stack(), &vec![7]);
    assert_eq!(m.ip(), 8);
}

#[test]
fn store_then_load_reads_back() {
    let code = vec![PUSH, 99, PUSH, 200, 0x0c, PUSH, 200, 0x0d];
    let mut m = Machine::new();
    for _ in 0..5 {
        assert_eq!(m.step(&code), Ok(Step::Continue));
    }
    assert_eq!(m.stack(), &vec![99]);
    assert_eq!(m.memory()[200], 99);
    assert_eq!(m.step(&code), Ok(Step::Halt));
}

#[test]
fn push_then_pop_and_swap_twice_restore_the_stack() {
    let code = vec![PUSH, 1, PUSH, 2, PUSH, 9, 0x08, 0x07, 0x07];
    let mut m = Machine::new();
    for _ in 0..3 {
        m.step(&code).unwrap();
    }
    assert_eq!(m.stack(), &vec![1, 2, 9]);
    m.step(&code).unwrap();
    assert_eq!(m.stack(), &vec![1, 2]);
    m.step(&code).unwrap();
    assert_eq!(m.stack(), &vec![2, 1]);
    m.step(&code).unwrap();
    assert_eq!(m.stack(), &vec![1, 2]);
}

#[test]
fn dup_and_jumps() {
    // 0: push 0; 2: jz 7; 5: push 1; 7: dup; 8: jmp 0x000b; 11: halt past end
    let code = vec![PUSH, 0, 0x04, 0, 7, PUSH, 1, PUSH, 5, 0x03, 0x00, 0x0c];
    let mut m = Machine::new();
    m.step(&code).unwrap();
    m.step(&code).unwrap();
    assert_eq!(m.ip(), 7);
    assert!(m.stack().is_empty());
    m.step(&code).unwrap();
    m.step(&code).unwrap();
    assert_eq!(m.ip(), 12);
    assert_eq!(m.step(&code), Ok(Step::Halt));

    let code = vec![PUSH, 3, PUSH, 3, 0x04, 0, 0, 0x06];
    let mut m = Machine::new();
    m.step(&code).unwrap();
    m.step(&code).unwrap();
    m.step(&code).unwrap();
    assert_eq!(m.ip(), 7);
    assert_eq!(m.stack(), &vec![3]);
    m.step(&code).unwrap();
    assert_eq!(m.stack(), &vec![3, 3]);
    assert_eq!(m.step(&code), Ok(Step::Halt));
    let (_, r) = run_to_event(&vec![0x06]);
    assert_eq!(r, Err(Fault::StackUnderflow));
}

#[test]
fn empty_code_halts_at_once() {
    let mut m = Machine::new();
    assert_eq!(m.step(&vec![]), Ok(Step::Halt));
    assert_eq!(m.ip(), 0);
}

#[test]
fn run_depends_only_on_code() {
    let b1 = binsex::opcode::Binary { magic: [0, 0, 0, 0], version: 1, code: vec![PUSH, 4, PUSH, 5, 0x09, 0xff] };
    let b2 = binsex::opcode::Binary::from_code(b1.code.clone());
    let (_, r1) = run_to_event(&b1.code);
    let (_, r2) = run_to_event(&b2.code);
    assert_eq!(r1, r2);
    assert_eq!(r1, Ok(Step::Exit(20)));
}

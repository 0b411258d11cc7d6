use binsex::compiler::{assemble, AssembleError};
use binsex::assembler::{code_size, codegen, emit_jump, resolve_labels, CodegenError, Instr, Node};
use binsex::labels::LabelMap;
use binsex::opcode::Opcode;
use binsex::parser::{line_of, parse, ParseError};
use binsex::vm::{Machine, Step};

#[test]
fn instruction_sizes() {
    assert_eq!(Instr::Add.size(), 1);
    assert_eq!(Instr::Gte.size(), 1);
    assert_eq!(Instr::Push(4).size(), 2);
    assert_eq!(Instr::Print(4).size(), 2);
    assert_eq!(Instr::Jmp("a".to_string()).size(), 3);
    assert_eq!(Instr::Jz("a".to_string()).size(), 3);
}

#[test]
fn line_of_counts_newlines_before_offset() {
    let src = "a\nbb\n\nc";
    assert_eq!(line_of(src, 0), 1);
    assert_eq!(line_of(src, 1), 1);
    assert_eq!(line_of(src, 2), 2);
    assert_eq!(line_of(src, 5), 3);
    assert_eq!(line_of(src, 6), 4);
    assert_eq!(line_of(src, 7), 4);
}

#[test]
fn label_map_keeps_last_binding() {
    let mut m = LabelMap::new();
    assert_eq!(m.get(&"x".to_string()), None);
    m.insert("x".to_string(), 3);
    m.insert("y".to_string(), 4);
    m.insert("x".to_string(), 9);
    assert_eq!(m.get(&"x".to_string()), Some(9));
    assert_eq!(m.get(&"y".to_string()), Some(4));
    assert!(m.contains_key(&"y".to_string()));
    assert!(!m.contains_key(&"z".to_string()));
}

#[test]
fn resolve_labels_counts_instruction_bytes() {
    let program = vec![
        Node::Label("start".to_string(), 1),
        Node::Instr(Instr::Push(1), 2),
        Node::Instr(Instr::Jz("end".to_string()), 3),
        Node::Instr(Instr::Add, 4),
        Node::Label("end".to_string(), 5),
        Node::Instr(Instr::Ret, 6),
        Node::Label("start".to_string(), 7),
    ];
    assert_eq!(code_size(&program), Some(7));
    let labels = resolve_labels(&program);
    assert_eq!(labels.get(&"end".to_string()), Some(6));
    assert_eq!(labels.get(&"start".to_string()), Some(7));
    let code = codegen(&program, &labels).unwrap();
    assert_eq!(code, vec![0x02, 1, 0x04, 0, 6, 0x01, 0xff]);
}

#[test]
fn codegen_reports_first_undefined_label() {
    let program = vec![
        Node::Instr(Instr::Push(1), 1),
        Node::Instr(Instr::Jmp("nowhere".to_string()), 2),
        Node::Instr(Instr::Jz("elsewhere".to_string()), 3),
    ];
    let labels = resolve_labels(&program);
    assert_eq!(
        codegen(&program, &labels),
        Err(CodegenError::UndefinedLabel { label: "nowhere".to_string(), line: 2 })
    );
}

#[test]
fn emit_jump_writes_big_endian_address() {
    let mut labels = LabelMap::new();
    labels.insert("far".to_string(), 0x1234);
    let mut bytecode = vec![9];
    assert_eq!(emit_jump(&mut bytecode, Opcode::Jmp, &"far".to_string(), 4, &labels), Ok(()));
    assert_eq!(bytecode, vec![9, 0x03, 0x12, 0x34]);
    let r = emit_jump(&mut bytecode, Opcode::Jz, &"near".to_string(), 8, &labels);
    assert_eq!(r, Err(CodegenError::UndefinedLabel { label: "near".to_string(), line: 8 }));
    assert_eq!(bytecode, vec![9, 0x03, 0x12, 0x34, 0x04]);
}

#[test]
fn parse_builds_program_with_lines() {
    let src = "@point top\npush 4 print 2\n@push 1 2 3; jz top # loop\nret";
    let program = parse(src).unwrap();
    let instrs: Vec<(Instr, usize)> = program
        .iter()
        .filter_map(|n| match n {
            Node::Instr(i, l) => Some((i.clone(), *l)),
            Node::Label(..) => None,
        })
        .collect();
    assert_eq!(
        instrs,
        vec![
            (Instr::Push(4), 2),
            (Instr::Print(2), 2),
            (Instr::Push(1), 3),
            (Instr::Push(2), 3),
            (Instr::Push(3), 3),
            (Instr::Jz("top".to_string()), 3),
            (Instr::Ret, 4),
        ]
    );
    match &program[0] {
        Node::Label(name, line) => {
            assert_eq!(name, "top");
            assert_eq!(*line, 1);
        }
        _ => panic!("expected a label"),
    }
}

#[test]
fn parse_pushstr_pushes_each_byte() {
    let program = parse("@pushstr \"Hi\" \"é\";").unwrap();
    let bytes: Vec<u8> = program
        .iter()
        .map(|n| match n {
            Node::Instr(Instr::Push(b), 1) => *b,
            _ => panic!("expected a push on line 1"),
        })
        .collect();
    assert_eq!(bytes, vec![b'H', b'i', 0xc3, 0xa9]);
}

#[test]
fn parse_all_plain_operators() {
    let src = "add sub dup swap ret pop mul mod div load store eq lt gte";
    let program = parse(src).unwrap();
    assert_eq!(program.len(), 14);
    match &program[13] {
        Node::Instr(Instr::Gte, 1) => {}
        other => panic!("unexpected {other:?}"),
    }
}

#[test]
fn parse_collects_all_errors() {
    let src = "push 300\n@bogus\nfoo\n!\njmp\n";
    let errors = parse(src).unwrap_err();
    assert_eq!(
        errors,
        vec![
            ParseError::InvalidNumber { line: 1, literal: "300".to_string() },
            ParseError::UnknownMetaOperator { line: 2, name: "@bogus".to_string() },
            ParseError::UnexpectedIdentifier { line: 3, name: "foo".to_string() },
            ParseError::UnrecognizedToken { line: 4, text: "!".to_string() },
        ]
    );
}

#[test]
fn number_without_operator_is_ignored() {
    let program = parse("5 \"text\" ;").unwrap();
    assert!(program.is_empty());
}

#[test]
fn assembled_jump_reaches_its_label() {
    let src = "push 3\n@point again\npush 1 sub dup jz done jmp again\n@point done\nret";
    let program = parse(src).unwrap();
    let labels = resolve_labels(&program);
    let code = codegen(&program, &labels).unwrap();
    let mut m = Machine::new();
    let mut visited = Vec::new();
    loop {
        visited.push(m.ip());
        match m.step(&code).unwrap() {
            Step::Continue => {}
            Step::Exit(c) => {
                assert_eq!(c, 0);
                break;
            }
            other => panic!("unexpected {other:?}"),
        }
    }
    let again = labels.get(&"again".to_string()).unwrap() as usize;
    let done = labels.get(&"done".to_string()).unwrap() as usize;
    assert_eq!(again, 2);
    assert_eq!(done, 12);
    assert_eq!(visited.iter().filter(|&&ip| ip == again).count(), 3);
    assert_eq!(*visited.last().unwrap(), done);
}

#[test]
fn code_size_refuses_more_than_addresses_reach() {
    let program: Vec<Node> = (0..21846).map(|i| Node::Instr(Instr::Jmp("x".to_string()), i)).collect();
    assert_eq!(code_size(&program), None);
    let program: Vec<Node> = (0..21845).map(|i| Node::Instr(Instr::Jmp("x".to_string()), i)).collect();
    assert_eq!(code_size(&program), Some(65535));
}

#[test]
fn assemble_whole_source() {
    let b = assemble("push 1 @point l jz l ret").unwrap();
    assert_eq!(b.magic, [0xCA, 0xFE, 0xCA, 0xFE]);
    assert_eq!(b.version, 67);
    assert_eq!(b.code, vec![0x02, 1, 0x04, 0, 2, 0xff]);
    assert_eq!(
        assemble("jmp nowhere"),
        Err(AssembleError::Codegen(CodegenError::UndefinedLabel {
            label: "nowhere".to_string(),
            line: 1
        }))
    );
    assert_eq!(
        assemble("push"),
        Ok(binsex::opcode::Binary::from_code(vec![]))
    );
    assert!(matches!(assemble("x"), Err(AssembleError::Parse(_))));
    let big = "jmp x ".repeat(21846) + "@point x";
    assert_eq!(assemble(&big), Err(AssembleError::TooLarge));
}

#[test]
fn bytecode_length_is_program_size() {
    let src = "@point a push 1 print 1 add sub dup swap pop mul mod div load store eq lt gte ret jz a jmp a";
    let program = parse(src).unwrap();
    let labels = resolve_labels(&program);
    let code = codegen(&program, &labels).unwrap();
    assert_eq!(Some(code.len() as u16), code_size(&program));
    assert_eq!(code.len(), 2 + 2 + 14 + 3 + 3);
}

#[test]
fn codegen_of_concatenated_programs() {
    let mut labels = LabelMap::new();
    labels.insert("a".to_string(), 0x0102);
    let p1 = vec![Node::Instr(Instr::Push(1), 1), Node::Instr(Instr::Jmp("a".to_string()), 2)];
    let p2 = vec![Node::Label("z".to_string(), 3), Node::Instr(Instr::Jz("a".to_string()), 4), Node::Instr(Instr::Ret, 5)];
    let mut both = p1.clone();
    both.extend(p2.clone());
    let mut expected = codegen(&p1, &labels).unwrap();
    expected.extend(codegen(&p2, &labels).unwrap());
    assert_eq!(codegen(&both, &labels).unwrap(), expected);
    let bad = vec![Node::Instr(Instr::Jz("b".to_string()), 9)];
    let mut first_bad = bad.clone();
    first_bad.extend(vec![Node::Instr(Instr::Jmp("c".to_string()), 10)]);
    assert_eq!(codegen(&first_bad, &labels), codegen(&bad, &labels));
}

#[test]
fn codegen_ignores_labels_and_lines() {
    let mut l1 = LabelMap::new();
    l1.insert("a".to_string(), 7);
    l1.insert("unused".to_string(), 1);
    let mut l2 = LabelMap::new();
    l2.insert("a".to_string(), 7);
    let p = vec![Node::Label("x".to_string(), 1), Node::Instr(Instr::Jmp("a".to_string()), 2), Node::Instr(Instr::Add, 3)];
    let q = vec![Node::Instr(Instr::Jmp("a".to_string()), 40), Node::Label("y".to_string(), 41), Node::Instr(Instr::Add, 42)];
    assert_eq!(codegen(&p, &l1), codegen(&q, &l2));
    assert_eq!(codegen(&p, &l1).unwrap(), vec![0x03, 0, 7, 0x01]);
}

#[test]
fn resolve_labels_of_concatenated_programs() {
    let p = vec![Node::Label("a".to_string(), 1), Node::Instr(Instr::Push(1), 1), Node::Label("b".to_string(), 2)];
    let q = vec![Node::Instr(Instr::Add, 3), Node::Label("b".to_string(), 3), Node::Label("c".to_string(), 4)];
    let mut both = p.clone();
    both.extend(q.clone());
    let lp = resolve_labels(&p);
    let lq = resolve_labels(&q);
    let lb = resolve_labels(&both);
    let size = code_size(&p).unwrap();
    assert_eq!(lb.get(&"a".to_string()), lp.get(&"a".to_string()));
    assert_eq!(lb.get(&"b".to_string()), Some(size + lq.get(&"b".to_string()).unwrap()));
    assert_eq!(lb.get(&"c".to_string()), Some(size + lq.get(&"c".to_string()).unwrap()));
    assert_eq!(lb.get(&"b".to_string()), Some(3));
}

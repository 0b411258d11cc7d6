use binsex::labels::LabelMap;
use binsex::legacy::{compile_step, new_meta_step, CompileError, MetaError};

#[test]
fn meta_step_places_points_and_expands_pushes() {
    let src = "@push 1 2; @pushstr \"ab\"; add @point here push 7 jmp here ret";
    let mut bytecode = Vec::new();
    let mut points = LabelMap::new();
    assert_eq!(new_meta_step(src, &mut bytecode, &mut points), Ok(()));
    assert_eq!(bytecode, vec![2, 1, 2, 2, 2, b'a', 2, b'b']);
    // 2 numbers count 1 each, 2 string bytes count 2 each, add counts 1
    assert_eq!(points.get(&"here".to_string()), Some(7));
}

#[test]
fn meta_step_reports_unknown_words() {
    let mut bytecode = Vec::new();
    let mut points = LabelMap::new();
    let r = new_meta_step("swap @odd pop", &mut bytecode, &mut points);
    assert_eq!(
        r,
        Err(MetaError::UnknownOperators(vec![
            "swap".to_string(),
            "@odd".to_string(),
            "pop".to_string()
        ]))
    );
}

#[test]
fn meta_step_rejects_large_number() {
    let mut bytecode = Vec::new();
    let mut points = LabelMap::new();
    let r = new_meta_step("@push 256;", &mut bytecode, &mut points);
    assert_eq!(r, Err(MetaError::InvalidNumber));
}

#[test]
fn compile_step_emits_opcodes_and_targets() {
    let src = "@point top push 5 print sub dup swap jz top add ret jmp top";
    let mut points = LabelMap::new();
    let mut bytecode = Vec::new();
    // the first pass does not know `swap`
    assert_eq!(
        new_meta_step(src, &mut bytecode, &mut points),
        Err(MetaError::UnknownOperators(vec!["swap".to_string()]))
    );
    let mut points = LabelMap::new();
    points.insert("top".to_string(), 0);
    let mut bytecode = Vec::new();
    compile_step(src, &mut bytecode, &points).unwrap();
    assert_eq!(
        bytecode,
        vec![0x02, 5, 0x10, 0x05, 0x06, 0x07, 0x04, 0, 0, 0x01, 0xff, 0x03, 0, 0]
    );
}

#[test]
fn compile_step_faults() {
    let points = LabelMap::new();
    let mut bytecode = Vec::new();
    assert_eq!(compile_step("add !", &mut bytecode, &points), Err(CompileError::UnrecognizedToken));
    let mut bytecode = Vec::new();
    assert_eq!(compile_step("push 999", &mut bytecode, &points), Err(CompileError::InvalidNumber));
}

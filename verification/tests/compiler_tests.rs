use ascc::compiler::{compile, float_fold_sites, float_numerals};
use ascc::errors::CompileError;
use ascc::tables::{ByteTable, FloatEval, FloatOp, HeaderState, RoutineTable};
use ascc::tokenizer::tokenize;

fn compile_src(src: &[u8], floats: &FloatEval) -> Result<Vec<u8>, CompileError> {
    let tokens = tokenize(src).expect("lexing failed");
    let mut out: Vec<u8> = Vec::new();
    let mut labels = ByteTable::new();
    let mut routines = RoutineTable::new();
    let mut header = HeaderState::new();
    compile(&tokens, &mut out, &mut labels, &mut routines, &mut header, floats)?;
    Ok(out)
}

fn compile_plain(src: &[u8]) -> Result<Vec<u8>, CompileError> {
    compile_src(src, &FloatEval::new())
}

#[test]
fn cpix_emits_four_bytes() {
    assert_eq!(compile_plain(b"cpix+0a+0b+ff;"), Ok(vec![0x01, 0x0a, 0x0b, 0xff]));
}

#[test]
fn label_before_jump_resolves_backward() {
    let out = compile_plain(b"!start noop jmp!start;").unwrap();
    let mut expect = vec![0x00, 0xe3];
    expect.extend_from_slice(&0u64.to_le_bytes());
    assert_eq!(out, expect);
}

#[test]
fn jump_accepts_bare_name_too() {
    let out = compile_plain(b"!loop noop jmp loop;").unwrap();
    let mut expect = vec![0x00, 0xe3];
    expect.extend_from_slice(&0u64.to_le_bytes());
    assert_eq!(out, expect);
}

#[test]
fn if_backpatches_end_offset() {
    let out = compile_plain(b"if $01 {cpix+00+00+01;}").unwrap();
    let mut expect = vec![0xe2, 0x01];
    expect.extend_from_slice(&14u64.to_le_bytes());
    expect.extend_from_slice(&[0x01, 0x00, 0x00, 0x01]);
    assert_eq!(out, expect);
    assert_eq!(out.len(), 14);
}

#[test]
fn rep_unrolls_fully() {
    assert_eq!(compile_plain(b"rep 3 {noop;}"), Ok(vec![0x00, 0x00, 0x00]));
}

#[test]
fn rep_zero_or_negative_emits_nothing() {
    assert_eq!(compile_plain(b"rep 0 {noop;}"), Ok(vec![]));
    assert_eq!(compile_plain(b"rep -2 {noop;}"), Ok(vec![]));
}

#[test]
fn add_of_two_literals_folds() {
    let out = compile_plain(b"add @05 @0a $01;").unwrap();
    let mut expect = vec![0xa1, 0xe0];
    expect.extend_from_slice(&15u64.to_le_bytes());
    expect.push(0x01);
    assert_eq!(out, expect);
}

#[test]
fn add_of_two_variables_is_runtime() {
    assert_eq!(compile_plain(b"add $01 $02 $03;"), Ok(vec![0xf6, 1, 2, 3]));
}

#[test]
fn other_int_folds() {
    let out = compile_plain(b"sub @05 @0a $02;").unwrap();
    let mut expect = vec![0xa1, 0xe0];
    expect.extend_from_slice(&(-5i64 as u64).to_le_bytes());
    expect.push(0x02);
    assert_eq!(out, expect);

    let out = compile_plain(b"div @0a @03 $02;").unwrap();
    let mut expect = vec![0xa1, 0xe0];
    expect.extend_from_slice(&3u64.to_le_bytes());
    expect.push(0x02);
    assert_eq!(out, expect);

    // truncating division of a negative dividend
    let out = compile_plain(b"div -7 2 $02;").unwrap();
    let mut expect = vec![0xa1, 0xe0];
    expect.extend_from_slice(&(-3i64 as u64).to_le_bytes());
    expect.push(0x02);
    assert_eq!(out, expect);
}

#[test]
fn fold_errors() {
    assert_eq!(compile_plain(b"div @01 @00 $01;"), Err(CompileError::FoldDivideByZero));
    assert_eq!(
        compile_plain(b"mul @7fffffffffffffff @02 $01;"),
        Err(CompileError::FoldOverflow)
    );
}

#[test]
fn runtime_float_ops() {
    assert_eq!(compile_plain(b"fadd $01 $02 $03;"), Ok(vec![0xf2, 1, 2, 3]));
    assert_eq!(compile_plain(b"fdiv $01 $02 $03;"), Ok(vec![0xf0, 1, 2, 3]));
    assert_eq!(compile_plain(b"fsub $01 $02 $03;"), Ok(vec![0xf1, 1, 2, 3]));
    assert_eq!(compile_plain(b"fmul $01 $02 $03;"), Ok(vec![0xf3, 1, 2, 3]));
}

#[test]
fn comparisons_key_cls_flsh_pix() {
    assert_eq!(compile_plain(b"gt $01 $02 $03;"), Ok(vec![0xb1, 1, 2, 3]));
    assert_eq!(compile_plain(b"lt $01 $02 $03;"), Ok(vec![0xb2, 1, 2, 3]));
    assert_eq!(compile_plain(b"key +41 $05;"), Ok(vec![0xd0, 0x41, 5]));
    assert_eq!(compile_plain(b"cls +07;"), Ok(vec![0xfc, 7]));
    assert_eq!(compile_plain(b"flsh;"), Ok(vec![0xfb]));
    assert_eq!(compile_plain(b"pix $01 $02 +03;"), Ok(vec![0x02, 1, 2, 3]));
}

#[test]
fn spr_emits_pointer_and_coords() {
    assert_eq!(
        compile_plain(b"spr [+01+02+03+04+05+06+07+08] $01 $02;"),
        Ok(vec![0x03, 1, 2, 3, 4, 5, 6, 7, 8, 1, 2])
    );
}

#[test]
fn bjmp_fixed_target() {
    let out = compile_plain(b"bjmp 5;").unwrap();
    let mut expect = vec![0xe3];
    expect.extend_from_slice(&5u64.to_le_bytes());
    assert_eq!(out, expect);
}

#[test]
fn var_and_let_payloads() {
    let out = compile_plain(b"var $01 @05;").unwrap();
    let mut expect = vec![0xa1, 0xe0];
    expect.extend_from_slice(&5u64.to_le_bytes());
    expect.push(1);
    assert_eq!(out, expect);

    let out = compile_plain(b"let $01 @05;").unwrap();
    let mut expect = vec![0xa2, 0xe0];
    expect.extend_from_slice(&5u64.to_le_bytes());
    expect.push(1);
    assert_eq!(out, expect);

    let out = compile_plain(b"var $02 \"hi\";").unwrap();
    assert_eq!(out, vec![0xa1, 0xab, b'h', b'i', 0, 0, 0, 0, 0, 0, 2]);

    let out = compile_plain(b"var $03 [+01+02+03+04+05+06+07+08];").unwrap();
    assert_eq!(out, vec![0xa1, 0x8a, 1, 2, 3, 4, 5, 6, 7, 8, 3]);
}

#[test]
fn header_region_and_offsets() {
    // header: flag byte and one counted filler byte, then the terminator;
    // the label's offset is relative to the instruction region
    let out = compile_plain(b"keeploop headerbytes +ff; endhead noop !x jmp!x;").unwrap();
    let mut expect = vec![0x02, 0xff, 0x00, 0x00, 0xe3];
    expect.extend_from_slice(&1u64.to_le_bytes());
    assert_eq!(out, expect);
}

#[test]
fn keepopen_and_zero_filler_not_counted() {
    // the zero filler byte is emitted but not counted in the header size
    let out = compile_plain(b"keepopen headerbytes +ff +00; endhead !y jmp!y;").unwrap();
    let mut expect = vec![0x04, 0xff, 0x00, 0x00, 0xe3];
    // output length 4 at the label, header size 2, terminator 1: offset 1
    expect.extend_from_slice(&1u64.to_le_bytes());
    assert_eq!(out, expect);
}

#[test]
fn bytes_injects_raw_run() {
    assert_eq!(compile_plain(b"bytes +de +ad +be +ef;"), Ok(vec![0xde, 0xad, 0xbe, 0xef]));
}

#[test]
fn routines_expand_per_call() {
    assert_eq!(
        compile_plain(b"routine f {noop;} call f; call f;"),
        Ok(vec![0x00, 0x00])
    );
}

#[test]
fn routine_recursion_rejected() {
    assert_eq!(
        compile_plain(b"routine f {call f;} call f;"),
        Err(CompileError::RoutineRecursion)
    );
}

#[test]
fn semantic_errors() {
    assert_eq!(
        compile_plain(b"frob;"),
        Err(CompileError::UnknownMnemonic(b"frob".to_vec()))
    );
    assert_eq!(
        compile_plain(b"jmp!nowhere;"),
        Err(CompileError::UnknownLabel(b"nowhere".to_vec()))
    );
    assert_eq!(
        compile_plain(b"call ghost;"),
        Err(CompileError::UnknownRoutine(b"ghost".to_vec()))
    );
    assert_eq!(
        compile_plain(b"cpix $01 +00 +00;"),
        Err(CompileError::BadOperand(b"cpix".to_vec()))
    );
    assert_eq!(compile_plain(b"+01"), Err(CompileError::StrayToken));
}

#[test]
fn float_payload_through_eval_table() {
    let mut floats = FloatEval::new();
    floats.add_numeral(b"1.5".to_vec(), 1.5f64.to_bits());
    let out = compile_src(b"var $01 #1.5;", &floats).unwrap();
    let mut expect = vec![0xa1, 0xf0];
    expect.extend_from_slice(&1.5f64.to_le_bytes());
    expect.push(1);
    assert_eq!(out, expect);
}

#[test]
fn float_fold_through_eval_table() {
    let mut floats = FloatEval::new();
    floats.add_fold(FloatOp::Add, b"1.5".to_vec(), b"2.25".to_vec(), (1.5f64 + 2.25f64).to_bits());
    let out = compile_src(b"fadd #1.5 #2.25 $01;", &floats).unwrap();
    // a fold of two float literals is stored with the float payload tag
    let mut expect = vec![0xa1, 0xf0];
    expect.extend_from_slice(&3.75f64.to_le_bytes());
    expect.push(1);
    assert_eq!(out, expect);
}

#[test]
fn unresolved_float_without_table() {
    assert_eq!(
        compile_plain(b"var $01 #1.5;"),
        Err(CompileError::UnresolvedFloat)
    );
    assert_eq!(
        compile_plain(b"fadd #1.5 #2.25 $01;"),
        Err(CompileError::UnresolvedFloat)
    );
}

#[test]
fn float_collectors_find_nested_work() {
    let tokens = tokenize(b"var $01 #1.5; if $01 {fadd #2.0 #3.0 $02;}").unwrap();
    let nums = float_numerals(&tokens);
    assert_eq!(
        nums,
        vec![b"1.5".to_vec(), b"2.0".to_vec(), b"3.0".to_vec()]
    );
    let folds = float_fold_sites(&tokens);
    assert_eq!(folds.len(), 1);
    assert_eq!(folds[0].0, FloatOp::Add);
    assert_eq!(folds[0].1, b"2.0".to_vec());
    assert_eq!(folds[0].2, b"3.0".to_vec());
}

#[test]
fn nested_if_and_labels_in_blocks() {
    // an if inside an if: inner end offset points past the inner body,
    // outer end offset equals the whole length
    let out = compile_plain(b"if $01 {if $02 {noop;}}").unwrap();
    let mut expect = vec![0xe2, 0x01];
    expect.extend_from_slice(&21u64.to_le_bytes());
    expect.extend_from_slice(&[0xe2, 0x02]);
    expect.extend_from_slice(&21u64.to_le_bytes());
    expect.push(0x00);
    assert_eq!(out, expect);
    assert_eq!(out.len(), 21);
}

#[test]
fn conditional_jumps_resolve() {
    let out = compile_plain(b"!top noop fjmp $01 !top;").unwrap();
    let mut expect = vec![0x00, 0xe2, 0x01];
    expect.extend_from_slice(&0u64.to_le_bytes());
    assert_eq!(out, expect);

    let out = compile_plain(b"!top noop tjmp $02 !top;").unwrap();
    let mut expect = vec![0x00, 0xe1, 0x02];
    expect.extend_from_slice(&0u64.to_le_bytes());
    assert_eq!(out, expect);
}

#[test]
fn rep_redeclares_labels_each_round() {
    // the label inside the block is recorded again on every iteration, so
    // only the last round's offset remains visible afterwards
    let out = compile_plain(b"rep 2 {!a noop;} jmp!a;").unwrap();
    let mut expect = vec![0x00, 0x00, 0xe3];
    expect.extend_from_slice(&1u64.to_le_bytes());
    assert_eq!(out, expect);
}

#[test]
fn empty_program_emits_nothing() {
    assert_eq!(compile_plain(b""), Ok(vec![]));
    assert_eq!(tokenize(b""), Ok(vec![]));
}

use cranelift_codegen::ir::{types, AbiParam, Function, Signature, UserFuncName};
use cranelift_codegen::isa::CallConv;
use cranelift_codegen::settings;
use cranelift_codegen::verify_function;
use cranelift_frontend::{FunctionBuilder, FunctionBuilderContext};
use soma::compiler::body::{ElementLayout, EvaluatorProgram, FieldWidth, Op, Store};
use soma::executives::native::compile;
use soma::executives::native_emit::{emit, CallValues};
use soma::experiments::ant_scoring::{program, sensing_program};

/// The function of a body, as text. Cranelift's own verifier accepts it.
fn built(program: &EvaluatorProgram) -> String {
    let compiled = compile(program).ok().unwrap();
    let mut signature = Signature::new(CallConv::SystemV);
    for kind in [
        types::I64,
        types::I64,
        types::I32,
        types::I32,
        types::I64,
        types::I32,
        types::I32,
        types::I32,
        types::I32,
    ] {
        signature.params.push(AbiParam::new(kind));
    }
    let mut function = Function::with_name_signature(UserFuncName::user(0, 0), signature);
    let mut context = FunctionBuilderContext::new();
    let mut builder = FunctionBuilder::new(&mut function, &mut context);
    let entry = builder.create_block();
    builder.append_block_params_for_function_params(entry);
    builder.switch_to_block(entry);
    let params = builder.block_params(entry).to_vec();
    let call = CallValues {
        input: params[0],
        output: params[1],
        count: params[2],
        stride: params[3],
        aux: params[4],
        aux_count: params[5],
        aux_stride: params[6],
        start: params[7],
        end: params[8],
    };
    emit(&mut builder, &call, &compiled);
    builder.seal_all_blocks();
    builder.finalize();
    let flags = settings::Flags::new(settings::builder());
    assert!(verify_function(&function, &flags).is_ok());
    function.display().to_string()
}

fn count(text: &str, word: &str) -> usize {
    text.split_whitespace()
        .filter(|part| *part == word || part.starts_with(&format!("{word}.")))
        .count()
}

#[test]
fn a_body_becomes_a_loop_over_its_elements() {
    let doubling = EvaluatorProgram::new(
        50,
        "doubling".to_string(),
        ElementLayout::new(vec![FieldWidth::U16, FieldWidth::U64]),
        vec![Op::Load(0), Op::Load(1), Op::Add(0, 1), Op::Const(77), Op::Mul(2, 3)],
        vec![Store { field: 0, value: 4 }, Store { field: 1, value: 2 }],
    )
    .unwrap();
    let text = built(&doubling);
    assert_eq!(count(&text, "brif"), 1);
    assert_eq!(count(&text, "jump"), 2);
    assert_eq!(count(&text, "return"), 1);
    assert_eq!(count(&text, "load"), 2);
    assert_eq!(count(&text, "store"), 2);
    assert_eq!(count(&text, "ireduce"), 1);
    assert!(text.contains("icmp ult"));
    assert!(text.contains("iconst.i64 77"));
    assert!(text.contains("load.i16"));
    assert!(text.contains("load.i64"));
    assert!(text.contains("+2"));
    assert!(text.contains("iadd_imm"));
}

#[test]
fn every_instruction_has_its_place() {
    let all = EvaluatorProgram::with_aux(
        51,
        "all".to_string(),
        ElementLayout::new(vec![FieldWidth::U64]),
        ElementLayout::new(vec![FieldWidth::U8]),
        vec![
            Op::Load(0),
            Op::Index,
            Op::Gather(1, 0),
            Op::GatherAux(0, 0),
            Op::Sub(0, 1),
            Op::And(0, 1),
            Op::Or(0, 1),
            Op::Xor(0, 1),
            Op::Shl(0, 1),
            Op::Shr(0, 1),
            Op::CmpEq(0, 1),
            Op::CmpLt(0, 1),
            Op::Select(10, 2, 3),
            Op::Put(0, 12),
            Op::Get(0),
        ],
        vec![Store { field: 0, value: 14 }],
    )
    .unwrap();
    let text = built(&all);
    for word in ["isub", "band", "bor", "bxor", "ishl", "ushr", "select", "uextend"] {
        assert!(count(&text, word) > 0, "{word}");
    }
    assert!(text.contains("icmp eq"));
    assert!(text.contains("icmp uge"));
    assert!(text.contains("icmp_imm ne") || text.contains("icmp ne"));
    // The loop's own branch, and the one that guards the second array.
    assert_eq!(count(&text, "brif"), 2);
    assert_eq!(count(&text, "jump"), 4);
}

#[test]
fn the_ants_bodies_can_be_emitted() {
    let scoring = built(&program());
    assert_eq!(count(&scoring, "load"), 8);
    assert_eq!(count(&scoring, "store"), 1);
    let sensing = built(&sensing_program());
    assert_eq!(count(&sensing, "brif"), 1 + 8);
}

use cranelift_jit::{JITBuilder, JITModule};

use emscript::clif::FrameLayout;
use emscript::dag_program::cf_build::{compile_program, CompileError, CompiledProgram};
use emscript::dag_program::cf_build::{function_to_cranelift, BuiltinIds, FunctionCompRes};
use emscript::dag_program::code::GcRoot;
use emscript::dag_program::human_format::{
    parse_mir_program, ParsedBlockLine, ParsedFunctionLine, ParsedItem, ParsedOperand, ParsedPlace,
    ParsedProjection, ParsedTypePath, ParsedValue,
};
use emscript::dag_program::roots::{root_offsets, roots_from_frame};
use emscript::dag_program::{
    BasicBlock, BasicBlockId, Func, FuncId, Ins, InsFinal, LocalId, Operand, PlaceExpr, Program,
    Projection, StructInfo, TypeId, TypeInfo, Types, ValueExpr,
};
use emscript::layout::Layout;
use emscript::runtime::{RtFuncData, Runtime, RuntimeBuilder};
use emscript::slots::{Arena, KeyMap, FIRST_KEY};

fn s(text: &str) -> String {
    text.to_owned()
}

fn named(name: &str) -> ParsedTypePath {
    ParsedTypePath::TypeName(s(name))
}

fn gc(name: &str) -> ParsedTypePath {
    ParsedTypePath::GcRef(Box::new(named(name)))
}

fn place(root: &str, projections: Vec<ParsedProjection>) -> ParsedPlace {
    ParsedPlace { root: s(root), projections }
}

fn read(root: &str) -> ParsedOperand {
    ParsedOperand::Place(place(root, vec![]))
}

fn line(lvalue: &str, rvalue: ParsedValue) -> ParsedBlockLine {
    ParsedBlockLine { lvalue: place(lvalue, vec![]), rvalue }
}

fn op(name: &str, lhs: ParsedOperand, rhs: ParsedOperand) -> ParsedValue {
    ParsedValue::BinOp(s(name), lhs, rhs)
}

fn local(name: &str, ty: ParsedTypePath) -> ParsedFunctionLine {
    ParsedFunctionLine::DecLocal { name: s(name), ty }
}

fn block(name: &str, lines: Vec<ParsedBlockLine>, term: &str, args: &[&str]) -> ParsedFunctionLine {
    ParsedFunctionLine::Block {
        name: s(name),
        lines,
        term_ins: s(term),
        term_args: args.iter().map(|a| s(a)).collect(),
    }
}

fn function(
    name: &str,
    args: &[&str],
    lines: Vec<ParsedFunctionLine>,
    ret_ty: Option<ParsedTypePath>,
) -> ParsedItem {
    ParsedItem::Function {
        name: s(name),
        arg_locals: args.iter().map(|a| s(a)).collect(),
        lines,
        ret_ty,
    }
}

fn parse(items: Vec<ParsedItem>, entry: &str) -> Program {
    match parse_mir_program(&items, entry) {
        Ok(program) => program,
        Err(error) => panic!("{:?}", error),
    }
}

fn new_module() -> JITModule {
    let builder = JITBuilder::with_flags(
        &[("preserve_frame_pointers", "true")],
        cranelift_module::default_libcall_names(),
    )
    .unwrap();
    JITModule::new(builder)
}

fn compile(program: &Program, rt: &mut Runtime) -> CompiledProgram {
    match compile_program(program, new_module(), rt) {
        Ok(compiled) => compiled,
        Err(CompileError::TooMany) => panic!("room"),
        Err(CompileError::Unchecked) => panic!("checks"),
        Err(CompileError::Layout) => panic!("layout"),
        Err(CompileError::Signature(id)) => panic!("signature of {:?}", id),
        Err(CompileError::Code(id)) => panic!("code of {:?}", id),
        Err(CompileError::Frame(id)) => panic!("frame of {:?}", id),
        Err(CompileError::Module(error)) => panic!("{:?}", error),
    }
}

fn shifted(n: usize, base: u64) -> KeyMap {
    let mut map = KeyMap::new();
    for i in 0..n as u64 {
        map.insert(FIRST_KEY + i, FIRST_KEY + base + i);
    }
    map
}

fn lower(program: &Program, n: u64) -> Option<FunctionCompRes> {
    let mut rt = Runtime::new(0);
    let mut compiled = compile(program, &mut rt);
    function_to_cranelift(
        program,
        &program.types.layouts(),
        FuncId { key: FIRST_KEY + n },
        &compiled.func_id_map,
        &shifted(program.functions.len(), 100),
        &shifted(program.types.len(), 200),
        &mut compiled.module,
        &compiled.builtin_ids,
    )
}

fn text(program: &Program, n: u64) -> String {
    lower(program, n).unwrap().func.display().to_string()
}

fn mul2add1() -> Program {
    parse(
        vec![function(
            "mul2add1",
            &["x"],
            vec![
                local("x", named("i32")),
                local("y", named("i32")),
                block(
                    "start",
                    vec![
                        line("y", op("mul", read("x"), ParsedOperand::ConstI32(2))),
                        line("y", op("add", read("y"), ParsedOperand::ConstI32(-1))),
                    ],
                    "return",
                    &["y"],
                ),
            ],
            Some(named("i32")),
        )],
        "mul2add1",
    )
}

#[test]
fn arithmetic_is_lowered() {
    let expected = "function u0:1(i32) -> i32 system_v {
    ss0 = explicit_slot 4, align = 4, key = 1
    ss1 = explicit_slot 4, align = 4, key = 2
    sig0 = (i32) -> i32 system_v
    sig1 = (i64) -> i64 system_v
    sig2 = (i64, i64) system_v
    sig3 = () system_v
    fn0 = colocated u0:0 sig0
    fn1 = u0:1 sig1
    fn2 = u0:2 sig2
    fn3 = u0:3 sig3

block0(v0: i32):
    v1 = iconst.i64 0x0001_0000_0065
    v2 = get_frame_pointer.i64 
    call fn2(v1, v2)  ; v1 = 0x0001_0000_0065
    stack_store v0, ss0
    v3 = stack_addr.i64 ss1
    v4 = stack_addr.i64 ss0
    v5 = load.i32 v4
    v6 = iconst.i32 2
    v7 = imul v5, v6  ; v6 = 2
    store v7, v3
    v8 = stack_addr.i64 ss1
    v9 = stack_addr.i64 ss1
    v10 = load.i32 v9
    v11 = iconst.i32 -1
    v12 = iadd v10, v11  ; v11 = -1
    store v12, v8
    call fn3()
    v13 = stack_load.i32 ss1
    return v13
}
";
    assert_eq!(text(&mul2add1(), 0), expected);
}

fn lists() -> Program {
    parse(
        vec![
            ParsedItem::Struct { name: s("Node"), fields: vec![named("i32"), gc("Node")] },
            function(
                "push",
                &["tail", "x"],
                vec![
                    local("x", named("i32")),
                    local("tail", gc("Node")),
                    local("node", gc("Node")),
                    block("skipped", vec![], "br", &["start"]),
                    block(
                        "start",
                        vec![
                            line("node", ParsedValue::Alloc),
                            ParsedBlockLine {
                                lvalue: place(
                                    "node",
                                    vec![ParsedProjection::Deref, ParsedProjection::Field(0)],
                                ),
                                rvalue: ParsedValue::Read(read("x")),
                            },
                            ParsedBlockLine {
                                lvalue: place(
                                    "node",
                                    vec![ParsedProjection::Deref, ParsedProjection::Field(1)],
                                ),
                                rvalue: ParsedValue::Read(read("tail")),
                            },
                        ],
                        "call",
                        &["push", "node", "done", "node", "x"],
                    ),
                    block("done", vec![], "return", &["node"]),
                ],
                Some(gc("Node")),
            ),
        ],
        "push",
    )
}

#[test]
fn managed_memory_is_lowered() {
    let expected = "function u0:1(i64, i32) -> i64 system_v {
    ss0 = explicit_slot 4, align = 4, key = 1
    ss1 = explicit_slot 8, align = 8, key = 2
    ss2 = explicit_slot 8, align = 8, key = 3
    sig0 = (i64, i32) -> i64 system_v
    sig1 = (i64) -> i64 system_v
    sig2 = (i64, i64) system_v
    sig3 = () system_v
    fn0 = colocated u0:0 sig0
    fn1 = u0:1 sig1
    fn2 = u0:2 sig2
    fn3 = u0:3 sig3

block0(v0: i64, v1: i32):
    v2 = iconst.i64 0x0001_0000_0065
    v3 = get_frame_pointer.i64 
    call fn2(v2, v3)  ; v2 = 0x0001_0000_0065
    stack_store v0, ss1
    stack_store v1, ss0
    jump block1

block1:
    v4 = stack_addr.i64 ss2
    v5 = iconst.i64 0x0001_0000_00cd
    v6 = call fn1(v5)  ; v5 = 0x0001_0000_00cd
    store v6, v4
    v7 = stack_addr.i64 ss2
    v8 = load.i64 v7
    v9 = stack_addr.i64 ss0
    v10 = load.i32 v9
    store v10, v8
    v11 = stack_addr.i64 ss2
    v12 = load.i64 v11
    v13 = iadd_imm v12, 8
    v14 = stack_addr.i64 ss1
    v15 = load.i64 v14
    store v15, v13
    v16 = stack_load.i64 ss2
    v17 = stack_load.i32 ss0
    v18 = call fn0(v16, v17)
    stack_store v18, ss2
    jump block2

block2:
    call fn3()
    v19 = stack_load.i64 ss2
    return v19
}
";
    assert_eq!(text(&lists(), 0), expected);
    let roots = lower(&lists(), 0).unwrap().gc_root_stackslots;
    assert_eq!(
        roots,
        vec![
            GcRoot { slot: 1, offset: 0, ty: ty(7) },
            GcRoot { slot: 2, offset: 0, ty: ty(8) },
        ]
    );
}

fn body(program: &Program, n: u64) -> Vec<String> {
    let text = text(program, n);
    let start = text.find("block0").unwrap();
    text[start..].lines().map(|line| line.trim().to_owned()).collect()
}

fn expect_body(program: &Program, n: u64, lines: &[&str]) {
    assert_eq!(body(program, n), lines.iter().map(|line| s(line)).collect::<Vec<String>>());
}

#[test]
fn comparisons_give_bools() {
    let program = parse(
        vec![function(
            "f",
            &[],
            vec![
                local("x", named("i32")),
                local("y", named("f32")),
                local("b", named("bool")),
                block(
                    "start",
                    vec![
                        line("b", op("eq", read("x"), ParsedOperand::ConstI32(1))),
                        line("b", op("eq", read("b"), ParsedOperand::ConstBool(true))),
                        line("b", op("eq", read("y"), ParsedOperand::ConstF32(0x3f80_0000))),
                        line("b", op("le", read("x"), read("x"))),
                        line("b", op("le", read("y"), read("y"))),
                        line("b", op("lt", read("x"), read("x"))),
                        line("b", op("lt", read("y"), read("y"))),
                    ],
                    "brif",
                    &["b", "again", "end"],
                ),
                block("again", vec![], "br", &["end"]),
                block("end", vec![], "return", &[]),
            ],
            None,
        )],
        "f",
    );
    let lines = body(&program, 0);
    let with = |word: &str| -> Vec<String> {
        lines.iter().filter(|line| line.contains(word)).cloned().collect()
    };
    assert_eq!(
        with("icmp"),
        vec![
            "v6 = icmp eq v4, v5  ; v5 = 1",
            "v11 = icmp eq v9, v10  ; v10 = 1",
            "v22 = icmp sle v19, v21",
            "v34 = icmp slt v31, v33",
        ]
    );
    assert_eq!(
        with("fcmp"),
        vec![
            "v16 = fcmp eq v14, v15  ; v15 = 0x1.000000p0",
            "v28 = fcmp le v25, v27",
            "v40 = fcmp lt v37, v39",
        ]
    );
    assert_eq!(with("f32const"), vec!["v15 = f32const 0x1.000000p0"]);
    assert_eq!(with("brif"), vec!["brif v41, block1, block2"]);
}

#[test]
fn arithmetic_goes_by_the_type_of_the_result() {
    let ops = ["add", "sub", "mul", "div"];
    let lines = |name: &str| -> Vec<ParsedBlockLine> {
        ops.iter().map(|word| line(name, op(word, read(name), read(name)))).collect()
    };
    let program = parse(
        vec![
            function(
                "ints",
                &[],
                vec![local("x", named("i32")), block("b", lines("x"), "return", &[])],
                None,
            ),
            function(
                "floats",
                &[],
                vec![local("x", named("f32")), block("b", lines("x"), "return", &[])],
                None,
            ),
        ],
        "ints",
    );
    let names = |n: u64, prefix: &str| -> Vec<String> {
        let mut found: Vec<String> = Vec::new();
        for line in body(&program, n) {
            if let Some((_, code)) = line.split_once(" = ") {
                let word = code.split(' ').next().unwrap();
                if word.starts_with(prefix) && !word.starts_with("iconst") && word.len() == 4 {
                    found.push(s(word));
                }
            }
        }
        found
    };
    assert_eq!(names(0, "i"), vec!["iadd", "isub", "imul"]);
    assert_eq!(names(0, "s"), vec!["sdiv"]);
    assert_eq!(names(1, "f"), vec!["fadd", "fsub", "fmul", "fdiv"]);
}

#[test]
fn references_are_addresses() {
    let program = parse(
        vec![
            ParsedItem::Struct { name: s("Pair"), fields: vec![named("i32"), named("i32")] },
            function(
                "f",
                &["p"],
                vec![
                    local("p", named("Pair")),
                    local("r", ParsedTypePath::Ref(Box::new(named("i32")))),
                    local("q", named("Pair")),
                    block(
                        "b",
                        vec![
                            line(
                                "r",
                                ParsedValue::Ref(ParsedOperand::Place(place(
                                    "p",
                                    vec![ParsedProjection::Field(1)],
                                ))),
                            ),
                            line("q", ParsedValue::Read(read("p"))),
                        ],
                        "return",
                        &["q"],
                    ),
                ],
                Some(named("Pair")),
            ),
        ],
        "f",
    );
    expect_body(
        &program,
        0,
        &[
            "block0(v0: i64):",
            "v1 = iconst.i64 0x0001_0000_0065",
            "v2 = get_frame_pointer.i64",
            "call fn2(v1, v2)  ; v1 = 0x0001_0000_0065",
            "stack_store v0, ss0",
            "v3 = stack_addr.i64 ss1",
            "v4 = stack_addr.i64 ss0",
            "v5 = iadd_imm v4, 4",
            "store v5, v3",
            "v6 = stack_addr.i64 ss2",
            "v7 = stack_addr.i64 ss0",
            "v8 = load.i64 v7",
            "store v8, v6",
            "call fn3()",
            "v9 = stack_load.i64 ss2",
            "return v9",
            "}",
        ],
    );
    assert!(lower(&program, 0).unwrap().gc_root_stackslots.is_empty());
}

/// A program of one function with those locals and blocks.
fn manual(types: Types, locals: Vec<TypeId>, blocks: Vec<BasicBlock>, entry: u64) -> Program {
    let mut func: Func = Default::default();
    func.name = s("f");
    for ty in locals {
        func.locals.insert(ty);
    }
    for block in blocks {
        func.blocks.insert(block);
    }
    func.entrypoint = BasicBlockId { key: FIRST_KEY + entry };
    let mut functions: Arena<Func> = Arena::new();
    let key = functions.insert(func);
    Program { entrypoint: FuncId { key }, functions, types }
}

fn prims() -> Types {
    let mut types = Types::new();
    types.i32();
    types.i64();
    types.float32();
    types.bool();
    types
}

fn ty(n: u64) -> TypeId {
    TypeId { key: FIRST_KEY + n }
}

fn bb(n: u64) -> BasicBlockId {
    BasicBlockId { key: FIRST_KEY + n }
}

fn loc(n: u64) -> LocalId {
    LocalId { key: FIRST_KEY + n }
}

fn jump(to: u64) -> BasicBlock {
    BasicBlock { instructions: vec![], ins_final: InsFinal::Br { next: bb(to) } }
}

#[test]
fn the_block_to_start_with_comes_first() {
    let program = manual(prims(), vec![], vec![jump(2), jump(0), jump(0)], 1);
    expect_body(
        &program,
        0,
        &[
            "block0:",
            "v0 = iconst.i64 0x0001_0000_0065",
            "v1 = get_frame_pointer.i64",
            "call fn2(v0, v1)  ; v0 = 0x0001_0000_0065",
            "jump block1",
            "",
            "block1:",
            "jump block2",
            "",
            "block2:",
            "jump block1",
            "}",
        ],
    );
}

fn error_of(program: &Program) -> CompileError {
    let mut rt = Runtime::new(0);
    match compile_program(program, new_module(), &mut rt) {
        Ok(_) => panic!("compiled"),
        Err(error) => error,
    }
}

fn assign(place: PlaceExpr, value: ValueExpr) -> BasicBlock {
    BasicBlock {
        instructions: vec![Ins::Assign { place, value }],
        ins_final: InsFinal::Return { value: None },
    }
}

fn at(n: u64, ty: TypeId, projs: Vec<Projection>) -> PlaceExpr {
    PlaceExpr { local_ty: ty, local: loc(n), projs }
}

#[test]
fn what_no_code_can_be_made_for_is_refused() {
    let i = ty(0);
    let deref = at(0, i, vec![Projection::Deref]);
    let index = at(0, i, vec![Projection::Index { idx_local: loc(0) }]);
    let field = at(0, i, vec![Projection::Field { field_idx: 0 }]);
    let absent = at(9, i, vec![]);
    for bad in [deref, index, field, absent] {
        let block = assign(bad.clone(), ValueExpr::Read(Operand::ConstI32(1)));
        assert!(matches!(
            error_of(&manual(prims(), vec![i], vec![block], 0)),
            CompileError::Code(FuncId { key: FIRST_KEY })
        ));
        let block = assign(at(0, i, vec![]), ValueExpr::Read(Operand::Place(bad)));
        assert!(matches!(
            error_of(&manual(prims(), vec![i], vec![block], 0)),
            CompileError::Code(_)
        ));
    }
    let constant = assign(at(0, i, vec![]), ValueExpr::Ref(Operand::ConstI32(1)));
    assert!(matches!(
        error_of(&manual(prims(), vec![i], vec![constant], 0)),
        CompileError::Code(_)
    ));
    let alloc = BasicBlock {
        instructions: vec![Ins::AllocGc { place: at(0, i, vec![]) }],
        ins_final: InsFinal::Return { value: None },
    };
    assert!(matches!(error_of(&manual(prims(), vec![i], vec![alloc], 0)), CompileError::Code(_)));
    assert!(matches!(
        error_of(&manual(prims(), vec![], vec![jump(7)], 0)),
        CompileError::Code(_)
    ));
    assert!(matches!(error_of(&manual(prims(), vec![], vec![], 0)), CompileError::Code(_)));
    let cond = BasicBlock {
        instructions: vec![],
        ins_final: InsFinal::BrIf { cond: loc(0), is_true: bb(0), is_false: bb(0) },
    };
    assert!(matches!(error_of(&manual(prims(), vec![i], vec![cond], 0)), CompileError::Code(_)));
    let call = BasicBlock {
        instructions: vec![],
        ins_final: InsFinal::Call {
            func: FuncId { key: FIRST_KEY },
            args: vec![],
            store_ret: Some(loc(0)),
            next: bb(0),
        },
    };
    assert!(matches!(error_of(&manual(prims(), vec![i], vec![call], 0)), CompileError::Code(_)));
    let ret = BasicBlock {
        instructions: vec![],
        ins_final: InsFinal::Return { value: Some(loc(0)) },
    };
    assert!(matches!(error_of(&manual(prims(), vec![i], vec![ret], 0)), CompileError::Code(_)));
}

#[test]
fn operations_that_do_not_fit_their_types_are_refused() {
    let wrong = [("add", "bool"), ("lt", "i64"), ("eq", "i64"), ("le", "bool"), ("mul", "i64")];
    for (word, name) in wrong {
        let program = parse(
            vec![function(
                "f",
                &[],
                vec![
                    local("x", named(name)),
                    local("b", named("bool")),
                    block("s", vec![line("b", op(word, read("x"), read("x")))], "return", &[]),
                ],
                None,
            )],
            "f",
        );
        assert!(matches!(error_of(&program), CompileError::Code(_)));
    }
}

#[test]
fn types_without_a_layout_are_refused() {
    let program = parse(
        vec![
            ParsedItem::Struct { name: s("A"), fields: vec![named("A")] },
            function("f", &[], vec![block("b", vec![], "return", &[])], None),
        ],
        "f",
    );
    let mut rt = Runtime::new(0);
    match compile_program(&program, new_module(), &mut rt) {
        Err(CompileError::Layout) => {}
        _ => panic!("compiled"),
    }
    assert!(rt.type_data(emscript::runtime::RtTypeId { key: FIRST_KEY }).is_none());
}

#[test]
fn arguments_without_a_machine_type_are_refused() {
    let program = parse(
        vec![
            ParsedItem::Struct {
                name: s("Three"),
                fields: vec![named("bool"), named("bool"), named("bool")],
            },
            function(
                "f",
                &["t"],
                vec![local("t", named("Three")), block("b", vec![], "return", &[])],
                None,
            ),
        ],
        "f",
    );
    assert!(matches!(error_of(&program), CompileError::Signature(FuncId { key: FIRST_KEY })));
}

#[test]
fn one_name_with_two_signatures_is_refused() {
    let mut program = manual(prims(), vec![], vec![jump(0)], 0);
    let mut other: Func = Default::default();
    other.name = s("f");
    other.return_type = Some(ty(0));
    program.functions.insert(other);
    assert!(matches!(error_of(&program), CompileError::Module(_)));
}

#[test]
fn code_that_does_not_fit_together_is_refused() {
    let program = parse(
        vec![function(
            "f",
            &[],
            vec![
                local("x", named("i32")),
                block("b", vec![], "call", &["f", "b", "x"]),
            ],
            None,
        )],
        "f",
    );
    assert!(matches!(error_of(&program), CompileError::Module(_)));
}

#[test]
fn a_program_is_compiled() {
    let program = lists();
    let mut rt = Runtime::new(0);
    let before = RuntimeBuilder::declare_func(&mut rt);
    let compiled = compile(&program, &mut rt);
    assert_eq!(compiled.func_id_map, vec![0]);
    assert_eq!(compiled.func_name_to_id.get("push"), Some(0));
    assert_eq!(compiled.func_name_to_id.get("pop"), None);
    let BuiltinIds { fn_alloc, fn_push_stack_frame, fn_pop_stack_frame, data_runtime_ptr } =
        compiled.builtin_ids;
    assert_eq!((fn_alloc, fn_push_stack_frame, fn_pop_stack_frame), (1, 2, 3));
    assert_eq!(data_runtime_ptr, 0);

    let type_data = |n: u64| rt.type_data(emscript::runtime::RtTypeId { key: FIRST_KEY + n });
    assert_eq!(type_data(0).unwrap().layout, Layout { size: 4, align: 4 });
    assert!(type_data(0).unwrap().gc_ptr_fields.is_empty());
    let node = type_data(4).unwrap();
    assert_eq!(node.layout, Layout { size: 16, align: 8 });
    assert_eq!(node.gc_ptr_fields, vec![8]);
    let to_node = type_data(5).unwrap();
    assert_eq!(to_node.layout, Layout { size: 8, align: 8 });
    assert_eq!(to_node.gc_ptr_fields, vec![0]);
    assert!(type_data(program.types.len() as u64).is_none());

    let push = emscript::runtime::RtFuncId { key: before.key + 1 };
    let slots = rt.push_stack_frame(push, 0x1000).unwrap();
    assert_eq!(slots.len(), 2);
    for slot in &slots {
        assert!(*slot < 0x1000);
        assert_eq!(*slot % 8, 0);
    }
    assert_ne!(slots[0], slots[1]);
}

#[test]
fn a_program_without_functions_is_compiled() {
    let program = Program {
        entrypoint: FuncId { key: FIRST_KEY },
        functions: Arena::new(),
        types: prims(),
    };
    let mut rt = Runtime::new(0);
    let compiled = compile(&program, &mut rt);
    assert!(compiled.func_id_map.is_empty());
    assert_eq!(compiled.builtin_ids.fn_alloc, 0);
}

/// A type whose values hold references: at 8, at 24 inside of an inner struct, and
/// at 32. The types of the program are listed in `prims`, then come these.
fn nested(types: &mut Types) -> TypeId {
    let to = types.get_id(&TypeInfo::GcRef(ty(0)));
    let inner = types.get_id(&TypeInfo::Struct(StructInfo { fields: vec![ty(0), to] }));
    types.get_id(&TypeInfo::Struct(StructInfo { fields: vec![ty(3), to, inner, to] }))
}

#[test]
fn references_in_inner_structs_are_traced() {
    let mut types = prims();
    nested(&mut types);
    let program =
        Program { entrypoint: FuncId { key: FIRST_KEY }, functions: Arena::new(), types };
    let mut rt = Runtime::new(0);
    compile(&program, &mut rt);
    let outer = rt.type_data(emscript::runtime::RtTypeId { key: FIRST_KEY + 6 }).unwrap();
    assert_eq!(outer.layout, Layout { size: 40, align: 8 });
    assert_eq!(outer.gc_ptr_fields, vec![8, 24, 32]);
}

fn leave() -> BasicBlock {
    BasicBlock { instructions: vec![], ins_final: InsFinal::Return { value: None } }
}

#[test]
fn references_in_structs_on_the_stack_are_roots() {
    let mut types = prims();
    let outer = nested(&mut types);
    let program = manual(types, vec![ty(0), outer], vec![leave()], 0);
    let roots = lower(&program, 0).unwrap().gc_root_stackslots;
    assert_eq!(
        roots,
        vec![
            GcRoot { slot: 1, offset: 8, ty: outer },
            GcRoot { slot: 1, offset: 24, ty: outer },
            GcRoot { slot: 1, offset: 32, ty: outer },
        ]
    );
    let mut rt = Runtime::new(0);
    compile(&program, &mut rt);
    let func = emscript::runtime::RtFuncId { key: FIRST_KEY };
    let slots = rt.push_stack_frame(func, 0x1000).unwrap();
    assert_eq!(slots.len(), 3);
    assert_eq!((slots[1] - slots[0], slots[2] - slots[0]), (16, 24));
    assert!(slots[2] + 8 <= 0x1000);
}

#[test]
fn a_condition_is_a_bool() {
    let branch = |n: u64| BasicBlock {
        instructions: vec![],
        ins_final: InsFinal::BrIf { cond: loc(n), is_true: bb(1), is_false: bb(1) },
    };
    let mut types = prims();
    let like = types.get_id(&TypeInfo::Struct(StructInfo { fields: vec![ty(3)] }));
    let program = manual(types, vec![like], vec![branch(0), leave()], 0);
    assert!(matches!(error_of(&program), CompileError::Code(FuncId { key: FIRST_KEY })));
    let mut rt = Runtime::new(0);
    compile(&manual(prims(), vec![ty(3)], vec![branch(0), leave()], 0), &mut rt);
}

/// A program with a struct of two 64-bit integers.
fn wide(args: &[&str], ret_ty: Option<ParsedTypePath>) -> Program {
    parse(
        vec![
            ParsedItem::Struct { name: s("Wide"), fields: vec![named("i64"), named("i64")] },
            function("ok", &[], vec![block("b", vec![], "return", &[])], None),
            function(
                "f",
                args,
                vec![
                    local("w", named("Wide")),
                    local("v", named("Wide")),
                    block("b", vec![line("v", ParsedValue::Read(read("w")))], "return", &[]),
                ],
                ret_ty,
            ),
        ],
        "f",
    )
}

#[test]
fn wide_values_are_copied_but_not_passed() {
    let second = FuncId { key: FIRST_KEY + 1 };
    match error_of(&wide(&["w"], None)) {
        CompileError::Signature(id) => assert_eq!(id, second),
        _ => panic!("another error"),
    }
    match error_of(&wide(&[], Some(named("Wide")))) {
        CompileError::Signature(id) => assert_eq!(id, second),
        _ => panic!("another error"),
    }
    let mut rt = Runtime::new(0);
    compile(&wide(&[], None), &mut rt);
}

#[test]
fn the_first_function_without_code_is_named() {
    let mut program = manual(prims(), vec![], vec![leave()], 0);
    for name in ["g", "h"] {
        let mut other: Func = Default::default();
        other.name = s(name);
        program.functions.insert(other);
    }
    match error_of(&program) {
        CompileError::Code(id) => assert_eq!(id, FuncId { key: FIRST_KEY + 1 }),
        _ => panic!("another error"),
    }
}

/// A program whose locals are structs that hold as many numbers as the powers of two
/// say.
fn large(powers: &[usize]) -> Program {
    let mut types = prims();
    let mut sizes = vec![ty(0)];
    for i in 0..29 {
        let half = sizes[i];
        sizes.push(types.get_id(&TypeInfo::Struct(StructInfo { fields: vec![half, half] })));
    }
    let locals = powers.iter().map(|power| sizes[*power]).collect();
    manual(types, locals, vec![leave()], 0)
}

#[test]
fn frames_have_a_largest_size() {
    for powers in [vec![29], vec![28, 28], vec![28, 27, 26, 25, 24, 23]] {
        assert!(matches!(error_of(&large(&powers)), CompileError::Code(FuncId { key: FIRST_KEY })));
    }
    for powers in [vec![28], vec![28, 27, 26, 25, 24]] {
        let mut rt = Runtime::new(0);
        compile(&large(&powers), &mut rt);
    }
}

#[test]
fn modules_have_to_check_what_they_are_handed() {
    let builder = JITBuilder::with_flags(
        &[("preserve_frame_pointers", "true"), ("enable_verifier", "false")],
        cranelift_module::default_libcall_names(),
    )
    .unwrap();
    let mut rt = Runtime::new(0);
    let program = manual(prims(), vec![], vec![leave()], 0);
    match compile_program(&program, JITModule::new(builder), &mut rt) {
        Err(CompileError::Unchecked) => {}
        _ => panic!("compiled"),
    }
    assert_eq!(rt.type_count(), 0);
}

#[test]
fn roots_lie_below_the_frame_pointer() {
    let root = |slot: u32, offset: usize| GcRoot { slot, offset, ty: ty(0) };
    let frame = FrameLayout { frame_to_fp: 48, slots: vec![0, 8, 40] };
    assert_eq!(
        root_offsets(&vec![root(2, 0), root(0, 0), root(1, 16)], &frame),
        Some(vec![8, 48, 24])
    );
    assert_eq!(root_offsets(&vec![], &frame), Some(vec![]));
    assert_eq!(root_offsets(&vec![root(3, 0)], &frame), None);
    assert_eq!(root_offsets(&vec![root(2, 9)], &frame), None);
    let frame = FrameLayout { frame_to_fp: 4, slots: vec![8] };
    assert_eq!(root_offsets(&vec![root(0, 0)], &frame), None);
}

#[test]
fn roots_come_from_the_frame_that_was_made() {
    let id = FuncId { key: FIRST_KEY + 3 };
    let roots = vec![GcRoot { slot: 1, offset: 8, ty: ty(0) }];
    let frame = |frame_to_fp: u32| FrameLayout { frame_to_fp, slots: vec![0, 16] };
    match roots_from_frame(id, &roots, Ok(Some(frame(64)))) {
        Ok(distances) => assert_eq!(distances, vec![40]),
        Err(_) => panic!("the frame holds the root"),
    }
    assert!(matches!(
        roots_from_frame(id, &roots, Ok(Some(frame(16)))),
        Err(CompileError::Frame(found)) if found == id
    ));
    assert!(matches!(
        roots_from_frame(id, &roots, Ok(None)),
        Err(CompileError::Frame(found)) if found == id
    ));
    let error = cranelift_module::ModuleError::Undeclared(s("f"));
    assert!(matches!(
        roots_from_frame(id, &roots, Err(error)),
        Err(CompileError::Module(cranelift_module::ModuleError::Undeclared(_)))
    ));
}

#[test]
fn functions_have_a_largest_number_of_arguments() {
    let mut func: Func = Default::default();
    func.name = s("f");
    for _ in 0..65537 {
        func.args.push(LocalId { key: func.locals.insert(ty(0)) });
    }
    func.entrypoint = BasicBlockId { key: func.blocks.insert(leave()) };
    let mut functions: Arena<Func> = Arena::new();
    let key = functions.insert(func);
    let program = Program { entrypoint: FuncId { key }, functions, types: prims() };
    assert!(matches!(error_of(&program), CompileError::Signature(FuncId { key: FIRST_KEY })));
}

#[test]
fn functions_of_the_runtime_stay_when_a_program_is_refused() {
    let mut rt = Runtime::new(0);
    let before = RuntimeBuilder::declare_func(&mut rt);
    RuntimeBuilder::define_func(&mut rt, before, RtFuncData { roots: vec![8, 16] });
    let program = large(&[29]);
    assert!(matches!(compile_program(&program, new_module(), &mut rt), Err(CompileError::Code(_))));
    assert_eq!(rt.push_stack_frame(before, 0x1000), Some(vec![0xff8, 0xff0]));
}

use emscript::dag_program::human_format::{
    parse_mir_program, ParseError, ParsedBlockLine, ParsedFunctionLine, ParsedItem, ParsedOperand,
    ParsedPlace, ParsedProjection, ParsedTypePath, ParsedValue,
};
use emscript::dag_program::{
    BasicBlockId, BinOp, FuncId, Ins, InsFinal, LocalId, Operand, Program, Projection, TypeId,
    TypeInfo, ValueExpr,
};
use emscript::slots::FIRST_KEY;

fn s(text: &str) -> String {
    text.to_owned()
}

fn named(name: &str) -> ParsedTypePath {
    ParsedTypePath::TypeName(s(name))
}

fn place(root: &str, projections: Vec<ParsedProjection>) -> ParsedPlace {
    ParsedPlace { root: s(root), projections }
}

fn read(root: &str) -> ParsedOperand {
    ParsedOperand::Place(place(root, vec![]))
}

fn line(lvalue: &str, rvalue: ParsedValue) -> ParsedBlockLine {
    ParsedBlockLine { lvalue: place(lvalue, vec![]), rvalue }
}

fn local(name: &str, ty: ParsedTypePath) -> ParsedFunctionLine {
    ParsedFunctionLine::DecLocal { name: s(name), ty }
}

fn block(name: &str, lines: Vec<ParsedBlockLine>, term: &str, args: &[&str]) -> ParsedFunctionLine {
    ParsedFunctionLine::Block {
        name: s(name),
        lines,
        term_ins: s(term),
        term_args: args.iter().map(|a| s(a)).collect(),
    }
}

fn function(
    name: &str,
    args: &[&str],
    lines: Vec<ParsedFunctionLine>,
    ret_ty: Option<ParsedTypePath>,
) -> ParsedItem {
    ParsedItem::Function {
        name: s(name),
        arg_locals: args.iter().map(|a| s(a)).collect(),
        lines,
        ret_ty,
    }
}

fn ty(n: u64) -> TypeId {
    TypeId { key: FIRST_KEY + n }
}

fn bb(n: u64) -> BasicBlockId {
    BasicBlockId { key: FIRST_KEY + n }
}

fn loc(n: u64) -> LocalId {
    LocalId { key: FIRST_KEY + n }
}

fn parse(items: Vec<ParsedItem>, entry: &str) -> Program {
    match parse_mir_program(&items, entry) {
        Ok(program) => program,
        Err(error) => panic!("{:?}", error),
    }
}

fn fails(items: Vec<ParsedItem>, entry: &str, error: ParseError) {
    match parse_mir_program(&items, entry) {
        Ok(_) => panic!("parsed"),
        Err(found) => assert_eq!(found, error),
    }
}

#[test]
fn a_function_is_translated() {
    let program = parse(
        vec![function(
            "mul2add1",
            &["x"],
            vec![
                local("x", named("i32")),
                local("y", named("i32")),
                block(
                    "start",
                    vec![
                        line(
                            "y",
                            ParsedValue::BinOp(s(" MUL "), read("x"), ParsedOperand::ConstI32(2)),
                        ),
                        line(
                            "y",
                            ParsedValue::BinOp(s("add"), read("y"), ParsedOperand::ConstI32(1)),
                        ),
                    ],
                    " Return",
                    &["y"],
                ),
            ],
            Some(named("i32")),
        )],
        "mul2add1",
    );
    assert_eq!(program.entrypoint, FuncId { key: FIRST_KEY });
    assert_eq!(program.functions.len(), 1);
    assert_eq!(program.types.len(), 4);
    let func = program.functions.get(FIRST_KEY).unwrap();
    assert_eq!(func.name, "mul2add1");
    assert_eq!(func.entrypoint, bb(0));
    assert_eq!(func.args, vec![loc(0)]);
    assert_eq!(func.return_type, Some(ty(0)));
    assert_eq!(func.locals.len(), 2);
    let start = func.blocks.get(bb(0).key).unwrap();
    assert_eq!(start.instructions.len(), 2);
    match &start.instructions[0] {
        Ins::Assign { place, value: ValueExpr::BinOp(op, Operand::Place(x), Operand::ConstI32(2)) } => {
            assert_eq!(*op, BinOp::Mul);
            assert_eq!((place.local, place.local_ty), (loc(1), ty(0)));
            assert_eq!((x.local, x.local_ty), (loc(0), ty(0)));
            assert!(place.projs.is_empty());
        }
        other => panic!("{:?}", other),
    }
    assert!(matches!(&start.ins_final, InsFinal::Return { value: Some(v) } if *v == loc(1)));
}

#[test]
fn references_are_new_types_made_before_what_they_refer_to() {
    let program = parse(
        vec![
            ParsedItem::Struct {
                name: s("Node"),
                fields: vec![
                    named("i32"),
                    ParsedTypePath::GcRef(Box::new(named("Node"))),
                    ParsedTypePath::Ref(Box::new(ParsedTypePath::Ref(Box::new(named("bool"))))),
                ],
            },
            function("main", &[], vec![block("b", vec![], "return", &[])], None),
        ],
        "main",
    );
    let node = ty(4);
    assert!(matches!(program.types.get_info(ty(5)), Some(TypeInfo::GcRef(to)) if to == node));
    assert!(matches!(program.types.get_info(ty(6)), Some(TypeInfo::Ref(to)) if to == ty(7)));
    assert!(matches!(program.types.get_info(ty(7)), Some(TypeInfo::Ref(to)) if to == ty(3)));
    match program.types.get_info(node) {
        Some(TypeInfo::Struct(info)) => assert_eq!(info.fields, vec![ty(0), ty(5), ty(6)]),
        other => panic!("{:?}", other),
    }
}

#[test]
fn items_can_be_named_before_they_are_written() {
    let program = parse(
        vec![
            function(
                "main",
                &[],
                vec![
                    local("p", ParsedTypePath::GcRef(Box::new(named("Pair")))),
                    local("r", named("bool")),
                    block(
                        "first",
                        vec![
                            line("p", ParsedValue::Alloc),
                            ParsedBlockLine {
                                lvalue: place(
                                    "p",
                                    vec![ParsedProjection::Deref, ParsedProjection::Field(1)],
                                ),
                                rvalue: ParsedValue::Read(ParsedOperand::ConstF32(0x3f80_0000)),
                            },
                        ],
                        "call",
                        &["other", "r", "second", "r", "p"],
                    ),
                    block("second", vec![], "BRIF", &["r", "first", "third"]),
                    block("third", vec![], "br", &["second"]),
                ],
                None,
            ),
            function(
                "other",
                &["a", "b"],
                vec![
                    local("a", named("bool")),
                    local("b", ParsedTypePath::GcRef(Box::new(named("Pair")))),
                    block("only", vec![], "call", &["main", "end"]),
                    block("end", vec![], "return", &["a"]),
                ],
                Some(named("bool")),
            ),
            ParsedItem::Struct { name: s("Pair"), fields: vec![named("i32"), named("f32")] },
        ],
        "other",
    );
    assert_eq!(program.entrypoint, FuncId { key: FIRST_KEY + 1 });
    let main = program.functions.get(FIRST_KEY).unwrap();
    let first = main.blocks.get(bb(0).key).unwrap();
    assert!(matches!(&first.instructions[0], Ins::AllocGc { place } if place.local == loc(0)));
    match &first.instructions[1] {
        Ins::Assign { place, value: ValueExpr::Read(Operand::ConstF32(bits)) } => {
            assert_eq!(place.projs, vec![Projection::Deref, Projection::Field { field_idx: 1 }]);
            assert_eq!(*bits, 1.0f32.to_bits());
        }
        other => panic!("{:?}", other),
    }
    match &first.ins_final {
        InsFinal::Call { func, args, store_ret, next } => {
            assert_eq!(*func, FuncId { key: FIRST_KEY + 1 });
            assert_eq!(*args, vec![loc(1), loc(0)]);
            assert_eq!(*store_ret, Some(loc(1)));
            assert_eq!(*next, bb(1));
        }
        other => panic!("{:?}", other),
    }
    match &main.blocks.get(bb(1).key).unwrap().ins_final {
        InsFinal::BrIf { cond, is_true, is_false } => {
            assert_eq!((*cond, *is_true, *is_false), (loc(1), bb(0), bb(2)));
        }
        other => panic!("{:?}", other),
    }
    let third = main.blocks.get(bb(2).key).unwrap();
    assert!(matches!(&third.ins_final, InsFinal::Br { next } if *next == bb(1)));
    let other = program.functions.get(FIRST_KEY + 1).unwrap();
    match &other.blocks.get(bb(0).key).unwrap().ins_final {
        InsFinal::Call { func, args, store_ret, next } => {
            assert_eq!(*func, FuncId { key: FIRST_KEY });
            assert!(args.is_empty());
            assert_eq!(*store_ret, None);
            assert_eq!(*next, bb(1));
        }
        other => panic!("{:?}", other),
    }
}

#[test]
fn names_that_are_used_twice_stand_for_the_last() {
    let program = parse(
        vec![
            function("f", &[], vec![block("a", vec![], "return", &[])], None),
            function(
                "f",
                &["x"],
                vec![
                    local("x", named("i32")),
                    local("x", named("bool")),
                    block("b", vec![line("x", ParsedValue::Alloc)], "return", &[]),
                    block("b", vec![line("x", ParsedValue::Alloc)], "br", &["b"]),
                ],
                None,
            ),
        ],
        "f",
    );
    assert_eq!(program.entrypoint, FuncId { key: FIRST_KEY + 1 });
    let first = program.functions.get(FIRST_KEY).unwrap();
    assert_eq!(first.name, "");
    assert_eq!(first.blocks.len(), 0);
    assert!(first.entrypoint.is_null());
    let f = program.functions.get(FIRST_KEY + 1).unwrap();
    assert_eq!(f.args, vec![loc(1)]);
    assert_eq!(f.entrypoint, bb(0));
    assert_eq!(f.blocks.len(), 3);
    assert!(f.blocks.get(bb(1).key).unwrap().instructions.is_empty());
    let last = f.blocks.get(bb(2).key).unwrap();
    assert_eq!(last.instructions.len(), 2);
    assert!(matches!(&last.ins_final, InsFinal::Br { next } if *next == bb(2)));
}

#[test]
fn a_reference_to_an_operand_is_a_value() {
    let program = parse(
        vec![function(
            "f",
            &[],
            vec![
                local("x", named("i32")),
                local("r", ParsedTypePath::Ref(Box::new(named("i32")))),
                block(
                    "b",
                    vec![
                        line("r", ParsedValue::Ref(read("x"))),
                        line("x", ParsedValue::Read(ParsedOperand::ConstBool(true))),
                    ],
                    "return",
                    &[],
                ),
            ],
            None,
        )],
        "f",
    );
    let f = program.functions.get(FIRST_KEY).unwrap();
    let b = f.blocks.get(bb(0).key).unwrap();
    match &b.instructions[0] {
        Ins::Assign { value: ValueExpr::Ref(Operand::Place(to)), .. } => {
            assert_eq!(to.local, loc(0));
        }
        other => panic!("{:?}", other),
    }
    match &b.instructions[1] {
        Ins::Assign { value: ValueExpr::Read(Operand::ConstBool(x)), .. } => assert!(*x),
        other => panic!("{:?}", other),
    }
}

#[test]
fn final_types_follow_the_projections() {
    let mut program = parse(
        vec![
            ParsedItem::Struct {
                name: s("Node"),
                fields: vec![named("i32"), ParsedTypePath::GcRef(Box::new(named("Node")))],
            },
            function(
                "f",
                &[],
                vec![
                    local("n", named("Node")),
                    block(
                        "b",
                        vec![
                            ParsedBlockLine {
                                lvalue: place("n", vec![ParsedProjection::Field(1)]),
                                rvalue: ParsedValue::Read(ParsedOperand::Place(place(
                                    "n",
                                    vec![
                                        ParsedProjection::Field(1),
                                        ParsedProjection::Deref,
                                        ParsedProjection::Field(0),
                                    ],
                                ))),
                            },
                            line("n", ParsedValue::Ref(read("n"))),
                        ],
                        "return",
                        &[],
                    ),
                ],
                None,
            ),
        ],
        "f",
    );
    let f = program.functions.get(FIRST_KEY).unwrap();
    let b = f.blocks.get(bb(0).key).unwrap().clone();
    let (place, read) = match &b.instructions[0] {
        Ins::Assign { place, value: ValueExpr::Read(operand) } => (place, operand),
        other => panic!("{:?}", other),
    };
    assert_eq!(place.get_final_type(&program, f), ty(5));
    assert_eq!(read.get_final_type(&program, f), ty(0));
    assert_eq!(Operand::ConstI32(1).get_final_type(&program, f), ty(0));
    assert_eq!(Operand::ConstF32(1).get_final_type(&program, f), ty(2));
    assert_eq!(Operand::ConstBool(true).get_final_type(&program, f), ty(3));

    let value = match &b.instructions[1] {
        Ins::Assign { value, .. } => value,
        other => panic!("{:?}", other),
    };
    let known = program.types.len();
    let made = value.get_final_type(&mut program);
    assert_eq!(made, ty(known as u64));
    assert!(matches!(program.types.get_info(made), Some(TypeInfo::Ref(to)) if to == ty(4)));
    assert_eq!(value.get_final_type(&mut program), made);
    let sum = ValueExpr::BinOp(BinOp::Add, Operand::ConstF32(0), Operand::ConstI32(0));
    assert_eq!(sum.get_final_type(&mut program), ty(2));
}

#[test]
fn unknown_types_are_refused() {
    fails(
        vec![ParsedItem::Struct { name: s("A"), fields: vec![named("B")] }],
        "f",
        ParseError::UnknownType,
    );
    fails(
        vec![function("f", &[], vec![local("x", named("I32"))], None)],
        "f",
        ParseError::UnknownType,
    );
    fails(vec![function("f", &[], vec![], Some(named("x")))], "f", ParseError::UnknownType);
}

#[test]
fn unknown_locals_are_refused() {
    fails(vec![function("f", &["x"], vec![], None)], "f", ParseError::UnknownLocal);
    fails(
        vec![function("f", &[], vec![block("b", vec![], "return", &["x"])], None)],
        "f",
        ParseError::UnknownLocal,
    );
    fails(
        vec![function(
            "f",
            &[],
            vec![block("b", vec![line("x", ParsedValue::Alloc)], "return", &[])],
            None,
        )],
        "f",
        ParseError::UnknownLocal,
    );
}

#[test]
fn unknown_blocks_and_functions_are_refused() {
    fails(
        vec![function("f", &[], vec![block("b", vec![], "br", &["c"])], None)],
        "f",
        ParseError::UnknownBlock,
    );
    fails(
        vec![function("f", &[], vec![block("b", vec![], "call", &["g", "b"])], None)],
        "f",
        ParseError::UnknownFunction,
    );
    fails(vec![], "f", ParseError::UnknownFunction);
}

#[test]
fn unknown_words_are_refused() {
    fails(
        vec![function(
            "f",
            &[],
            vec![
                local("x", named("i32")),
                block(
                    "b",
                    vec![line("x", ParsedValue::BinOp(s("mod"), read("x"), read("x")))],
                    "return",
                    &[],
                ),
            ],
            None,
        )],
        "f",
        ParseError::BadOp,
    );
    fails(
        vec![function("f", &[], vec![block("b", vec![], "jump", &["b"])], None)],
        "f",
        ParseError::BadTerminator,
    );
}

#[test]
fn missing_arguments_are_refused() {
    let ends: Vec<(&str, Vec<&str>)> = vec![
        ("br", vec![]),
        ("brif", vec![]),
        ("brif", vec!["x"]),
        ("brif", vec!["x", "b"]),
        ("call", vec![]),
        ("call", vec!["f"]),
        ("call", vec!["f", "x"]),
    ];
    for (term, args) in ends {
        fails(
            vec![function(
                "f",
                &[],
                vec![local("x", named("bool")), block("b", vec![], term, &args)],
                None,
            )],
            "f",
            ParseError::MissingArgument,
        );
    }
}

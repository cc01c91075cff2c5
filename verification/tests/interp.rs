use emscript::dag_program::interp::{Interp, StackFrame, Value};
use emscript::dag_program::{
    BasicBlock, BasicBlockId, Func, FuncId, Ins, InsFinal, LocalId, Operand, PlaceExpr, Program,
    Projection, TypeId, Types, ValueExpr,
};
use emscript::slots::{Arena, FIRST_KEY};

fn ty(n: u64) -> TypeId {
    TypeId { key: FIRST_KEY + n }
}

fn place(projs: Vec<Projection>) -> PlaceExpr {
    PlaceExpr { local_ty: ty(0), local: LocalId { key: FIRST_KEY }, projs }
}

fn field(field_idx: usize) -> Projection {
    Projection::Field { field_idx }
}

fn program(read: PlaceExpr) -> Program {
    let mut types = Types::new();
    types.i32();
    types.i64();
    types.float32();
    types.bool();
    let mut func: Func = Default::default();
    func.blocks.insert(BasicBlock {
        instructions: vec![Ins::Assign {
            place: place(vec![]),
            value: ValueExpr::Read(Operand::Place(read)),
        }],
        ins_final: InsFinal::Return { value: None },
    });
    let mut functions: Arena<Func> = Arena::new();
    let key = functions.insert(func);
    Program { entrypoint: FuncId { key }, functions, types }
}

fn frame() -> StackFrame {
    let mut locals: Arena<Value> = Arena::new();
    locals.insert(Value::Struct {
        ty: ty(9),
        fields: vec![
            Value::PrimI32(5),
            Value::Struct { ty: ty(8), fields: vec![Value::PrimF32(7), Value::Undefined] },
        ],
    });
    StackFrame {
        func: FuncId { key: FIRST_KEY },
        curr_block: BasicBlockId { key: FIRST_KEY },
        ins_idx: 0,
        locals,
    }
}

#[test]
fn without_a_frame_there_is_no_step() {
    let mut interp = Interp::new(program(place(vec![])));
    assert!(interp.step().is_err());
    interp.stack.push(frame());
    assert!(interp.step().is_ok());
    assert_eq!(interp.stack[0].ins_idx, 0);
    interp.stack.pop();
    assert!(interp.step().is_err());
}

#[test]
fn fields_are_followed() {
    let frame = frame();
    assert!(matches!(
        frame.eval_place_expr(&place(vec![field(0)])),
        Some(Value::PrimI32(5))
    ));
    assert!(matches!(
        frame.eval_place_expr(&place(vec![field(1), field(0)])),
        Some(Value::PrimF32(7))
    ));
    assert!(matches!(
        frame.eval_place_expr(&place(vec![field(1), field(1)])),
        Some(Value::Undefined)
    ));
    assert!(matches!(frame.eval_place_expr(&place(vec![])), Some(Value::Struct { .. })));
    assert!(frame.eval_place_expr(&place(vec![field(2)])).is_none());
    assert!(frame.eval_place_expr(&place(vec![field(0), field(0)])).is_none());
    assert!(frame.eval_place_expr(&place(vec![Projection::Deref])).is_none());
    let elsewhere =
        PlaceExpr { local_ty: ty(0), local: LocalId { key: FIRST_KEY + 1 }, projs: vec![] };
    assert!(frame.eval_place_expr(&elsewhere).is_none());
}

#[test]
fn values_have_types() {
    let program = program(place(vec![]));
    assert!(program.type_of_value(&Value::Undefined).is_null());
    assert_eq!(program.type_of_value(&Value::PrimI32(1)), ty(0));
    assert_eq!(program.type_of_value(&Value::PrimF32(1)), ty(2));
    let pointer = Value::StackRef { ty: ty(4), stack: LocalId { key: FIRST_KEY } };
    assert_eq!(program.type_of_value(&pointer), ty(4));
    assert_eq!(program.type_of_value(&Value::Struct { ty: ty(5), fields: vec![] }), ty(5));
}

#[test]
fn values_are_assigned() {
    let program = program(place(vec![]));
    let mut value = Value::Undefined;
    Interp::assign_op(&program, &mut value, Value::PrimI32(1));
    assert!(matches!(value, Value::PrimI32(1)));
    Interp::assign_op(&program, &mut value, Value::PrimI32(2));
    assert!(matches!(value, Value::PrimI32(2)));
}

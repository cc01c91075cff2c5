//! Programs run step by step.

use super::{
    BasicBlockId, FuncId, Ins, LocalId, Operand, PlaceExpr, Program, Projection, TypeId, TypeInfo,
    TypeModel, TypesModel, ValueExpr,
};
use crate::slots::{Arena, MAX_SLOTS, NULL_KEY};
use vstd::prelude::*;

verus! {

/// A value on the heap.
#[derive(Clone, Copy, PartialEq, Eq, Structural, Hash, Debug)]
pub struct HeapRef {
    pub key: u64,
}

/// What a local or a field holds.
pub enum Value {
    /// Has yet to be given a value
    Undefined,
    Struct { ty: TypeId, fields: Vec<Value> },
    StackRef { ty: TypeId, stack: LocalId },
    HeapRef { ty: TypeId, heap: HeapRef },
    PrimI32(i32),
    PrimF32(i32),
}

/// The type of a value. A value that was not given yet has none.
pub open spec fn value_type(types: TypesModel, value: Value) -> TypeId {
    match value {
        Value::Undefined => TypeId { key: NULL_KEY },
        Value::Struct { ty, .. } => ty,
        Value::StackRef { ty, .. } => ty,
        Value::HeapRef { ty, .. } => ty,
        Value::PrimI32(_) => types.id_of(TypeModel::PrimI32),
        Value::PrimF32(_) => types.id_of(TypeModel::PrimF32),
    }
}

impl Program {
    pub fn type_of_value(&self, value: &Value) -> (ty: TypeId)
        requires
            self.wf(),
        ensures
            ty == value_type(self@.types, *value),
    {
        let info = match value {
            Value::Undefined => {
                return TypeId::null();
            },
            Value::Struct { ty, .. } => {
                return *ty;
            },
            Value::StackRef { ty, .. } => {
                return *ty;
            },
            Value::HeapRef { ty, .. } => {
                return *ty;
            },
            Value::PrimI32(_) => TypeInfo::PrimI32,
            Value::PrimF32(_) => TypeInfo::PrimF32,
        };
        match self.types.find_id(&info) {
            Some(id) => id,
            None => TypeId::null(),
        }
    }
}

/// The value that projections lead to inside another one. Only fields of structs
/// are followed.
pub open spec fn value_at(value: Value, projs: Seq<Projection>) -> Option<Value>
    decreases projs.len(),
{
    if projs.len() == 0 {
        Some(value)
    } else {
        match (value_at(value, projs.drop_last()), projs.last()) {
            (Some(Value::Struct { fields, .. }), Projection::Field { field_idx }) => if field_idx
                < fields@.len() {
                Some(fields@[field_idx as int])
            } else {
                None
            },
            _ => None,
        }
    }
}

/// Where the projections lead nowhere at first they lead nowhere.
proof fn lemma_value_at(value: Value, projs: Seq<Projection>, n: int)
    requires
        0 <= n <= projs.len(),
        value_at(value, projs.take(n)) is None,
    ensures
        value_at(value, projs) is None,
    decreases projs.len(),
{
    if n == projs.len() {
        assert(projs.take(n) =~= projs);
    } else {
        assert(projs.drop_last().take(n) =~= projs.take(n));
        lemma_value_at(value, projs.drop_last(), n);
    }
}

/// A function that is running.
pub struct StackFrame {
    pub func: FuncId,
    pub curr_block: BasicBlockId,
    pub ins_idx: usize,
    pub locals: Arena<Value>,
}

impl StackFrame {
    /// The value of a place, if it is in the frame.
    pub open spec fn place_value(&self, place: &PlaceExpr) -> Option<Value> {
        if self.locals.contains(place.local.key) {
            value_at(self.locals.at(place.local.key), place.projs@)
        } else {
            None
        }
    }

    /// The value of a place, if it is in the frame.
    pub fn eval_place_expr(&self, place: &PlaceExpr) -> (value: Option<&Value>)
        requires
            self.locals.wf(),
        ensures
            match self.place_value(place) {
                Some(at) => value == Some(&at),
                None => value is None,
            },
    {
        let mut curr = match self.locals.get(place.local.key) {
            Some(value) => value,
            None => {
                return None;
            },
        };
        let ghost root = *curr;
        let mut i: usize = 0;
        assert(place.projs@.take(0) =~= Seq::empty());
        while i < place.projs.len()
            invariant
                i <= place.projs.len(),
                self.locals.contains(place.local.key),
                root == self.locals.at(place.local.key),
                value_at(root, place.projs@.take(i as int)) == Some(*curr),
            decreases place.projs.len() - i,
        {
            assert(place.projs@.take(i + 1).drop_last() =~= place.projs@.take(i as int));
            proof {
                if value_at(root, place.projs@.take(i + 1)) is None {
                    lemma_value_at(root, place.projs@, i + 1);
                }
            }
            match (&place.projs[i], curr) {
                (Projection::Field { field_idx }, Value::Struct { fields, .. }) => {
                    if *field_idx >= fields.len() {
                        return None;
                    }
                    curr = &fields[*field_idx];
                },
                _ => {
                    return None;
                },
            }
            i = i + 1;
        }
        assert(place.projs@.take(i as int) =~= place.projs@);
        Some(curr)
    }
}

/// A program that runs.
pub struct Interp {
    pub program: Program,
    pub heap: Arena<Value>,
    pub stack: Vec<StackFrame>,
}

impl Interp {
    pub open spec fn wf(&self) -> bool {
        &&& self.program.wf()
        &&& self.heap.wf()
        &&& forall|i: int| 0 <= i < self.stack@.len() ==> (#[trigger] self.stack@[i]).locals.wf()
    }

    /// Whether the last frame stands before an instruction that reads a value of
    /// the frame.
    pub open spec fn can_step(&self) -> bool {
        let frame = self.stack@.last();
        let program = self.program;
        &&& program.functions.contains(frame.func.key)
        &&& program.functions.at(frame.func.key).blocks.contains(frame.curr_block.key)
        &&& {
            let block = program.functions.at(frame.func.key).blocks.at(frame.curr_block.key);
            &&& frame.ins_idx < block.instructions@.len()
            &&& block.instructions@[frame.ins_idx as int] matches Ins::Assign {
                value: ValueExpr::Read(Operand::Place(place)),
                ..
            } && frame.place_value(&place) is Some
        }
    }

    /// A program that is not running yet.
    pub fn new(program: Program) -> (interp: Interp)
        requires
            program.wf(),
        ensures
            interp.wf(),
            interp.program == program,
            interp.heap@.len() == 0,
            interp.stack@.len() == 0,
    {
        Interp { program, heap: Arena::new(), stack: Vec::new() }
    }

    /// Evaluates the value that the next instruction of the last frame reads.
    /// Nothing is changed by that. Without a frame there is no next instruction.
    pub fn step(&mut self) -> (res: Result<(), ()>)
        requires
            old(self).wf(),
            old(self).stack@.len() > 0 ==> old(self).can_step(),
        ensures
            *final(self) == *old(self),
            res is Err <==> old(self).stack@.len() == 0,
    {
        let n: usize = self.stack.len();
        if n == 0 {
            return Err(());
        }
        let frame = &self.stack[n - 1];
        if let Some(func) = self.program.functions.get(frame.func.key) {
            if let Some(block) = func.blocks.get(frame.curr_block.key) {
                if let Ins::Assign { value: ValueExpr::Read(Operand::Place(place)), .. } =
                    &block.instructions[frame.ins_idx] {
                    let _ = frame.eval_place_expr(place);
                }
            }
        }
        Ok(())
    }

    /// Gives `lvalue` a value of its own type. A value that was not given yet takes
    /// any type.
    pub fn assign_op(program: &Program, lvalue: &mut Value, rvalue: Value)
        requires
            program.wf(),
            assignable(program@.types, *old(lvalue), rvalue),
        ensures
            *final(lvalue) == rvalue,
    {
        let ltype = program.type_of_value(lvalue);
        let rtype = program.type_of_value(&rvalue);
        if ltype == rtype || ltype.is_null() {
            *lvalue = rvalue;
        }
    }
}

/// Whether a value can take the place of another one.
pub open spec fn assignable(types: TypesModel, lvalue: Value, rvalue: Value) -> bool {
    ||| value_type(types, lvalue) == value_type(types, rvalue)
    ||| value_type(types, lvalue).key % 0x1_0000_0000 == 0xffff_ffff
}

/// What was not given yet can be given any value, and what was given can be given
/// the same again.
pub proof fn law_assignable(types: TypesModel, value: Value)
    ensures
        assignable(types, Value::Undefined, value),
        assignable(types, value, value),
{
}

/// Projections lead through a value from its outside: the first one to a field, and the
/// others on from there. No projections lead to the value itself, and only fields that a
/// struct has lead anywhere.
pub proof fn law_value_at(value: Value, projs: Seq<Projection>)
    ensures
        projs.len() == 0 ==> value_at(value, projs) == Some(value),
        projs.len() > 0 ==> value_at(value, projs) == (match (projs[0], value) {
            (Projection::Field { field_idx }, Value::Struct { fields, .. }) => if field_idx
                < fields@.len() {
                value_at(fields@[field_idx as int], projs.skip(1))
            } else {
                None
            },
            _ => None,
        }),
    decreases projs.len(),
{
    if projs.len() == 1 {
        assert(projs.drop_last() =~= Seq::empty());
        assert(projs.skip(1) =~= Seq::empty());
        assert(value_at(value, projs.drop_last()) == Some(value));
        assert(projs.last() == projs[0]);
    } else if projs.len() > 1 {
        let front = projs.drop_last();
        law_value_at(value, front);
        assert(front.skip(1) =~= projs.skip(1).drop_last());
        assert(front[0] == projs[0]);
        assert(projs.skip(1).last() == projs.last());
    }
}

/// Numbers have the types of numbers, and what was not given yet has none.
pub proof fn law_value_types(types: TypesModel, n: i32)
    requires
        types.consistent(),
        types.has_prims(),
    ensures
        types.info(value_type(types, Value::PrimI32(n))) == TypeModel::PrimI32,
        types.info(value_type(types, Value::PrimF32(n))) == TypeModel::PrimF32,
        value_type(types, Value::Undefined).key % 0x1_0000_0000 == 0xffff_ffff,
{
    assert(types.ids.contains_key(TypeModel::PrimI32));
    assert(types.ids.contains_key(TypeModel::PrimF32));
}

/// What was given keeps its type: a value of another type cannot take its place.
pub proof fn law_types_are_kept(types: TypesModel, lvalue: Value, rvalue: Value)
    requires
        types.consistent(),
        types.has_prims(),
        types.infos.len() <= MAX_SLOTS,
        lvalue is PrimI32 || lvalue is PrimF32 || types.contains(value_type(types, lvalue)),
        assignable(types, lvalue, rvalue),
    ensures
        value_type(types, rvalue) == value_type(types, lvalue),
        lvalue is PrimI32 ==> !(rvalue is PrimF32),
        lvalue is PrimF32 ==> !(rvalue is PrimI32),
        !(rvalue is Undefined),
{
    assert(types.ids.contains_key(TypeModel::PrimI32));
    assert(types.ids.contains_key(TypeModel::PrimF32));
}

} // verus!

//! The machine code that programs stand for.

use super::gc_refs::gc_offsets;
use super::layouts::{layout_of, shape_of};
use super::{
    final_type, operand_type, BinOp, FinalModel, FuncId, FuncModel, InsModel, LocalId, OperandModel,
    PlaceModel, ProgramModel, Projection, TypeId, TypeModel, TypesModel, ValueModel,
};
use crate::clif::{
    int_type, low_bits, value_run, ClifBlock, ClifBody, ClifCallConv, ClifCond, ClifIns, ClifRef,
    ClifSig, ClifSlot, ClifType, MAX_ENTITIES, MAX_INSTS, MAX_PARAMS,
};
use crate::slots::key_pos;
use vstd::prelude::*;

verus! {

/// The machine type of a value. A struct is an integer of its size, where there
/// is one.
pub open spec fn ssa_type(types: TypesModel, ty: TypeId) -> Option<ClifType> {
    if !types.contains(ty) {
        None
    } else {
        match types.info(ty) {
            TypeModel::PrimI32 => Some(ClifType::I32),
            TypeModel::PrimI64 => Some(ClifType::I64),
            TypeModel::PrimF32 => Some(ClifType::F32),
            TypeModel::PrimBool => Some(ClifType::I8),
            TypeModel::Ref(_) => Some(ClifType::I64),
            TypeModel::GcRef(_) => Some(ClifType::I64),
            TypeModel::Struct(fields) => match shape_of(types, fields) {
                Some(shape) => int_type(shape.whole.size as u16),
                None => None,
            },
        }
    }
}

/// Whether the arguments and the result of a function have machine types.
pub open spec fn sig_ready(types: TypesModel, func: FuncModel) -> bool {
    &&& forall|i: int|
        0 <= i < func.args.len() ==> func.has_local(#[trigger] func.args[i]) && ssa_type(
            types,
            func.local(func.args[i]),
        ) is Some
    &&& func.return_type matches Some(ty) ==> ssa_type(types, ty) is Some
}

/// The machine types of the arguments.
pub open spec fn arg_types(types: TypesModel, func: FuncModel) -> Seq<ClifType> {
    Seq::new(func.args.len(), |i: int| ssa_type(types, func.local(func.args[i]))->0)
}

/// The signature of a function.
pub open spec fn func_sig(types: TypesModel, func: FuncModel) -> ClifSig {
    ClifSig {
        conv: ClifCallConv::SystemV,
        params: arg_types(types, func),
        returns: match func.return_type {
            Some(ty) => seq![ssa_type(types, ty)->0],
            None => Seq::empty(),
        },
    }
}

/// Whether the function is small enough to be built.
pub open spec fn fits(body: ClifBody) -> bool {
    body.insts <= MAX_INSTS
}

/// Whether `block` is one that instructions can be added to.
pub open spec fn can_emit(body: ClifBody, block: u32) -> bool {
    &&& block < body.blocks.len()
    &&& body.layout.contains(block)
    &&& body.values <= MAX_PARAMS + body.insts
    &&& fits(body)
}

/// Whether `to` is `from` with more instructions, none of which makes more than
/// one value.
pub open spec fn grown(from: ClifBody, to: ClifBody) -> bool {
    &&& from.name == to.name
    &&& from.sig == to.sig
    &&& from.refs == to.refs
    &&& from.slots == to.slots
    &&& from.layout == to.layout
    &&& from.blocks.len() == to.blocks.len()
    &&& from.insts <= to.insts
    &&& from.values <= to.values
    &&& to.values - from.values <= to.insts - from.insts
}

/// The struct that a projection reads a field of.
pub open spec fn struct_fields(types: TypesModel, ty: TypeId, projs: Seq<Projection>) -> Seq<
    TypeId,
> {
    types.info(final_type(types, ty, projs)->0)->Struct_0
}

/// Whether projections lead somewhere, through structs that have a layout.
pub open spec fn place_ready(types: TypesModel, ty: TypeId, projs: Seq<Projection>) -> bool
    decreases projs.len(),
{
    projs.len() > 0 ==> {
        &&& place_ready(types, ty, projs.drop_last())
        &&& final_type(types, ty, projs) is Some
        &&& projs.last() is Field ==> shape_of(
            types,
            struct_fields(types, ty, projs.drop_last()),
        ) is Some
    }
}

/// The code that finds the address of a place, and that address. `root` is the
/// address to start from. A reference is followed by a load, a field is reached
/// by adding its offset.
pub open spec fn place_code(
    types: TypesModel,
    body: ClifBody,
    block: u32,
    ty: TypeId,
    projs: Seq<Projection>,
    root: u32,
) -> (ClifBody, u32)
    decreases projs.len(),
{
    if projs.len() == 0 {
        (body, root)
    } else {
        let (before, addr) = place_code(types, body, block, ty, projs.drop_last(), root);
        let res = before.next();
        match projs.last() {
            Projection::Deref => (
                before.with_ins(block, ClifIns::Load { res, ty: ClifType::I64, addr, offset: 0 }, 1),
                res,
            ),
            Projection::Field { field_idx } => {
                let shape = shape_of(types, struct_fields(types, ty, projs.drop_last()))->0;
                let offset = shape.offsets[field_idx as int];
                if offset == 0 {
                    (before, addr)
                } else {
                    (
                        before.with_ins(
                            block,
                            ClifIns::IaddImm { res, x: addr, imm: offset as i64 },
                            1,
                        ),
                        res,
                    )
                }
            },
            Projection::Index { .. } => (before, addr),
        }
    }
}

/// The number of the slot that a local lies in.
pub open spec fn slot_of(local: LocalId) -> u32 {
    key_pos(local.key) as u32
}

/// The code that finds the address of a place in the frame, and that address.
pub open spec fn slot_place_code(
    types: TypesModel,
    body: ClifBody,
    block: u32,
    place: PlaceModel,
) -> (ClifBody, u32) {
    let root = body.next();
    place_code(
        types,
        body.with_ins(
            block,
            ClifIns::StackAddr {
                res: root,
                ty: ClifType::I64,
                slot: slot_of(place.local),
                offset: 0,
            },
            1,
        ),
        block,
        place.local_ty,
        place.projs,
        root,
    )
}

/// Whether a place in the frame of the function can be found.
pub open spec fn slot_place_ready(types: TypesModel, func: FuncModel, place: PlaceModel) -> bool {
    func.has_local(place.local) && place_ready(types, place.local_ty, place.projs)
}

/// The code that reads an operand, and the value read.
pub open spec fn operand_code(
    types: TypesModel,
    body: ClifBody,
    block: u32,
    operand: OperandModel,
) -> (ClifBody, u32) {
    match operand {
        OperandModel::Place(place) => {
            let (before, addr) = slot_place_code(types, body, block, place);
            let ty = ssa_type(types, final_type(types, place.local_ty, place.projs)->0)->0;
            let res = before.next();
            (before.with_ins(block, ClifIns::Load { res, ty, addr, offset: 0 }, 1), res)
        },
        OperandModel::ConstI32(imm) => (
            body.with_ins(
                block,
                ClifIns::Iconst {
                    res: body.next(),
                    ty: ClifType::I32,
                    imm: low_bits(ClifType::I32, imm as i64),
                },
                1,
            ),
            body.next(),
        ),
        OperandModel::ConstF32(bits) => (
            body.with_ins(block, ClifIns::F32const { res: body.next(), bits }, 1),
            body.next(),
        ),
        OperandModel::ConstBool(imm) => (
            body.with_ins(
                block,
                ClifIns::Iconst {
                    res: body.next(),
                    ty: ClifType::I8,
                    imm: if imm {
                        1
                    } else {
                        0
                    },
                },
                1,
            ),
            body.next(),
        ),
    }
}

/// Whether an operand can be read.
pub open spec fn operand_ready(types: TypesModel, func: FuncModel, operand: OperandModel) -> bool {
    match operand {
        OperandModel::Place(place) => {
            &&& slot_place_ready(types, func, place)
            &&& ssa_type(types, final_type(types, place.local_ty, place.projs)->0) is Some
        },
        _ => true,
    }
}

/// The instruction for an operation on two values, by the type of the left one
/// and that of the result. Comparisons give a bool.
pub open spec fn bin_ins(
    op: BinOp,
    input: TypeModel,
    output: TypeModel,
    res: u32,
    x: u32,
    y: u32,
) -> Option<ClifIns> {
    match (op, output) {
        (BinOp::Eq, TypeModel::PrimBool) => match input {
            TypeModel::PrimI32 | TypeModel::PrimBool => Some(
                ClifIns::Icmp { res, cond: ClifCond::Equal, x, y },
            ),
            TypeModel::PrimF32 => Some(ClifIns::Fcmp { res, cond: ClifCond::Equal, x, y }),
            _ => None,
        },
        (BinOp::Le, TypeModel::PrimBool) => match input {
            TypeModel::PrimI32 => Some(ClifIns::Icmp { res, cond: ClifCond::LessOrEqual, x, y }),
            TypeModel::PrimF32 => Some(ClifIns::Fcmp { res, cond: ClifCond::LessOrEqual, x, y }),
            _ => None,
        },
        (BinOp::Lt, TypeModel::PrimBool) => match input {
            TypeModel::PrimI32 => Some(ClifIns::Icmp { res, cond: ClifCond::Less, x, y }),
            TypeModel::PrimF32 => Some(ClifIns::Fcmp { res, cond: ClifCond::Less, x, y }),
            _ => None,
        },
        (BinOp::Add, TypeModel::PrimI32) => Some(ClifIns::Iadd { res, x, y }),
        (BinOp::Add, TypeModel::PrimF32) => Some(ClifIns::Fadd { res, x, y }),
        (BinOp::Sub, TypeModel::PrimI32) => Some(ClifIns::Isub { res, x, y }),
        (BinOp::Sub, TypeModel::PrimF32) => Some(ClifIns::Fsub { res, x, y }),
        (BinOp::Mul, TypeModel::PrimI32) => Some(ClifIns::Imul { res, x, y }),
        (BinOp::Mul, TypeModel::PrimF32) => Some(ClifIns::Fmul { res, x, y }),
        (BinOp::Div, TypeModel::PrimI32) => Some(ClifIns::Sdiv { res, x, y }),
        (BinOp::Div, TypeModel::PrimF32) => Some(ClifIns::Fdiv { res, x, y }),
        _ => None,
    }
}

/// What the left operand of an operation is.
pub open spec fn input_info(types: TypesModel, lhs: OperandModel) -> TypeModel {
    types.info(operand_type(types, lhs)->0)
}

/// What the place that is assigned to holds.
pub open spec fn output_info(types: TypesModel, place: PlaceModel) -> TypeModel {
    types.info(final_type(types, place.local_ty, place.projs)->0)
}

/// The code that makes a value for a place, and the value.
pub open spec fn value_code(
    types: TypesModel,
    body: ClifBody,
    block: u32,
    place: PlaceModel,
    value: ValueModel,
) -> (ClifBody, u32) {
    match value {
        ValueModel::Read(operand) => operand_code(types, body, block, operand),
        ValueModel::Ref(operand) => match operand {
            OperandModel::Place(to) => slot_place_code(types, body, block, to),
            _ => (body, 0),
        },
        ValueModel::BinOp(op, lhs, rhs) => {
            let (left, x) = operand_code(types, body, block, lhs);
            let (both, y) = operand_code(types, left, block, rhs);
            let res = both.next();
            match bin_ins(op, input_info(types, lhs), output_info(types, place), res, x, y) {
                Some(ins) => (both.with_ins(block, ins, 1), res),
                None => (both, 0),
            }
        },
    }
}

/// Whether a value can be made for a place. A constant cannot be referred to.
pub open spec fn value_ready(
    types: TypesModel,
    func: FuncModel,
    place: PlaceModel,
    value: ValueModel,
) -> bool {
    match value {
        ValueModel::Read(operand) => operand_ready(types, func, operand),
        ValueModel::Ref(operand) => match operand {
            OperandModel::Place(to) => slot_place_ready(types, func, to),
            _ => false,
        },
        ValueModel::BinOp(op, lhs, rhs) => {
            &&& operand_ready(types, func, lhs)
            &&& operand_ready(types, func, rhs)
            &&& types.contains(operand_type(types, lhs)->0)
            &&& types.contains(final_type(types, place.local_ty, place.projs)->0)
            &&& bin_ins(op, input_info(types, lhs), output_info(types, place), 0, 0, 0) is Some
        },
    }
}

/// A program, one of its functions, and the numbers under which the runtime
/// knows its functions and types.
pub struct CodeEnv {
    pub program: ProgramModel,
    pub id: FuncId,
    pub rt_funcs: Map<u64, u64>,
    pub rt_types: Map<u64, u64>,
}

impl CodeEnv {
    pub open spec fn types(self) -> TypesModel {
        self.program.types
    }

    pub open spec fn func(self) -> FuncModel {
        self.program.func(self.id)
    }

    /// The function that allocates memory.
    pub open spec fn alloc_ref(self) -> u32 {
        self.program.functions.len() as u32
    }

    /// The function that is told when a function starts.
    pub open spec fn push_ref(self) -> u32 {
        (self.program.functions.len() + 1) as u32
    }

    /// The function that is told when a function returns.
    pub open spec fn pop_ref(self) -> u32 {
        (self.program.functions.len() + 2) as u32
    }
}

/// How many results a function that can be called has.
pub open spec fn ref_results(body: ClifBody, callee: u32) -> nat {
    body.refs[callee as int].sig.returns.len()
}

/// A call, and the numbers of its results.
pub open spec fn call_code(body: ClifBody, block: u32, callee: u32, args: Seq<u32>) -> (
    ClifBody,
    Seq<u32>,
) {
    let results = value_run(body.values, ref_results(body, callee));
    (
        body.with_ins(
            block,
            ClifIns::Call { func: callee, args, results },
            ref_results(body, callee),
        ),
        results,
    )
}

/// The code of one instruction.
pub open spec fn ins_code(env: CodeEnv, body: ClifBody, block: u32, ins: InsModel) -> ClifBody {
    let types = env.types();
    match ins {
        InsModel::Assign { place, value } => {
            let (found, addr) = slot_place_code(types, body, block, place);
            let (made, x) = value_code(types, found, block, place, value);
            made.with_ins(block, ClifIns::Store { value: x, addr, offset: 0 }, 0)
        },
        InsModel::AllocGc { place } => {
            let (found, addr) = slot_place_code(types, body, block, place);
            let ty = env.rt_types[output_info(types, place)->GcRef_0.key];
            let arg = found.next();
            let named = found.with_ins(
                block,
                ClifIns::Iconst { res: arg, ty: ClifType::I64, imm: ty as i64 },
                1,
            );
            let (called, results) = call_code(named, block, env.alloc_ref(), seq![arg]);
            called.with_ins(block, ClifIns::Store { value: results[0], addr, offset: 0 }, 0)
        },
    }
}

/// Whether code can be made for an instruction.
pub open spec fn ins_ready(env: CodeEnv, ins: InsModel) -> bool {
    let types = env.types();
    match ins {
        InsModel::Assign { place, value } => {
            &&& slot_place_ready(types, env.func(), place)
            &&& value_ready(types, env.func(), place, value)
        },
        InsModel::AllocGc { place } => {
            &&& slot_place_ready(types, env.func(), place)
            &&& types.contains(final_type(types, place.local_ty, place.projs)->0)
            &&& output_info(types, place) is GcRef
            &&& env.rt_types.contains_key(output_info(types, place)->GcRef_0.key)
        },
    }
}

/// The code of instructions that run one after the other.
pub open spec fn inss_code(env: CodeEnv, body: ClifBody, block: u32, inss: Seq<InsModel>) -> ClifBody
    decreases inss.len(),
{
    if inss.len() == 0 {
        body
    } else {
        ins_code(env, inss_code(env, body, block, inss.drop_last()), block, inss.last())
    }
}

/// The number of the block that stands for the one made after `n` others. The
/// block to start with has the number 0.
pub open spec fn block_number(func: FuncModel, n: int) -> u32 {
    let entry = key_pos(func.entrypoint.key);
    if !func.has_block(func.entrypoint) || n < entry {
        (n + 1) as u32
    } else if n == entry {
        0
    } else {
        n as u32
    }
}

/// The code that loads locals, and their values.
pub open spec fn loads_code(
    types: TypesModel,
    func: FuncModel,
    body: ClifBody,
    block: u32,
    locals: Seq<LocalId>,
) -> (ClifBody, Seq<u32>)
    decreases locals.len(),
{
    if locals.len() == 0 {
        (body, Seq::empty())
    } else {
        let (before, values) = loads_code(types, func, body, block, locals.drop_last());
        let local = locals.last();
        let res = before.next();
        (
            before.with_ins(
                block,
                ClifIns::StackLoad {
                    res,
                    ty: ssa_type(types, func.local(local))->0,
                    slot: slot_of(local),
                    offset: 0,
                },
                1,
            ),
            values.push(res),
        )
    }
}

/// The code that a block ends with.
pub open spec fn final_code(env: CodeEnv, body: ClifBody, block: u32, end: FinalModel) -> ClifBody {
    let types = env.types();
    let func = env.func();
    match end {
        FinalModel::Br { next } => body.with_ins(
            block,
            ClifIns::Jump { to: block_number(func, key_pos(next.key)) },
            0,
        ),
        FinalModel::BrIf { cond, is_true, is_false } => {
            let res = body.next();
            let loaded = body.with_ins(
                block,
                ClifIns::StackLoad { res, ty: ClifType::I8, slot: slot_of(cond), offset: 0 },
                1,
            );
            loaded.with_ins(
                block,
                ClifIns::Brif {
                    flag: res,
                    is_true: block_number(func, key_pos(is_true.key)),
                    is_false: block_number(func, key_pos(is_false.key)),
                },
                0,
            )
        },
        FinalModel::Call { func: callee, args, store_ret, next } => {
            let (loaded, values) = loads_code(types, func, body, block, args);
            let (called, results) = call_code(loaded, block, key_pos(callee.key) as u32, values);
            let stored = match store_ret {
                Some(local) => called.with_ins(
                    block,
                    ClifIns::StackStore { value: results[0], slot: slot_of(local), offset: 0 },
                    0,
                ),
                None => called,
            };
            stored.with_ins(
                block,
                ClifIns::Jump { to: block_number(func, key_pos(next.key)) },
                0,
            )
        },
        FinalModel::Return { value } => {
            let (popped, _) = call_code(body, block, env.pop_ref(), Seq::empty());
            match value {
                Some(local) => {
                    let res = popped.next();
                    let loaded = popped.with_ins(
                        block,
                        ClifIns::StackLoad {
                            res,
                            ty: body.sig.returns[0],
                            slot: slot_of(local),
                            offset: 0,
                        },
                        1,
                    );
                    loaded.with_ins(block, ClifIns::Return { values: seq![res] }, 0)
                },
                None => popped.with_ins(block, ClifIns::Return { values: Seq::empty() }, 0),
            }
        },
    }
}

/// Whether locals can be loaded.
pub open spec fn loads_ready(types: TypesModel, func: FuncModel, locals: Seq<LocalId>) -> bool {
    forall|i: int|
        0 <= i < locals.len() ==> func.has_local(#[trigger] locals[i]) && ssa_type(
            types,
            func.local(locals[i]),
        ) is Some
}

/// Whether code can be made for the end of a block.
pub open spec fn final_ready(env: CodeEnv, end: FinalModel) -> bool {
    let types = env.types();
    let func = env.func();
    match end {
        FinalModel::Br { next } => func.has_block(next),
        FinalModel::BrIf { cond, is_true, is_false } => {
            &&& func.has_local(cond)
            &&& types.contains(func.local(cond))
            &&& types.info(func.local(cond)) is PrimBool
            &&& func.has_block(is_true)
            &&& func.has_block(is_false)
        },
        FinalModel::Call { func: callee, args, store_ret, next } => {
            &&& loads_ready(types, func, args)
            &&& env.program.has_func(callee)
            &&& store_ret matches Some(local) ==> func.has_local(local) && env.program.func(
                callee,
            ).return_type is Some
            &&& func.has_block(next)
        },
        FinalModel::Return { value } => {
            value matches Some(local) ==> func.has_local(local) && func.return_type is Some
        },
    }
}

/// The code that stores the first `n` parameters of the block to start with
/// into the slots of the arguments.
pub open spec fn store_args_code(func: FuncModel, body: ClifBody, n: nat) -> ClifBody
    decreases n,
{
    if n == 0 {
        body
    } else {
        store_args_code(func, body, (n - 1) as nat).with_ins(
            0,
            ClifIns::StackStore {
                value: body.blocks[0].params[n - 1],
                slot: slot_of(func.args[n - 1]),
                offset: 0,
            },
            0,
        )
    }
}

/// A function whose block to start with has got its first `n` parameters, of
/// those types.
pub open spec fn params_code(body: ClifBody, tys: Seq<ClifType>, n: nat) -> ClifBody
    decreases n,
{
    if n == 0 {
        body
    } else {
        params_code(body, tys, (n - 1) as nat).with_param(0, tys[n - 1])
    }
}

/// The code that the block to start with begins with: the runtime is told of the
/// frame, whose references into managed memory it sets to null, and then the
/// arguments go to their slots.
pub open spec fn entry_code(env: CodeEnv, body: ClifBody) -> ClifBody {
    let func = env.func();
    let taken = params_code(body, arg_types(env.types(), func), func.args.len());
    store_args_code(func, told_code(env, taken), func.args.len())
}

/// The code that tells the runtime of the frame.
pub open spec fn told_code(env: CodeEnv, body: ClifBody) -> ClifBody {
    let id = body.next();
    let named = body.with_ins(
        0,
        ClifIns::Iconst { res: id, ty: ClifType::I64, imm: env.rt_funcs[env.id.key] as i64 },
        1,
    );
    let frame = named.next();
    let framed = named.with_ins(0, ClifIns::FramePointer { res: frame, ty: ClifType::I64 }, 1);
    call_code(framed, 0, env.push_ref(), seq![id, frame]).0
}

/// The code of a block.
#[verifier::opaque]
pub open spec fn block_code(env: CodeEnv, body: ClifBody, n: int) -> ClifBody {
    let func = env.func();
    let block = block_number(func, n);
    let placed = body.with_layout(block);
    let begun = if n == key_pos(func.entrypoint.key) {
        entry_code(env, placed)
    } else {
        placed
    };
    final_code(
        env,
        inss_code(env, begun, block, func.blocks[n].instructions),
        block,
        func.blocks[n].ins_final,
    )
}

/// Whether code can be made for a block.
#[verifier::opaque]
pub open spec fn block_ready(env: CodeEnv, n: int) -> bool {
    let block = env.func().blocks[n];
    &&& n == key_pos(env.func().entrypoint.key) ==> {
        &&& env.func().args.len() <= MAX_PARAMS
        &&& env.rt_funcs.contains_key(env.id.key)
    }
    &&& forall|i: int|
        0 <= i < block.instructions.len() ==> ins_ready(env, #[trigger] block.instructions[i])
    &&& final_ready(env, block.ins_final)
}

/// Which block comes at place `i` of the code. The block to start with comes
/// first, then the others in their order.
pub open spec fn block_in_order(func: FuncModel, i: int) -> int {
    let entry = key_pos(func.entrypoint.key);
    if !func.has_block(func.entrypoint) || i > entry {
        i
    } else if i == 0 {
        entry
    } else {
        i - 1
    }
}

/// The code of the first `n` blocks.
pub open spec fn blocks_code(env: CodeEnv, body: ClifBody, n: nat) -> ClifBody
    decreases n,
{
    if n == 0 {
        body
    } else {
        block_code(
            env,
            blocks_code(env, body, (n - 1) as nat),
            block_in_order(env.func(), n - 1),
        )
    }
}

/// The power of two that an alignment is.
pub open spec fn align_shift(align: usize) -> u8 {
    if align == 1 {
        0
    } else if align == 4 {
        2
    } else {
        3
    }
}

/// The slots of locals of those types.
pub open spec fn local_slots(types: TypesModel, locals: Seq<TypeId>) -> Seq<ClifSlot> {
    Seq::new(
        locals.len(),
        |i: int|
            {
                let layout = layout_of(types, types.info(locals[i]))->0;
                ClifSlot {
                    size: layout.size as u32,
                    align_shift: align_shift(layout.align),
                    key: crate::slots::key_at(i) as u32 as u64,
                }
            },
    )
}

/// A reference into managed memory in a frame: the slot that it lies in and where
/// in the slot, and the type of the local that has the slot.
#[derive(Clone, Copy, PartialEq, Eq, Structural, Debug)]
pub struct GcRoot {
    pub slot: u32,
    pub offset: usize,
    pub ty: TypeId,
}

/// The references into managed memory in the slot of one local.
pub open spec fn slot_roots(types: TypesModel, slot: u32, ty: TypeId) -> Seq<GcRoot> {
    gc_offsets(types, types.info(ty)).map_values(|offset: usize| GcRoot { slot, offset, ty })
}

/// The references into managed memory in the slots of the locals, those inside
/// structs among them.
pub open spec fn root_slots(types: TypesModel, locals: Seq<TypeId>) -> Seq<GcRoot>
    decreases locals.len(),
{
    if locals.len() == 0 {
        Seq::empty()
    } else {
        root_slots(types, locals.drop_last()) + slot_roots(
            types,
            (locals.len() - 1) as u32,
            locals.last(),
        )
    }
}

/// The room that the locals take in a frame, with the gaps between them.
pub open spec fn locals_room(types: TypesModel, locals: Seq<TypeId>) -> int
    decreases locals.len(),
{
    if locals.len() == 0 {
        0
    } else {
        locals_room(types, locals.drop_last()) + layout_of(types, types.info(locals.last()))->0.size
            + 8
    }
}

/// A function without code: what it can call, its slots and its blocks. `refs`
/// are the functions of the program and the three of the runtime.
pub open spec fn frame_of(env: CodeEnv, refs: Seq<ClifRef>) -> ClifBody {
    let func = env.func();
    ClifBody {
        refs,
        slots: local_slots(env.types(), func.locals),
        blocks: Seq::new(
            if func.has_block(func.entrypoint) {
                func.blocks.len()
            } else {
                func.blocks.len() + 1
            },
            |i: int| ClifBlock::empty(),
        ),
        ..ClifBody::fresh((0, env.id.key as u32), func_sig(env.types(), func))
    }
}

/// The function that the machine runs.
pub open spec fn func_code(env: CodeEnv, refs: Seq<ClifRef>) -> ClifBody {
    blocks_code(env, frame_of(env, refs), env.func().blocks.len())
}

/// Whether code can be made for the function.
pub open spec fn func_ready(env: CodeEnv, refs: Seq<ClifRef>) -> bool {
    let func = env.func();
    &&& sig_ready(env.types(), func)
    &&& forall|i: int|
        0 <= i < func.locals.len() ==> env.types().contains(#[trigger] func.locals[i]) && layout_of(
            env.types(),
            env.types().info(func.locals[i]),
        ) is Some
    &&& forall|n: int| 0 <= n < func.blocks.len() ==> #[trigger] block_ready(env, n)
    &&& fits(func_code(env, refs))
}

/// A place that can be found leads somewhere.
pub proof fn lemma_place_ready(types: TypesModel, ty: TypeId, projs: Seq<Projection>)
    ensures
        place_ready(types, ty, projs) ==> final_type(types, ty, projs) is Some,
{
}

/// Finding a place adds instructions, and the address is a value.
pub proof fn lemma_place_code(
    types: TypesModel,
    body: ClifBody,
    block: u32,
    ty: TypeId,
    projs: Seq<Projection>,
    root: u32,
)
    requires
        block < body.blocks.len(),
    ensures
        grown(body, place_code(types, body, block, ty, projs, root).0),
        root < body.values && fits(place_code(types, body, block, ty, projs, root).0)
            && body.values <= MAX_PARAMS + body.insts ==> place_code(
            types,
            body,
            block,
            ty,
            projs,
            root,
        ).1 < place_code(types, body, block, ty, projs, root).0.values,
    decreases projs.len(),
{
    if projs.len() > 0 {
        lemma_place_code(types, body, block, ty, projs.drop_last(), root);
    }
}

/// The code for the front of a place is a beginning of the code for the place.
pub proof fn lemma_place_code_front(
    types: TypesModel,
    body: ClifBody,
    block: u32,
    ty: TypeId,
    projs: Seq<Projection>,
    root: u32,
    n: int,
)
    requires
        block < body.blocks.len(),
        0 <= n <= projs.len(),
    ensures
        grown(
            place_code(types, body, block, ty, projs.take(n), root).0,
            place_code(types, body, block, ty, projs, root).0,
        ),
        place_ready(types, ty, projs) ==> place_ready(types, ty, projs.take(n)),
    decreases projs.len(),
{
    if n == projs.len() {
        assert(projs.take(n) =~= projs);
    } else {
        assert(projs.drop_last().take(n) =~= projs.take(n));
        lemma_place_code_front(types, body, block, ty, projs.drop_last(), root, n);
        lemma_place_code(types, body, block, ty, projs.drop_last(), root);
    }
}

pub proof fn lemma_slot_place_code(
    types: TypesModel,
    body: ClifBody,
    block: u32,
    place: PlaceModel,
)
    requires
        block < body.blocks.len(),
    ensures
        ({
            let (found, addr) = slot_place_code(types, body, block, place);
            &&& grown(body, found)
            &&& body.insts < found.insts
            &&& fits(found) && body.values <= MAX_PARAMS + body.insts ==> addr < found.values
        }),
{
    let root = body.next();
    let begun = body.with_ins(
        block,
        ClifIns::StackAddr { res: root, ty: ClifType::I64, slot: slot_of(place.local), offset: 0 },
        1,
    );
    lemma_place_code(types, begun, block, place.local_ty, place.projs, root);
}

pub proof fn lemma_operand_code(
    types: TypesModel,
    body: ClifBody,
    block: u32,
    operand: OperandModel,
)
    requires
        block < body.blocks.len(),
    ensures
        ({
            let (read, x) = operand_code(types, body, block, operand);
            &&& grown(body, read)
            &&& fits(read) && body.values <= MAX_PARAMS + body.insts ==> x < read.values
        }),
{
    if let OperandModel::Place(place) = operand {
        lemma_slot_place_code(types, body, block, place);
    }
}

pub proof fn lemma_value_code(
    types: TypesModel,
    body: ClifBody,
    block: u32,
    place: PlaceModel,
    value: ValueModel,
)
    requires
        block < body.blocks.len(),
    ensures
        ({
            let (made, x) = value_code(types, body, block, place, value);
            &&& grown(body, made)
            &&& fits(made) && body.values <= MAX_PARAMS + body.insts && body.values > 0 ==> x
                < made.values
        }),
{
    match value {
        ValueModel::Read(operand) => lemma_operand_code(types, body, block, operand),
        ValueModel::Ref(operand) => {
            if let OperandModel::Place(to) = operand {
                lemma_slot_place_code(types, body, block, to);
            }
        },
        ValueModel::BinOp(op, lhs, rhs) => {
            lemma_operand_code(types, body, block, lhs);
            let left = operand_code(types, body, block, lhs).0;
            lemma_operand_code(types, left, block, rhs);
        },
    }
}

/// The functions of the runtime that code calls: one result of the allocation,
/// none of the others. No function has more than one result.
pub open spec fn refs_known(env: CodeEnv, refs: Seq<ClifRef>) -> bool {
    let n = env.program.functions.len() as int;
    &&& n + 3 <= MAX_ENTITIES
    &&& refs.len() == n + 3
    &&& forall|i: int|
        0 <= i < n ==> (#[trigger] refs[i]).sig.returns.len() == if env.program.functions[i].return_type is Some {
            1nat
        } else {
            0nat
        }
    &&& refs[n].sig.returns.len() == 1
    &&& refs[n + 1].sig.returns.len() == 0
    &&& refs[n + 2].sig.returns.len() == 0
}

pub proof fn lemma_ins_code(env: CodeEnv, body: ClifBody, block: u32, ins: InsModel)
    requires
        block < body.blocks.len(),
        refs_known(env, body.refs),
    ensures
        grown(body, ins_code(env, body, block, ins)),
{
    match ins {
        InsModel::Assign { place, value } => {
            lemma_slot_place_code(env.types(), body, block, place);
            let found = slot_place_code(env.types(), body, block, place).0;
            lemma_value_code(env.types(), found, block, place, value);
        },
        InsModel::AllocGc { place } => {
            lemma_slot_place_code(env.types(), body, block, place);
        },
    }
}

pub proof fn lemma_inss_code(env: CodeEnv, body: ClifBody, block: u32, inss: Seq<InsModel>, n: int)
    requires
        block < body.blocks.len(),
        refs_known(env, body.refs),
        0 <= n <= inss.len(),
    ensures
        grown(body, inss_code(env, body, block, inss.take(n))),
        grown(
            inss_code(env, body, block, inss.take(n)),
            inss_code(env, body, block, inss),
        ),
    decreases inss.len(),
{
    if inss.len() > 0 {
        let front = inss.drop_last();
        lemma_inss_code(env, body, block, front, front.len() as int);
        assert(front.take(front.len() as int) =~= front);
        lemma_ins_code(env, inss_code(env, body, block, front), block, inss.last());
        if n < inss.len() {
            lemma_inss_code(env, body, block, front, n);
            assert(front.take(n) =~= inss.take(n));
        } else {
            assert(inss.take(n) =~= inss);
        }
    } else {
        assert(inss.take(n) =~= inss);
    }
}

pub proof fn lemma_loads_code(
    types: TypesModel,
    func: FuncModel,
    body: ClifBody,
    block: u32,
    locals: Seq<LocalId>,
    n: int,
)
    requires
        block < body.blocks.len(),
        0 <= n <= locals.len(),
    ensures
        ({
            let (front, _) = loads_code(types, func, body, block, locals.take(n));
            let (loaded, values) = loads_code(types, func, body, block, locals);
            &&& grown(body, front)
            &&& grown(front, loaded)
            &&& values.len() == locals.len()
            &&& fits(loaded) && body.values <= MAX_PARAMS + body.insts ==> forall|i: int|
                0 <= i < values.len() ==> (#[trigger] values[i]) < loaded.values
        }),
    decreases locals.len(),
{
    if locals.len() > 0 {
        let before = locals.drop_last();
        lemma_loads_code(types, func, body, block, before, before.len() as int);
        assert(before.take(before.len() as int) =~= before);
        if n < locals.len() {
            lemma_loads_code(types, func, body, block, before, n);
            assert(before.take(n) =~= locals.take(n));
        } else {
            assert(locals.take(n) =~= locals);
        }
    } else {
        assert(locals.take(n) =~= locals);
    }
}

pub proof fn lemma_final_code(env: CodeEnv, body: ClifBody, block: u32, end: FinalModel)
    requires
        block < body.blocks.len(),
        refs_known(env, body.refs),
        final_ready(env, end),
    ensures
        grown(body, final_code(env, body, block, end)),
{
    if let FinalModel::Call { func: callee, args, store_ret, next } = end {
        lemma_loads_code(env.types(), env.func(), body, block, args, args.len() as int);
        assert(args.take(args.len() as int) =~= args);
        assert(body.refs[key_pos(callee.key)].sig.returns.len() <= 1);
    }
}

pub proof fn lemma_params_code(body: ClifBody, tys: Seq<ClifType>, n: nat)
    requires
        0 < body.blocks.len(),
        body.blocks[0].params.len() == 0,
        body.values == 0,
        n <= MAX_PARAMS,
    ensures
        ({
            let r = params_code(body, tys, n);
            &&& r.name == body.name
            &&& r.sig == body.sig
            &&& r.refs == body.refs
            &&& r.slots == body.slots
            &&& r.layout == body.layout
            &&& r.blocks.len() == body.blocks.len()
            &&& r.insts == body.insts
            &&& r.values == n
            &&& r.blocks[0].params =~= Seq::new(n, |i: int| i as u32)
        }),
    decreases n,
{
    if n > 0 {
        lemma_params_code(body, tys, (n - 1) as nat);
    }
}

pub proof fn lemma_store_args_code(func: FuncModel, body: ClifBody, n: nat, m: nat)
    requires
        0 < body.blocks.len(),
        n <= m,
    ensures
        grown(body, store_args_code(func, body, n)),
        grown(store_args_code(func, body, n), store_args_code(func, body, m)),
        store_args_code(func, body, m).insts == body.insts + m,
        store_args_code(func, body, m).values == body.values,
    decreases m,
{
    if m > 0 {
        lemma_store_args_code(
            func,
            body,
            if n < m {
                n
            } else {
                (m - 1) as nat
            },
            (m - 1) as nat,
        );
    }
}

pub proof fn lemma_entry_code(env: CodeEnv, body: ClifBody)
    requires
        0 < body.blocks.len(),
        body.blocks[0].params.len() == 0,
        body.values == 0,
        env.func().args.len() <= MAX_PARAMS,
        refs_known(env, body.refs),
    ensures
        ({
            let r = entry_code(env, body);
            &&& r.name == body.name
            &&& r.sig == body.sig
            &&& r.refs == body.refs
            &&& r.slots == body.slots
            &&& r.layout == body.layout
            &&& r.blocks.len() == body.blocks.len()
            &&& r.insts == body.insts + env.func().args.len() + 3
            &&& r.values == env.func().args.len() + 2
        }),
{
    let n = env.func().args.len();
    let tys = arg_types(env.types(), env.func());
    lemma_params_code(body, tys, n);
    let taken = params_code(body, tys, n);
    lemma_told_code(env, taken);
    lemma_store_args_code(env.func(), told_code(env, taken), n, n);
}

/// Telling the runtime of the frame adds three instructions.
pub proof fn lemma_told_code(env: CodeEnv, body: ClifBody)
    requires
        0 < body.blocks.len(),
        refs_known(env, body.refs),
    ensures
        ({
            let r = told_code(env, body);
            &&& grown(body, r)
            &&& r.insts == body.insts + 3
            &&& r.values == body.values + 2
            &&& r.blocks[0].params == body.blocks[0].params
        }),
{
}

/// What holds of the function when its first `n` blocks have their code.
pub open spec fn blocks_done(env: CodeEnv, frame: ClifBody, body: ClifBody, n: nat) -> bool {
    &&& body.name == frame.name
    &&& body.sig == frame.sig
    &&& body.refs == frame.refs
    &&& body.slots == frame.slots
    &&& body.blocks.len() == frame.blocks.len()
    &&& body.layout =~= Seq::new(
        n,
        |i: int| block_number(env.func(), block_in_order(env.func(), i)),
    )
    &&& body.values <= MAX_PARAMS + body.insts
    &&& n == 0 ==> body == frame
}

pub proof fn lemma_block_code(env: CodeEnv, body: ClifBody, n: int)
    requires
        block_number(env.func(), n) < body.blocks.len(),
        refs_known(env, body.refs),
        block_ready(env, n),
        n == key_pos(env.func().entrypoint.key) ==> env.func().has_block(env.func().entrypoint)
            && body.values == 0 && body.blocks[0].params.len() == 0,
        body.values <= MAX_PARAMS + body.insts,
    ensures
        ({
            let r = block_code(env, body, n);
            &&& r.name == body.name
            &&& r.sig == body.sig
            &&& r.refs == body.refs
            &&& r.slots == body.slots
            &&& r.blocks.len() == body.blocks.len()
            &&& r.layout == body.layout.push(block_number(env.func(), n))
            &&& r.insts >= body.insts
            &&& r.values <= MAX_PARAMS + r.insts
        }),
{
    reveal(block_code);
    reveal(block_ready);
    let func = env.func();
    let block = block_number(func, n);
    let placed = body.with_layout(block);
    let begun = if n == key_pos(func.entrypoint.key) {
        lemma_entry_code(env, placed);
        entry_code(env, placed)
    } else {
        placed
    };
    let inss = func.blocks[n].instructions;
    lemma_inss_code(env, begun, block, inss, inss.len() as int);
    assert(inss.take(inss.len() as int) =~= inss);
    lemma_final_code(env, inss_code(env, begun, block, inss), block, func.blocks[n].ins_final);
}

/// Each block of the function comes at one place of the code.
pub proof fn lemma_block_in_order(func: FuncModel, i: int)
    requires
        0 <= i < func.blocks.len(),
        func.blocks.len() < MAX_ENTITIES,
    ensures
        0 <= block_in_order(func, i) < func.blocks.len(),
        block_number(func, block_in_order(func, i)) == if func.has_block(func.entrypoint) {
            i
        } else {
            i + 1
        },
        block_in_order(func, i) == key_pos(func.entrypoint.key) ==> i == 0,
{
}

pub proof fn lemma_blocks_code(env: CodeEnv, frame: ClifBody, n: nat)
    requires
        n <= env.func().blocks.len() < MAX_ENTITIES,
        refs_known(env, frame.refs),
        frame.values == 0,
        frame.layout.len() == 0,
        frame.blocks.len() == if env.func().has_block(env.func().entrypoint) {
            env.func().blocks.len()
        } else {
            env.func().blocks.len() + 1
        },
        forall|i: int| 0 <= i < frame.blocks.len() ==> (#[trigger] frame.blocks[i]).params.len() == 0,
        forall|i: int|
            0 <= i < env.func().blocks.len() ==> #[trigger] block_ready(env, i),
    ensures
        blocks_done(env, frame, blocks_code(env, frame, n), n),
        n > 0 ==> blocks_code(env, frame, (n - 1) as nat).insts <= blocks_code(env, frame, n).insts,
    decreases n,
{
    if n > 0 {
        lemma_blocks_code(env, frame, (n - 1) as nat);
        lemma_block_in_order(env.func(), n - 1);
        assert(block_ready(env, block_in_order(env.func(), n - 1)));
        lemma_block_code(
            env,
            blocks_code(env, frame, (n - 1) as nat),
            block_in_order(env.func(), n - 1),
        );
    }
}

/// With fewer blocks there is no more code.
pub proof fn lemma_blocks_code_front(env: CodeEnv, frame: ClifBody, n: nat, m: nat)
    requires
        n <= m <= env.func().blocks.len() < MAX_ENTITIES,
        refs_known(env, frame.refs),
        frame.values == 0,
        frame.layout.len() == 0,
        frame.blocks.len() == if env.func().has_block(env.func().entrypoint) {
            env.func().blocks.len()
        } else {
            env.func().blocks.len() + 1
        },
        forall|i: int| 0 <= i < frame.blocks.len() ==> (#[trigger] frame.blocks[i]).params.len() == 0,
        forall|i: int|
            0 <= i < env.func().blocks.len() ==> #[trigger] block_ready(env, i),
    ensures
        blocks_code(env, frame, n).insts <= blocks_code(env, frame, m).insts,
    decreases m - n,
{
    if n < m {
        lemma_blocks_code_front(env, frame, n, (m - 1) as nat);
        lemma_blocks_code(env, frame, m);
    }
}

/// The blocks of a function lie in the code without gaps: the one to start with
/// first, then the others in their order. The code has no other blocks.
pub proof fn law_blocks_placed(env: CodeEnv, refs: Seq<ClifRef>)
    requires
        refs_known(env, refs),
        func_ready(env, refs),
        env.func().blocks.len() < MAX_ENTITIES,
    ensures
        func_code(env, refs).layout == Seq::new(
            env.func().blocks.len(),
            |i: int| block_number(env.func(), block_in_order(env.func(), i)),
        ),
        env.func().has_block(env.func().entrypoint) ==> func_code(env, refs).layout == Seq::new(
            env.func().blocks.len(),
            |i: int| i as u32,
        ) && func_code(env, refs).blocks.len() == env.func().blocks.len(),
{
    let frame = frame_of(env, refs);
    let n = env.func().blocks.len();
    lemma_blocks_code(env, frame, n);
    if env.func().has_block(env.func().entrypoint) {
        assert forall|i: int| 0 <= i < n implies block_number(
            env.func(),
            #[trigger] block_in_order(env.func(), i),
        ) == i by {
            lemma_block_in_order(env.func(), i);
        }
        assert(func_code(env, refs).layout =~= Seq::new(n, |i: int| i as u32));
    }
}

} // verus!

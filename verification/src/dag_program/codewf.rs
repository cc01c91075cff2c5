//! What holds of all code that is made.

use super::code::{
    arg_types, bin_ins, block_code, block_in_order, block_number, block_ready, blocks_code,
    call_code, entry_code, final_code, final_ready, fits, frame_of, func_code, func_ready, ins_code,
    ins_ready, inss_code, lemma_block_in_order, lemma_blocks_code, lemma_blocks_code_front,
    lemma_entry_code, lemma_final_code, lemma_inss_code, lemma_loads_code, lemma_operand_code,
    lemma_params_code, lemma_place_code, lemma_slot_place_code, lemma_store_args_code,
    lemma_told_code, lemma_value_code, loads_code, loads_ready, operand_code, operand_ready,
    params_code, place_code, refs_known, slot_of, slot_place_code, store_args_code, told_code,
    value_code, value_ready, CodeEnv,
};
use super::{
    BinOp, FinalModel, FuncModel, InsModel, LocalId, OperandModel, PlaceModel, Projection, TypeId,
    TypeModel, TypesModel, ValueModel,
};
use crate::clif::{
    value_run, ClifBlock, ClifBody, ClifIns, ClifRef, ClifType, MAX_ENTITIES, MAX_PARAMS,
};
use crate::slots::key_pos;
use vstd::prelude::*;

verus! {

/// Whether an instruction ends its block.
pub open spec fn is_end(ins: ClifIns) -> bool {
    ins is Jump || ins is Brif || ins is Return
}

/// Whether the values, slots, blocks and functions that an instruction names are
/// there.
pub open spec fn ins_known(body: ClifBody, ins: ClifIns) -> bool {
    match ins {
        ClifIns::StackAddr { res, slot, .. } => res < body.values && slot < body.slots.len(),
        ClifIns::StackLoad { res, slot, .. } => res < body.values && slot < body.slots.len(),
        ClifIns::StackStore { value, slot, .. } => value < body.values && slot < body.slots.len(),
        ClifIns::Load { res, addr, .. } => res < body.values && addr < body.values,
        ClifIns::Store { value, addr, .. } => value < body.values && addr < body.values,
        ClifIns::Iconst { res, .. } => res < body.values,
        ClifIns::F32const { res, .. } => res < body.values,
        ClifIns::IaddImm { res, x, .. } => res < body.values && x < body.values,
        ClifIns::Icmp { res, x, y, .. } => res < body.values && x < body.values && y < body.values,
        ClifIns::Fcmp { res, x, y, .. } => res < body.values && x < body.values && y < body.values,
        ClifIns::Iadd { res, x, y } => res < body.values && x < body.values && y < body.values,
        ClifIns::Isub { res, x, y } => res < body.values && x < body.values && y < body.values,
        ClifIns::Imul { res, x, y } => res < body.values && x < body.values && y < body.values,
        ClifIns::Sdiv { res, x, y } => res < body.values && x < body.values && y < body.values,
        ClifIns::Fadd { res, x, y } => res < body.values && x < body.values && y < body.values,
        ClifIns::Fsub { res, x, y } => res < body.values && x < body.values && y < body.values,
        ClifIns::Fmul { res, x, y } => res < body.values && x < body.values && y < body.values,
        ClifIns::Fdiv { res, x, y } => res < body.values && x < body.values && y < body.values,
        ClifIns::FramePointer { res, .. } => res < body.values,
        ClifIns::Call { func, args, results } => {
            &&& func < body.refs.len()
            &&& forall|i: int| 0 <= i < args.len() ==> (#[trigger] args[i]) < body.values
            &&& forall|i: int| 0 <= i < results.len() ==> (#[trigger] results[i]) < body.values
        },
        ClifIns::Jump { to } => to < body.blocks.len(),
        ClifIns::Brif { flag, is_true, is_false } => {
            &&& flag < body.values
            &&& is_true < body.blocks.len()
            &&& is_false < body.blocks.len()
        },
        ClifIns::Return { values } => forall|i: int|
            0 <= i < values.len() ==> (#[trigger] values[i]) < body.values,
    }
}

/// Whether a block ends with its last instruction and not before.
pub open spec fn block_closed(block: ClifBlock) -> bool {
    &&& block.code.len() > 0
    &&& is_end(block.code.last())
    &&& forall|k: int| 0 <= k < block.code.len() - 1 ==> !is_end(#[trigger] block.code[k])
}

/// Whether a block does not end yet.
pub open spec fn block_open(block: ClifBlock) -> bool {
    forall|k: int| 0 <= k < block.code.len() ==> !is_end(#[trigger] block.code[k])
}

/// Whether the code so far names only what is there, and every block that has its
/// place, but for the one that is worked on, has its end.
#[verifier::opaque]
pub open spec fn code_built(body: ClifBody, open: Option<u32>) -> bool {
    &&& forall|b: int, k: int|
        #![trigger body.blocks[b].code[k]]
        0 <= b < body.blocks.len() && 0 <= k < body.blocks[b].code.len() ==> ins_known(
            body,
            body.blocks[b].code[k],
        )
    &&& forall|b: int|
        0 <= b < body.blocks.len() && open != Some(b as u32) ==> if body.layout.contains(b as u32) {
            block_closed(#[trigger] body.blocks[b])
        } else {
            body.blocks[b].code.len() == 0
        }
    &&& open matches Some(b) ==> b < body.blocks.len() && block_open(body.blocks[b as int])
    &&& body.blocks.len() <= MAX_ENTITIES
}

/// What an instruction names stays there when there is more.
proof fn lemma_known_grown(before: ClifBody, after: ClifBody, ins: ClifIns)
    requires
        ins_known(before, ins),
        before.values <= after.values,
        before.slots == after.slots,
        before.refs == after.refs,
        before.blocks.len() <= after.blocks.len(),
    ensures
        ins_known(after, ins),
{
    if let ClifIns::Call { func, args, results } = ins {
        assert forall|i: int| 0 <= i < args.len() implies (#[trigger] args[i]) < after.values by {
            assert(args[i] < before.values);
        }
        assert forall|i: int| 0 <= i < results.len() implies (#[trigger] results[i])
            < after.values by {
            assert(results[i] < before.values);
        }
    }
    if let ClifIns::Return { values } = ins {
        assert forall|i: int| 0 <= i < values.len() implies (#[trigger] values[i])
            < after.values by {
            assert(values[i] < before.values);
        }
    }
}

/// One more instruction in the block that is worked on.
proof fn lemma_built_ins(body: ClifBody, block: u32, ins: ClifIns, results: nat)
    requires
        code_built(body, Some(block)),
        ins_known(body.with_ins(block, ins, results), ins),
    ensures
        !is_end(ins) ==> code_built(body.with_ins(block, ins, results), Some(block)),
        is_end(ins) && body.layout.contains(block) ==> code_built(
            body.with_ins(block, ins, results),
            None,
        ),
{
    reveal(code_built);
    let after = body.with_ins(block, ins, results);
    assert forall|b: int, k: int|
        #![trigger after.blocks[b].code[k]]
        0 <= b < after.blocks.len() && 0 <= k < after.blocks[b].code.len() implies ins_known(
        after,
        after.blocks[b].code[k],
    ) by {
        if b != block || k < body.blocks[b].code.len() {
            assert(after.blocks[b].code[k] == body.blocks[b].code[k]);
            lemma_known_grown(body, after, body.blocks[b].code[k]);
        }
    }
    assert forall|b: int| 0 <= b < after.blocks.len() && b != block implies #[trigger] after.blocks[b]
        == body.blocks[b] by {}
    assert(after.blocks[block as int].code == body.blocks[block as int].code.push(ins));
    let code = after.blocks[block as int].code;
    assert forall|k: int| 0 <= k < code.len() - 1 implies !is_end(#[trigger] code[k]) by {
        assert(code[k] == body.blocks[block as int].code[k]);
    }
    assert forall|b: int|
        0 <= b < after.blocks.len() && Some(block) != Some(b as u32) implies if after.layout.contains(
        b as u32,
    ) {
        block_closed(#[trigger] after.blocks[b])
    } else {
        after.blocks[b].code.len() == 0
    } by {
        assert(after.blocks[b] == body.blocks[b]);
    }
    if is_end(ins) && body.layout.contains(block) {
        assert(block_closed(after.blocks[block as int]));
    }
}

proof fn lemma_built_place(
    types: TypesModel,
    body: ClifBody,
    block: u32,
    ty: TypeId,
    projs: Seq<Projection>,
    root: u32,
)
    requires
        code_built(body, Some(block)),
        block < body.blocks.len(),
        root < body.values,
        body.values <= MAX_PARAMS + body.insts,
        fits(place_code(types, body, block, ty, projs, root).0),
    ensures
        code_built(place_code(types, body, block, ty, projs, root).0, Some(block)),
    decreases projs.len(),
{
    if projs.len() > 0 {
        let (before, addr) = place_code(types, body, block, ty, projs.drop_last(), root);
        lemma_place_code(types, body, block, ty, projs.drop_last(), root);
        lemma_built_place(types, body, block, ty, projs.drop_last(), root);
        let res = before.next();
        match projs.last() {
            Projection::Deref => {
                lemma_built_ins(
                    before,
                    block,
                    ClifIns::Load { res, ty: ClifType::I64, addr, offset: 0 },
                    1,
                );
            },
            Projection::Field { field_idx } => {
                let after = place_code(types, body, block, ty, projs, root).0;
                if after != before {
                    let shape = super::layouts::shape_of(
                        types,
                        super::code::struct_fields(types, ty, projs.drop_last()),
                    )->0;
                    let imm = shape.offsets[field_idx as int] as i64;
                    lemma_built_ins(before, block, ClifIns::IaddImm { res, x: addr, imm }, 1);
                }
            },
            Projection::Index { .. } => {},
        }
    }
}

proof fn lemma_built_slot_place(
    types: TypesModel,
    body: ClifBody,
    block: u32,
    place: PlaceModel,
)
    requires
        code_built(body, Some(block)),
        block < body.blocks.len(),
        slot_of(place.local) < body.slots.len(),
        body.values <= MAX_PARAMS + body.insts,
        fits(slot_place_code(types, body, block, place).0),
    ensures
        code_built(slot_place_code(types, body, block, place).0, Some(block)),
{
    let root = body.next();
    let ins = ClifIns::StackAddr {
        res: root,
        ty: ClifType::I64,
        slot: slot_of(place.local),
        offset: 0,
    };
    let begun = body.with_ins(block, ins, 1);
    lemma_place_code(types, begun, block, place.local_ty, place.projs, root);
    lemma_built_ins(body, block, ins, 1);
    lemma_built_place(types, begun, block, place.local_ty, place.projs, root);
}

/// Whether each local of the function has its slot.
pub open spec fn slots_fit(func: FuncModel, body: ClifBody) -> bool {
    body.slots.len() == func.locals.len() && func.locals.len() < MAX_ENTITIES
}

proof fn lemma_built_operand(
    types: TypesModel,
    func: FuncModel,
    body: ClifBody,
    block: u32,
    operand: OperandModel,
)
    requires
        code_built(body, Some(block)),
        block < body.blocks.len(),
        slots_fit(func, body),
        operand_ready(types, func, operand),
        body.values <= MAX_PARAMS + body.insts,
        fits(operand_code(types, body, block, operand).0),
    ensures
        code_built(operand_code(types, body, block, operand).0, Some(block)),
{
    match operand {
        OperandModel::Place(place) => {
            let (before, addr) = slot_place_code(types, body, block, place);
            lemma_slot_place_code(types, body, block, place);
            lemma_built_slot_place(types, body, block, place);
            let ty = super::code::ssa_type(
                types,
                super::final_type(types, place.local_ty, place.projs)->0,
            )->0;
            lemma_built_ins(
                before,
                block,
                ClifIns::Load { res: before.next(), ty, addr, offset: 0 },
                1,
            );
        },
        OperandModel::ConstI32(imm) => {
            lemma_built_ins(
                body,
                block,
                ClifIns::Iconst {
                    res: body.next(),
                    ty: ClifType::I32,
                    imm: crate::clif::low_bits(ClifType::I32, imm as i64),
                },
                1,
            );
        },
        OperandModel::ConstF32(bits) => {
            lemma_built_ins(body, block, ClifIns::F32const { res: body.next(), bits }, 1);
        },
        OperandModel::ConstBool(imm) => {
            lemma_built_ins(
                body,
                block,
                ClifIns::Iconst {
                    res: body.next(),
                    ty: ClifType::I8,
                    imm: if imm {
                        1
                    } else {
                        0
                    },
                },
                1,
            );
        },
    }
}

/// One operation more in the block that is worked on.
proof fn lemma_built_bin(
    body: ClifBody,
    block: u32,
    op: BinOp,
    input: TypeModel,
    output: TypeModel,
    x: u32,
    y: u32,
)
    requires
        code_built(body, Some(block)),
        bin_ins(op, input, output, 0, 0, 0) is Some,
        x < body.values,
        y < body.values,
        body.values < MAX_ENTITIES,
    ensures
        bin_ins(op, input, output, body.next(), x, y) is Some,
        code_built(
            body.with_ins(block, bin_ins(op, input, output, body.next(), x, y)->0, 1),
            Some(block),
        ),
{
    lemma_built_ins(body, block, bin_ins(op, input, output, body.next(), x, y)->0, 1);
}

proof fn lemma_built_value(
    types: TypesModel,
    func: FuncModel,
    body: ClifBody,
    block: u32,
    place: PlaceModel,
    value: ValueModel,
)
    requires
        code_built(body, Some(block)),
        block < body.blocks.len(),
        slots_fit(func, body),
        value_ready(types, func, place, value),
        body.values <= MAX_PARAMS + body.insts,
        fits(value_code(types, body, block, place, value).0),
    ensures
        code_built(value_code(types, body, block, place, value).0, Some(block)),
{
    match value {
        ValueModel::Read(operand) => lemma_built_operand(types, func, body, block, operand),
        ValueModel::Ref(operand) => {
            if let OperandModel::Place(to) = operand {
                lemma_built_slot_place(types, body, block, to);
            }
        },
        ValueModel::BinOp(op, lhs, rhs) => {
            lemma_operand_code(types, body, block, lhs);
            let (left, x) = operand_code(types, body, block, lhs);
            lemma_operand_code(types, left, block, rhs);
            let (both, y) = operand_code(types, left, block, rhs);
            lemma_built_operand(types, func, body, block, lhs);
            lemma_built_operand(types, func, left, block, rhs);
            lemma_built_bin(
                both,
                block,
                op,
                super::code::input_info(types, lhs),
                super::code::output_info(types, place),
                x,
                y,
            );
        },
    }
}

proof fn lemma_built_call(body: ClifBody, block: u32, callee: u32, args: Seq<u32>)
    requires
        code_built(body, Some(block)),
        callee < body.refs.len(),
        body.refs[callee as int].sig.returns.len() <= 1,
        body.values <= MAX_PARAMS + body.insts,
        fits(call_code(body, block, callee, args).0),
        forall|i: int| 0 <= i < args.len() ==> (#[trigger] args[i]) < body.values,
    ensures
        code_built(call_code(body, block, callee, args).0, Some(block)),
{
    let results = value_run(body.values, super::code::ref_results(body, callee));
    lemma_built_ins(
        body,
        block,
        ClifIns::Call { func: callee, args, results },
        super::code::ref_results(body, callee),
    );
}

proof fn lemma_built_one(env: CodeEnv, body: ClifBody, block: u32, ins: InsModel)
    requires
        code_built(body, Some(block)),
        block < body.blocks.len(),
        slots_fit(env.func(), body),
        refs_known(env, body.refs),
        ins_ready(env, ins),
        body.values <= MAX_PARAMS + body.insts,
        fits(ins_code(env, body, block, ins)),
    ensures
        code_built(ins_code(env, body, block, ins), Some(block)),
{
    let types = env.types();
    match ins {
        InsModel::Assign { place, value } => {
            let (found, addr) = slot_place_code(types, body, block, place);
            let (made, x) = value_code(types, found, block, place, value);
            lemma_slot_place_code(types, body, block, place);
            lemma_value_code(types, found, block, place, value);
            lemma_built_slot_place(types, body, block, place);
            lemma_built_value(types, env.func(), found, block, place, value);
            lemma_built_ins(made, block, ClifIns::Store { value: x, addr, offset: 0 }, 0);
        },
        InsModel::AllocGc { place } => {
            let (found, addr) = slot_place_code(types, body, block, place);
            lemma_slot_place_code(types, body, block, place);
            lemma_built_slot_place(types, body, block, place);
            let ty = env.rt_types[super::code::output_info(types, place)->GcRef_0.key];
            let arg = found.next();
            let ins = ClifIns::Iconst { res: arg, ty: ClifType::I64, imm: ty as i64 };
            let named = found.with_ins(block, ins, 1);
            lemma_built_ins(found, block, ins, 1);
            lemma_built_call(named, block, env.alloc_ref(), seq![arg]);
            let (called, results) = call_code(named, block, env.alloc_ref(), seq![arg]);
            lemma_built_ins(
                called,
                block,
                ClifIns::Store { value: results[0], addr, offset: 0 },
                0,
            );
        },
    }
}

proof fn lemma_built_inss(env: CodeEnv, body: ClifBody, block: u32, inss: Seq<InsModel>)
    requires
        code_built(body, Some(block)),
        block < body.blocks.len(),
        slots_fit(env.func(), body),
        refs_known(env, body.refs),
        forall|i: int| 0 <= i < inss.len() ==> ins_ready(env, #[trigger] inss[i]),
        body.values <= MAX_PARAMS + body.insts,
        fits(inss_code(env, body, block, inss)),
    ensures
        code_built(inss_code(env, body, block, inss), Some(block)),
    decreases inss.len(),
{
    if inss.len() > 0 {
        let front = inss.drop_last();
        lemma_inss_code(env, body, block, inss, front.len() as int);
        assert(inss.take(front.len() as int) =~= front);
        assert forall|i: int| 0 <= i < front.len() implies ins_ready(env, #[trigger] front[i]) by {
            assert(ins_ready(env, inss[i]));
        }
        lemma_built_inss(env, body, block, front);
        lemma_built_one(env, inss_code(env, body, block, front), block, inss.last());
    }
}

proof fn lemma_built_loads(
    types: TypesModel,
    func: FuncModel,
    body: ClifBody,
    block: u32,
    locals: Seq<LocalId>,
)
    requires
        code_built(body, Some(block)),
        block < body.blocks.len(),
        slots_fit(func, body),
        loads_ready(types, func, locals),
        body.values <= MAX_PARAMS + body.insts,
        fits(loads_code(types, func, body, block, locals).0),
    ensures
        code_built(loads_code(types, func, body, block, locals).0, Some(block)),
    decreases locals.len(),
{
    if locals.len() > 0 {
        let front = locals.drop_last();
        lemma_loads_code(types, func, body, block, locals, front.len() as int);
        assert(locals.take(front.len() as int) =~= front);
        assert(loads_ready(types, func, front)) by {
            assert forall|i: int| 0 <= i < front.len() implies func.has_local(#[trigger] front[i])
                && super::code::ssa_type(types, func.local(front[i])) is Some by {
                assert(func.has_local(locals[i]));
            }
        }
        lemma_built_loads(types, func, body, block, front);
        let before = loads_code(types, func, body, block, front).0;
        assert(func.has_local(locals[locals.len() - 1]));
        lemma_built_ins(
            before,
            block,
            ClifIns::StackLoad {
                res: before.next(),
                ty: super::code::ssa_type(types, func.local(locals.last()))->0,
                slot: slot_of(locals.last()),
                offset: 0,
            },
            1,
        );
    }
}

/// Whether the function has a block for each block of the program.
pub open spec fn blocks_fit(func: FuncModel, body: ClifBody) -> bool {
    &&& func.blocks.len() < MAX_ENTITIES
    &&& body.blocks.len() == if func.has_block(func.entrypoint) {
        func.blocks.len()
    } else {
        func.blocks.len() + 1
    }
}

#[verifier::rlimit(40)]
proof fn lemma_built_final(env: CodeEnv, body: ClifBody, block: u32, end: FinalModel)
    requires
        code_built(body, Some(block)),
        block < body.blocks.len(),
        body.layout.contains(block),
        slots_fit(env.func(), body),
        blocks_fit(env.func(), body),
        refs_known(env, body.refs),
        final_ready(env, end),
        body.values <= MAX_PARAMS + body.insts,
        fits(final_code(env, body, block, end)),
    ensures
        code_built(final_code(env, body, block, end), None),
{
    let types = env.types();
    let func = env.func();
    match end {
        FinalModel::Br { next } => {
            lemma_built_ins(
                body,
                block,
                ClifIns::Jump { to: block_number(func, key_pos(next.key)) },
                0,
            );
        },
        FinalModel::BrIf { cond, is_true, is_false } => {
            let res = body.next();
            let load = ClifIns::StackLoad {
                res,
                ty: ClifType::I8,
                slot: slot_of(cond),
                offset: 0,
            };
            lemma_built_ins(body, block, load, 1);
            lemma_built_ins(
                body.with_ins(block, load, 1),
                block,
                ClifIns::Brif {
                    flag: res,
                    is_true: block_number(func, key_pos(is_true.key)),
                    is_false: block_number(func, key_pos(is_false.key)),
                },
                0,
            );
        },
        FinalModel::Call { func: callee, args, store_ret, next } => {
            let number = key_pos(callee.key) as u32;
            lemma_loads_code(types, func, body, block, args, args.len() as int);
            assert(args.take(args.len() as int) =~= args);
            assert(body.refs[key_pos(callee.key)].sig.returns.len() <= 1);
            let (loaded, values) = loads_code(types, func, body, block, args);
            lemma_built_loads(types, func, body, block, args);
            lemma_built_call(loaded, block, number, values);
            let (called, results) = call_code(loaded, block, number, values);
            let stored = match store_ret {
                Some(local) => {
                    let store = ClifIns::StackStore {
                        value: results[0],
                        slot: slot_of(local),
                        offset: 0,
                    };
                    lemma_built_ins(called, block, store, 0);
                    called.with_ins(block, store, 0)
                },
                None => called,
            };
            lemma_built_ins(
                stored,
                block,
                ClifIns::Jump { to: block_number(func, key_pos(next.key)) },
                0,
            );
        },
        FinalModel::Return { value } => {
            lemma_built_call(body, block, env.pop_ref(), Seq::empty());
            let (popped, _) = call_code(body, block, env.pop_ref(), Seq::empty());
            match value {
                Some(local) => {
                    let res = popped.next();
                    let load = ClifIns::StackLoad {
                        res,
                        ty: body.sig.returns[0],
                        slot: slot_of(local),
                        offset: 0,
                    };
                    lemma_built_ins(popped, block, load, 1);
                    lemma_built_ins(
                        popped.with_ins(block, load, 1),
                        block,
                        ClifIns::Return { values: seq![res] },
                        0,
                    );
                },
                None => {
                    lemma_built_ins(
                        popped,
                        block,
                        ClifIns::Return { values: Seq::empty() },
                        0,
                    );
                },
            }
        },
    }
}

/// A block that gets its place is the one that is worked on.
proof fn lemma_built_layout(body: ClifBody, block: u32)
    requires
        code_built(body, None),
        block < body.blocks.len(),
        !body.layout.contains(block),
    ensures
        code_built(body.with_layout(block), Some(block)),
{
    reveal(code_built);
    let after = body.with_layout(block);
    assert forall|b: int, k: int|
        #![trigger after.blocks[b].code[k]]
        0 <= b < after.blocks.len() && 0 <= k < after.blocks[b].code.len() implies ins_known(
        after,
        after.blocks[b].code[k],
    ) by {
        lemma_known_grown(body, after, body.blocks[b].code[k]);
    }
    assert forall|b: int|
        0 <= b < after.blocks.len() && Some(block) != Some(b as u32) implies if after.layout.contains(
        b as u32,
    ) {
        block_closed(#[trigger] after.blocks[b])
    } else {
        after.blocks[b].code.len() == 0
    } by {
        assert(after.blocks[b] == body.blocks[b]);
        if after.layout.contains(b as u32) {
            let i = choose|i: int| 0 <= i < after.layout.len() && after.layout[i] == b as u32;
            assert(body.layout[i] == b as u32);
        } else if body.layout.contains(b as u32) {
            let i = choose|i: int| 0 <= i < body.layout.len() && body.layout[i] == b as u32;
            assert(after.layout[i] == b as u32);
        }
    }
}

proof fn lemma_built_params(body: ClifBody, tys: Seq<ClifType>, n: nat)
    requires
        code_built(body, Some(0)),
        0 < body.blocks.len(),
    ensures
        code_built(params_code(body, tys, n), Some(0)),
        0 < params_code(body, tys, n).blocks.len(),
    decreases n,
{
    if n > 0 {
        lemma_built_params(body, tys, (n - 1) as nat);
        reveal(code_built);
        let before = params_code(body, tys, (n - 1) as nat);
        let after = params_code(body, tys, n);
        assert forall|b: int, k: int|
            #![trigger after.blocks[b].code[k]]
            0 <= b < after.blocks.len() && 0 <= k < after.blocks[b].code.len() implies ins_known(
            after,
            after.blocks[b].code[k],
        ) by {
            assert(after.blocks[b].code == before.blocks[b].code);
            lemma_known_grown(before, after, before.blocks[b].code[k]);
        }
        assert forall|b: int| 0 <= b < after.blocks.len() implies (#[trigger] after.blocks[b]).code
            == before.blocks[b].code by {}
        assert forall|b: int|
            0 <= b < after.blocks.len() && Some(0u32) != Some(b as u32) implies if after.layout.contains(
            b as u32,
        ) {
            block_closed(#[trigger] after.blocks[b])
        } else {
            after.blocks[b].code.len() == 0
        } by {
            assert(after.blocks[b] == before.blocks[b]);
        }
    }
}

proof fn lemma_built_stores(func: FuncModel, body: ClifBody, n: nat)
    requires
        code_built(body, Some(0)),
        0 < body.blocks.len(),
        slots_fit(func, body),
        n <= func.args.len(),
        n <= body.blocks[0].params.len(),
        forall|i: int| 0 <= i < func.args.len() ==> func.has_local(#[trigger] func.args[i]),
        forall|i: int|
            0 <= i < body.blocks[0].params.len() ==> (#[trigger] body.blocks[0].params[i])
                < body.values,
    ensures
        code_built(store_args_code(func, body, n), Some(0)),
    decreases n,
{
    if n > 0 {
        lemma_built_stores(func, body, (n - 1) as nat);
        lemma_store_args_code(func, body, (n - 1) as nat, (n - 1) as nat);
        assert(func.has_local(func.args[n - 1]));
        assert(body.blocks[0].params[n - 1] < body.values);
        lemma_built_ins(
            store_args_code(func, body, (n - 1) as nat),
            0,
            ClifIns::StackStore {
                value: body.blocks[0].params[n - 1],
                slot: slot_of(func.args[n - 1]),
                offset: 0,
            },
            0,
        );
    }
}

proof fn lemma_built_entry(env: CodeEnv, body: ClifBody)
    requires
        code_built(body, Some(0)),
        0 < body.blocks.len(),
        body.blocks[0].params.len() == 0,
        body.values == 0,
        slots_fit(env.func(), body),
        refs_known(env, body.refs),
        env.func().args.len() <= MAX_PARAMS,
        forall|i: int|
            0 <= i < env.func().args.len() ==> env.func().has_local(#[trigger] env.func().args[i]),
        fits(entry_code(env, body)),
    ensures
        code_built(entry_code(env, body), Some(0)),
{
    let func = env.func();
    let n = func.args.len();
    let tys = arg_types(env.types(), func);
    let taken = params_code(body, tys, n);
    lemma_entry_code(env, body);
    lemma_params_code(body, tys, n);
    lemma_built_params(body, tys, n);
    lemma_told_code(env, taken);
    let told = told_code(env, taken);
    lemma_store_args_code(func, told, n, n);
    let id = taken.next();
    let name = ClifIns::Iconst {
        res: id,
        ty: ClifType::I64,
        imm: env.rt_funcs[env.id.key] as i64,
    };
    let named = taken.with_ins(0, name, 1);
    lemma_built_ins(taken, 0, name, 1);
    let frame = named.next();
    let point = ClifIns::FramePointer { res: frame, ty: ClifType::I64 };
    let framed = named.with_ins(0, point, 1);
    lemma_built_ins(named, 0, point, 1);
    lemma_built_call(framed, 0, env.push_ref(), seq![id, frame]);
    lemma_built_stores(func, told, n);
}

proof fn lemma_built_block(env: CodeEnv, body: ClifBody, n: int)
    requires
        code_built(body, None),
        0 <= n < env.func().blocks.len(),
        !body.layout.contains(block_number(env.func(), n)),
        slots_fit(env.func(), body),
        blocks_fit(env.func(), body),
        refs_known(env, body.refs),
        block_ready(env, n),
        forall|i: int|
            0 <= i < env.func().args.len() ==> env.func().has_local(#[trigger] env.func().args[i]),
        n == key_pos(env.func().entrypoint.key) ==> body.values == 0
            && body.blocks[0].params.len() == 0,
        body.values <= MAX_PARAMS + body.insts,
        fits(block_code(env, body, n)),
    ensures
        code_built(block_code(env, body, n), None),
{
    reveal(block_code);
    reveal(block_ready);
    let func = env.func();
    let block = block_number(func, n);
    let placed = body.with_layout(block);
    lemma_built_layout(body, block);
    assert(placed.layout.last() == block);
    assert(placed.layout.contains(block));
    let inss = func.blocks[n].instructions;
    let begun = if n == key_pos(func.entrypoint.key) {
        lemma_entry_code(env, placed);
        entry_code(env, placed)
    } else {
        placed
    };
    lemma_inss_code(env, begun, block, inss, inss.len() as int);
    assert(inss.take(inss.len() as int) =~= inss);
    let run = inss_code(env, begun, block, inss);
    lemma_final_code(env, run, block, func.blocks[n].ins_final);
    if n == key_pos(func.entrypoint.key) {
        lemma_built_entry(env, placed);
    }
    lemma_built_inss(env, begun, block, inss);
    lemma_built_final(env, run, block, func.blocks[n].ins_final);
}

proof fn lemma_built_blocks(env: CodeEnv, refs: Seq<ClifRef>, n: nat)
    requires
        n <= env.func().blocks.len() < MAX_ENTITIES,
        env.func().locals.len() < MAX_ENTITIES,
        refs_known(env, refs),
        func_ready(env, refs),
    ensures
        code_built(blocks_code(env, frame_of(env, refs), n), None),
    decreases n,
{
    let frame = frame_of(env, refs);
    let func = env.func();
    if n == 0 {
        reveal(code_built);
    } else {
        let before = blocks_code(env, frame, (n - 1) as nat);
        let at = block_in_order(func, n - 1);
        lemma_built_blocks(env, refs, (n - 1) as nat);
        lemma_blocks_code(env, frame, (n - 1) as nat);
        lemma_blocks_code_front(env, frame, n, func.blocks.len());
        lemma_block_in_order(func, n - 1);
        assert forall|j: int| 0 <= j < n - 1 implies before.layout[j] != block_number(
            func,
            at,
        ) by {
            lemma_block_in_order(func, j);
        }
        assert(block_ready(env, at));
        lemma_built_block(env, before, at);
    }
}

/// The code of a function is well formed: every block that has its place ends with
/// its last instruction and not before, and every instruction names only values,
/// slots, blocks and functions that are there.
pub proof fn law_code_well_formed(env: CodeEnv, refs: Seq<ClifRef>, b: int, k: int)
    requires
        refs_known(env, refs),
        func_ready(env, refs),
        env.func().blocks.len() < MAX_ENTITIES,
        env.func().locals.len() < MAX_ENTITIES,
        0 <= b < func_code(env, refs).blocks.len(),
    ensures
        func_code(env, refs).layout.contains(b as u32) ==> block_closed(
            func_code(env, refs).blocks[b],
        ),
        0 <= k < func_code(env, refs).blocks[b].code.len() ==> ins_known(
            func_code(env, refs),
            func_code(env, refs).blocks[b].code[k],
        ),
{
    lemma_built_blocks(env, refs, env.func().blocks.len());
    reveal(code_built);
}

} // verus!

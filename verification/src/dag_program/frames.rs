//! What code tells the runtime of the frames that it runs in.

use super::code::{
    arg_types, bin_ins, block_code, block_in_order, block_number, block_ready, blocks_code,
    call_code, entry_code, final_code, final_ready, frame_of, func_code, func_ready, input_info,
    inss_code, law_blocks_placed, lemma_block_in_order, lemma_blocks_code, lemma_entry_code,
    lemma_inss_code, lemma_params_code, loads_code, operand_code, output_info, params_code,
    place_code, ref_results, refs_known, slot_of, slot_place_code, store_args_code, told_code,
    value_code, CodeEnv,
};
use super::codewf::is_end;
use super::{
    FinalModel, FuncModel, InsModel, LocalId, OperandModel, PlaceModel, Projection, TypeId,
    TypesModel, ValueModel,
};
use crate::clif::{value_run, ClifBody, ClifIns, ClifRef, ClifType, MAX_ENTITIES, MAX_PARAMS};
use crate::slots::key_pos;
use vstd::prelude::*;

verus! {

/// Whether an instruction calls that function.
pub open spec fn calls(ins: ClifIns, callee: u32) -> bool {
    ins matches ClifIns::Call { func, .. } && func == callee
}

/// Whether an instruction neither ends its block nor tells the runtime of a frame.
pub open spec fn is_silent(env: CodeEnv, ins: ClifIns) -> bool {
    !is_end(ins) && !calls(ins, env.push_ref()) && !calls(ins, env.pop_ref())
}

/// Whether `to` is `from` with silent instructions added to `block`.
#[verifier::opaque]
spec fn added(env: CodeEnv, from: ClifBody, to: ClifBody, block: u32) -> bool {
    &&& block < from.blocks.len()
    &&& to.blocks.len() == from.blocks.len()
    &&& forall|b: int|
        0 <= b < from.blocks.len() && b != block ==> (#[trigger] to.blocks[b]) == from.blocks[b]
    &&& from.blocks[block as int].code.len() <= to.blocks[block as int].code.len()
    &&& forall|k: int|
        0 <= k < from.blocks[block as int].code.len() ==> (
        #[trigger] to.blocks[block as int].code[k]) == from.blocks[block as int].code[k]
    &&& forall|k: int|
        from.blocks[block as int].code.len() <= k < to.blocks[block as int].code.len()
            ==> is_silent(env, #[trigger] to.blocks[block as int].code[k])
}

proof fn lemma_added_none(env: CodeEnv, body: ClifBody, block: u32)
    requires
        block < body.blocks.len(),
    ensures
        added(env, body, body, block),
{
    reveal(added);
}

/// One more silent instruction.
proof fn lemma_added_ins(
    env: CodeEnv,
    from: ClifBody,
    body: ClifBody,
    block: u32,
    ins: ClifIns,
    results: nat,
)
    requires
        added(env, from, body, block),
        is_silent(env, ins),
    ensures
        added(env, from, body.with_ins(block, ins, results), block),
{
    reveal(added);
    let to = body.with_ins(block, ins, results);
    let code = to.blocks[block as int].code;
    assert(code == body.blocks[block as int].code.push(ins));
    assert forall|k: int| 0 <= k < from.blocks[block as int].code.len() implies (#[trigger] code[k])
        == from.blocks[block as int].code[k] by {
        assert(code[k] == body.blocks[block as int].code[k]);
    }
    assert forall|k: int| from.blocks[block as int].code.len() <= k < code.len() implies is_silent(
        env,
        #[trigger] code[k],
    ) by {
        if k < body.blocks[block as int].code.len() {
            assert(code[k] == body.blocks[block as int].code[k]);
        }
    }
    assert forall|b: int| 0 <= b < from.blocks.len() && b != block implies (#[trigger] to.blocks[b])
        == from.blocks[b] by {
        assert(to.blocks[b] == body.blocks[b]);
    }
}

proof fn lemma_added_place(
    env: CodeEnv,
    from: ClifBody,
    types: TypesModel,
    body: ClifBody,
    block: u32,
    ty: TypeId,
    projs: Seq<Projection>,
    root: u32,
)
    requires
        added(env, from, body, block),
    ensures
        added(env, from, place_code(types, body, block, ty, projs, root).0, block),
    decreases projs.len(),
{
    if projs.len() > 0 {
        let (before, addr) = place_code(types, body, block, ty, projs.drop_last(), root);
        lemma_added_place(env, from, types, body, block, ty, projs.drop_last(), root);
        let res = before.next();
        match projs.last() {
            Projection::Deref => {
                lemma_added_ins(
                    env,
                    from,
                    before,
                    block,
                    ClifIns::Load { res, ty: ClifType::I64, addr, offset: 0 },
                    1,
                );
            },
            Projection::Field { field_idx } => {
                let shape = super::layouts::shape_of(
                    types,
                    super::code::struct_fields(types, ty, projs.drop_last()),
                )->0;
                let imm = shape.offsets[field_idx as int] as i64;
                lemma_added_ins(
                    env,
                    from,
                    before,
                    block,
                    ClifIns::IaddImm { res, x: addr, imm },
                    1,
                );
            },
            Projection::Index { .. } => {},
        }
    }
}

proof fn lemma_added_slot_place(
    env: CodeEnv,
    from: ClifBody,
    types: TypesModel,
    body: ClifBody,
    block: u32,
    place: PlaceModel,
)
    requires
        added(env, from, body, block),
    ensures
        added(env, from, slot_place_code(types, body, block, place).0, block),
{
    let root = body.next();
    let ins = ClifIns::StackAddr {
        res: root,
        ty: ClifType::I64,
        slot: slot_of(place.local),
        offset: 0,
    };
    lemma_added_ins(env, from, body, block, ins, 1);
    lemma_added_place(
        env,
        from,
        types,
        body.with_ins(block, ins, 1),
        block,
        place.local_ty,
        place.projs,
        root,
    );
}

proof fn lemma_added_operand(
    env: CodeEnv,
    from: ClifBody,
    types: TypesModel,
    body: ClifBody,
    block: u32,
    operand: OperandModel,
)
    requires
        added(env, from, body, block),
    ensures
        added(env, from, operand_code(types, body, block, operand).0, block),
{
    let res = body.next();
    match operand {
        OperandModel::Place(place) => {
            let (before, addr) = slot_place_code(types, body, block, place);
            lemma_added_slot_place(env, from, types, body, block, place);
            let ty = super::code::ssa_type(
                types,
                super::final_type(types, place.local_ty, place.projs)->0,
            )->0;
            lemma_added_ins(
                env,
                from,
                before,
                block,
                ClifIns::Load { res: before.next(), ty, addr, offset: 0 },
                1,
            );
        },
        OperandModel::ConstI32(imm) => {
            let imm = crate::clif::low_bits(ClifType::I32, imm as i64);
            lemma_added_ins(
                env,
                from,
                body,
                block,
                ClifIns::Iconst { res, ty: ClifType::I32, imm },
                1,
            );
        },
        OperandModel::ConstF32(bits) => {
            lemma_added_ins(env, from, body, block, ClifIns::F32const { res, bits }, 1);
        },
        OperandModel::ConstBool(imm) => {
            let imm: i64 = if imm {
                1
            } else {
                0
            };
            lemma_added_ins(
                env,
                from,
                body,
                block,
                ClifIns::Iconst { res, ty: ClifType::I8, imm },
                1,
            );
        },
    }
}

proof fn lemma_added_value(
    env: CodeEnv,
    from: ClifBody,
    types: TypesModel,
    body: ClifBody,
    block: u32,
    place: PlaceModel,
    value: ValueModel,
)
    requires
        added(env, from, body, block),
    ensures
        added(env, from, value_code(types, body, block, place, value).0, block),
{
    match value {
        ValueModel::Read(operand) => lemma_added_operand(env, from, types, body, block, operand),
        ValueModel::Ref(operand) => {
            if let OperandModel::Place(to) = operand {
                lemma_added_slot_place(env, from, types, body, block, to);
            }
        },
        ValueModel::BinOp(op, lhs, rhs) => {
            lemma_added_operand(env, from, types, body, block, lhs);
            let (left, x) = operand_code(types, body, block, lhs);
            lemma_added_operand(env, from, types, left, block, rhs);
            let (both, y) = operand_code(types, left, block, rhs);
            let made = bin_ins(
                op,
                input_info(types, lhs),
                output_info(types, place),
                both.next(),
                x,
                y,
            );
            if let Some(ins) = made {
                lemma_added_ins(env, from, both, block, ins, 1);
            }
        },
    }
}

/// A call of a function that is told of no frame is silent.
proof fn lemma_added_call(
    env: CodeEnv,
    from: ClifBody,
    body: ClifBody,
    block: u32,
    callee: u32,
    args: Seq<u32>,
)
    requires
        added(env, from, body, block),
        callee != env.push_ref(),
        callee != env.pop_ref(),
    ensures
        added(env, from, call_code(body, block, callee, args).0, block),
{
    let results = value_run(body.values, ref_results(body, callee));
    lemma_added_ins(
        env,
        from,
        body,
        block,
        ClifIns::Call { func: callee, args, results },
        ref_results(body, callee),
    );
}

proof fn lemma_added_inss(
    env: CodeEnv,
    from: ClifBody,
    body: ClifBody,
    block: u32,
    inss: Seq<InsModel>,
)
    requires
        added(env, from, body, block),
        env.program.functions.len() + 3 <= MAX_ENTITIES,
    ensures
        added(env, from, inss_code(env, body, block, inss), block),
    decreases inss.len(),
{
    if inss.len() > 0 {
        lemma_added_inss(env, from, body, block, inss.drop_last());
        let types = env.types();
        let before = inss_code(env, body, block, inss.drop_last());
        match inss.last() {
            InsModel::Assign { place, value } => {
                let (found, addr) = slot_place_code(types, before, block, place);
                lemma_added_slot_place(env, from, types, before, block, place);
                lemma_added_value(env, from, types, found, block, place, value);
                let (made, x) = value_code(types, found, block, place, value);
                lemma_added_ins(
                    env,
                    from,
                    made,
                    block,
                    ClifIns::Store { value: x, addr, offset: 0 },
                    0,
                );
            },
            InsModel::AllocGc { place } => {
                let (found, addr) = slot_place_code(types, before, block, place);
                lemma_added_slot_place(env, from, types, before, block, place);
                let ty = env.rt_types[output_info(types, place)->GcRef_0.key];
                let arg = found.next();
                let ins = ClifIns::Iconst { res: arg, ty: ClifType::I64, imm: ty as i64 };
                lemma_added_ins(env, from, found, block, ins, 1);
                let named = found.with_ins(block, ins, 1);
                lemma_added_call(env, from, named, block, env.alloc_ref(), seq![arg]);
                let (called, results) = call_code(named, block, env.alloc_ref(), seq![arg]);
                lemma_added_ins(
                    env,
                    from,
                    called,
                    block,
                    ClifIns::Store { value: results[0], addr, offset: 0 },
                    0,
                );
            },
        }
    }
}

proof fn lemma_added_loads(
    env: CodeEnv,
    from: ClifBody,
    body: ClifBody,
    block: u32,
    locals: Seq<LocalId>,
)
    requires
        added(env, from, body, block),
    ensures
        added(env, from, loads_code(env.types(), env.func(), body, block, locals).0, block),
    decreases locals.len(),
{
    if locals.len() > 0 {
        lemma_added_loads(env, from, body, block, locals.drop_last());
        let before = loads_code(env.types(), env.func(), body, block, locals.drop_last()).0;
        lemma_added_ins(
            env,
            from,
            before,
            block,
            ClifIns::StackLoad {
                res: before.next(),
                ty: super::code::ssa_type(env.types(), env.func().local(locals.last()))->0,
                slot: slot_of(locals.last()),
                offset: 0,
            },
            1,
        );
    }
}

/// The first `n` arguments go to their slots one after the other.
proof fn lemma_stores_seq(env: CodeEnv, body: ClifBody, n: nat)
    requires
        0 < body.blocks.len(),
        n <= env.func().args.len() <= MAX_PARAMS,
        body.blocks[0].params == Seq::new(env.func().args.len(), |i: int| i as u32),
    ensures
        ({
            let to = store_args_code(env.func(), body, n);
            &&& to.blocks.len() == body.blocks.len()
            &&& to.blocks[0].code == body.blocks[0].code + Seq::new(
                n,
                |i: int| store_of_arg(env, i),
            )
            &&& forall|b: int| 0 < b < body.blocks.len() ==> (#[trigger] to.blocks[b])
                == body.blocks[b]
        }),
    decreases n,
{
    let stores = Seq::new(n, |i: int| store_of_arg(env, i));
    if n > 0 {
        lemma_stores_seq(env, body, (n - 1) as nat);
        assert(stores =~= Seq::new((n - 1) as nat, |i: int| store_of_arg(env, i)).push(
            store_of_arg(env, n - 1),
        ));
        assert(store_args_code(env.func(), body, n).blocks[0].code =~= body.blocks[0].code
            + stores);
    } else {
        assert(body.blocks[0].code + stores =~= body.blocks[0].code);
    }
}

/// The instruction that puts an argument into its slot. The arguments are the first
/// values of the function.
pub open spec fn store_of_arg(env: CodeEnv, i: int) -> ClifIns {
    ClifIns::StackStore { value: i as u32, slot: slot_of(env.func().args[i]), offset: 0 }
}

/// Whether code begins by telling the runtime of the frame: it passes the number
/// of the function and the frame pointer. Only then do the arguments go to their
/// slots.
pub open spec fn begins_frame(env: CodeEnv, code: Seq<ClifIns>) -> bool {
    &&& code.len() >= 3 + env.func().args.len()
    &&& forall|i: int|
        3 <= i < 3 + env.func().args.len() ==> (#[trigger] code[i]) == store_of_arg(env, i - 3)
    &&& code[0] matches ClifIns::Iconst { res: id, ty, imm } && ty == ClifType::I64 && imm
        == env.rt_funcs[env.id.key] as i64 && {
        code[1] matches ClifIns::FramePointer { res: fp, .. } && {
            code[2] matches ClifIns::Call { func, args, .. } && func == env.push_ref() && args
                == seq![id, fp]
        }
    }
}

/// Where code that returns tells the runtime so: just before it loads the result,
/// if it has one, and returns.
pub open spec fn pop_place(code: Seq<ClifIns>) -> int {
    if code.len() >= 2 && code[code.len() - 2] is StackLoad {
        code.len() - 3
    } else {
        code.len() - 2
    }
}

/// Whether the code of a block tells the runtime of frames as it should: the block
/// to start with tells of the frame first of all, a block that returns tells of it
/// just before, and that is all.
pub open spec fn tells_frames(env: CodeEnv, code: Seq<ClifIns>, entry: bool) -> bool {
    &&& code.len() > 0
    &&& is_end(code.last())
    &&& entry ==> begins_frame(env, code)
    &&& forall|k: int|
        0 <= k < code.len() && calls(#[trigger] code[k], env.push_ref()) ==> entry && k == 2
    &&& code.last() is Return ==> {
        &&& 0 <= pop_place(code)
        &&& calls(code[pop_place(code)], env.pop_ref())
        &&& entry ==> pop_place(code) > 2
    }
    &&& forall|k: int|
        0 <= k < code.len() && calls(#[trigger] code[k], env.pop_ref()) ==> code.last() is Return
            && k == pop_place(code)
}

/// Whether the code of a block so far tells the runtime of nothing but, in the
/// block to start with, of the frame.
spec fn tells_begun(env: CodeEnv, code: Seq<ClifIns>, entry: bool) -> bool {
    &&& entry ==> begins_frame(env, code)
    &&& forall|k: int|
        0 <= k < code.len() ==> !is_end(#[trigger] code[k]) && !calls(code[k], env.pop_ref()) && (
        calls(code[k], env.push_ref()) ==> entry && k == 2)
}

/// Code that begins so does when more comes behind it.
proof fn lemma_begins_longer(env: CodeEnv, code: Seq<ClifIns>, longer: Seq<ClifIns>)
    requires
        begins_frame(env, code),
        code.len() <= longer.len(),
        forall|k: int| 0 <= k < code.len() ==> (#[trigger] longer[k]) == code[k],
    ensures
        begins_frame(env, longer),
{
    assert(longer[0] == code[0]);
    assert(longer[1] == code[1]);
    assert(longer[2] == code[2]);
    assert forall|i: int| 3 <= i < 3 + env.func().args.len() implies (#[trigger] longer[i])
        == store_of_arg(env, i - 3) by {
        assert(longer[i] == code[i]);
    }
}

/// Silent instructions tell nothing.
proof fn lemma_begun_added(env: CodeEnv, from: ClifBody, to: ClifBody, block: u32, entry: bool)
    requires
        added(env, from, to, block),
        tells_begun(env, from.blocks[block as int].code, entry),
    ensures
        tells_begun(env, to.blocks[block as int].code, entry),
        to.blocks.len() == from.blocks.len(),
        from.blocks[block as int].code.len() <= to.blocks[block as int].code.len(),
        forall|b: int|
            0 <= b < from.blocks.len() && b != block ==> (#[trigger] to.blocks[b])
                == from.blocks[b],
{
    reveal(added);
    let before = from.blocks[block as int].code;
    let code = to.blocks[block as int].code;
    assert forall|k: int| 0 <= k < code.len() implies !is_end(#[trigger] code[k]) && !calls(
        code[k],
        env.pop_ref(),
    ) && (calls(code[k], env.push_ref()) ==> entry && k == 2) by {
        if k < before.len() {
            assert(code[k] == before[k]);
        } else {
            assert(is_silent(env, code[k]));
        }
    }
    if entry {
        lemma_begins_longer(env, before, code);
    }
}

/// The end of a block tells the runtime that the function returns, if it does.
proof fn lemma_tells_final(env: CodeEnv, body: ClifBody, block: u32, end: FinalModel, entry: bool)
    requires
        block < body.blocks.len(),
        tells_begun(env, body.blocks[block as int].code, entry),
        refs_known(env, body.refs),
        final_ready(env, end),
    ensures
        ({
            let to = final_code(env, body, block, end);
            &&& to.blocks.len() == body.blocks.len()
            &&& forall|b: int|
                0 <= b < body.blocks.len() && b != block ==> (#[trigger] to.blocks[b])
                    == body.blocks[b]
            &&& tells_frames(env, to.blocks[block as int].code, entry)
            &&& to.blocks[block as int].code.last() is Return <==> end is Return
        }),
{
    let code = body.blocks[block as int].code;
    lemma_added_none(env, body, block);
    match end {
        FinalModel::Br { next } => {
            lemma_begun_added(env, body, body, block, entry);
            lemma_tells_end(
                env,
                body,
                block,
                ClifIns::Jump { to: block_number(env.func(), key_pos(next.key)) },
                entry,
            );
        },
        FinalModel::BrIf { cond, is_true, is_false } => {
            let res = body.next();
            let load = ClifIns::StackLoad {
                res,
                ty: ClifType::I8,
                slot: slot_of(cond),
                offset: 0,
            };
            lemma_added_ins(env, body, body, block, load, 1);
            let loaded = body.with_ins(block, load, 1);
            lemma_begun_added(env, body, loaded, block, entry);
            lemma_tells_end(
                env,
                loaded,
                block,
                ClifIns::Brif {
                    flag: res,
                    is_true: block_number(env.func(), key_pos(is_true.key)),
                    is_false: block_number(env.func(), key_pos(is_false.key)),
                },
                entry,
            );
        },
        FinalModel::Call { func: callee, args, store_ret, next } => {
            let number = key_pos(callee.key) as u32;
            lemma_added_loads(env, body, body, block, args);
            let (loaded, values) = loads_code(env.types(), env.func(), body, block, args);
            lemma_added_call(env, body, loaded, block, number, values);
            let (called, results) = call_code(loaded, block, number, values);
            let stored = match store_ret {
                Some(local) => {
                    let store = ClifIns::StackStore {
                        value: results[0],
                        slot: slot_of(local),
                        offset: 0,
                    };
                    lemma_added_ins(env, body, called, block, store, 0);
                    called.with_ins(block, store, 0)
                },
                None => called,
            };
            lemma_begun_added(env, body, stored, block, entry);
            lemma_tells_end(
                env,
                stored,
                block,
                ClifIns::Jump { to: block_number(env.func(), key_pos(next.key)) },
                entry,
            );
        },
        FinalModel::Return { value } => {
            let to = final_code(env, body, block, end);
            let all = to.blocks[block as int].code;
            let (popped, _) = call_code(body, block, env.pop_ref(), Seq::empty());
            let pop = popped.blocks[block as int].code.last();
            assert(popped.blocks[block as int].code =~= code.push(pop));
            match value {
                Some(local) => {
                    let load = ClifIns::StackLoad {
                        res: popped.next(),
                        ty: body.sig.returns[0],
                        slot: slot_of(local),
                        offset: 0,
                    };
                    let leave = ClifIns::Return { values: seq![popped.next()] };
                    assert(all =~= code.push(pop).push(load).push(leave));
                },
                None => {
                    let leave = ClifIns::Return { values: Seq::empty() };
                    assert(all =~= code.push(pop).push(leave));
                },
            }
            assert(pop_place(all) == code.len());
            assert forall|k: int| 0 <= k < code.len() implies #[trigger] all[k] == code[k] by {}
            assert forall|k: int| 0 <= k < all.len() && calls(#[trigger] all[k], env.push_ref())
                implies entry && k == 2 by {
                if k < code.len() {
                    assert(calls(code[k], env.push_ref()));
                }
            }
            assert forall|k: int| 0 <= k < all.len() && calls(#[trigger] all[k], env.pop_ref())
                implies k == code.len() by {
                if k < code.len() {
                    assert(!calls(code[k], env.pop_ref()));
                }
            }
            if entry {
                lemma_begins_longer(env, code, all);
            }
        },
    }
}

/// A block that goes on with another one tells the runtime of nothing at its end.
proof fn lemma_tells_end(env: CodeEnv, body: ClifBody, block: u32, ins: ClifIns, entry: bool)
    requires
        block < body.blocks.len(),
        tells_begun(env, body.blocks[block as int].code, entry),
        is_end(ins),
        !(ins is Return),
    ensures
        tells_frames(env, body.with_ins(block, ins, 0).blocks[block as int].code, entry),
        body.with_ins(block, ins, 0).blocks[block as int].code.last() == ins,
        forall|b: int|
            0 <= b < body.blocks.len() && b != block ==> (#[trigger] body.with_ins(
                block,
                ins,
                0,
            ).blocks[b]) == body.blocks[b],
{
    let code = body.blocks[block as int].code;
    let all = body.with_ins(block, ins, 0).blocks[block as int].code;
    assert(all =~= code.push(ins));
    assert forall|k: int| 0 <= k < all.len() && calls(#[trigger] all[k], env.push_ref())
        implies entry && k == 2 by {
        assert(all[k] == code[k]);
    }
    assert forall|k: int| 0 <= k < all.len() implies !calls(#[trigger] all[k], env.pop_ref()) by {
        if k < code.len() {
            assert(all[k] == code[k]);
        }
    }
    if entry {
        lemma_begins_longer(env, code, all);
    }
}

/// Parameters are no instructions.
proof fn lemma_params_silent(body: ClifBody, tys: Seq<ClifType>, n: nat)
    requires
        0 < body.blocks.len(),
    ensures
        ({
            let to = params_code(body, tys, n);
            &&& to.blocks.len() == body.blocks.len()
            &&& to.blocks[0].code == body.blocks[0].code
            &&& forall|b: int| 0 < b < body.blocks.len() ==> (#[trigger] to.blocks[b])
                == body.blocks[b]
        }),
    decreases n,
{
    if n > 0 {
        lemma_params_silent(body, tys, (n - 1) as nat);
    }
}

/// The block to start with begins by telling the runtime of the frame.
proof fn lemma_tells_entry(env: CodeEnv, body: ClifBody)
    requires
        0 < body.blocks.len(),
        body.blocks[0].code.len() == 0,
        body.blocks[0].params.len() == 0,
        body.values == 0,
        env.func().args.len() <= MAX_PARAMS,
        refs_known(env, body.refs),
    ensures
        ({
            let to = entry_code(env, body);
            &&& to.blocks.len() == body.blocks.len()
            &&& tells_begun(env, to.blocks[0].code, true)
            &&& to.blocks[0].code.len() >= 3
            &&& forall|b: int| 0 < b < body.blocks.len() ==> (#[trigger] to.blocks[b])
                == body.blocks[b]
        }),
{
    let n = env.func().args.len();
    let tys = arg_types(env.types(), env.func());
    let taken = params_code(body, tys, n);
    lemma_params_silent(body, tys, n);
    lemma_params_code(body, tys, n);
    let told = told_code(env, taken);
    let id = taken.next();
    let fp = (taken.values + 1) as u32;
    let code = told.blocks[0].code;
    assert(code =~= seq![
        ClifIns::Iconst { res: id, ty: ClifType::I64, imm: env.rt_funcs[env.id.key] as i64 },
        ClifIns::FramePointer { res: fp, ty: ClifType::I64 },
        ClifIns::Call {
            func: env.push_ref(),
            args: seq![id, fp],
            results: value_run((taken.values + 2) as nat, ref_results(taken, env.push_ref())),
        },
    ]);
    lemma_stores_seq(env, told, n);
    let all = store_args_code(env.func(), told, n).blocks[0].code;
    assert(all[0] == code[0] && all[1] == code[1] && all[2] == code[2]);
    assert forall|k: int| 3 <= k < all.len() implies (#[trigger] all[k]) == store_of_arg(
        env,
        k - 3,
    ) by {}
    assert(begins_frame(env, all));
    assert forall|k: int| 0 <= k < all.len() implies !is_end(#[trigger] all[k]) && !calls(
        all[k],
        env.pop_ref(),
    ) && (calls(all[k], env.push_ref()) ==> k == 2) by {
        if k >= 3 {
            assert(all[k] == store_of_arg(env, k - 3));
        }
    }
}

pub proof fn lemma_tells_block(env: CodeEnv, body: ClifBody, n: int)
    requires
        0 <= n < env.func().blocks.len(),
        block_number(env.func(), n) < body.blocks.len(),
        body.blocks[block_number(env.func(), n) as int].code.len() == 0,
        refs_known(env, body.refs),
        block_ready(env, n),
        n == key_pos(env.func().entrypoint.key) ==> body.values == 0
            && body.blocks[0].params.len() == 0,
    ensures
        ({
            let block = block_number(env.func(), n);
            let to = block_code(env, body, n);
            &&& to.blocks.len() == body.blocks.len()
            &&& tells_frames(
                env,
                to.blocks[block as int].code,
                n == key_pos(env.func().entrypoint.key),
            )
            &&& to.blocks[block as int].code.last() is Return
                <==> env.func().blocks[n].ins_final is Return
            &&& forall|b: int|
                0 <= b < body.blocks.len() && b != block ==> (#[trigger] to.blocks[b])
                    == body.blocks[b]
        }),
{
    reveal(block_code);
    reveal(block_ready);
    let func = env.func();
    let block = block_number(func, n);
    let entry = n == key_pos(func.entrypoint.key);
    let placed = body.with_layout(block);
    let begun = if entry {
        lemma_tells_entry(env, placed);
        lemma_entry_code(env, placed);
        entry_code(env, placed)
    } else {
        placed
    };
    let inss = func.blocks[n].instructions;
    let run = inss_code(env, begun, block, inss);
    lemma_added_none(env, begun, block);
    lemma_added_inss(env, begun, begun, block, inss);
    lemma_begun_added(env, begun, run, block, entry);
    lemma_inss_code(env, begun, block, inss, inss.len() as int);
    assert(inss.take(inss.len() as int) =~= inss);
    lemma_tells_final(env, run, block, func.blocks[n].ins_final, entry);
}

/// Whether the first `m` blocks of the code, in their order, tell the runtime of
/// frames as they should, and the others have no code.
pub open spec fn tells_so_far(env: CodeEnv, body: ClifBody, m: int) -> bool {
    &&& forall|j: int|
        #![trigger block_in_order(env.func(), j)]
        0 <= j < m ==> {
            let n = block_in_order(env.func(), j);
            let code = body.blocks[block_number(env.func(), n) as int].code;
            &&& tells_frames(env, code, n == key_pos(env.func().entrypoint.key))
            &&& code.last() is Return <==> env.func().blocks[n].ins_final is Return
        }
    &&& forall|j: int|
        #![trigger block_in_order(env.func(), j)]
        m <= j < env.func().blocks.len() ==> body.blocks[block_number(
            env.func(),
            block_in_order(env.func(), j),
        ) as int].code.len() == 0
}

pub proof fn lemma_tells_blocks(env: CodeEnv, refs: Seq<ClifRef>, m: nat)
    requires
        m <= env.func().blocks.len() < MAX_ENTITIES,
        refs_known(env, refs),
        func_ready(env, refs),
    ensures
        tells_so_far(env, blocks_code(env, frame_of(env, refs), m), m as int),
    decreases m,
{
    let frame = frame_of(env, refs);
    let func = env.func();
    if m == 0 {
        assert forall|j: int|
            #![trigger block_in_order(func, j)]
            0 <= j < func.blocks.len() implies frame.blocks[block_number(
            func,
            block_in_order(func, j),
        ) as int].code.len() == 0 by {
            lemma_block_in_order(func, j);
        }
    } else {
        let before = blocks_code(env, frame, (m - 1) as nat);
        let after = blocks_code(env, frame, m);
        let at = block_in_order(func, m - 1);
        lemma_tells_blocks(env, refs, (m - 1) as nat);
        lemma_blocks_code(env, frame, (m - 1) as nat);
        lemma_block_in_order(func, m - 1);
        assert(block_ready(env, at));
        lemma_tells_block(env, before, at);
        assert forall|j: int|
            #![trigger block_in_order(func, j)]
            0 <= j < func.blocks.len() && j != m - 1 implies after.blocks[block_number(
            func,
            block_in_order(func, j),
        ) as int] == before.blocks[block_number(func, block_in_order(func, j)) as int] by {
            lemma_block_in_order(func, j);
        }
    }
}

/// The code of each block of a function tells the runtime of frames as it should:
/// the block to start with tells of the frame first of all, a block that returns
/// tells of it just before, and there are no other calls of that kind.
pub proof fn law_blocks_tell_frames(env: CodeEnv, refs: Seq<ClifRef>, n: int)
    requires
        refs_known(env, refs),
        func_ready(env, refs),
        env.func().blocks.len() < MAX_ENTITIES,
        0 <= n < env.func().blocks.len(),
    ensures
        ({
            let code = func_code(env, refs).blocks[block_number(env.func(), n) as int].code;
            &&& tells_frames(env, code, n == key_pos(env.func().entrypoint.key))
            &&& code.last() is Return <==> env.func().blocks[n].ins_final is Return
        }),
{
    let func = env.func();
    lemma_tells_blocks(env, refs, func.blocks.len());
    let j = if func.has_block(func.entrypoint) && n < key_pos(func.entrypoint.key) {
        n + 1
    } else if n == key_pos(func.entrypoint.key) {
        0
    } else {
        n
    };
    assert(block_in_order(func, j) == n);
}

/// Whether an instruction goes on with that block.
pub open spec fn leads_to(ins: ClifIns, block: u32) -> bool {
    match ins {
        ClifIns::Jump { to } => to == block,
        ClifIns::Brif { is_true, is_false, .. } => is_true == block || is_false == block,
        _ => false,
    }
}

/// What the block ends with.
pub open spec fn end_of(body: ClifBody, block: u32) -> ClifIns {
    body.blocks[block as int].code.last()
}

/// Whether a run goes through those blocks, one after the other, from the start of
/// the function.
pub open spec fn is_run(body: ClifBody, path: Seq<u32>) -> bool {
    &&& path.len() > 0
    &&& path[0] == 0
    &&& forall|i: int| 0 <= i < path.len() ==> (#[trigger] path[i]) < body.blocks.len()
    &&& forall|i: int|
        0 < i < path.len() ==> leads_to(end_of(body, path[i - 1]), #[trigger] path[i])
}

/// The instructions that a run through those blocks executes.
pub open spec fn run_code(body: ClifBody, path: Seq<u32>) -> Seq<ClifIns>
    decreases path.len(),
{
    if path.len() == 0 {
        Seq::empty()
    } else {
        run_code(body, path.drop_last()) + body.blocks[path.last() as int].code
    }
}

/// Whether no block goes on with the one to start with.
pub open spec fn never_back(body: ClifBody) -> bool {
    forall|b: int|
        0 <= b < body.blocks.len() ==> !leads_to((#[trigger] body.blocks[b]).code.last(), 0)
}

/// A block of the code is one of the function.
proof fn lemma_block_of_number(func: FuncModel, b: u32)
    requires
        func.has_block(func.entrypoint),
        b < func.blocks.len() < MAX_ENTITIES,
    ensures
        0 <= block_in_order(func, b as int) < func.blocks.len(),
        block_number(func, block_in_order(func, b as int)) == b,
        block_in_order(func, b as int) == key_pos(func.entrypoint.key) <==> b == 0,
{
    lemma_block_in_order(func, b as int);
}

/// A run that has not returned has told the runtime of its frame, first of all, and
/// of nothing else.
proof fn lemma_run_tells(env: CodeEnv, refs: Seq<ClifRef>, path: Seq<u32>)
    requires
        refs_known(env, refs),
        func_ready(env, refs),
        env.func().blocks.len() < MAX_ENTITIES,
        env.func().has_block(env.func().entrypoint),
        never_back(func_code(env, refs)),
        is_run(func_code(env, refs), path),
    ensures
        ({
            let body = func_code(env, refs);
            let code = run_code(body, path);
            &&& begins_frame(env, code)
            &&& forall|k: int|
                0 <= k < code.len() && calls(#[trigger] code[k], env.push_ref()) ==> k == 2
            &&& !(end_of(body, path.last()) is Return) ==> forall|k: int|
                0 <= k < code.len() ==> !calls(#[trigger] code[k], env.pop_ref())
            &&& end_of(body, path.last()) is Return ==> {
                let last = body.blocks[path.last() as int].code;
                let at = code.len() - last.len() + pop_place(last);
                &&& 2 < at < code.len()
                &&& calls(code[at], env.pop_ref())
                &&& forall|k: int|
                    0 <= k < code.len() && calls(#[trigger] code[k], env.pop_ref()) ==> k == at
                &&& forall|k: int| at < k < code.len() ==> !((#[trigger] code[k]) is Call)
            }
        }),
    decreases path.len(),
{
    let body = func_code(env, refs);
    let func = env.func();
    law_blocks_placed(env, refs);
    let b = path.last();
    assert(path[path.len() - 1] == b);
    lemma_block_of_number(func, b);
    law_blocks_tell_frames(env, refs, block_in_order(func, b as int));
    let last = body.blocks[b as int].code;
    let front = path.drop_last();
    let before = run_code(body, front);
    let code = run_code(body, path);
    assert(forall|k: int| 0 <= k < last.len() ==> #[trigger] code[before.len() + k] == last[k]);
    if path.len() == 1 {
        assert(before =~= Seq::empty());
        assert(code =~= last);
    } else {
        assert(is_run(body, front)) by {
            assert forall|i: int| 0 < i < front.len() implies leads_to(
                end_of(body, front[i - 1]),
                #[trigger] front[i],
            ) by {
                assert(leads_to(end_of(body, path[i - 1]), path[i]));
            }
            assert forall|i: int| 0 <= i < front.len() implies (#[trigger] front[i])
                < body.blocks.len() by {
                assert(path[i] < body.blocks.len());
            }
        }
        lemma_run_tells(env, refs, front);
        assert(leads_to(end_of(body, path[path.len() - 2]), path[path.len() - 1]));
        assert(front.last() == path[path.len() - 2]);
        assert(path[path.len() - 2] < body.blocks.len());
        assert(!leads_to(body.blocks[front.last() as int].code.last(), 0));
        assert(b != 0);
        lemma_begins_longer(env, before, code);
    }
    assert forall|k: int| 0 <= k < code.len() && calls(#[trigger] code[k], env.push_ref())
        implies k == 2 by {
        if k < before.len() {
            assert(code[k] == before[k]);
        } else {
            assert(code[k] == last[k - before.len()]);
        }
    }
    assert forall|k: int| 0 <= k < code.len() && calls(#[trigger] code[k], env.pop_ref())
        implies end_of(body, b) is Return && k == before.len() + pop_place(last) by {
        if k < before.len() {
            assert(code[k] == before[k]);
        } else {
            assert(code[k] == last[k - before.len()]);
        }
    }
    if end_of(body, b) is Return {
        let at = before.len() + pop_place(last);
        assert(code[at] == last[pop_place(last)]);
        assert forall|k: int| at < k < code.len() implies !((#[trigger] code[k]) is Call) by {
            assert(code[k] == last[k - before.len()]);
        }
    }
}

/// Every run of a function whose block to start with is not gone back to tells the
/// runtime of its frame once, first of all, with the number of the function and the
/// frame pointer; then the arguments go to their slots. A run that returns tells the
/// runtime so once, after all its other calls.
pub proof fn law_runs_tell_frames(env: CodeEnv, refs: Seq<ClifRef>, path: Seq<u32>)
    requires
        refs_known(env, refs),
        func_ready(env, refs),
        env.func().blocks.len() < MAX_ENTITIES,
        env.func().has_block(env.func().entrypoint),
        never_back(func_code(env, refs)),
        is_run(func_code(env, refs), path),
    ensures
        ({
            let body = func_code(env, refs);
            let code = run_code(body, path);
            &&& begins_frame(env, code)
            &&& forall|k: int|
                0 <= k < code.len() ==> (calls(#[trigger] code[k], env.push_ref()) <==> k == 2)
            &&& !(end_of(body, path.last()) is Return) ==> forall|k: int|
                0 <= k < code.len() ==> !calls(#[trigger] code[k], env.pop_ref())
            &&& end_of(body, path.last()) is Return ==> exists|at: int|
                2 < at < code.len() && #[trigger] last_pop(env, code, at)
        }),
{
    lemma_run_tells(env, refs, path);
    let body = func_code(env, refs);
    let code = run_code(body, path);
    if end_of(body, path.last()) is Return {
        let last = body.blocks[path.last() as int].code;
        let at = code.len() - last.len() + pop_place(last);
        assert(last_pop(env, code, at));
    }
}

/// Whether the one call that tells the runtime of a return is at that place, and no
/// call comes after it.
pub open spec fn last_pop(env: CodeEnv, code: Seq<ClifIns>, at: int) -> bool {
    &&& forall|k: int|
        0 <= k < code.len() ==> (calls(#[trigger] code[k], env.pop_ref()) <==> k == at)
    &&& forall|k: int| at < k < code.len() ==> !((#[trigger] code[k]) is Call)
}

} // verus!

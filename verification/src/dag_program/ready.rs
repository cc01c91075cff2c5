//! What code can be made for.

use super::code::{
    block_ready, ins_ready, operand_ready, place_ready, sig_ready, slot_place_ready, ssa_type,
    CodeEnv,
};
use super::compile::{all_laid_out, sig_passes};
use super::layouts::{layout_of, lemma_layout_of_struct};
use super::meaning::{
    fit_along, is_test, kind_of, law_layouts_of_primitives, law_type_along, read_whole, size_of,
    type_along,
};
use super::{
    final_type, operand_type, BinOp, FinalModel, FuncModel, InsModel, LocalId, OperandModel,
    PlaceModel, Projection, TypeId, TypeModel, TypesModel, ValueModel,
};
use crate::clif::{ClifType, MAX_PARAMS};
use crate::slots::key_pos;
use vstd::prelude::*;

verus! {

/// Whether values of the type fit into one machine value: numbers, bools and references
/// do, and structs of 1, 2, 4, 8 or 16 bytes.
pub open spec fn fits_word(types: TypesModel, ty: TypeId) -> bool {
    let size = size_of(types, ty);
    types.contains(ty) && layout_of(types, types.info(ty)) is Some && (size == 1 || size == 2
        || size == 4 || size == 8 || size == 16)
}

/// A type has a machine type where its values fit into one machine value.
pub proof fn law_machine_type(types: TypesModel, ty: TypeId)
    ensures
        read_whole(types, ty) ==> (ssa_type(types, ty) is Some <==> fits_word(types, ty)),
        fits_word(types, ty) ==> (ssa_type(types, ty) == Some(ClifType::I128) <==> size_of(
            types,
            ty,
        ) == 16),
{
    law_layouts_of_primitives(types, types.info(ty)->Ref_0);
    law_layouts_of_primitives(types, types.info(ty)->GcRef_0);
    if let TypeModel::Struct(fields) = types.info(ty) {
        lemma_layout_of_struct(types, fields);
    }
}

/// Where all types have layouts, every place is found whose projections fit the types.
pub proof fn law_fitting_place_is_found(types: TypesModel, ty: TypeId, projs: Seq<Projection>)
    requires
        all_laid_out(types),
        final_type(types, ty, projs) is Some,
    ensures
        place_ready(types, ty, projs),
    decreases projs.len(),
{
    if projs.len() > 0 {
        let front = projs.drop_last();
        law_fitting_place_is_found(types, ty, front);
        let at = final_type(types, ty, front)->0;
        if let TypeModel::Struct(fields) = types.info(at) {
            assert(layout_of(types, types.infos[key_pos(at.key)]) is Some);
            lemma_layout_of_struct(types, fields);
        }
    }
}

/// Whether a place lies in a local of the function and its projections fit.
pub open spec fn place_fits(types: TypesModel, func: FuncModel, place: PlaceModel) -> bool {
    func.has_local(place.local) && fit_along(types, place.local_ty, place.projs)
}

/// Whether an operand is a constant, or in a place that fits and fits into a machine
/// value.
pub open spec fn operand_fits(types: TypesModel, func: FuncModel, operand: OperandModel) -> bool {
    operand matches OperandModel::Place(place) ==> place_fits(types, func, place) && fits_word(
        types,
        type_along(types, place.local_ty, place.projs),
    )
}

/// Whether an operation can be done on values of that kind: every one on numbers, and
/// bools can be compared for being equal.
pub open spec fn can_do(op: BinOp, kind: TypeModel) -> bool {
    ||| kind is PrimI32
    ||| kind is PrimF32
    ||| kind is PrimBool && op == BinOp::Eq
}

/// Whether an instruction fits: what it names is there, and it does what its types allow.
pub open spec fn ins_fits(env: CodeEnv, ins: InsModel) -> bool {
    let types = env.types();
    let func = env.func();
    match ins {
        InsModel::Assign { place, value } => {
            &&& place_fits(types, func, place)
            &&& match value {
                ValueModel::Read(operand) => operand_fits(types, func, operand),
                ValueModel::Ref(operand) => operand matches OperandModel::Place(to) && place_fits(
                    types,
                    func,
                    to,
                ),
                ValueModel::BinOp(op, lhs, rhs) => {
                    let target = type_along(types, place.local_ty, place.projs);
                    &&& operand_fits(types, func, lhs)
                    &&& operand_fits(types, func, rhs)
                    &&& can_do(op, kind_of(types, lhs))
                    &&& types.contains(target)
                    &&& types.info(target) == if is_test(op) {
                        TypeModel::PrimBool
                    } else {
                        kind_of(types, lhs)
                    }
                },
            }
        },
        InsModel::AllocGc { place } => {
            let target = type_along(types, place.local_ty, place.projs);
            &&& place_fits(types, func, place)
            &&& types.contains(target)
            &&& types.info(target) matches TypeModel::GcRef(to) && env.rt_types.contains_key(to.key)
        },
    }
}

proof fn lemma_place_fits(types: TypesModel, func: FuncModel, place: PlaceModel)
    requires
        all_laid_out(types),
        place_fits(types, func, place),
    ensures
        slot_place_ready(types, func, place),
        final_type(types, place.local_ty, place.projs) == Some(
            type_along(types, place.local_ty, place.projs),
        ),
{
    law_type_along(types, place.local_ty, place.projs);
    law_fitting_place_is_found(types, place.local_ty, place.projs);
}

proof fn lemma_operand_fits(types: TypesModel, func: FuncModel, operand: OperandModel)
    requires
        all_laid_out(types),
        types.prims_right(),
        operand_fits(types, func, operand),
    ensures
        operand_ready(types, func, operand),
        operand_type(types, operand) is Some,
        types.contains(operand_type(types, operand)->0),
        types.info(operand_type(types, operand)->0) == kind_of(types, operand),
{
    match operand {
        OperandModel::Place(place) => {
            lemma_place_fits(types, func, place);
            let ty = type_along(types, place.local_ty, place.projs);
            law_machine_type(types, ty);
        },
        _ => {},
    }
}

/// There is code for every instruction that fits.
pub proof fn law_fitting_instruction_has_code(env: CodeEnv, ins: InsModel)
    requires
        all_laid_out(env.types()),
        env.types().prims_right(),
        ins_fits(env, ins),
    ensures
        ins_ready(env, ins),
{
    let types = env.types();
    let func = env.func();
    match ins {
        InsModel::Assign { place, value } => {
            lemma_place_fits(types, func, place);
            match value {
                ValueModel::Read(operand) => lemma_operand_fits(types, func, operand),
                ValueModel::Ref(operand) => lemma_place_fits(types, func, operand->Place_0),
                ValueModel::BinOp(op, lhs, rhs) => {
                    lemma_operand_fits(types, func, lhs);
                    lemma_operand_fits(types, func, rhs);
                },
            }
        },
        InsModel::AllocGc { place } => {
            lemma_place_fits(types, func, place);
        },
    }
}

/// Whether a local is there and fits into a machine value.
pub open spec fn local_fits(types: TypesModel, func: FuncModel, local: LocalId) -> bool {
    func.has_local(local) && fits_word(types, func.local(local))
}

/// Whether the end of a block fits: what it names is there, a branch goes by a bool, and
/// a result is taken or given only where there is one.
pub open spec fn end_fits(env: CodeEnv, end: FinalModel) -> bool {
    let types = env.types();
    let func = env.func();
    match end {
        FinalModel::Br { next } => func.has_block(next),
        FinalModel::BrIf { cond, is_true, is_false } => {
            &&& local_fits(types, func, cond)
            &&& types.info(func.local(cond)) is PrimBool
            &&& func.has_block(is_true)
            &&& func.has_block(is_false)
        },
        FinalModel::Call { func: callee, args, store_ret, next } => {
            &&& forall|i: int|
                0 <= i < args.len() ==> local_fits(types, func, #[trigger] args[i])
            &&& env.program.has_func(callee)
            &&& store_ret matches Some(local) ==> func.has_local(local) && env.program.func(
                callee,
            ).return_type is Some
            &&& func.has_block(next)
        },
        FinalModel::Return { value } => {
            value matches Some(local) ==> func.has_local(local) && func.return_type is Some
        },
    }
}

/// There is code for every block that fits.
pub proof fn law_fitting_block_has_code(env: CodeEnv, n: int)
    requires
        all_laid_out(env.types()),
        env.types().prims_right(),
        env.func().args.len() <= MAX_PARAMS,
        env.rt_funcs.contains_key(env.id.key),
        forall|i: int|
            0 <= i < env.func().blocks[n].instructions.len() ==> ins_fits(
                env,
                #[trigger] env.func().blocks[n].instructions[i],
            ),
        end_fits(env, env.func().blocks[n].ins_final),
    ensures
        block_ready(env, n),
{
    reveal(block_ready);
    let block = env.func().blocks[n];
    assert forall|i: int| 0 <= i < block.instructions.len() implies ins_ready(
        env,
        #[trigger] block.instructions[i],
    ) by {
        law_fitting_instruction_has_code(env, block.instructions[i]);
    }
    if let FinalModel::Call { args, .. } = block.ins_final {
        assert forall|i: int| 0 <= i < args.len() implies env.func().has_local(#[trigger] args[i])
            && ssa_type(env.types(), env.func().local(args[i])) is Some by {
            assert(local_fits(env.types(), env.func(), args[i]));
            law_machine_type(env.types(), env.func().local(args[i]));
        }
    }
}

/// A function whose arguments and result fit into machine values of at most 8 bytes can
/// be called, unless it has too many of them.
pub proof fn law_fitting_signature_passes(types: TypesModel, func: FuncModel)
    requires
        func.args.len() <= MAX_PARAMS,
        forall|i: int|
            0 <= i < func.args.len() ==> local_fits(types, func, #[trigger] func.args[i])
                && size_of(types, func.local(func.args[i])) <= 8,
        func.return_type matches Some(ty) ==> fits_word(types, ty) && size_of(types, ty) <= 8,
    ensures
        sig_passes(types, func),
{
    assert forall|i: int| 0 <= i < func.args.len() implies func.has_local(#[trigger] func.args[i])
        && ssa_type(types, func.local(func.args[i])) is Some && ssa_type(
        types,
        func.local(func.args[i]),
    ) != Some(ClifType::I128) by {
        assert(local_fits(types, func, func.args[i]));
        law_machine_type(types, func.local(func.args[i]));
    }
    if let Some(ty) = func.return_type {
        law_machine_type(types, ty);
    }
    assert(sig_ready(types, func));
}

} // verus!

//! Lowering of programs to machine code.

pub use super::compile::{compile_program, CompileError, CompiledProgram};

use super::code::{
    align_shift, arg_types, bin_ins, block_code, block_in_order, block_number, block_ready,
    blocks_code, blocks_done, can_emit, entry_code, final_code, final_ready, fits, frame_of,
    func_code, func_ready, func_sig, grown, ins_code, ins_ready, inss_code, lemma_block_code,
    lemma_block_in_order, lemma_blocks_code_front, lemma_entry_code, lemma_final_code,
    lemma_ins_code, lemma_inss_code, lemma_loads_code, lemma_operand_code, lemma_params_code,
    lemma_place_code, lemma_place_code_front, lemma_place_ready, lemma_slot_place_code,
    lemma_store_args_code, lemma_told_code, lemma_value_code, loads_code, loads_ready, local_slots,
    operand_code, operand_ready, params_code, place_code, place_ready, refs_known, root_slots,
    sig_ready, slot_of, slot_place_code, slot_place_ready, slot_roots, ssa_type, store_args_code,
    told_code, value_code, value_ready, CodeEnv, GcRoot,
};
use super::layouts::{
    all_layouts, known_align, law_fields_apart, law_layout_valid, layout_of, lemma_layout_of_struct,
};
use super::roots::locals_ready;
use super::{
    final_type, BasicBlockId, BinOp, BlockModel, Func, FuncId, Ins, InsFinal, LocalId, Operand,
    PlaceExpr, Program, ProgramModel, Projection, TypeId, TypeInfo, ValueExpr,
};
use crate::clif::{
    body_of, checks_code, data_of, decls_of, defs_of, frames_of, func_append_block,
    func_append_param, func_create_slot, func_make_block, func_new, func_num_insts, ins_brif,
    ins_call, ins_f32const, ins_fadd, ins_fcmp, ins_fdiv, ins_fmul, ins_fsub, ins_get_frame_pointer,
    ins_iadd, ins_iadd_imm, ins_icmp, ins_iconst, ins_imul, ins_isub, ins_jump, ins_load,
    ins_return, ins_sdiv, ins_stack_addr, ins_stack_load, ins_stack_store, ins_store,
    int_with_byte_size, module_declare_func_in_func, sig_new, sig_of, sig_push_param,
    sig_push_return, ClifBlock, ClifBody, ClifCallConv, ClifCond, ClifDecl, ClifRef, ClifSig,
    ClifType, MAX_ENTITIES, MAX_INSTS, MAX_PARAMS,
};
use crate::layout::Layout;
use crate::slots::{key_pos, KeyMap, MAX_SLOTS};
use cranelift::codegen::ir::{Function, Signature};
use cranelift_jit::JITModule;
use vstd::prelude::*;

verus! {

/// The layout of a type, out of the layouts of all types.
pub(crate) fn layout_in_table(program: &Program, layouts: &Vec<Option<Layout>>, ty: TypeId) -> (layout: Option<
    Layout,
>)
    requires
        program.wf(),
        layouts@ == all_layouts(program@.types),
    ensures
        layout == (if program@.types.contains(ty) {
            layout_of(program@.types, program@.types.info(ty))
        } else {
            None
        }),
{
    match program.types.position(ty) {
        Some(at) => layouts[at],
        None => None,
    }
}

/// The machine type of values of a type, where there is one.
pub(crate) fn translate_ssa_type(program: &Program, layouts: &Vec<Option<Layout>>, ty: TypeId) -> (cf_ty:
    Option<ClifType>)
    requires
        program.wf(),
        layouts@ == all_layouts(program@.types),
    ensures
        cf_ty == ssa_type(program@.types, ty),
{
    match program.types.get_info(ty) {
        Some(TypeInfo::PrimI32) => Some(ClifType::I32),
        Some(TypeInfo::PrimI64) => Some(ClifType::I64),
        Some(TypeInfo::PrimF32) => Some(ClifType::F32),
        Some(TypeInfo::PrimBool) => Some(ClifType::I8),
        Some(TypeInfo::Ref(_)) => Some(ClifType::I64),
        Some(TypeInfo::GcRef(_)) => Some(ClifType::I64),
        Some(TypeInfo::Struct(info)) => {
            proof {
                lemma_layout_of_struct(program@.types, info.fields@);
            }
            match layout_in_table(program, layouts, ty) {
                Some(layout) => int_with_byte_size(layout.size as u16),
                None => None,
            }
        },
        None => None,
    }
}

/// Whether the function can get one more instruction.
fn has_room(code: &Function) -> (room: bool)
    ensures
        room == (body_of(*code).insts < MAX_INSTS),
{
    func_num_insts(code) < MAX_INSTS as usize
}

/// The address of a place, found by code added to `block`. `None` where the
/// place does not lead anywhere or the code gets too long.
/// * `root_ptr`: a value that is the address of the root struct of this place
fn cf_get_pointer_to_place_from_root_ptr(
    code: &mut Function,
    block: u32,
    program: &Program,
    layouts: &Vec<Option<Layout>>,
    place: &PlaceExpr,
    root_ptr: u32,
) -> (ptr: Option<u32>)
    requires
        program.wf(),
        layouts@ == all_layouts(program@.types),
        can_emit(body_of(*old(code)), block),
        root_ptr < body_of(*old(code)).values,
    ensures
        ({
            let (found, addr) = place_code(
                program@.types,
                body_of(*old(code)),
                block,
                place.local_ty,
                place.projs@,
                root_ptr,
            );
            &&& ptr is Some <==> place_ready(program@.types, place.local_ty, place.projs@) && fits(
                found,
            )
            &&& ptr matches Some(p) ==> body_of(*final(code)) == found && p == addr
        }),
{
    let ghost types = program@.types;
    let ghost begin = body_of(*code);
    let ghost ty = place.local_ty;
    let mut curr_ptr = root_ptr;
    let mut curr_type = place.local_ty;
    let mut i: usize = 0;
    assert(place.projs@.take(0) =~= Seq::empty());
    while i < place.projs.len()
        invariant
            program.wf(),
            types == program@.types,
            layouts@ == all_layouts(types),
            begin == body_of(*old(code)),
            can_emit(begin, block),
            root_ptr < begin.values,
            ty == place.local_ty,
            i <= place.projs.len(),
            (body_of(*code), curr_ptr) == place_code(
                types,
                begin,
                block,
                ty,
                place.projs@.take(i as int),
                root_ptr,
            ),
            fits(body_of(*code)),
            place_ready(types, ty, place.projs@.take(i as int)),
            final_type(types, ty, place.projs@.take(i as int)) == Some(curr_type),
        decreases place.projs.len() - i,
    {
        let ghost front = place.projs@.take(i as int);
        let ghost longer = place.projs@.take(i + 1);
        proof {
            assert(longer.drop_last() =~= front);
            lemma_place_code(types, begin, block, ty, front, root_ptr);
            lemma_place_code_front(types, begin, block, ty, place.projs@, root_ptr, i + 1);
        }
        let info = program.types.get_info(curr_type);
        match (&place.projs[i], info) {
            (Projection::Deref, Some(TypeInfo::Ref(type_id))) | (
                Projection::Deref,
                Some(TypeInfo::GcRef(type_id)),
            ) => {
                if !has_room(code) {
                    return None;
                }
                curr_ptr = ins_load(code, block, ClifType::I64, curr_ptr, 0);
                curr_type = type_id;
            },
            (Projection::Field { field_idx }, Some(TypeInfo::Struct(struct_info))) => {
                proof {
                    lemma_layout_of_struct(types, struct_info.fields@);
                }
                if *field_idx >= struct_info.fields.len() {
                    return None;
                }
                if layout_in_table(program, layouts, curr_type).is_none() {
                    return None;
                }
                proof {
                    law_fields_apart(types, struct_info.fields@, *field_idx as int);
                    law_layout_valid(types, types.info(curr_type));
                }
                let offset: usize = struct_info.field_offset(program, *field_idx);
                if offset != 0 {
                    if !has_room(code) {
                        return None;
                    }
                    curr_ptr = ins_iadd_imm(code, block, curr_ptr, offset as i64);
                }
                curr_type = struct_info.fields[*field_idx];
            },
            _ => {
                return None;
            },
        }
        i = i + 1;
    }
    assert(place.projs@.take(i as int) =~= place.projs@);
    Some(curr_ptr)
}

/// The address of a place whose root lies in a slot.
fn cf_get_pointer_to_place_from_stackslot(
    code: &mut Function,
    block: u32,
    program: &Program,
    layouts: &Vec<Option<Layout>>,
    place: &PlaceExpr,
    root_slot: u32,
) -> (ptr: Option<u32>)
    requires
        program.wf(),
        layouts@ == all_layouts(program@.types),
        can_emit(body_of(*old(code)), block),
        root_slot < body_of(*old(code)).slots.len(),
        root_slot == slot_of(place.local),
    ensures
        ({
            let (found, addr) = slot_place_code(
                program@.types,
                body_of(*old(code)),
                block,
                place@,
            );
            &&& ptr is Some <==> place_ready(program@.types, place.local_ty, place.projs@) && fits(
                found,
            )
            &&& ptr matches Some(p) ==> body_of(*final(code)) == found && p == addr
        }),
{
    proof {
        lemma_slot_place_code(program@.types, body_of(*code), block, place@);
    }
    if !has_room(code) {
        return None;
    }
    let root_addr = ins_stack_addr(code, block, ClifType::I64, root_slot, 0);
    cf_get_pointer_to_place_from_root_ptr(code, block, program, layouts, place, root_addr)
}

/// The number of the slot that a local lies in.
fn local_slot(func: &Func, local: LocalId) -> (slot: Option<u32>)
    requires
        func.wf(),
    ensures
        slot == (if func@.has_local(local) {
            Some(slot_of(local))
        } else {
            None
        }),
{
    proof {
        func.locals.lemma_len();
    }
    match func.locals.position(local.key) {
        Some(at) => Some(at as u32),
        None => None,
    }
}

/// Whether the function under construction has a slot for each local.
spec fn frame_fits(func: &Func, code: Function) -> bool {
    body_of(code).slots.len() == func@.locals.len()
}

/// The address of a place in the frame of the function.
fn cf_get_pointer_to_place(
    code: &mut Function,
    block: u32,
    program: &Program,
    layouts: &Vec<Option<Layout>>,
    func: &Func,
    place: &PlaceExpr,
) -> (ptr: Option<u32>)
    requires
        program.wf(),
        func.wf(),
        layouts@ == all_layouts(program@.types),
        can_emit(body_of(*old(code)), block),
        frame_fits(func, *old(code)),
    ensures
        ({
            let (found, addr) = slot_place_code(
                program@.types,
                body_of(*old(code)),
                block,
                place@,
            );
            &&& ptr is Some <==> slot_place_ready(program@.types, func@, place@) && fits(found)
            &&& ptr matches Some(p) ==> {
                &&& body_of(*final(code)) == found
                &&& p == addr
                &&& can_emit(found, block)
                &&& p < found.values
            }
        }),
{
    proof {
        func.locals.lemma_len();
        lemma_slot_place_code(program@.types, body_of(*code), block, place@);
    }
    let slot = match local_slot(func, place.local) {
        Some(slot) => slot,
        None => {
            return None;
        },
    };
    cf_get_pointer_to_place_from_stackslot(code, block, program, layouts, place, slot)
}

/// The value of an operand, read by code added to `block`.
fn cf_read_operand_value(
    code: &mut Function,
    block: u32,
    program: &Program,
    layouts: &Vec<Option<Layout>>,
    operand: &Operand,
    func: &Func,
) -> (value: Option<u32>)
    requires
        program.wf(),
        func.wf(),
        layouts@ == all_layouts(program@.types),
        can_emit(body_of(*old(code)), block),
        frame_fits(func, *old(code)),
    ensures
        ({
            let (read, x) = operand_code(
                program@.types,
                body_of(*old(code)),
                block,
                operand@,
            );
            &&& value is Some <==> operand_ready(program@.types, func@, operand@) && fits(read)
            &&& value matches Some(v) ==> {
                &&& body_of(*final(code)) == read
                &&& v == x
                &&& can_emit(read, block)
                &&& v < read.values
            }
        }),
{
    proof {
        lemma_operand_code(program@.types, body_of(*code), block, operand@);
    }
    match operand {
        Operand::Place(place) => {
            proof {
                lemma_slot_place_code(program@.types, body_of(*code), block, place@);
                lemma_place_ready(program@.types, place.local_ty, place.projs@);
            }
            let p = match cf_get_pointer_to_place(code, block, program, layouts, func, place) {
                Some(p) => p,
                None => {
                    return None;
                },
            };
            let ty = place.get_final_type(program, func);
            match translate_ssa_type(program, layouts, ty) {
                Some(cf_ty) if has_room(code) => Some(ins_load(code, block, cf_ty, p, 0)),
                _ => None,
            }
        },
        Operand::ConstI32(imm) => {
            if !has_room(code) {
                return None;
            }
            Some(ins_iconst(code, block, ClifType::I32, *imm as i64))
        },
        Operand::ConstF32(bits) => {
            if !has_room(code) {
                return None;
            }
            Some(ins_f32const(code, block, *bits))
        },
        Operand::ConstBool(imm) => {
            if !has_room(code) {
                return None;
            }
            let number: i64 = if *imm {
                1
            } else {
                0
            };
            Some(ins_iconst(code, block, ClifType::I8, number))
        },
    }
}

/// The result of an operation on two values.
fn cf_bin_op(
    code: &mut Function,
    block: u32,
    op: BinOp,
    input: &TypeInfo,
    output: &TypeInfo,
    lhs: u32,
    rhs: u32,
) -> (value: Option<u32>)
    requires
        can_emit(body_of(*old(code)), block),
        lhs < body_of(*old(code)).values,
        rhs < body_of(*old(code)).values,
    ensures
        ({
            let body = body_of(*old(code));
            let ins = bin_ins(op, input@, output@, body.next(), lhs, rhs);
            &&& value is Some <==> ins is Some && body.insts < MAX_INSTS
            &&& value matches Some(v) ==> {
                &&& body_of(*final(code)) == body.with_ins(block, ins->0, 1)
                &&& v == body.next()
            }
        }),
{
    if !has_room(code) {
        return None;
    }
    let value = match (op, output) {
        (BinOp::Eq, TypeInfo::PrimBool) => match input {
            TypeInfo::PrimI32 | TypeInfo::PrimBool => ins_icmp(
                code,
                block,
                ClifCond::Equal,
                lhs,
                rhs,
            ),
            TypeInfo::PrimF32 => ins_fcmp(code, block, ClifCond::Equal, lhs, rhs),
            _ => {
                return None;
            },
        },
        (BinOp::Le, TypeInfo::PrimBool) => match input {
            TypeInfo::PrimI32 => ins_icmp(code, block, ClifCond::LessOrEqual, lhs, rhs),
            TypeInfo::PrimF32 => ins_fcmp(code, block, ClifCond::LessOrEqual, lhs, rhs),
            _ => {
                return None;
            },
        },
        (BinOp::Lt, TypeInfo::PrimBool) => match input {
            TypeInfo::PrimI32 => ins_icmp(code, block, ClifCond::Less, lhs, rhs),
            TypeInfo::PrimF32 => ins_fcmp(code, block, ClifCond::Less, lhs, rhs),
            _ => {
                return None;
            },
        },
        (BinOp::Add, TypeInfo::PrimI32) => ins_iadd(code, block, lhs, rhs),
        (BinOp::Add, TypeInfo::PrimF32) => ins_fadd(code, block, lhs, rhs),
        (BinOp::Sub, TypeInfo::PrimI32) => ins_isub(code, block, lhs, rhs),
        (BinOp::Sub, TypeInfo::PrimF32) => ins_fsub(code, block, lhs, rhs),
        (BinOp::Mul, TypeInfo::PrimI32) => ins_imul(code, block, lhs, rhs),
        (BinOp::Mul, TypeInfo::PrimF32) => ins_fmul(code, block, lhs, rhs),
        (BinOp::Div, TypeInfo::PrimI32) => ins_sdiv(code, block, lhs, rhs),
        (BinOp::Div, TypeInfo::PrimF32) => ins_fdiv(code, block, lhs, rhs),
        _ => {
            return None;
        },
    };
    Some(value)
}

/// The value to assign to a place.
fn cf_value(
    code: &mut Function,
    block: u32,
    program: &Program,
    layouts: &Vec<Option<Layout>>,
    func: &Func,
    lvalue: &PlaceExpr,
    rvalue: &ValueExpr,
) -> (value: Option<u32>)
    requires
        program.wf(),
        func.wf(),
        layouts@ == all_layouts(program@.types),
        can_emit(body_of(*old(code)), block),
        frame_fits(func, *old(code)),
        final_type(program@.types, lvalue.local_ty, lvalue.projs@) is Some,
    ensures
        ({
            let (made, x) = value_code(
                program@.types,
                body_of(*old(code)),
                block,
                lvalue@,
                rvalue@,
            );
            &&& value is Some <==> value_ready(program@.types, func@, lvalue@, rvalue@) && fits(
                made,
            )
            &&& value matches Some(v) ==> {
                &&& body_of(*final(code)) == made
                &&& v == x
                &&& can_emit(made, block)
                &&& v < made.values
            }
        }),
{
    match rvalue {
        ValueExpr::Read(operand) => cf_read_operand_value(
            code,
            block,
            program,
            layouts,
            operand,
            func,
        ),
        ValueExpr::Ref(operand) => match operand {
            Operand::Place(place) => cf_get_pointer_to_place(
                code,
                block,
                program,
                layouts,
                func,
                place,
            ),
            _ => None,
        },
        ValueExpr::BinOp(op, lhs_op, rhs_op) => {
            proof {
                let types = program@.types;
                lemma_operand_code(types, body_of(*code), block, lhs_op@);
                let left = operand_code(types, body_of(*code), block, lhs_op@).0;
                lemma_operand_code(types, left, block, rhs_op@);
                if let Operand::Place(place) = lhs_op {
                    lemma_place_ready(types, place.local_ty, place.projs@);
                }
            }
            let lhs = match cf_read_operand_value(code, block, program, layouts, lhs_op, func) {
                Some(lhs) => lhs,
                None => {
                    return None;
                },
            };
            let rhs = match cf_read_operand_value(code, block, program, layouts, rhs_op, func) {
                Some(rhs) => rhs,
                None => {
                    return None;
                },
            };
            let input = program.types.get_info(lhs_op.get_final_type(program, func));
            let output = program.types.get_info(lvalue.get_final_type(program, func));
            match (input, output) {
                (Some(input), Some(output)) => cf_bin_op(
                    code,
                    block,
                    *op,
                    &input,
                    &output,
                    lhs,
                    rhs,
                ),
                _ => None,
            }
        },
    }
}

/// Whether the function under construction is the one of the environment.
spec fn in_env(env: CodeEnv, program: &Program, func: &Func, code: Function) -> bool {
    &&& program.wf()
    &&& func.wf()
    &&& env.program == program@
    &&& env.func() == func@
    &&& frame_fits(func, code)
    &&& refs_known(env, body_of(code).refs)
    &&& body_of(code).sig == func_sig(env.types(), env.func())
    &&& body_of(code).blocks.len() >= func@.blocks.len()
    &&& !func@.has_block(func@.entrypoint) ==> body_of(code).blocks.len() > func@.blocks.len()
}

/// Adds the code of one instruction to `block`.
fn cf_ins(
    code: &mut Function,
    block: u32,
    program: &Program,
    layouts: &Vec<Option<Layout>>,
    func: &Func,
    runtime_type_id_map: &KeyMap,
    ins: &Ins,
    Ghost(env): Ghost<CodeEnv>,
) -> (done: bool)
    requires
        in_env(env, program, func, *old(code)),
        layouts@ == all_layouts(program@.types),
        can_emit(body_of(*old(code)), block),
        runtime_type_id_map.wf(),
        env.rt_types == runtime_type_id_map@,
    ensures
        done <==> ins_ready(env, ins@) && fits(ins_code(env, body_of(*old(code)), block, ins@)),
        done ==> body_of(*final(code)) == ins_code(env, body_of(*old(code)), block, ins@),
{
    proof {
        lemma_ins_code(env, body_of(*code), block, ins@);
    }
    match ins {
        Ins::Assign { place, value } => {
            proof {
                lemma_slot_place_code(env.types(), body_of(*code), block, place@);
                let found = slot_place_code(env.types(), body_of(*code), block, place@).0;
                lemma_value_code(env.types(), found, block, place@, value@);
                lemma_place_ready(env.types(), place.local_ty, place.projs@);
            }
            let lhs_ptr = match cf_get_pointer_to_place(
                code,
                block,
                program,
                layouts,
                func,
                place,
            ) {
                Some(ptr) => ptr,
                None => {
                    return false;
                },
            };
            let rhs_value = match cf_value(code, block, program, layouts, func, place, value) {
                Some(value) => value,
                None => {
                    return false;
                },
            };
            if !has_room(code) {
                return false;
            }
            ins_store(code, block, rhs_value, lhs_ptr, 0);
            true
        },
        Ins::AllocGc { place } => {
            proof {
                lemma_slot_place_code(env.types(), body_of(*code), block, place@);
                lemma_place_ready(env.types(), place.local_ty, place.projs@);
                program.functions.lemma_len();
            }
            let lvalue = match cf_get_pointer_to_place(code, block, program, layouts, func, place) {
                Some(ptr) => ptr,
                None => {
                    return false;
                },
            };
            let pointee_type = match program.types.get_info(place.get_final_type(program, func)) {
                Some(TypeInfo::GcRef(to)) => to,
                _ => {
                    return false;
                },
            };
            let pointee_runtime_ty = match runtime_type_id_map.get(pointee_type.key) {
                Some(ty) => ty,
                None => {
                    return false;
                },
            };
            if !has_room(code) {
                return false;
            }
            let ty = ins_iconst(code, block, ClifType::I64, pointee_runtime_ty as i64);
            if !has_room(code) {
                return false;
            }
            let mut args: Vec<u32> = Vec::new();
            args.push(ty);
            assert(args@ =~= seq![ty]);
            let builtin_fn_alloc: u32 = program.functions.len() as u32;
            let rets = ins_call(code, block, builtin_fn_alloc, &args);
            if !has_room(code) {
                return false;
            }
            ins_store(code, block, rets[0], lvalue, 0);
            true
        },
    }
}

/// Adds the code of the instructions of a block.
fn cf_inss(
    code: &mut Function,
    block: u32,
    program: &Program,
    layouts: &Vec<Option<Layout>>,
    func: &Func,
    runtime_type_id_map: &KeyMap,
    inss: &Vec<Ins>,
    Ghost(env): Ghost<CodeEnv>,
) -> (done: bool)
    requires
        in_env(env, program, func, *old(code)),
        layouts@ == all_layouts(program@.types),
        can_emit(body_of(*old(code)), block),
        runtime_type_id_map.wf(),
        env.rt_types == runtime_type_id_map@,
    ensures
        ({
            let models = inss@.map_values(|ins: Ins| ins@);
            let made = inss_code(env, body_of(*old(code)), block, models);
            &&& done <==> (forall|i: int|
                0 <= i < models.len() ==> ins_ready(env, #[trigger] models[i])) && fits(made)
            &&& done ==> body_of(*final(code)) == made
        }),
{
    let ghost begin = body_of(*code);
    let ghost models = inss@.map_values(|ins: Ins| ins@);
    let mut i: usize = 0;
    assert(models.take(0) =~= Seq::empty());
    while i < inss.len()
        invariant
            begin == body_of(*old(code)),
            in_env(env, program, func, *old(code)),
            in_env(env, program, func, *code),
            layouts@ == all_layouts(program@.types),
            can_emit(begin, block),
            can_emit(body_of(*code), block),
            runtime_type_id_map.wf(),
            env.rt_types == runtime_type_id_map@,
            i <= inss.len(),
            models == inss@.map_values(|ins: Ins| ins@),
            forall|j: int| 0 <= j < i ==> ins_ready(env, #[trigger] models[j]),
            body_of(*code) == inss_code(env, begin, block, models.take(i as int)),
        decreases inss.len() - i,
    {
        proof {
            lemma_inss_code(env, begin, block, models, i + 1);
            lemma_inss_code(env, begin, block, models, i as int);
            lemma_ins_code(env, body_of(*code), block, models[i as int]);
            assert(models.take(i + 1).drop_last() =~= models.take(i as int));
        }
        if !cf_ins(
            code,
            block,
            program,
            layouts,
            func,
            runtime_type_id_map,
            &inss[i],
            Ghost(env),
        ) {
            return false;
        }
        i = i + 1;
    }
    assert(models.take(i as int) =~= models);
    true
}

/// The number of the block that a block of the function stands for.
fn cf_block_number(func: &Func, id: BasicBlockId) -> (number: Option<u32>)
    requires
        func.wf(),
    ensures
        number == (if func@.has_block(id) {
            Some(block_number(func@, key_pos(id.key)))
        } else {
            None
        }),
{
    proof {
        func.blocks.lemma_len();
    }
    match (func.blocks.position(id.key), func.blocks.position(func.entrypoint.key)) {
        (None, _) => None,
        (Some(at), None) => Some(at as u32 + 1),
        (Some(at), Some(entry)) => Some(
            if at < entry {
                at as u32 + 1
            } else if at == entry {
                0
            } else {
                at as u32
            },
        ),
    }
}

/// The values of locals, loaded by code added to `block`.
fn cf_loads(
    code: &mut Function,
    block: u32,
    program: &Program,
    layouts: &Vec<Option<Layout>>,
    func: &Func,
    locals: &Vec<LocalId>,
) -> (values: Option<Vec<u32>>)
    requires
        program.wf(),
        func.wf(),
        layouts@ == all_layouts(program@.types),
        can_emit(body_of(*old(code)), block),
        frame_fits(func, *old(code)),
    ensures
        ({
            let (loaded, xs) = loads_code(
                program@.types,
                func@,
                body_of(*old(code)),
                block,
                locals@,
            );
            &&& values is Some <==> loads_ready(program@.types, func@, locals@) && fits(loaded)
            &&& values matches Some(vs) ==> body_of(*final(code)) == loaded && vs@ == xs
        }),
{
    let ghost begin = body_of(*code);
    let ghost types = program@.types;
    let mut values: Vec<u32> = Vec::new();
    let mut i: usize = 0;
    assert(locals@.take(0) =~= Seq::empty());
    while i < locals.len()
        invariant
            program.wf(),
            func.wf(),
            types == program@.types,
            layouts@ == all_layouts(types),
            begin == body_of(*old(code)),
            can_emit(begin, block),
            can_emit(body_of(*code), block),
            frame_fits(func, *code),
            i <= locals.len(),
            loads_ready(types, func@, locals@.take(i as int)),
            (body_of(*code), values@) == loads_code(
                types,
                func@,
                begin,
                block,
                locals@.take(i as int),
            ),
        decreases locals.len() - i,
    {
        proof {
            lemma_loads_code(types, func@, begin, block, locals@, i + 1);
            assert(locals@.take(i + 1).drop_last() =~= locals@.take(i as int));
            func.locals.lemma_len();
        }
        let local = locals[i];
        let slot = match local_slot(func, local) {
            Some(slot) => slot,
            None => {
                return None;
            },
        };
        let ty = match func.locals.get(local.key) {
            Some(ty) => *ty,
            None => {
                return None;
            },
        };
        match translate_ssa_type(program, layouts, ty) {
            Some(cf_ty) if has_room(code) => {
                values.push(ins_stack_load(code, block, cf_ty, slot, 0));
            },
            _ => {
                return None;
            },
        }
        assert(loads_ready(types, func@, locals@.take(i + 1)));
        i = i + 1;
    }
    assert(locals@.take(i as int) =~= locals@);
    Some(values)
}

/// Adds the code that `block` ends with.
#[verifier::rlimit(40)]
fn cf_final(
    code: &mut Function,
    block: u32,
    program: &Program,
    layouts: &Vec<Option<Layout>>,
    func: &Func,
    ins_final: &InsFinal,
    Ghost(env): Ghost<CodeEnv>,
) -> (done: bool)
    requires
        in_env(env, program, func, *old(code)),
        layouts@ == all_layouts(program@.types),
        can_emit(body_of(*old(code)), block),
        sig_ready(env.types(), env.func()),
    ensures
        done <==> final_ready(env, ins_final@) && fits(
            final_code(env, body_of(*old(code)), block, ins_final@),
        ),
        done ==> body_of(*final(code)) == final_code(env, body_of(*old(code)), block, ins_final@),
{
    proof {
        func.locals.lemma_len();
        func.blocks.lemma_len();
        program.functions.lemma_len();
    }
    match ins_final {
        InsFinal::Br { next } => {
            let to = match cf_block_number(func, *next) {
                Some(to) => to,
                None => {
                    return false;
                },
            };
            if !has_room(code) {
                return false;
            }
            ins_jump(code, block, to);
            true
        },
        InsFinal::BrIf { cond, is_true, is_false } => {
            let ty = match func.locals.get(cond.key) {
                Some(ty) => *ty,
                None => {
                    return false;
                },
            };
            match program.types.get_info(ty) {
                Some(TypeInfo::PrimBool) => {},
                _ => {
                    return false;
                },
            }
            let slot = match local_slot(func, *cond) {
                Some(slot) => slot,
                None => {
                    return false;
                },
            };
            let (yes, no) = match (cf_block_number(func, *is_true), cf_block_number(func, *is_false)) {
                (Some(yes), Some(no)) => (yes, no),
                _ => {
                    return false;
                },
            };
            if !has_room(code) {
                return false;
            }
            let cond = ins_stack_load(code, block, ClifType::I8, slot, 0);
            if !has_room(code) {
                return false;
            }
            ins_brif(code, block, cond, yes, no);
            true
        },
        InsFinal::Call { func: func_called, args, store_ret, next } => {
            proof {
                lemma_loads_code(
                    env.types(),
                    env.func(),
                    body_of(*code),
                    block,
                    args@,
                    args@.len() as int,
                );
                assert(args@.take(args@.len() as int) =~= args@);
            }
            let callee: u32 = match program.functions.position(func_called.key) {
                Some(at) => at as u32,
                None => {
                    return false;
                },
            };
            proof {
                assert(body_of(*code).refs[callee as int].sig.returns.len() <= 1);
                assert(program@.functions[callee as int] == program.functions@[callee as int]@);
            }
            let to = match cf_block_number(func, *next) {
                Some(to) => to,
                None => {
                    return false;
                },
            };
            let ret_slot = match store_ret {
                Some(local) => match local_slot(func, *local) {
                    Some(slot) => Some(slot),
                    None => {
                        return false;
                    },
                },
                None => None,
            };
            let values = match cf_loads(code, block, program, layouts, func, args) {
                Some(values) => values,
                None => {
                    return false;
                },
            };
            if !has_room(code) {
                return false;
            }
            let rets = ins_call(code, block, callee, &values);
            if let Some(slot) = ret_slot {
                if rets.len() == 0 || !has_room(code) {
                    return false;
                }
                ins_stack_store(code, block, rets[0], slot, 0);
            }
            if !has_room(code) {
                return false;
            }
            ins_jump(code, block, to);
            true
        },
        InsFinal::Return { value } => {
            let pop: u32 = program.functions.len() as u32 + 2;
            let none: Vec<u32> = Vec::new();
            assert(none@ =~= Seq::empty());
            if !has_room(code) {
                return false;
            }
            let _ = ins_call(code, block, pop, &none);
            if !has_room(code) {
                return false;
            }
            match value {
                Some(local) => {
                    let ty = match func.return_type {
                        Some(ty) => ty,
                        None => {
                            return false;
                        },
                    };
                    let (slot, cf_ty) = match (
                        local_slot(func, *local),
                        translate_ssa_type(program, layouts, ty),
                    ) {
                        (Some(slot), Some(cf_ty)) => (slot, cf_ty),
                        _ => {
                            return false;
                        },
                    };
                    let value = ins_stack_load(code, block, cf_ty, slot, 0);
                    if !has_room(code) {
                        return false;
                    }
                    let mut values: Vec<u32> = Vec::new();
                    values.push(value);
                    assert(values@ =~= seq![value]);
                    ins_return(code, block, &values);
                },
                None => {
                    ins_return(code, block, &none);
                },
            }
            true
        },
    }
}

/// Adds the code that the block to start with begins with.
fn cf_entry(
    code: &mut Function,
    program: &Program,
    layouts: &Vec<Option<Layout>>,
    func_id: FuncId,
    func: &Func,
    runtime_func_id_map: &KeyMap,
    Ghost(env): Ghost<CodeEnv>,
) -> (done: bool)
    requires
        in_env(env, program, func, *old(code)),
        layouts@ == all_layouts(program@.types),
        can_emit(body_of(*old(code)), 0),
        body_of(*old(code)).values == 0,
        body_of(*old(code)).blocks[0].params.len() == 0,
        sig_ready(env.types(), env.func()),
        runtime_func_id_map.wf(),
        env.rt_funcs == runtime_func_id_map@,
        env.id == func_id,
    ensures
        done <==> {
            &&& env.func().args.len() <= MAX_PARAMS
            &&& env.rt_funcs.contains_key(env.id.key)
            &&& fits(entry_code(env, body_of(*old(code))))
        },
        done ==> body_of(*final(code)) == entry_code(env, body_of(*old(code))),
{
    let ghost begin = body_of(*code);
    let ghost tys = arg_types(env.types(), env.func());
    let n: usize = func.args.len();
    if n > MAX_PARAMS as usize {
        return false;
    }
    let func_id_runtime = match runtime_func_id_map.get(func_id.key) {
        Some(id) => id,
        None => {
            return false;
        },
    };
    proof {
        lemma_entry_code(env, begin);
        func.locals.lemma_len();
        program.functions.lemma_len();
    }
    let mut params: Vec<u32> = Vec::new();
    let mut i: usize = 0;
    while i < n
        invariant
            in_env(env, program, func, *old(code)),
            layouts@ == all_layouts(program@.types),
            begin == body_of(*old(code)),
            0 < begin.blocks.len(),
            begin.values == 0,
            begin.blocks[0].params.len() == 0,
            sig_ready(env.types(), env.func()),
            n == func.args.len(),
            i <= n <= MAX_PARAMS,
            tys == arg_types(env.types(), env.func()),
            params@ =~= Seq::new(i as nat, |j: int| j as u32),
            body_of(*code) == params_code(begin, tys, i as nat),
        decreases n - i,
    {
        proof {
            lemma_params_code(begin, tys, i as nat);
        }
        let local = func.args[i];
        assert(func@.has_local(local));
        if let Some(ty) = func.locals.get(local.key) {
            if let Some(cf_ty) = translate_ssa_type(program, layouts, *ty) {
                params.push(func_append_param(code, 0, cf_ty));
            }
        }
        i = i + 1;
    }
    let ghost taken = body_of(*code);
    proof {
        lemma_params_code(begin, tys, n as nat);
        lemma_told_code(env, taken);
        lemma_store_args_code(func@, told_code(env, taken), n as nat, n as nat);
    }
    if !has_room(code) {
        return false;
    }
    let id = ins_iconst(code, 0, ClifType::I64, func_id_runtime as i64);
    if !has_room(code) {
        return false;
    }
    let fp = ins_get_frame_pointer(code, 0, ClifType::I64);
    if !has_room(code) {
        return false;
    }
    let push: u32 = program.functions.len() as u32 + 1;
    let mut args: Vec<u32> = Vec::new();
    args.push(id);
    args.push(fp);
    assert(args@ =~= seq![id, fp]);
    let _ = ins_call(code, 0, push, &args);
    let ghost told = body_of(*code);
    assert(told == told_code(env, taken));
    i = 0;
    while i < n
        invariant
            in_env(env, program, func, *old(code)),
            begin == body_of(*old(code)),
            0 < begin.blocks.len(),
            begin.layout.contains(0),
            told == told_code(env, params_code(begin, tys, n as nat)),
            grown(told, body_of(*code)),
            told.blocks.len() == begin.blocks.len(),
            told.layout == begin.layout,
            told.slots == begin.slots,
            told.insts == begin.insts + 3,
            told.values == n + 2,
            told.blocks[0].params =~= Seq::new(n as nat, |j: int| j as u32),
            params@ =~= told.blocks[0].params,
            sig_ready(env.types(), env.func()),
            n == func.args.len(),
            i <= n <= MAX_PARAMS,
            tys == arg_types(env.types(), env.func()),
            body_of(*code) == store_args_code(func@, told, i as nat),
            fits(body_of(*code)),
            entry_code(env, begin).insts == begin.insts + n + 3,
        decreases n - i,
    {
        proof {
            lemma_store_args_code(func@, told, i as nat, i as nat);
            lemma_store_args_code(func@, told, (i + 1) as nat, (i + 1) as nat);
            func.locals.lemma_len();
        }
        let local = func.args[i];
        assert(func@.has_local(local));
        if !has_room(code) {
            return false;
        }
        if let Some(ss) = local_slot(func, local) {
            ins_stack_store(code, 0, params[i], ss, 0);
        }
        i = i + 1;
    }
    proof {
        lemma_store_args_code(func@, told, n as nat, n as nat);
    }
    true
}

/// Adds the block made after `n` others to the code.
fn cf_block(
    code: &mut Function,
    program: &Program,
    layouts: &Vec<Option<Layout>>,
    func_id: FuncId,
    func: &Func,
    n: usize,
    runtime_func_id_map: &KeyMap,
    runtime_type_id_map: &KeyMap,
    Ghost(env): Ghost<CodeEnv>,
) -> (done: bool)
    requires
        in_env(env, program, func, *old(code)),
        layouts@ == all_layouts(program@.types),
        n < func.blocks@.len(),
        block_number(func@, n as int) < body_of(*old(code)).blocks.len(),
        !body_of(*old(code)).layout.contains(block_number(func@, n as int)),
        body_of(*old(code)).values <= MAX_PARAMS + body_of(*old(code)).insts,
        fits(body_of(*old(code))),
        n == key_pos(func.entrypoint.key) ==> body_of(*old(code)).values == 0 && body_of(
            *old(code),
        ).blocks[0].params.len() == 0,
        sig_ready(env.types(), env.func()),
        runtime_func_id_map.wf(),
        runtime_type_id_map.wf(),
        env.rt_funcs == runtime_func_id_map@,
        env.rt_types == runtime_type_id_map@,
        env.id == func_id,
    ensures
        done <==> block_ready(env, n as int) && fits(
            block_code(env, body_of(*old(code)), n as int),
        ),
        done ==> body_of(*final(code)) == block_code(env, body_of(*old(code)), n as int),
{
    proof {
        reveal(block_code);
        reveal(block_ready);
    }
    let ghost begin = body_of(*code);
    let id = BasicBlockId { key: func.blocks.key_of(n) };
    let (number, block) = match (cf_block_number(func, id), func.blocks.get(id.key)) {
        (Some(number), Some(block)) => (number, block),
        _ => {
            return false;
        },
    };
    let ghost placed = begin.with_layout(number);
    proof {
        assert(func@.blocks[n as int] == block@);
        assert(placed.layout.last() == number);
        assert(placed.layout.contains(number));
        if block_ready(env, n as int) {
            lemma_block_code(env, begin, n as int);
        }
        if env.func().args.len() <= MAX_PARAMS && n == key_pos(func.entrypoint.key) {
            lemma_entry_code(env, placed);
        }
    }
    func_append_block(code, number);
    if id.key == func.entrypoint.key {
        if !cf_entry(code, program, layouts, func_id, func, runtime_func_id_map, Ghost(env)) {
            proof {
                if block_ready(env, n as int) {
                    lemma_block_parts(env, number, entry_code(env, placed), block@);
                }
            }
            return false;
        }
    }
    let ghost begun = body_of(*code);
    proof {
        if block_ready(env, n as int) {
            lemma_block_parts(env, number, begun, block@);
        }
    }
    if !cf_inss(
        code,
        number,
        program,
        layouts,
        func,
        runtime_type_id_map,
        &block.instructions,
        Ghost(env),
    ) {
        return false;
    }
    proof {
        let inss = block@.instructions;
        lemma_inss_code(env, begun, number, inss, inss.len() as int);
        assert(inss.take(inss.len() as int) =~= inss);
    }
    cf_final(code, number, program, layouts, func, &block.ins_final, Ghost(env))
}

/// The instructions of a block, and its end, only add to what was before them.
proof fn lemma_block_parts(
    env: CodeEnv,
    number: u32,
    begun: ClifBody,
    block: BlockModel,
)
    requires
        number < begun.blocks.len(),
        refs_known(env, begun.refs),
        final_ready(env, block.ins_final),
    ensures
        begun.insts <= inss_code(env, begun, number, block.instructions).insts,
        inss_code(env, begun, number, block.instructions).insts <= final_code(
            env,
            inss_code(env, begun, number, block.instructions),
            number,
            block.ins_final,
        ).insts,
{
    let inss = block.instructions;
    lemma_inss_code(env, begun, number, inss, inss.len() as int);
    assert(inss.take(inss.len() as int) =~= inss);
    lemma_final_code(env, inss_code(env, begun, number, inss), number, block.ins_final);
}

/// The signature of a function, where its arguments and its result have machine
/// types.
pub(crate) fn cf_signature(program: &Program, layouts: &Vec<Option<Layout>>, func: &Func) -> (sig: Option<
    Signature,
>)
    requires
        program.wf(),
        func.wf(),
        layouts@ == all_layouts(program@.types),
    ensures
        sig is Some <==> sig_ready(program@.types, func@),
        sig matches Some(sig) ==> sig_of(sig) == func_sig(program@.types, func@),
{
    let mut sig = sig_new(ClifCallConv::SystemV);
    let mut i: usize = 0;
    while i < func.args.len()
        invariant
            program.wf(),
            func.wf(),
            layouts@ == all_layouts(program@.types),
            i <= func.args.len(),
            forall|j: int|
                0 <= j < i ==> func@.has_local(#[trigger] func@.args[j]) && ssa_type(
                    program@.types,
                    func@.local(func@.args[j]),
                ) is Some,
            sig_of(sig).conv == ClifCallConv::SystemV,
            sig_of(sig).params =~= arg_types(program@.types, func@).take(i as int),
            sig_of(sig).returns.len() == 0,
        decreases func.args.len() - i,
    {
        let arg = func.args[i];
        assert(func@.args[i as int] == arg);
        let cf_ty = match func.locals.get(arg.key) {
            Some(ty) => translate_ssa_type(program, layouts, *ty),
            None => None,
        };
        match cf_ty {
            Some(cf_ty) => sig_push_param(&mut sig, cf_ty),
            None => {
                return None;
            },
        }
        i = i + 1;
    }
    if let Some(ty) = func.return_type {
        match translate_ssa_type(program, layouts, ty) {
            Some(cf_ty) => sig_push_return(&mut sig, cf_ty),
            None => {
                return None;
            },
        }
    }
    Some(sig)
}

/// The number of the power of two that an alignment is.
fn align_log2(align: usize) -> (shift: u8)
    requires
        known_align(align),
    ensures
        shift == align_shift(align),
{
    if align == 1 {
        0
    } else if align == 4 {
        2
    } else {
        3
    }
}

/// The functions of the runtime, by their numbers in a module, and the data
/// object that stands for the runtime.
pub struct BuiltinIds {
    pub fn_alloc: u32,
    pub fn_push_stack_frame: u32,
    pub fn_pop_stack_frame: u32,
    pub data_runtime_ptr: u32,
}

/// A function, and the references into managed memory in its frame.
pub struct FunctionCompRes {
    pub func: Function,
    pub gc_root_stackslots: Vec<GcRoot>,
}

/// How a function of the module is called.
pub open spec fn ref_to(decls: Seq<ClifDecl>, id: u32) -> ClifRef {
    ClifRef { func: id, sig: decls[id as int].sig }
}

/// What the functions of a program can call: the functions of the program, then
/// those of the runtime.
pub open spec fn refs_of(decls: Seq<ClifDecl>, ids: Seq<u32>, builtins: BuiltinIds) -> Seq<ClifRef> {
    Seq::new(ids.len(), |i: int| ref_to(decls, ids[i])).push(
        ref_to(decls, builtins.fn_alloc),
    ).push(ref_to(decls, builtins.fn_push_stack_frame)).push(
        ref_to(decls, builtins.fn_pop_stack_frame),
    )
}

/// Whether a module has declared the functions of a program, under the numbers
/// `ids`, and those of the runtime.
pub open spec fn declared_in(
    program: ProgramModel,
    decls: Seq<ClifDecl>,
    ids: Seq<u32>,
    builtins: BuiltinIds,
) -> bool {
    &&& program.functions.len() + 3 <= MAX_ENTITIES
    &&& ids.len() == program.functions.len()
    &&& forall|i: int|
        0 <= i < ids.len() ==> (#[trigger] ids[i]) < decls.len() && decls[ids[i] as int].sig
            == func_sig(program.types, program.functions[i])
    &&& builtins.fn_alloc < decls.len()
    &&& decls[builtins.fn_alloc as int].sig == alloc_sig()
    &&& builtins.fn_push_stack_frame < decls.len()
    &&& decls[builtins.fn_push_stack_frame as int].sig == push_stack_frame_sig()
    &&& builtins.fn_pop_stack_frame < decls.len()
    &&& decls[builtins.fn_pop_stack_frame as int].sig == pop_stack_frame_sig()
}

/// Takes a type and gives an address.
pub open spec fn alloc_sig() -> ClifSig {
    ClifSig {
        conv: ClifCallConv::SystemV,
        params: seq![ClifType::I64],
        returns: seq![ClifType::I64],
    }
}

/// Takes a function and its frame.
pub open spec fn push_stack_frame_sig() -> ClifSig {
    ClifSig {
        conv: ClifCallConv::SystemV,
        params: seq![ClifType::I64, ClifType::I64],
        returns: Seq::empty(),
    }
}

/// Takes nothing.
pub open spec fn pop_stack_frame_sig() -> ClifSig {
    ClifSig { conv: ClifCallConv::SystemV, params: Seq::empty(), returns: Seq::empty() }
}

/// The environment that the code of a function is made in.
pub open spec fn env_of(
    program: ProgramModel,
    id: FuncId,
    rt_funcs: Map<u64, u64>,
    rt_types: Map<u64, u64>,
) -> CodeEnv {
    CodeEnv { program, id, rt_funcs, rt_types }
}

/// Lets the function under construction call the functions of the program and
/// those of the runtime.
fn cf_refs(
    code: &mut Function,
    func_id_map: &Vec<u32>,
    module: &mut JITModule,
    builtin_ids: &BuiltinIds,
    Ghost(program): Ghost<ProgramModel>,
)
    requires
        declared_in(program, decls_of(*old(module)), func_id_map@, *builtin_ids),
        body_of(*old(code)).refs.len() == 0,
    ensures
        decls_of(*final(module)) == decls_of(*old(module)),
        data_of(*final(module)) == data_of(*old(module)),
        defs_of(*final(module)) == defs_of(*old(module)),
        frames_of(*final(module)) == frames_of(*old(module)),
        checks_code(*final(module)) == checks_code(*old(module)),
        body_of(*final(code)) == (ClifBody {
            refs: refs_of(decls_of(*old(module)), func_id_map@, *builtin_ids),
            ..body_of(*old(code))
        }),
{
    let ghost decls = decls_of(*module);
    let ghost refs = refs_of(decls, func_id_map@, *builtin_ids);
    let ghost fresh = body_of(*code);
    let mut i: usize = 0;
    while i < func_id_map.len()
        invariant
            i <= func_id_map.len(),
            declared_in(program, decls, func_id_map@, *builtin_ids),
            decls_of(*module) == decls,
            data_of(*module) == data_of(*old(module)),
            defs_of(*module) == defs_of(*old(module)),
            frames_of(*module) == frames_of(*old(module)),
            checks_code(*module) == checks_code(*old(module)),
            refs == refs_of(decls, func_id_map@, *builtin_ids),
            fresh.refs.len() == 0,
            body_of(*code) == (ClifBody { refs: refs.take(i as int), ..fresh }),
        decreases func_id_map.len() - i,
    {
        let _ = module_declare_func_in_func(module, func_id_map[i], code);
        assert(refs.take(i as int).push(refs[i as int]) =~= refs.take(i + 1));
        i = i + 1;
    }
    let _ = module_declare_func_in_func(module, builtin_ids.fn_alloc, code);
    let _ = module_declare_func_in_func(module, builtin_ids.fn_push_stack_frame, code);
    let _ = module_declare_func_in_func(module, builtin_ids.fn_pop_stack_frame, code);
    assert(body_of(*code).refs =~= refs);
}

/// Adds the references into managed memory in the slot of a local.
fn add_roots(
    program: &Program,
    layouts: &Vec<Option<Layout>>,
    info: &TypeInfo,
    slot: u32,
    ty: TypeId,
    roots: &mut Vec<GcRoot>,
)
    requires
        program.wf(),
        layouts@ == all_layouts(program@.types),
        info@ == program@.types.info(ty),
        layout_of(program@.types, info@) is Some,
    ensures
        final(roots)@ == old(roots)@ + slot_roots(program@.types, slot, ty),
{
    let offsets = info.gc_offsets(program, layouts);
    let ghost before = roots@;
    let ghost all = slot_roots(program@.types, slot, ty);
    let mut i: usize = 0;
    assert(before =~= before + all.take(0));
    while i < offsets.len()
        invariant
            all == offsets@.map_values(|offset: usize| GcRoot { slot, offset, ty }),
            i <= offsets.len(),
            roots@ =~= before + all.take(i as int),
        decreases offsets.len() - i,
    {
        roots.push(GcRoot { slot, offset: offsets[i], ty });
        i = i + 1;
    }
    assert(all.take(i as int) =~= all);
}

/// Gives each local its slot.
fn cf_slots(
    code: &mut Function,
    program: &Program,
    layouts: &Vec<Option<Layout>>,
    func: &Func,
) -> (roots: Option<Vec<GcRoot>>)
    requires
        program.wf(),
        func.wf(),
        layouts@ == all_layouts(program@.types),
        body_of(*old(code)).slots.len() == 0,
    ensures
        roots is Some <==> locals_ready(program@.types, func@.locals),
        roots matches Some(roots) ==> {
            &&& roots@ == root_slots(program@.types, func@.locals)
            &&& body_of(*final(code)) == (ClifBody {
                slots: local_slots(program@.types, func@.locals),
                ..body_of(*old(code))
            })
        },
{
    let ghost fresh = body_of(*code);
    let ghost locals = func@.locals;
    let mut roots: Vec<GcRoot> = Vec::new();
    let mut i: usize = 0;
    assert(locals.take(0) =~= Seq::empty());
    while i < func.locals.len()
        invariant
            program.wf(),
            func.wf(),
            locals == func@.locals,
            layouts@ == all_layouts(program@.types),
            i <= locals.len(),
            fresh.slots.len() == 0,
            body_of(*code) == (ClifBody {
                slots: local_slots(program@.types, locals).take(i as int),
                ..fresh
            }),
            locals_ready(program@.types, locals.take(i as int)),
            roots@ == root_slots(program@.types, locals.take(i as int)),
        decreases locals.len() - i,
    {
        proof {
            func.locals.lemma_len();
            assert(locals.take(i + 1).drop_last() =~= locals.take(i as int));
        }
        let id = func.locals.key_of(i);
        let ty = match func.locals.get(id) {
            Some(ty) => *ty,
            None => {
                return None;
            },
        };
        let layout = match layout_in_table(program, layouts, ty) {
            Some(layout) => layout,
            None => {
                return None;
            },
        };
        proof {
            law_layout_valid(program@.types, program@.types.info(ty));
        }
        let ss = func_create_slot(
            code,
            layout.size as u32,
            align_log2(layout.align),
            id as u32 as u64,
        );
        assert(body_of(*code).slots =~= local_slots(program@.types, locals).take(i + 1));
        if let Some(info) = program.types.get_info(ty) {
            add_roots(program, layouts, &info, ss, ty, &mut roots);
        }
        assert(locals_ready(program@.types, locals.take(i + 1)));
        i = i + 1;
    }
    assert(locals.take(i as int) =~= locals);
    assert(body_of(*code).slots =~= local_slots(program@.types, locals));
    Some(roots)
}

/// Makes the blocks of the function.
fn cf_blocks_made(code: &mut Function, count: usize)
    requires
        body_of(*old(code)).blocks.len() == 0,
        count <= MAX_SLOTS + 1,
    ensures
        body_of(*final(code)) == (ClifBody {
            blocks: Seq::new(
                count as nat,
                |j: int| ClifBlock::empty(),
            ),
            ..body_of(*old(code))
        }),
{
    let ghost framed = body_of(*code);
    let mut i: usize = 0;
    assert(framed.blocks =~= Seq::new(
        0,
        |j: int| ClifBlock::empty(),
    ));
    while i < count
        invariant
            i <= count <= MAX_SLOTS + 1,
            framed.blocks.len() == 0,
            body_of(*code) == (ClifBody {
                blocks: Seq::new(
                    i as nat,
                    |j: int| ClifBlock::empty(),
                ),
                ..framed
            }),
        decreases count - i,
    {
        let _ = func_make_block(code);
        assert(body_of(*code).blocks =~= Seq::new(
            (i + 1) as nat,
            |j: int| ClifBlock::empty(),
        ));
        i = i + 1;
    }
}

/// Whether all blocks of the function can get their code.
spec fn all_blocks_ready(env: CodeEnv) -> bool {
    forall|n: int| 0 <= n < env.func().blocks.len() ==> #[trigger] block_ready(env, n)
}

/// Adds the code of all blocks.
fn cf_blocks(
    code: &mut Function,
    program: &Program,
    layouts: &Vec<Option<Layout>>,
    func_id: FuncId,
    func: &Func,
    runtime_func_id_map: &KeyMap,
    runtime_type_id_map: &KeyMap,
    Ghost(env): Ghost<CodeEnv>,
    Ghost(refs): Ghost<Seq<ClifRef>>,
) -> (done: bool)
    requires
        in_env(env, program, func, *old(code)),
        body_of(*old(code)) == frame_of(env, refs),
        layouts@ == all_layouts(program@.types),
        sig_ready(env.types(), env.func()),
        runtime_func_id_map.wf(),
        runtime_type_id_map.wf(),
        env.rt_funcs == runtime_func_id_map@,
        env.rt_types == runtime_type_id_map@,
        env.id == func_id,
    ensures
        done <==> all_blocks_ready(env) && fits(func_code(env, refs)),
        done ==> body_of(*final(code)) == func_code(env, refs),
{
    let ghost frame = frame_of(env, refs);
    let entry = func.blocks.position(func.entrypoint.key);
    let blocks: usize = func.blocks.len();
    let mut i: usize = 0;
    while i < blocks
        invariant
            in_env(env, program, func, *old(code)),
            layouts@ == all_layouts(program@.types),
            sig_ready(env.types(), env.func()),
            runtime_func_id_map.wf(),
            runtime_type_id_map.wf(),
            env.rt_funcs == runtime_func_id_map@,
            env.rt_types == runtime_type_id_map@,
            env.id == func_id,
            frame == frame_of(env, refs),
            frame == body_of(*old(code)),
            blocks == func@.blocks.len(),
            blocks <= MAX_SLOTS,
            entry is Some <==> func@.has_block(func.entrypoint),
            entry matches Some(at) ==> at == key_pos(func.entrypoint.key),
            i <= blocks,
            body_of(*code) == blocks_code(env, frame, i as nat),
            blocks_done(env, frame, body_of(*code), i as nat),
            fits(body_of(*code)),
            forall|j: int|
                0 <= j < i ==> block_ready(env, #[trigger] block_in_order(func@, j)),
        decreases blocks - i,
    {
        let n: usize = match entry {
            Some(at) => if i > at {
                i
            } else if i == 0 {
                at
            } else {
                i - 1
            },
            None => i,
        };
        let ghost before = body_of(*code);
        proof {
            lemma_block_in_order(func@, i as int);
            assert(n == block_in_order(func@, i as int));
            assert forall|j: int| 0 <= j < i implies before.layout[j] != block_number(
                func@,
                n as int,
            ) by {
                lemma_block_in_order(func@, j);
            }
        }
        let done = cf_block(
            code,
            program,
            layouts,
            func_id,
            func,
            n,
            runtime_func_id_map,
            runtime_type_id_map,
            Ghost(env),
        );
        if !done {
            proof {
                if all_blocks_ready(env) {
                    lemma_blocks_code_front(env, frame, (i + 1) as nat, blocks as nat);
                }
            }
            return false;
        }
        proof {
            lemma_block_code(env, before, n as int);
        }
        i = i + 1;
    }
    proof {
        assert forall|n: int| 0 <= n < blocks implies #[trigger] block_ready(env, n) by {
            let at = if func@.has_block(func.entrypoint) && n < key_pos(func.entrypoint.key) {
                n + 1
            } else if n == key_pos(func.entrypoint.key) {
                0
            } else {
                n
            };
            assert(block_in_order(func@, at) == n);
        }
    }
    true
}

/// The functions of the program and those of the runtime have the results that
/// code expects of them.
pub proof fn lemma_refs_known(
    env: CodeEnv,
    decls: Seq<ClifDecl>,
    ids: Seq<u32>,
    builtins: BuiltinIds,
)
    requires
        declared_in(env.program, decls, ids, builtins),
    ensures
        refs_known(env, refs_of(decls, ids, builtins)),
{
    let refs = refs_of(decls, ids, builtins);
    assert forall|i: int| 0 <= i < ids.len() implies (#[trigger] refs[i]).sig == func_sig(
        env.program.types,
        env.program.functions[i],
    ) by {
        assert(ids[i] < decls.len());
    }
}

/// The machine code of a function. `None` where the program asks for what no
/// code can be made for.
pub fn function_to_cranelift(
    program: &Program,
    layouts: &Vec<Option<Layout>>,
    func_id: FuncId,
    func_id_map: &Vec<u32>,
    runtime_func_id_map: &KeyMap,
    runtime_type_id_map: &KeyMap,
    module: &mut JITModule,
    builtin_ids: &BuiltinIds,
) -> (res: Option<FunctionCompRes>)
    requires
        program.wf(),
        layouts@ == all_layouts(program@.types),
        program@.has_func(func_id),
        runtime_func_id_map.wf(),
        runtime_type_id_map.wf(),
        declared_in(program@, decls_of(*old(module)), func_id_map@, *builtin_ids),
    ensures
        decls_of(*final(module)) == decls_of(*old(module)),
        data_of(*final(module)) == data_of(*old(module)),
        defs_of(*final(module)) == defs_of(*old(module)),
        frames_of(*final(module)) == frames_of(*old(module)),
        checks_code(*final(module)) == checks_code(*old(module)),
        ({
            let env = env_of(program@, func_id, runtime_func_id_map@, runtime_type_id_map@);
            let refs = refs_of(decls_of(*old(module)), func_id_map@, *builtin_ids);
            &&& res is Some <==> func_ready(env, refs)
            &&& res matches Some(res) ==> {
                &&& body_of(res.func) == func_code(env, refs)
                &&& res.gc_root_stackslots@ == root_slots(env.types(), env.func().locals)
            }
        }),
{
    let ghost env = env_of(program@, func_id, runtime_func_id_map@, runtime_type_id_map@);
    let ghost refs = refs_of(decls_of(*module), func_id_map@, *builtin_ids);
    proof {
        lemma_refs_known(env, decls_of(*module), func_id_map@, *builtin_ids);
    }
    let func = match program.functions.get(func_id.key) {
        Some(func) => func,
        None => {
            return None;
        },
    };
    let sig = match cf_signature(program, layouts, func) {
        Some(sig) => sig,
        None => {
            return None;
        },
    };
    let mut code = func_new(0, func_id.key as u32, sig);
    cf_refs(&mut code, func_id_map, module, builtin_ids, Ghost(program@));
    let gc_root_stackslots = match cf_slots(&mut code, program, layouts, func) {
        Some(roots) => roots,
        None => {
            return None;
        },
    };
    let count: usize = match func.blocks.position(func.entrypoint.key) {
        Some(_) => func.blocks.len(),
        None => func.blocks.len() + 1,
    };
    cf_blocks_made(&mut code, count);
    assert(body_of(code) =~= frame_of(env, refs));
    if !cf_blocks(
        &mut code,
        program,
        layouts,
        func_id,
        func,
        runtime_func_id_map,
        runtime_type_id_map,
        Ghost(env),
        Ghost(refs),
    ) {
        return None;
    }
    Some(FunctionCompRes { func: code, gc_root_stackslots })
}

} // verus!

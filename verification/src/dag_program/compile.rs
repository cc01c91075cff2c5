//! Compilation of whole programs into a module.

use super::cf_build::{
    alloc_sig, cf_signature, declared_in, env_of, function_to_cranelift, layout_in_table,
    lemma_refs_known, pop_stack_frame_sig, push_stack_frame_sig, ref_to, refs_of,
    translate_ssa_type, BuiltinIds, FunctionCompRes,
};
use super::code::{
    frame_of, func_code, func_ready, func_sig, lemma_blocks_code, locals_room, refs_known,
    root_slots, sig_ready, ssa_type, CodeEnv,
};
use super::gc_refs::{gc_offsets, law_refs_are_where_fields_lead, leads_to_ref};
use super::layouts::{all_layouts, law_layout_valid, layout_of};
use super::machine::{Machine, World};
use super::meaning::{is_address, Scene};
use super::roots::{
    is_ref_in_frame, law_frame_slots_are_references, lemma_can_define, lemma_locals_room,
    lemma_roots_in_frame, locals_ready, root_distances, root_in_frame, roots_from_frame,
    roots_in_frame,
};
use super::runs::{code_after, func_after, law_code_does_what_the_function_does, same_end};
use super::{
    func_at, type_at, Func, FuncId, FuncModel, Program, ProgramModel, TypeId, TypeModel, TypesModel,
};
use crate::clif::{
    body_of, checks_code, data_of, decls_of, defs_of, frames_of, module_checks_code,
    module_data_count, module_declare_data, module_declare_function, module_define_function,
    module_func_count, name_free, sig_fits, ClifBody, ClifData, ClifDecl, ClifFrame, ClifLinkage,
    ClifRef, ClifSig, ClifSlot, ClifType, MAX_ENTITIES, MAX_FRAME, MAX_PARAMS,
};
use crate::layout::Layout;
use crate::names::{assoc_map, lemma_assoc_absent, lemma_assoc_at, NameMap};
use crate::runtime::builtin::{
    builtin_sig, ffi_func, ffi_type, fn_alloc_gc, fn_pop_stack_frame, fn_push_stack_frame,
    law_ids_pass_through_code, BuiltinFn, RT_PTR_SYM,
};
use crate::runtime::reach::RtTypeModel;
use crate::runtime::{
    frame_slots, law_push_adds_slots, rt_func_at, rt_type_at, RtFuncData, RtFuncId, RtTypeData,
    Runtime, RuntimeBuilder, RuntimeModel,
};
use crate::slots::{key_at, key_pos, KeyMap, FIRST_KEY, MAX_SLOTS, NULL_KEY};
use cranelift_jit::JITModule;
use cranelift_module::ModuleError;
use std::collections::VecDeque;
use vstd::prelude::*;

verus! {

/// What the runtime is told of a type: its layout, and where references into
/// managed memory lie in its values.
pub open spec fn rt_type_of(types: TypesModel, info: TypeModel) -> RtTypeModel {
    RtTypeModel { layout: layout_of(types, info)->0, gc_ptr_fields: gc_offsets(types, info) }
}

/// What the runtime is told of all types.
pub open spec fn rt_types_of(types: TypesModel) -> Seq<RtTypeModel> {
    Seq::new(types.infos.len(), |i: int| rt_type_of(types, types.infos[i]))
}

/// Whether every type has a layout.
pub open spec fn all_laid_out(types: TypesModel) -> bool {
    forall|i: int|
        0 <= i < types.infos.len() ==> layout_of(types, #[trigger] types.infos[i]) is Some
}

/// The keys of `n` values, each with the key that comes `base` after it.
pub open spec fn keys_shifted(n: nat, base: nat) -> Map<u64, u64> {
    Map::new(|key: u64| 0 <= key_pos(key) < n, |key: u64| key_at(key_pos(key) + base))
}

proof fn lemma_keys_shifted(n: nat, base: nat)
    requires
        n < MAX_SLOTS,
    ensures
        keys_shifted(n, base).insert(key_at(n as int), key_at((n + base) as int)) =~= keys_shifted(
            n + 1,
            base,
        ),
        FIRST_KEY <= key_at(n as int) < NULL_KEY,
{
}

/// Tells the runtime of all types of the program, if they all have layouts.
fn register_types(program: &Program, layouts: &Vec<Option<Layout>>, rt: &mut Runtime) -> (map:
    Option<KeyMap>)
    requires
        program.wf(),
        layouts@ == all_layouts(program@.types),
        old(rt).wf(),
        old(rt)@.types.len() + program@.types.infos.len() <= MAX_SLOTS,
    ensures
        final(rt).wf(),
        map is Some <==> all_laid_out(program@.types),
        final(rt)@ == (if map is Some {
            RuntimeModel {
                types: old(rt)@.types + rt_types_of(program@.types),
                ..old(rt)@
            }
        } else {
            old(rt)@
        }),
        map matches Some(map) ==> map.wf() && map@ == keys_shifted(
            program@.types.infos.len(),
            old(rt)@.types.len(),
        ),
{
    let ghost types = program@.types;
    let ghost before = rt@;
    let all = program.types.all_types();
    let mut i: usize = 0;
    while i < all.len()
        invariant
            types == program@.types,
            layouts@ == all_layouts(types),
            all@.len() == types.infos.len(),
            i <= all.len(),
            forall|j: int|
                0 <= j < i ==> layout_of(types, #[trigger] types.infos[j]) is Some,
            rt.wf(),
            rt@ == old(rt)@,
        decreases all.len() - i,
    {
        assert(layouts@[i as int] == layout_of(types, types.infos[i as int]));
        if layouts[i].is_none() {
            return None;
        }
        i = i + 1;
    }
    let mut map = KeyMap::new();
    assert(map@ =~= keys_shifted(0, before.types.len()));
    i = 0;
    assert(before.types =~= before.types + rt_types_of(types).take(0));
    while i < all.len()
        invariant
            program.wf(),
            types == program@.types,
            layouts@ == all_layouts(types),
            all@.len() == types.infos.len(),
            forall|j: int|
                #![trigger all@[j]]
                0 <= j < all@.len() ==> all@[j].0.key == key_at(j) && all@[j].1@ == types.infos[j],
            all_laid_out(types),
            before == old(rt)@,
            before.types.len() + types.infos.len() <= MAX_SLOTS,
            i <= all.len(),
            rt.wf(),
            rt@ == (RuntimeModel {
                types: before.types + rt_types_of(types).take(i as int),
                ..before
            }),
            map.wf(),
            map@ == keys_shifted(i as nat, before.types.len()),
        decreases all.len() - i,
    {
        let ghost now = rt@.types;
        assert(layouts@[i as int] == layout_of(types, types.infos[i as int]));
        if let Some(layout) = layouts[i] {
            let gc_ptr_fields = all[i].1.gc_offsets(program, layouts);
            let data = RtTypeData { layout, gc_ptr_fields };
            let id = RuntimeBuilder::declare_define_type(rt, data);
            proof {
                lemma_keys_shifted(i as nat, before.types.len());
                assert(now.push(data@) =~= before.types + rt_types_of(types).take(i + 1));
            }
            map.insert(all[i].0.key, id.key);
        }
        i = i + 1;
    }
    assert(rt_types_of(types).take(i as int) =~= rt_types_of(types));
    Some(map)
}

/// Why a program could not be compiled.
pub enum CompileError {
    /// The runtime or the module has no room for the program.
    TooMany,
    /// The module does not check the functions that it is handed.
    Unchecked,
    /// A type has no layout.
    Layout,
    /// An argument or the result of the function has no machine type that can be
    /// passed.
    Signature(FuncId),
    /// The function asks for what no code can be made for, or for too large a frame.
    Code(FuncId),
    /// The frame of the function does not hold its roots.
    Frame(FuncId),
    /// The module refused what it was given.
    Module(ModuleError),
}

/// Whether the arguments and the result of a function have machine types and can be
/// passed: a value of 16 bytes cannot, nor can more arguments than a block can have
/// parameters.
pub open spec fn sig_passes(types: TypesModel, func: FuncModel) -> bool {
    sig_ready(types, func) && sig_fits(func_sig(types, func))
}

/// Whether all functions of the program have signatures.
pub open spec fn all_sigs_pass(program: ProgramModel) -> bool {
    forall|i: int|
        0 <= i < program.functions.len() ==> sig_passes(
            program.types,
            #[trigger] program.functions[i],
        )
}

/// Whether `id` is the first function of the program without a signature.
pub open spec fn first_unpassing(program: ProgramModel, id: FuncId) -> bool {
    &&& program.has_func(id)
    &&& !sig_passes(program.types, program.func(id))
    &&& forall|i: int|
        0 <= i < key_pos(id.key) ==> sig_passes(program.types, #[trigger] program.functions[i])
}

/// Whether values of the type can be passed to functions.
fn type_passes(program: &Program, layouts: &Vec<Option<Layout>>, ty: TypeId) -> (passes: bool)
    requires
        program.wf(),
        layouts@ == all_layouts(program@.types),
    ensures
        passes == (ssa_type(program@.types, ty) is Some && ssa_type(program@.types, ty)
            != Some(ClifType::I128)),
{
    match translate_ssa_type(program, layouts, ty) {
        Some(cf_ty) => cf_ty != ClifType::I128,
        None => false,
    }
}

/// Whether the function has a signature.
fn cf_passes(program: &Program, layouts: &Vec<Option<Layout>>, func: &Func) -> (passes: bool)
    requires
        program.wf(),
        func.wf(),
        layouts@ == all_layouts(program@.types),
    ensures
        passes == sig_passes(program@.types, func@),
{
    let ghost types = program@.types;
    let ghost sig = func_sig(types, func@);
    if func.args.len() > MAX_PARAMS as usize {
        assert(sig.params.len() == func@.args.len());
        return false;
    }
    let mut i: usize = 0;
    while i < func.args.len()
        invariant
            program.wf(),
            func.wf(),
            layouts@ == all_layouts(program@.types),
            types == program@.types,
            i <= func.args.len(),
            forall|j: int|
                0 <= j < i ==> func@.has_local(#[trigger] func@.args[j]) && ssa_type(
                    types,
                    func@.local(func@.args[j]),
                ) is Some && ssa_type(types, func@.local(func@.args[j])) != Some(ClifType::I128),
        decreases func.args.len() - i,
    {
        let arg = func.args[i];
        assert(func@.args[i as int] == arg);
        let passes = match func.locals.get(arg.key) {
            Some(ty) => type_passes(program, layouts, *ty),
            None => false,
        };
        if !passes {
            proof {
                if sig_ready(types, func@) {
                    assert(func_sig(types, func@).params[i as int] == ClifType::I128);
                }
            }
            return false;
        }
        i = i + 1;
    }
    let passes = match func.return_type {
        Some(ty) => type_passes(program, layouts, ty),
        None => true,
    };
    proof {
        if !passes && sig_ready(types, func@) {
            assert(sig.returns[0] == ClifType::I128);
        }
    }
    passes
}

/// The first function of the program without a signature, if there is one.
fn unpassing(program: &Program, layouts: &Vec<Option<Layout>>) -> (found: Option<FuncId>)
    requires
        program.wf(),
        layouts@ == all_layouts(program@.types),
    ensures
        found is None <==> all_sigs_pass(program@),
        found matches Some(id) ==> first_unpassing(program@, id),
{
    let mut i: usize = 0;
    while i < program.functions.len()
        invariant
            program.wf(),
            layouts@ == all_layouts(program@.types),
            i <= program@.functions.len(),
            forall|j: int|
                0 <= j < i ==> sig_passes(program@.types, #[trigger] program@.functions[j]),
        decreases program@.functions.len() - i,
    {
        let id = FuncId { key: program.functions.key_of(i) };
        if let Some(func) = program.functions.get(id.key) {
            assert(program@.functions[i as int] == func@);
            if !cf_passes(program, layouts, func) {
                return Some(id);
            }
        }
        i = i + 1;
    }
    None
}

/// Whether the module knows the first `n` functions of the program under their
/// names, with their signatures, as functions that it defines.
pub open spec fn functions_declared(
    program: ProgramModel,
    decls: Seq<ClifDecl>,
    ids: Seq<u32>,
    n: int,
) -> bool {
    forall|i: int|
        #![trigger ids[i]]
        0 <= i < n ==> ids[i] < decls.len() && decls[ids[i] as int] == func_decl(program, i)
}

/// What the module is told of a function of the program.
pub open spec fn func_decl(program: ProgramModel, i: int) -> ClifDecl {
    ClifDecl {
        name: Some(program.functions[i].name),
        linkage: ClifLinkage::Export,
        sig: func_sig(program.types, program.functions[i]),
    }
}

/// What the module is told of all functions of the program.
pub open spec fn func_decls(program: ProgramModel) -> Seq<ClifDecl> {
    Seq::new(program.functions.len(), |i: int| func_decl(program, i))
}

/// `n` numbers, of which `base` is the first.
pub open spec fn numbers_from(base: nat, n: nat) -> Seq<u32> {
    Seq::new(n, |i: int| (base + i) as u32)
}

/// Whether no function of the program has a name that the module knows, that
/// another one has, or that the runtime uses, and the module knows none of the
/// names that the runtime uses.
pub open spec fn names_apart(program: ProgramModel, module: JITModule) -> bool {
    &&& builtins_free(decls_of(module), data_of(module))
    &&& forall|i: int|
        0 <= i < program.functions.len() ==> name_free(
            decls_of(module),
            data_of(module),
            #[trigger] program.functions[i].name,
        ) && !is_builtin_name(program.functions[i].name)
    &&& forall|i: int, j: int|
        0 <= i < j < program.functions.len() ==> (#[trigger] program.functions[i]).name != (
        #[trigger] program.functions[j]).name
}

/// Whether a name is one that the runtime uses.
pub open spec fn is_builtin_name(name: Seq<char>) -> bool {
    ||| name == "builtin::alloc_gc"@
    ||| name == "builtin::push_stack_frame"@
    ||| name == "builtin::pop_stack_frame"@
    ||| name == "builtin::runtime_ptr"@
}

/// Whether the runtime knows the functions that it knew, as it knew them.
pub open spec fn funcs_kept(before: Seq<Seq<usize>>, after: Seq<Seq<usize>>) -> bool {
    &&& before.len() <= after.len()
    &&& forall|i: int| 0 <= i < before.len() ==> (#[trigger] after[i]) == before[i]
}

/// Tells the module and the runtime of all functions of the program.
fn declare_functions(
    program: &Program,
    layouts: &Vec<Option<Layout>>,
    module: &mut JITModule,
    rt: &mut Runtime,
) -> (res: Result<(Vec<u32>, KeyMap), ModuleError>)
    requires
        program.wf(),
        layouts@ == all_layouts(program@.types),
        all_sigs_pass(program@),
        old(rt).wf(),
        old(rt)@.funcs.len() + program@.functions.len() <= MAX_SLOTS,
        decls_of(*old(module)).len() + program@.functions.len() <= MAX_ENTITIES,
    ensures
        final(rt).wf(),
        final(rt)@ == (RuntimeModel { funcs: final(rt)@.funcs, ..old(rt)@ }),
        funcs_kept(old(rt)@.funcs, final(rt)@.funcs),
        defs_of(*final(module)) == defs_of(*old(module)),
        data_of(*final(module)) == data_of(*old(module)),
        frames_of(*final(module)) == frames_of(*old(module)),
        checks_code(*final(module)) == checks_code(*old(module)),
        names_apart(program@, *old(module)) ==> {
            &&& res matches Ok((ids, _)) && ids@ == numbers_from(
                decls_of(*old(module)).len(),
                program@.functions.len(),
            )
            &&& decls_of(*final(module)) == decls_of(*old(module)) + func_decls(program@)
        },
        res matches Ok((ids, map)) ==> {
            &&& ids@.len() == program@.functions.len()
            &&& functions_declared(program@, decls_of(*final(module)), ids@, ids@.len() as int)
            &&& decls_of(*final(module)).len() <= decls_of(*old(module)).len()
                + program@.functions.len()
            &&& map.wf()
            &&& map@ == keys_shifted(program@.functions.len(), old(rt)@.funcs.len())
            &&& final(rt)@.funcs == old(rt)@.funcs + Seq::new(
                program@.functions.len(),
                |i: int| Seq::<usize>::empty(),
            )
        },
{
    let ghost before = rt@;
    let ghost known = decls_of(*module);
    let ghost empties = Seq::new(program@.functions.len(), |i: int| Seq::<usize>::empty());
    let mut ids: Vec<u32> = Vec::new();
    let mut map = KeyMap::new();
    assert(map@ =~= keys_shifted(0, before.funcs.len()));
    assert(before.funcs =~= before.funcs + empties.take(0));
    assert(known =~= known + func_decls(program@).take(0));
    let mut i: usize = 0;
    while i < program.functions.len()
        invariant
            program.wf(),
            layouts@ == all_layouts(program@.types),
            all_sigs_pass(program@),
            before == old(rt)@,
            known == decls_of(*old(module)),
            before.funcs.len() + program@.functions.len() <= MAX_SLOTS,
            known.len() + program@.functions.len() <= MAX_ENTITIES,
            empties == Seq::new(program@.functions.len(), |i: int| Seq::<usize>::empty()),
            i <= program@.functions.len(),
            ids@.len() == i,
            rt.wf(),
            rt@ == (RuntimeModel { funcs: before.funcs + empties.take(i as int), ..before }),
            map.wf(),
            map@ == keys_shifted(i as nat, before.funcs.len()),
            defs_of(*module) == defs_of(*old(module)),
            data_of(*module) == data_of(*old(module)),
            frames_of(*module) == frames_of(*old(module)),
            checks_code(*module) == checks_code(*old(module)),
            decls_of(*module).len() <= known.len() + i,
            names_apart(program@, *old(module)) ==> ids@ =~= numbers_from(known.len(), i as nat)
                && decls_of(*module) == known + func_decls(program@).take(i as int),
            functions_declared(program@, decls_of(*module), ids@, i as int),
        decreases program@.functions.len() - i,
    {
        proof {
            program.functions.lemma_len();
            assert(sig_passes(program@.types, program@.functions[i as int]));
            if names_apart(program@, *old(module)) {
                lemma_name_still_free(program@, *old(module), i as int);
            }
        }
        let id = FuncId { key: program.functions.key_of(i) };
        if let Some(func) = program.functions.get(id.key) {
            assert(program@.functions[i as int] == func@);
            if let Some(sig) = cf_signature(program, layouts, func) {
                let ghost decls = decls_of(*module);
                let cf_func_id = match module_declare_function(
                    module,
                    func.name.as_str(),
                    ClifLinkage::Export,
                    &sig,
                ) {
                    Ok(cf_func_id) => cf_func_id,
                    Err(error) => {
                        return Err(error);
                    },
                };
                let ghost ids_before = ids@;
                ids.push(cf_func_id);
                proof {
                    assert forall|j: int| 0 <= j < i implies (#[trigger] ids@[j]) < decls_of(
                        *module,
                    ).len() && decls_of(*module)[ids@[j] as int] == decls[ids@[j] as int] by {
                        assert(ids_before[j] < decls.len());
                    }
                    assert(functions_declared(program@, decls_of(*module), ids@, i + 1)) by {
                        assert forall|j: int| 0 <= j < i implies (#[trigger] ids@[j])
                            == ids_before[j] by {}
                    }
                    if names_apart(program@, *old(module)) {
                        assert((known + func_decls(program@).take(i as int)).push(
                            func_decl(program@, i as int),
                        ) =~= known + func_decls(program@).take(i + 1));
                    }
                    lemma_keys_shifted(i as nat, before.funcs.len());
                }
                let ghost now = rt@.funcs;
                let rt_func = RuntimeBuilder::declare_func(rt);
                assert(now.push(Seq::empty()) =~= before.funcs + empties.take(i + 1));
                map.insert(id.key, rt_func.key);
            }
        }
        i = i + 1;
    }
    assert(empties.take(i as int) =~= empties);
    assert(func_decls(program@).take(i as int) =~= func_decls(program@));
    Ok((ids, map))
}

/// A function whose name is its own finds its name free when those before it are
/// declared.
proof fn lemma_name_still_free(program: ProgramModel, module: JITModule, i: int)
    requires
        names_apart(program, module),
        0 <= i < program.functions.len(),
    ensures
        name_free(
            decls_of(module) + func_decls(program).take(i),
            data_of(module),
            program.functions[i].name,
        ),
{
    let name = program.functions[i].name;
    let known = decls_of(module);
    let decls = known + func_decls(program).take(i);
    assert(name_free(known, data_of(module), name));
    assert forall|k: int| 0 <= k < decls.len() implies (#[trigger] decls[k]).name != Some(name) by {
        if k < known.len() {
            assert(decls[k] == known[k]);
        } else {
            assert(decls[k] == func_decl(program, k - known.len()));
            assert(program.functions[k - known.len()].name != program.functions[i].name);
        }
    }
}

/// Declaring functions of other names leaves the names free that the runtime uses.
proof fn lemma_builtins_still_free(program: ProgramModel, module: JITModule)
    requires
        names_apart(program, module),
    ensures
        builtins_free(decls_of(module) + func_decls(program), data_of(module)),
{
    let known = decls_of(module);
    let decls = known + func_decls(program);
    assert forall|k: int, name: Seq<char>|
        #![trigger decls[k], is_builtin_name(name)]
        0 <= k < decls.len() && is_builtin_name(name) implies decls[k].name != Some(name) by {
        if k < known.len() {
            assert(decls[k] == known[k]);
        } else {
            assert(decls[k] == func_decl(program, k - known.len()));
            assert(!is_builtin_name(program.functions[k - known.len()].name));
        }
    }
}

/// Whether the names of what the runtime provides are free.
pub open spec fn builtins_free(decls: Seq<ClifDecl>, data: Seq<ClifData>) -> bool {
    &&& name_free(decls, data, "builtin::alloc_gc"@)
    &&& name_free(decls, data, "builtin::push_stack_frame"@)
    &&& name_free(decls, data, "builtin::pop_stack_frame"@)
    &&& name_free(decls, data, "builtin::runtime_ptr"@)
}

/// What the module is told of a function of the runtime.
pub open spec fn import_decl(name: Seq<char>, sig: ClifSig) -> ClifDecl {
    ClifDecl { name: Some(name), linkage: ClifLinkage::Import, sig }
}

/// What the module is told of the functions of the runtime.
pub open spec fn builtin_decls() -> Seq<ClifDecl> {
    seq![
        import_decl("builtin::alloc_gc"@, alloc_sig()),
        import_decl("builtin::push_stack_frame"@, push_stack_frame_sig()),
        import_decl("builtin::pop_stack_frame"@, pop_stack_frame_sig()),
    ]
}

/// Whether the module knows what the runtime provides.
pub open spec fn builtins_declared(module: JITModule, builtins: BuiltinIds) -> bool {
    let decls = decls_of(module);
    &&& builtins.fn_alloc < decls.len()
    &&& decls[builtins.fn_alloc as int].name == Some("builtin::alloc_gc"@)
    &&& decls[builtins.fn_alloc as int].sig == alloc_sig()
    &&& builtins.fn_push_stack_frame < decls.len()
    &&& decls[builtins.fn_push_stack_frame as int].name == Some("builtin::push_stack_frame"@)
    &&& decls[builtins.fn_push_stack_frame as int].sig == push_stack_frame_sig()
    &&& builtins.fn_pop_stack_frame < decls.len()
    &&& decls[builtins.fn_pop_stack_frame as int].name == Some("builtin::pop_stack_frame"@)
    &&& decls[builtins.fn_pop_stack_frame as int].sig == pop_stack_frame_sig()
    &&& builtins.data_runtime_ptr < data_of(module).len()
    &&& data_of(module)[builtins.data_runtime_ptr as int].name == Some("builtin::runtime_ptr"@)
}

/// Tells the module of a function of the runtime. What it knew before it knows
/// unchanged.
fn declare_import(module: &mut JITModule, builtin: &BuiltinFn) -> (res: Result<u32, ModuleError>)
    requires
        decls_of(*old(module)).len() < MAX_ENTITIES,
    ensures
        data_of(*final(module)) == data_of(*old(module)),
        defs_of(*final(module)) == defs_of(*old(module)),
        frames_of(*final(module)) == frames_of(*old(module)),
        checks_code(*final(module)) == checks_code(*old(module)),
        name_free(decls_of(*old(module)), data_of(*old(module)), builtin.name@) ==> {
            &&& res matches Ok(id) && id == decls_of(*old(module)).len()
            &&& decls_of(*final(module)) == decls_of(*old(module)).push(
                import_decl(builtin.name@, builtin_sig(builtin.params@, builtin.ret)),
            )
        },
        match res {
            Ok(id) => {
                &&& id < decls_of(*final(module)).len()
                &&& decls_of(*final(module))[id as int].name == Some(builtin.name@)
                &&& decls_of(*final(module))[id as int].sig == builtin_sig(
                    builtin.params@,
                    builtin.ret,
                )
                &&& decls_of(*final(module)) == decls_of(*old(module)) || decls_of(*final(module))
                    == decls_of(*old(module)).push(decls_of(*final(module))[id as int])
            },
            Err(_) => true,
        },
{
    let sig = builtin.sig();
    let ghost decls = decls_of(*module);
    let res = module_declare_function(module, builtin.name, ClifLinkage::Import, &sig);
    proof {
        if let Ok(id) = res {
            if !name_free(decls, data_of(*module), builtin.name@) {
                assert(decls.update(id as int, decls[id as int]) =~= decls);
            }
        }
    }
    res
}

/// The names that the runtime uses are four.
proof fn lemma_builtin_names()
    ensures
        "builtin::alloc_gc"@ != "builtin::push_stack_frame"@,
        "builtin::alloc_gc"@ != "builtin::pop_stack_frame"@,
        "builtin::alloc_gc"@ != "builtin::runtime_ptr"@,
        "builtin::push_stack_frame"@ != "builtin::pop_stack_frame"@,
        "builtin::push_stack_frame"@ != "builtin::runtime_ptr"@,
        "builtin::pop_stack_frame"@ != "builtin::runtime_ptr"@,
{
    reveal_strlit("builtin::alloc_gc");
    reveal_strlit("builtin::push_stack_frame");
    reveal_strlit("builtin::pop_stack_frame");
    reveal_strlit("builtin::runtime_ptr");
    assert("builtin::alloc_gc"@.len() == 17);
    assert("builtin::push_stack_frame"@.len() == 25);
    assert("builtin::pop_stack_frame"@.len() == 24);
    assert("builtin::runtime_ptr"@.len() == 20);
}

/// Tells the module of what the runtime provides.
fn declare_builtins(module: &mut JITModule) -> (res: Result<BuiltinIds, ModuleError>)
    requires
        decls_of(*old(module)).len() + 3 <= MAX_ENTITIES,
        data_of(*old(module)).len() < MAX_ENTITIES,
    ensures
        defs_of(*final(module)) == defs_of(*old(module)),
        frames_of(*final(module)) == frames_of(*old(module)),
        checks_code(*final(module)) == checks_code(*old(module)),
        builtins_free(decls_of(*old(module)), data_of(*old(module))) ==> {
            &&& res matches Ok(builtins) && builtins.fn_alloc == decls_of(*old(module)).len()
                && builtins.fn_push_stack_frame == decls_of(*old(module)).len() + 1
                && builtins.fn_pop_stack_frame == decls_of(*old(module)).len() + 2
            &&& decls_of(*final(module)) == decls_of(*old(module)) + builtin_decls()
        },
        res matches Ok(builtins) ==> {
            &&& builtins_declared(*final(module), builtins)
            &&& decls_of(*old(module)).len() <= decls_of(*final(module)).len()
            &&& forall|i: int|
                0 <= i < decls_of(*old(module)).len() ==> (#[trigger] decls_of(*final(module))[i])
                    == decls_of(*old(module))[i]
        },
{
    let ghost known = decls_of(*module);
    proof {
        lemma_builtin_names();
    }
    let fn_alloc = match declare_import(module, &fn_alloc_gc()) {
        Ok(id) => id,
        Err(error) => {
            return Err(error);
        },
    };
    let fn_push_stack_frame = match declare_import(module, &fn_push_stack_frame()) {
        Ok(id) => id,
        Err(error) => {
            return Err(error);
        },
    };
    let fn_pop_stack_frame = match declare_import(module, &fn_pop_stack_frame()) {
        Ok(id) => id,
        Err(error) => {
            return Err(error);
        },
    };
    proof {
        if builtins_free(known, data_of(*module)) {
            assert(decls_of(*module) =~= known + builtin_decls());
        }
    }
    let data_runtime_ptr = match module_declare_data(
        module,
        RT_PTR_SYM,
        ClifLinkage::Import,
        false,
    ) {
        Ok(id) => id,
        Err(error) => {
            return Err(error);
        },
    };
    Ok(BuiltinIds { fn_alloc, fn_push_stack_frame, fn_pop_stack_frame, data_runtime_ptr })
}

/// The environment that the code of the function made after `n` others is made
/// in, where the runtime knew `funcs` functions and `types` types before.
pub open spec fn program_env(program: ProgramModel, n: int, funcs: nat, types: nat) -> CodeEnv {
    env_of(
        program,
        func_at(n),
        keys_shifted(program.functions.len(), funcs),
        keys_shifted(program.types.infos.len(), types),
    )
}

/// Whether there is code for the function: it has blocks, asks for nothing that no
/// code can be made for, and its locals fit into a frame.
pub open spec fn code_ready(env: CodeEnv, refs: Seq<ClifRef>) -> bool {
    &&& func_ready(env, refs)
    &&& env.func().blocks.len() > 0
    &&& locals_room(env.types(), env.func().locals) <= MAX_FRAME
}

/// Whether there is code for all functions of the program.
pub open spec fn all_code_ready(
    program: ProgramModel,
    refs: Seq<ClifRef>,
    funcs: nat,
    types: nat,
) -> bool {
    forall|i: int|
        0 <= i < program.functions.len() ==> code_ready(
            #[trigger] program_env(program, i, funcs, types),
            refs,
        )
}

/// Whether `id` is the first function of the program that there is no code for.
pub open spec fn first_unready(
    program: ProgramModel,
    refs: Seq<ClifRef>,
    funcs: nat,
    types: nat,
    id: FuncId,
) -> bool {
    &&& program.has_func(id)
    &&& !code_ready(program_env(program, key_pos(id.key), funcs, types), refs)
    &&& forall|i: int|
        0 <= i < key_pos(id.key) ==> code_ready(
            #[trigger] program_env(program, i, funcs, types),
            refs,
        )
}

/// Whether `id` is the first function of the program that there is no code for,
/// under some numbers of the functions that it can call.
pub open spec fn without_code(program: ProgramModel, funcs: nat, types: nat, id: FuncId) -> bool {
    exists|refs: Seq<ClifRef>| #[trigger]
        first_unready(program, refs, funcs, types, id) && refs_known(
            program_env(program, key_pos(id.key), funcs, types),
            refs,
        )
}

/// What the functions of the program can call where the module knew `base`
/// functions, none of them by a name that is used now.
pub open spec fn fresh_refs(program: ProgramModel, base: nat) -> Seq<ClifRef> {
    Seq::new(
        program.functions.len() + 3,
        |i: int|
            ClifRef {
                func: (base + i) as u32,
                sig: if i < program.functions.len() {
                    func_sig(program.types, program.functions[i])
                } else {
                    builtin_decls()[i - program.functions.len()].sig
                },
            },
    )
}

/// Whether the locals of a function fit into a frame.
fn locals_fit(program: &Program, layouts: &Vec<Option<Layout>>, func: &Func) -> (fit: bool)
    requires
        program.wf(),
        func.wf(),
        layouts@ == all_layouts(program@.types),
        locals_ready(program@.types, func@.locals),
    ensures
        fit == (locals_room(program@.types, func@.locals) <= MAX_FRAME),
{
    let ghost types = program@.types;
    let ghost locals = func@.locals;
    let most: usize = MAX_FRAME as usize;
    let mut room: usize = 0;
    let mut i: usize = 0;
    assert(locals.take(0) =~= Seq::empty());
    while i < func.locals.len()
        invariant
            program.wf(),
            func.wf(),
            layouts@ == all_layouts(program@.types),
            types == program@.types,
            locals == func@.locals,
            locals_ready(types, locals),
            most == MAX_FRAME,
            i <= locals.len(),
            room == locals_room(types, locals.take(i as int)),
            room <= most,
        decreases locals.len() - i,
    {
        assert(locals.take(i + 1).drop_last() =~= locals.take(i as int));
        if let Some(ty) = func.locals.get(func.locals.key_of(i)) {
            assert(types.contains(locals[i as int]));
            if let Some(layout) = layout_in_table(program, layouts, *ty) {
                if most - room < 8 || layout.size > most - room - 8 {
                    proof {
                        lemma_locals_room_front(types, locals, i + 1);
                    }
                    return false;
                }
                room = room + layout.size + 8;
            }
        }
        i = i + 1;
    }
    assert(locals.take(i as int) =~= locals);
    true
}

/// Fewer locals take no more room.
proof fn lemma_locals_room_front(types: TypesModel, locals: Seq<TypeId>, n: int)
    requires
        0 <= n <= locals.len(),
    ensures
        locals_room(types, locals.take(n)) <= locals_room(types, locals),
    decreases locals.len(),
{
    if n == locals.len() {
        assert(locals.take(n) =~= locals);
    } else {
        assert(locals.drop_last().take(n) =~= locals.take(n));
        lemma_locals_room_front(types, locals.drop_last(), n);
    }
}

/// Whether the functions of a program were lowered: each has its code, and the
/// references in its frame are known.
pub open spec fn functions_lowered(
    program: ProgramModel,
    refs: Seq<ClifRef>,
    funcs: nat,
    types: nat,
    lowered: Seq<FunctionCompRes>,
) -> bool {
    forall|i: int|
        #![trigger lowered[i]]
        0 <= i < lowered.len() ==> {
            let env = program_env(program, i, funcs, types);
            &&& code_ready(env, refs)
            &&& body_of(lowered[i].func) == func_code(env, refs)
            &&& lowered[i].gc_root_stackslots@ == root_slots(
                program.types,
                program.functions[i].locals,
            )
        }
}

/// Lowers all functions of the program. Gives the first one that there is no code
/// for where there is one.
fn lower_functions(
    program: &Program,
    layouts: &Vec<Option<Layout>>,
    module: &mut JITModule,
    func_id_map: &Vec<u32>,
    func_to_rt_func: &KeyMap,
    ty_to_rt_ty: &KeyMap,
    builtin_ids: &BuiltinIds,
    Ghost(funcs): Ghost<nat>,
    Ghost(types): Ghost<nat>,
) -> (res: Result<VecDeque<FunctionCompRes>, FuncId>)
    requires
        program.wf(),
        layouts@ == all_layouts(program@.types),
        declared_in(program@, decls_of(*old(module)), func_id_map@, *builtin_ids),
        func_to_rt_func.wf(),
        func_to_rt_func@ == keys_shifted(program@.functions.len(), funcs),
        ty_to_rt_ty.wf(),
        ty_to_rt_ty@ == keys_shifted(program@.types.infos.len(), types),
    ensures
        decls_of(*final(module)) == decls_of(*old(module)),
        data_of(*final(module)) == data_of(*old(module)),
        defs_of(*final(module)) == defs_of(*old(module)),
        frames_of(*final(module)) == frames_of(*old(module)),
        checks_code(*final(module)) == checks_code(*old(module)),
        ({
            let refs = refs_of(decls_of(*old(module)), func_id_map@, *builtin_ids);
            match res {
                Ok(lowered) => {
                    &&& lowered@.len() == program@.functions.len()
                    &&& functions_lowered(program@, refs, funcs, types, lowered@)
                },
                Err(id) => first_unready(program@, refs, funcs, types, id),
            }
        }),
{
    let ghost refs = refs_of(decls_of(*module), func_id_map@, *builtin_ids);
    let mut lowered: VecDeque<FunctionCompRes> = VecDeque::new();
    let mut i: usize = 0;
    while i < program.functions.len()
        invariant
            program.wf(),
            layouts@ == all_layouts(program@.types),
            func_to_rt_func.wf(),
            func_to_rt_func@ == keys_shifted(program@.functions.len(), funcs),
            ty_to_rt_ty.wf(),
            ty_to_rt_ty@ == keys_shifted(program@.types.infos.len(), types),
            i <= program@.functions.len(),
            decls_of(*module) == decls_of(*old(module)),
            data_of(*module) == data_of(*old(module)),
            defs_of(*module) == defs_of(*old(module)),
            frames_of(*module) == frames_of(*old(module)),
            checks_code(*module) == checks_code(*old(module)),
            declared_in(program@, decls_of(*module), func_id_map@, *builtin_ids),
            refs == refs_of(decls_of(*module), func_id_map@, *builtin_ids),
            lowered@.len() == i,
            functions_lowered(program@, refs, funcs, types, lowered@),
        decreases program@.functions.len() - i,
    {
        proof {
            program.functions.lemma_len();
        }
        let func_id = FuncId { key: program.functions.key_of(i) };
        let ghost env = program_env(program@, i as int, funcs, types);
        proof {
            assert(func_id == func_at(i as int));
            assert forall|j: int| 0 <= j < i implies code_ready(
                #[trigger] program_env(program@, j, funcs, types),
                refs,
            ) by {
                assert(body_of(lowered@[j].func) == func_code(
                    program_env(program@, j, funcs, types),
                    refs,
                ));
            }
        }
        let compiled = function_to_cranelift(
            program,
            layouts,
            func_id,
            func_id_map,
            func_to_rt_func,
            ty_to_rt_ty,
            module,
            builtin_ids,
        );
        let res = match compiled {
            Some(res) => res,
            None => {
                return Err(func_id);
            },
        };
        let fits = match program.functions.get(func_id.key) {
            Some(func) => {
                proof {
                    assert(program@.functions[i as int] == func@);
                    assert(env.func() == func@);
                    assert(locals_ready(program@.types, func@.locals));
                }
                func.blocks.len() > 0 && locals_fit(program, layouts, func)
            },
            None => false,
        };
        if !fits {
            return Err(func_id);
        }
        lowered.push_back(res);
        i = i + 1;
    }
    Ok(lowered)
}

/// Whether code was made for the first `n` functions of the program.
pub open spec fn functions_defined(
    program: ProgramModel,
    defs: Map<u32, ClifBody>,
    ids: Seq<u32>,
    refs: Seq<ClifRef>,
    funcs: nat,
    types: nat,
    n: int,
) -> bool {
    forall|i: int|
        #![trigger ids[i]]
        0 <= i < n ==> {
            let env = program_env(program, i, funcs, types);
            &&& code_ready(env, refs)
            &&& defs.contains_key(ids[i])
            &&& defs[ids[i]] == func_code(env, refs)
        }
}

/// Whether the runtime knows where the references into managed memory lie in the
/// frames of the first `n` functions of the program: how far each is below the
/// frame pointer, in the frame that came with the code of the function.
pub open spec fn roots_known(
    program: ProgramModel,
    rt_funcs: Seq<Seq<usize>>,
    frames: Map<u32, ClifFrame>,
    ids: Seq<u32>,
    funcs: nat,
    n: int,
) -> bool {
    forall|i: int|
        #![trigger ids[i]]
        0 <= i < n ==> {
            let roots = root_slots(program.types, program.functions[i].locals);
            &&& frames.contains_key(ids[i])
            &&& roots_in_frame(roots, frames[ids[i]])
            &&& rt_funcs[funcs + i] == root_distances(roots, frames[ids[i]])
        }
}

/// The signatures of the functions of the program and of the runtime fit.
proof fn lemma_refs_narrow(
    program: ProgramModel,
    decls: Seq<ClifDecl>,
    ids: Seq<u32>,
    builtins: BuiltinIds,
)
    requires
        declared_in(program, decls, ids, builtins),
        all_sigs_pass(program),
    ensures
        forall|i: int|
            0 <= i < refs_of(decls, ids, builtins).len() ==> sig_fits(
                (#[trigger] refs_of(decls, ids, builtins)[i]).sig,
            ),
{
    let refs = refs_of(decls, ids, builtins);
    assert forall|i: int| 0 <= i < refs.len() implies sig_fits((#[trigger] refs[i]).sig) by {
        if i < ids.len() {
            assert(ids[i] < decls.len());
            assert(sig_passes(program.types, program.functions[i]));
        }
    }
}

/// Makes the code of all functions, and tells the runtime where the references in
/// their frames lie.
fn define_functions(
    program: &Program,
    module: &mut JITModule,
    rt: &mut Runtime,
    lowered: VecDeque<FunctionCompRes>,
    func_id_map: &Vec<u32>,
    func_to_rt_func: &KeyMap,
    Ghost(refs): Ghost<Seq<ClifRef>>,
    Ghost(funcs): Ghost<nat>,
    Ghost(types): Ghost<nat>,
) -> (res: Result<(), CompileError>)
    requires
        program.wf(),
        old(rt).wf(),
        old(rt)@.funcs.len() == funcs + program@.functions.len(),
        checks_code(*old(module)),
        all_sigs_pass(program@),
        forall|i: int| 0 <= i < refs.len() ==> sig_fits((#[trigger] refs[i]).sig),
        forall|i: int|
            0 <= i < program@.functions.len() ==> refs_known(
                #[trigger] program_env(program@, i, funcs, types),
                refs,
            ),
        func_id_map@.len() == program@.functions.len(),
        forall|i: int|
            0 <= i < func_id_map@.len() ==> (#[trigger] func_id_map@[i]) < decls_of(
                *old(module),
            ).len(),
        lowered@.len() == program@.functions.len(),
        functions_lowered(program@, refs, funcs, types, lowered@),
        func_to_rt_func.wf(),
        func_to_rt_func@ == keys_shifted(program@.functions.len(), funcs),
    ensures
        final(rt).wf(),
        final(rt)@ == (RuntimeModel { funcs: final(rt)@.funcs, ..old(rt)@ }),
        final(rt)@.funcs.len() == old(rt)@.funcs.len(),
        forall|i: int| 0 <= i < funcs ==> final(rt)@.funcs[i] == old(rt)@.funcs[i],
        decls_of(*final(module)) == decls_of(*old(module)),
        data_of(*final(module)) == data_of(*old(module)),
        program@.functions.len() == 0 ==> res is Ok,
        match res {
            Ok(_) => {
                &&& functions_defined(
                    program@,
                    defs_of(*final(module)),
                    func_id_map@,
                    refs,
                    funcs,
                    types,
                    func_id_map@.len() as int,
                )
                &&& roots_known(
                    program@,
                    final(rt)@.funcs,
                    frames_of(*final(module)),
                    func_id_map@,
                    funcs,
                    func_id_map@.len() as int,
                )
            },
            Err(error) => error is Module,
        },
{
    let ghost all = lowered@;
    let mut lowered = lowered;
    let mut i: usize = 0;
    while i < func_id_map.len()
        invariant
            program.wf(),
            all_sigs_pass(program@),
            forall|j: int| 0 <= j < refs.len() ==> sig_fits((#[trigger] refs[j]).sig),
            forall|j: int|
                0 <= j < program@.functions.len() ==> refs_known(
                    #[trigger] program_env(program@, j, funcs, types),
                    refs,
                ),
            func_id_map@.len() == program@.functions.len(),
            forall|j: int|
                0 <= j < func_id_map@.len() ==> (#[trigger] func_id_map@[j]) < decls_of(
                    *old(module),
                ).len(),
            all.len() == program@.functions.len(),
            functions_lowered(program@, refs, funcs, types, all),
            func_to_rt_func.wf(),
            func_to_rt_func@ == keys_shifted(program@.functions.len(), funcs),
            i <= func_id_map@.len(),
            lowered@ =~= all.skip(i as int),
            rt.wf(),
            rt@ == (RuntimeModel { funcs: rt@.funcs, ..old(rt)@ }),
            rt@.funcs.len() == old(rt)@.funcs.len(),
            rt@.funcs.len() == funcs + program@.functions.len(),
            forall|j: int| 0 <= j < funcs ==> rt@.funcs[j] == old(rt)@.funcs[j],
            checks_code(*module),
            decls_of(*module) == decls_of(*old(module)),
            data_of(*module) == data_of(*old(module)),
            functions_defined(
                program@,
                defs_of(*module),
                func_id_map@,
                refs,
                funcs,
                types,
                i as int,
            ),
            roots_known(
                program@,
                rt@.funcs,
                frames_of(*module),
                func_id_map@,
                funcs,
                i as int,
            ),
        decreases func_id_map@.len() - i,
    {
        proof {
            program.functions.lemma_len();
            rt.lemma_wf();
        }
        let ghost defs = defs_of(*module);
        let ghost frames = frames_of(*module);
        let ghost rt_funcs = rt@.funcs;
        let func_id = FuncId { key: program.functions.key_of(i) };
        let ghost env = program_env(program@, i as int, funcs, types);
        if let Some(FunctionCompRes { func, gc_root_stackslots }) = lowered.pop_front() {
            let ghost slots = gc_root_stackslots@;
            proof {
                assert(all[i as int].func == func);
                assert(func_id == func_at(i as int));
                assert(env.func() == program@.functions[i as int]);
                assert(sig_passes(program@.types, program@.functions[i as int]));
                lemma_func_sizes(program, i as int);
                lemma_can_define(env, refs);
            }
            let made = module_define_function(module, func_id_map[i], func);
            proof {
                if made is Ok {
                    assert(locals_ready(program@.types, env.func().locals));
                    lemma_roots_in_frame(program@.types, env.func().locals, made->Ok_0->0@);
                }
            }
            let roots = match roots_from_frame(func_id, &gc_root_stackslots, made) {
                Ok(roots) => roots,
                Err(error) => {
                    return Err(error);
                },
            };
            if let Some(rt_func) = func_to_rt_func.get(func_id.key) {
                RuntimeBuilder::define_func(rt, RtFuncId { key: rt_func }, RtFuncData { roots });
            }
            proof {
                assert forall|j: int| 0 <= j < i implies (#[trigger] func_id_map@[j])
                    != func_id_map@[i as int] by {
                    assert(defs.contains_key(func_id_map@[j]));
                }
                assert(functions_defined(
                    program@,
                    defs_of(*module),
                    func_id_map@,
                    refs,
                    funcs,
                    types,
                    i + 1,
                ));
                assert(roots_known(
                    program@,
                    rt@.funcs,
                    frames_of(*module),
                    func_id_map@,
                    funcs,
                    i + 1,
                )) by {
                    assert forall|j: int| 0 <= j < i implies rt@.funcs[funcs + j]
                        == rt_funcs[funcs + j] && frames_of(*module)[#[trigger] func_id_map@[j]]
                        == frames[func_id_map@[j]] by {}
                }
            }
        }
        i = i + 1;
    }
    Ok(())
}

/// The locals and blocks of a function can be numbered.
proof fn lemma_func_sizes(program: &Program, i: int)
    requires
        program.wf(),
        0 <= i < program@.functions.len(),
    ensures
        program@.functions[i].locals.len() < MAX_ENTITIES,
        program@.functions[i].blocks.len() < MAX_ENTITIES,
{
    let func = program.functions@[i];
    func.locals.lemma_len();
    func.blocks.lemma_len();
}

/// A program that was compiled: the module that holds its code, and the numbers
/// of its functions and of those of the runtime in it.
pub struct CompiledProgram {
    pub module: JITModule,
    pub func_name_to_id: NameMap,
    pub func_id_map: Vec<u32>,
    pub builtin_ids: BuiltinIds,
}

/// The names of the functions of a program, with their numbers.
pub open spec fn names_of(program: ProgramModel, ids: Seq<u32>) -> Seq<(Seq<char>, u64)> {
    Seq::new(ids.len(), |i: int| (program.functions[i].name, ids[i] as u64))
}

/// The numbers of the functions of a program by their names. Of functions with the
/// same name the last one counts.
fn func_names(program: &Program, ids: &Vec<u32>) -> (names: NameMap)
    requires
        program.wf(),
        ids@.len() == program@.functions.len(),
    ensures
        names@ == assoc_map(names_of(program@, ids@)),
{
    let ghost pairs = names_of(program@, ids@);
    let mut names = NameMap::new();
    let mut i: usize = 0;
    assert(pairs.take(0) =~= Seq::empty());
    while i < ids.len()
        invariant
            program.wf(),
            ids@.len() == program@.functions.len(),
            pairs == names_of(program@, ids@),
            i <= ids.len(),
            names@ == assoc_map(pairs.take(i as int)),
        decreases ids.len() - i,
    {
        assert(pairs.take(i + 1).drop_last() =~= pairs.take(i as int));
        let key = program.functions.key_of(i);
        if let Some(func) = program.functions.get(key) {
            assert(program@.functions[i as int] == func@);
            names.insert(func.name.as_str().to_owned(), ids[i] as u64);
        }
        i = i + 1;
    }
    assert(pairs.take(i as int) =~= pairs);
    names
}

/// Whether names lead to the code of the functions that have them: the module has the
/// function under the number that the name stands for, with that name and the code of
/// that function. Of functions with the same name the last one counts. No other names
/// stand for anything.
pub open spec fn names_lead(
    program: ProgramModel,
    names: Map<Seq<char>, u64>,
    decls: Seq<ClifDecl>,
    defs: Map<u32, ClifBody>,
    refs: Seq<ClifRef>,
    funcs: nat,
    types: nat,
) -> bool {
    &&& forall|i: int|
        0 <= i < program.functions.len() && last_of_name(program, i) ==> {
            let name = (#[trigger] program.functions[i]).name;
            &&& names.contains_key(name)
            &&& names[name] < decls.len()
            &&& decls[names[name] as int].name == Some(name)
            &&& decls[names[name] as int].linkage == ClifLinkage::Export
            &&& defs.contains_key(names[name] as u32)
            &&& defs[names[name] as u32] == func_code(
                program_env(program, i, funcs, types),
                refs,
            )
        }
    &&& forall|name: Seq<char>| #[trigger]
        names.contains_key(name) ==> exists|i: int|
            0 <= i < program.functions.len() && (#[trigger] program.functions[i]).name == name
}

/// Whether no function that comes later has the same name.
pub open spec fn last_of_name(program: ProgramModel, i: int) -> bool {
    forall|j: int|
        i < j < program.functions.len() ==> (#[trigger] program.functions[j]).name
            != program.functions[i].name
}

/// The name of a function of a compiled program leads to its code.
pub proof fn law_names_lead_to_code(
    program: ProgramModel,
    decls: Seq<ClifDecl>,
    defs: Map<u32, ClifBody>,
    refs: Seq<ClifRef>,
    ids: Seq<u32>,
    funcs: nat,
    types: nat,
)
    requires
        ids.len() == program.functions.len(),
        functions_declared(program, decls, ids, ids.len() as int),
        functions_defined(program, defs, ids, refs, funcs, types, ids.len() as int),
    ensures
        names_lead(
            program,
            assoc_map(names_of(program, ids)),
            decls,
            defs,
            refs,
            funcs,
            types,
        ),
{
    let pairs = names_of(program, ids);
    let names = assoc_map(pairs);
    assert forall|i: int| 0 <= i < program.functions.len() && last_of_name(program, i) implies {
        let name = (#[trigger] program.functions[i]).name;
        &&& names.contains_key(name)
        &&& names[name] == ids[i]
    } by {
        assert forall|j: int| i < j < pairs.len() implies pairs[j].0 != pairs[i].0 by {
            assert(program.functions[j].name != program.functions[i].name);
        }
        lemma_assoc_at(pairs, i);
    }
    assert forall|name: Seq<char>| #[trigger] names.contains_key(name) implies exists|i: int|
        0 <= i < program.functions.len() && (#[trigger] program.functions[i]).name == name by {
        if forall|i: int| 0 <= i < program.functions.len() ==> (#[trigger] program.functions[i]).name
            != name {
            assert forall|j: int| 0 <= j < pairs.len() implies pairs[j].0 != name by {
                assert(program.functions[j].name != name);
            }
            lemma_assoc_absent(pairs, name);
        }
    }
}

/// Whether the runtime has room for the types and functions of the program, and
/// the module for its functions and for what the runtime provides.
pub open spec fn has_room(program: ProgramModel, module: JITModule, rt: RuntimeModel) -> bool {
    &&& rt.types.len() + program.types.infos.len() <= MAX_SLOTS
    &&& rt.funcs.len() + program.functions.len() <= MAX_SLOTS
    &&& decls_of(module).len() + program.functions.len() + 3 <= MAX_ENTITIES
    &&& data_of(module).len() < MAX_ENTITIES
}

/// Whether the functions of the program can be looked at: there is room for them,
/// the module checks what it is handed, and all types have layouts.
pub open spec fn can_start(program: ProgramModel, module: JITModule, rt: RuntimeModel) -> bool {
    has_room(program, module, rt) && checks_code(module) && all_laid_out(program.types)
}

/// Compiles a program into a module, and tells the runtime of its types and
/// functions. Before any code is made, all functions are looked at: the first one
/// without a signature, or else the first one that there is no code for, is the
/// error.
#[verifier::spinoff_prover]
#[verifier::rlimit(80)]
pub fn compile_program(program: &Program, module: JITModule, rt: &mut Runtime) -> (res: Result<
    CompiledProgram,
    CompileError,
>)
    requires
        program.wf(),
        old(rt).wf(),
    ensures
        final(rt).wf(),
        final(rt)@ == (RuntimeModel {
            funcs: final(rt)@.funcs,
            types: if can_start(program@, module, old(rt)@) {
                old(rt)@.types + rt_types_of(program@.types)
            } else {
                old(rt)@.types
            },
            ..old(rt)@
        }),
        funcs_kept(old(rt)@.funcs, final(rt)@.funcs),
        res matches Err(CompileError::TooMany) <==> !has_room(program@, module, old(rt)@),
        res matches Err(CompileError::Unchecked) <==> has_room(program@, module, old(rt)@)
            && !checks_code(module),
        res matches Err(CompileError::Layout) <==> has_room(program@, module, old(rt)@)
            && checks_code(module) && !all_laid_out(program@.types),
        res matches Err(CompileError::Signature(_)) <==> can_start(program@, module, old(rt)@)
            && !all_sigs_pass(program@),
        !(res matches Err(CompileError::Frame(_))),
        can_start(program@, module, old(rt)@) && all_sigs_pass(program@) && names_apart(
            program@,
            module,
        ) ==> {
            let refs = fresh_refs(program@, decls_of(module).len());
            let (funcs, types) = (old(rt)@.funcs.len(), old(rt)@.types.len());
            &&& (res matches Err(CompileError::Code(_))) <==> !all_code_ready(
                program@,
                refs,
                funcs,
                types,
            )
            &&& res matches Err(CompileError::Code(id)) ==> first_unready(
                program@,
                refs,
                funcs,
                types,
                id,
            )
            &&& program@.functions.len() == 0 ==> res is Ok
            &&& res matches Ok(compiled) ==> compiled.func_id_map@ == numbers_from(
                decls_of(module).len(),
                program@.functions.len(),
            )
        },
        match res {
            Ok(compiled) => {
                let decls = decls_of(compiled.module);
                let ids = compiled.func_id_map@;
                &&& ids.len() == program@.functions.len()
                &&& functions_declared(program@, decls, ids, ids.len() as int)
                &&& builtins_declared(compiled.module, compiled.builtin_ids)
                &&& functions_defined(
                    program@,
                    defs_of(compiled.module),
                    ids,
                    refs_of(decls, ids, compiled.builtin_ids),
                    old(rt)@.funcs.len(),
                    old(rt)@.types.len(),
                    ids.len() as int,
                )
                &&& compiled.func_name_to_id@ == assoc_map(names_of(program@, ids))
                &&& names_lead(
                    program@,
                    compiled.func_name_to_id@,
                    decls,
                    defs_of(compiled.module),
                    refs_of(decls, ids, compiled.builtin_ids),
                    old(rt)@.funcs.len(),
                    old(rt)@.types.len(),
                )
                &&& final(rt)@.funcs.len() == old(rt)@.funcs.len() + program@.functions.len()
                &&& roots_known(
                    program@,
                    final(rt)@.funcs,
                    frames_of(compiled.module),
                    ids,
                    old(rt)@.funcs.len(),
                    ids.len() as int,
                )
            },
            Err(CompileError::Signature(id)) => first_unpassing(program@, id),
            Err(CompileError::Code(id)) => {
                &&& can_start(program@, module, old(rt)@)
                &&& all_sigs_pass(program@)
                &&& without_code(program@, old(rt)@.funcs.len(), old(rt)@.types.len(), id)
            },
            Err(_) => true,
        },
{
    let ghost before = rt@;
    let ghost given = module;
    let mut module = module;
    proof {
        rt.lemma_wf();
        program.functions.lemma_len();
    }
    let functions: usize = program.functions.len();
    if program.types.len() > MAX_SLOTS - rt.type_count() || functions > MAX_SLOTS
        - rt.func_count() {
        return Err(CompileError::TooMany);
    }
    let declared: usize = module_func_count(&module);
    let most: usize = MAX_ENTITIES as usize;
    if declared > most || most - declared < 3 || functions > most - declared - 3
        || module_data_count(&module) >= most {
        return Err(CompileError::TooMany);
    }
    if !module_checks_code(&module) {
        return Err(CompileError::Unchecked);
    }
    let layouts = program.types.layouts();
    let ty_to_rt_ty = match register_types(program, &layouts, rt) {
        Some(map) => map,
        None => {
            return Err(CompileError::Layout);
        },
    };
    if let Some(id) = unpassing(program, &layouts) {
        return Err(CompileError::Signature(id));
    }
    let (func_id_map, func_to_rt_func) = match declare_functions(
        program,
        &layouts,
        &mut module,
        rt,
    ) {
        Ok(declared) => declared,
        Err(error) => {
            return Err(CompileError::Module(error));
        },
    };
    let ghost decls = decls_of(module);
    proof {
        if names_apart(program@, given) {
            lemma_builtins_still_free(program@, given);
        }
    }
    let builtin_ids = match declare_builtins(&mut module) {
        Ok(ids) => ids,
        Err(error) => {
            return Err(CompileError::Module(error));
        },
    };
    let ghost refs = refs_of(decls_of(module), func_id_map@, builtin_ids);
    let ghost funcs = before.funcs.len();
    let ghost types = before.types.len();
    proof {
        let now = decls_of(module);
        assert(functions_declared(program@, now, func_id_map@, func_id_map@.len() as int)) by {
            assert forall|i: int| 0 <= i < func_id_map@.len() implies (#[trigger] func_id_map@[i])
                < decls.len() && now[func_id_map@[i] as int] == decls[func_id_map@[i] as int] by {}
        }
        assert(declared_in(program@, now, func_id_map@, builtin_ids));
        lemma_refs_narrow(program@, now, func_id_map@, builtin_ids);
        assert forall|i: int| 0 <= i < program@.functions.len() implies refs_known(
            #[trigger] program_env(program@, i, funcs, types),
            refs,
        ) by {
            lemma_refs_known(
                program_env(program@, i, funcs, types),
                now,
                func_id_map@,
                builtin_ids,
            );
        }
        if names_apart(program@, given) {
            lemma_fresh_refs(program@, decls_of(given), now, func_id_map@, builtin_ids);
        }
    }
    let lowered = match lower_functions(
        program,
        &layouts,
        &mut module,
        &func_id_map,
        &func_to_rt_func,
        &ty_to_rt_ty,
        &builtin_ids,
        Ghost(funcs),
        Ghost(types),
    ) {
        Ok(lowered) => lowered,
        Err(id) => {
            proof {
                assert(refs_known(program_env(program@, key_pos(id.key), funcs, types), refs));
                assert(first_unready(program@, refs, funcs, types, id));
                assert(without_code(program@, funcs, types, id));
            }
            return Err(CompileError::Code(id));
        },
    };
    proof {
        assert forall|i: int| 0 <= i < program@.functions.len() implies code_ready(
            #[trigger] program_env(program@, i, funcs, types),
            refs,
        ) by {
            assert(body_of(lowered@[i].func) == func_code(
                program_env(program@, i, funcs, types),
                refs,
            ));
        }
        assert(all_code_ready(program@, refs, funcs, types));
    }
    match define_functions(
        program,
        &mut module,
        rt,
        lowered,
        &func_id_map,
        &func_to_rt_func,
        Ghost(refs),
        Ghost(funcs),
        Ghost(types),
    ) {
        Ok(_) => {},
        Err(error) => {
            return Err(error);
        },
    }
    let func_name_to_id = func_names(program, &func_id_map);
    proof {
        law_names_lead_to_code(
            program@,
            decls_of(module),
            defs_of(module),
            refs,
            func_id_map@,
            funcs,
            types,
        );
    }
    Ok(CompiledProgram { module, func_name_to_id, func_id_map, builtin_ids })
}

/// Where all names are new, the functions have the next numbers.
proof fn lemma_fresh_refs(
    program: ProgramModel,
    known: Seq<ClifDecl>,
    decls: Seq<ClifDecl>,
    ids: Seq<u32>,
    builtins: BuiltinIds,
)
    requires
        known.len() + program.functions.len() + 3 <= MAX_ENTITIES,
        decls == known + func_decls(program) + builtin_decls(),
        ids == numbers_from(known.len(), program.functions.len()),
        builtins.fn_alloc == known.len() + program.functions.len(),
        builtins.fn_push_stack_frame == builtins.fn_alloc + 1,
        builtins.fn_pop_stack_frame == builtins.fn_alloc + 2,
    ensures
        refs_of(decls, ids, builtins) == fresh_refs(program, known.len()),
{
    let n = program.functions.len() as int;
    let refs = refs_of(decls, ids, builtins);
    assert forall|i: int| 0 <= i < n implies (#[trigger] refs[i]) == fresh_refs(
        program,
        known.len(),
    )[i] by {
        assert(decls[known.len() + i] == func_decls(program)[i]);
    }
    assert(decls[known.len() + n] == builtin_decls()[0]);
    assert(decls[known.len() + n + 1] == builtin_decls()[1]);
    assert(decls[known.len() + n + 2] == builtin_decls()[2]);
    assert(refs =~= fresh_refs(program, known.len()));
}

/// The number that the code of a function passes when it starts stands for that
/// function in the runtime, and the number that it passes when it allocates a
/// value stands for the type of the value.
pub proof fn law_code_names_what_the_runtime_knows(
    program: ProgramModel,
    n: int,
    ty: int,
    funcs: nat,
    types: nat,
)
    requires
        0 <= n < program.functions.len(),
        0 <= ty < program.types.infos.len(),
        funcs + program.functions.len() <= MAX_SLOTS,
        types + program.types.infos.len() <= MAX_SLOTS,
    ensures
        ({
            let env = program_env(program, n, funcs, types);
            &&& ffi_func(env.rt_funcs[env.id.key] as i64) == rt_func_at(funcs + n)
            &&& ffi_type(env.rt_types[type_at(ty).key] as i64) == rt_type_at(types + ty)
        }),
{
    law_ids_pass_through_code(funcs + n);
    law_ids_pass_through_code(types + ty);
}

/// A function of a compiled program that runs.
pub open spec fn compiled_scene(
    program: ProgramModel,
    n: int,
    funcs: nat,
    types: nat,
    ids: Seq<u32>,
    builtins: BuiltinIds,
    world: World,
    locals: Seq<int>,
    frame: int,
) -> Scene {
    Scene {
        env: program_env(program, n, funcs, types),
        world,
        funcs: ids,
        alloc: builtins.fn_alloc,
        push: builtins.fn_push_stack_frame,
        pop: builtins.fn_pop_stack_frame,
        locals,
        frame,
    }
}

/// The code that the module has for a function of a compiled program does what the
/// function does, whatever calls do and wherever its locals lie: it returns the same
/// values and leaves the same memory. Calls reach the functions of the program and of
/// the runtime that the function calls.
pub proof fn law_compiled_code_does_what_the_program_does(
    program: ProgramModel,
    module: JITModule,
    ids: Seq<u32>,
    builtins: BuiltinIds,
    n: int,
    funcs: nat,
    types: nat,
    world: World,
    m: Machine,
    args: Seq<int>,
    steps: nat,
)
    requires
        ids.len() == program.functions.len(),
        program.functions.len() + 3 <= MAX_ENTITIES,
        funcs + program.functions.len() <= MAX_SLOTS,
        types + program.types.infos.len() <= MAX_SLOTS,
        functions_declared(program, decls_of(module), ids, ids.len() as int),
        builtins_declared(module, builtins),
        functions_defined(
            program,
            defs_of(module),
            ids,
            refs_of(decls_of(module), ids, builtins),
            funcs,
            types,
            ids.len() as int,
        ),
        0 <= n < program.functions.len(),
        program.functions[n].has_block(program.functions[n].entrypoint),
        program.functions[n].blocks.len() < MAX_ENTITIES,
        program.functions[n].locals.len() < MAX_ENTITIES,
        program.types.prims_right(),
        m.slots.len() == program.functions[n].locals.len(),
        forall|i: int| 0 <= i < m.slots.len() ==> is_address(#[trigger] m.slots[i]),
        ({
            let scene = compiled_scene(
                program,
                n,
                funcs,
                types,
                ids,
                builtins,
                world,
                m.slots,
                m.frame,
            );
            &&& scene.args_given(m, args)
            &&& forall|b: int|
                0 <= b < program.functions[n].blocks.len() ==> #[trigger] scene.block_typed(b)
        }),
    ensures
        defs_of(module).contains_key(ids[n]),
        same_end(
            program.functions[n],
            func_after(
                compiled_scene(
                    program,
                    n,
                    funcs,
                    types,
                    ids,
                    builtins,
                    world,
                    m.slots,
                    m.frame,
                ),
                m.mem,
                args,
                program.functions[n].entrypoint,
                steps,
            ),
            code_after(world, defs_of(module)[ids[n]], m, 0, steps),
        ),
{
    let scene = compiled_scene(
        program,
        n,
        funcs,
        types,
        ids,
        builtins,
        world,
        m.slots,
        m.frame,
    );
    let decls = decls_of(module);
    let refs = refs_of(decls, ids, builtins);
    let env = scene.env;
    assert(ids[n] < decls.len());
    assert(env.func() == program.functions[n]);
    assert forall|i: int| 0 <= i < ids.len() implies (#[trigger] ids[i]) < decls.len()
        && decls[ids[i] as int].sig == func_sig(program.types, program.functions[i]) by {}
    assert(declared_in(program, decls, ids, builtins));
    lemma_refs_known(env, decls, ids, builtins);
    assert forall|i: int| #![trigger refs[i]] 0 <= i < ids.len() implies refs[i].func == ids[i]
        && refs[i].sig == func_sig(program.types, program.functions[i]) by {
        assert(ids[i] < decls.len());
    }
    let count = program.functions.len() as int;
    assert(refs[count] == ref_to(decls, builtins.fn_alloc));
    assert(refs[count + 1] == ref_to(decls, builtins.fn_push_stack_frame));
    assert(refs[count + 2] == ref_to(decls, builtins.fn_pop_stack_frame));
    assert(scene.linked(refs));
    assert(scene.sigs_linked(refs));
    assert(scene.wf());
    assert(scene.can_run(refs));
    law_code_does_what_the_function_does(scene, refs, m, args, steps);
}

/// While a function of a compiled program runs, the runtime holds what the references in
/// its locals refer to, and takes nothing else in its frame for a reference.
pub proof fn law_compiled_frames_hold_their_references(
    program: ProgramModel,
    frames: Map<u32, ClifFrame>,
    ids: Seq<u32>,
    funcs: nat,
    rt: RuntimeModel,
    n: int,
    frame_ptr: usize,
    addr: usize,
)
    requires
        ids.len() == program.functions.len(),
        funcs + program.functions.len() <= MAX_SLOTS,
        rt.funcs.len() >= funcs + program.functions.len(),
        roots_known(program, rt.funcs, frames, ids, funcs, ids.len() as int),
        0 <= n < program.functions.len(),
        program.functions[n].locals.len() < MAX_ENTITIES,
        locals_ready(program.types, program.functions[n].locals),
        frames[ids[n]].frame_to_fp <= frame_ptr,
    ensures
        rt.can_push(rt_func_at((funcs + n) as int), frame_ptr),
        rt.pushed(rt_func_at((funcs + n) as int), frame_ptr).is_root_slot(addr)
            <==> rt.is_root_slot(addr) || exists|slot: int, path: Seq<int>| #[trigger]
            is_ref_in_frame(
                program.types,
                program.functions[n].locals,
                frames[ids[n]],
                frame_ptr,
                addr,
                slot,
                path,
            ),
{
    let func = rt_func_at((funcs + n) as int);
    let locals = program.functions[n].locals;
    let frame = frames[ids[n]];
    let roots = root_slots(program.types, locals);
    let offsets = rt.funcs[funcs + n];
    assert(frames.contains_key(ids[n]));
    assert(key_pos(func.key) == funcs + n);
    assert(offsets == root_distances(roots, frame));
    assert forall|i: int| 0 <= i < offsets.len() implies (#[trigger] offsets[i]) <= frame_ptr by {
        assert(root_in_frame(roots[i], frame));
    }
    law_push_adds_slots(rt, func, frame_ptr, addr);
    law_frame_slots_are_references(program.types, locals, frame, frame_ptr, addr);
    let slots = frame_slots(frame_ptr, offsets);
    if slots.contains(addr) {
        let k = choose|k: int| 0 <= k < slots.len() && slots[k] == addr;
        assert(offsets[k] <= frame_ptr);
        assert(offsets[k] == (frame_ptr - addr) as usize);
    }
    if addr <= frame_ptr && offsets.contains((frame_ptr - addr) as usize) {
        let k = choose|k: int| 0 <= k < offsets.len() && offsets[k] == (frame_ptr - addr) as usize;
        assert(slots[k] == addr);
    }
}

/// The runtime knows of each type of a compiled program how large its values are and
/// where the references in them lie.
pub proof fn law_runtime_knows_types(types: TypesModel, i: int, offset: usize)
    requires
        all_laid_out(types),
        0 <= i < types.infos.len(),
    ensures
        rt_types_of(types).len() == types.infos.len(),
        Some(rt_types_of(types)[i].layout) == layout_of(types, types.infos[i]),
        rt_types_of(types)[i].gc_ptr_fields.contains(offset) <==> exists|path: Seq<int>| #[trigger]
            leads_to_ref(types, types.infos[i], path, offset as int),
{
    assert(layout_of(types, types.infos[i]) is Some);
    law_refs_are_where_fields_lead(types, types.infos[i], offset);
}

/// Whether a slot has the size and the alignment that a value of the type has.
pub open spec fn slot_holds(types: TypesModel, slot: ClifSlot, ty: TypeId) -> bool {
    let layout = layout_of(types, types.info(ty))->0;
    &&& slot.size == layout.size
    &&& vstd::arithmetic::power2::pow2(slot.align_shift as nat) == layout.align
}

/// The frame of a function has a slot for each local, with the room that the local needs.
pub proof fn law_locals_have_slots(env: CodeEnv, refs: Seq<ClifRef>, i: int)
    requires
        refs_known(env, refs),
        code_ready(env, refs),
        env.func().blocks.len() < MAX_ENTITIES,
        0 <= i < env.func().locals.len(),
    ensures
        func_code(env, refs).slots.len() == env.func().locals.len(),
        slot_holds(env.types(), func_code(env, refs).slots[i], env.func().locals[i]),
{
    let types = env.types();
    let locals = env.func().locals;
    lemma_blocks_code(env, frame_of(env, refs), env.func().blocks.len());
    assert(types.contains(locals[i]));
    law_layout_valid(types, types.info(locals[i]));
    lemma_locals_room(types, locals, i);
    vstd::arithmetic::power2::lemma2_to64();
}

/// The module is told of a function of the program as one that it defines, with a
/// parameter for each argument and a result where there is one, and of those of the
/// runtime as ones that it does not define.
pub proof fn law_declarations(program: ProgramModel, i: int, k: int)
    requires
        0 <= i < program.functions.len(),
        0 <= k < builtin_decls().len(),
    ensures
        func_decls(program).len() == program.functions.len(),
        func_decls(program)[i].name == Some(program.functions[i].name),
        func_decls(program)[i].linkage == ClifLinkage::Export,
        func_decls(program)[i].sig.params.len() == program.functions[i].args.len(),
        func_decls(program)[i].sig.returns.len() == if program.functions[i].return_type is Some {
            1nat
        } else {
            0nat
        },
        builtin_decls()[k].linkage == ClifLinkage::Import,
        builtin_decls()[k].name matches Some(name) && is_builtin_name(name),
{
}

} // verus!

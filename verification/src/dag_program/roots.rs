//! Where the references into managed memory in a frame lie.

use super::code::{
    align_shift, frame_of, func_code, func_ready, func_sig, law_blocks_placed, lemma_blocks_code,
    local_slots, locals_room, refs_known, root_slots, slot_roots, CodeEnv, GcRoot,
};
use super::compile::CompileError;
use super::gc_refs::{
    gc_offsets, law_refs_are_where_fields_lead, law_refs_inside, leads_to_ref, lemma_ref_offset,
};
use super::layouts::{law_layout_valid, layout_of};
use super::{FuncId, TypeId, TypesModel};
use crate::clif::{
    can_define, frame_holds, frame_room, sig_fits, ClifFrame, ClifRef, FrameLayout, MAX_ENTITIES,
    MAX_FRAME,
};
use crate::runtime::frame_slots;
use cranelift_module::ModuleError;
use vstd::prelude::*;

verus! {

/// Whether the frame holds a reference, below the frame pointer.
pub open spec fn root_in_frame(root: GcRoot, frame: ClifFrame) -> bool {
    root.slot < frame.slots.len() && frame.slots[root.slot as int] + root.offset
        <= frame.frame_to_fp
}

/// Whether the frame holds all of the references.
pub open spec fn roots_in_frame(roots: Seq<GcRoot>, frame: ClifFrame) -> bool {
    forall|i: int| 0 <= i < roots.len() ==> root_in_frame(#[trigger] roots[i], frame)
}

/// How far below the frame pointer references lie.
pub open spec fn root_distances(roots: Seq<GcRoot>, frame: ClifFrame) -> Seq<usize> {
    roots.map_values(
        |root: GcRoot|
            (frame.frame_to_fp - (frame.slots[root.slot as int] + root.offset)) as usize,
    )
}

/// How far below the frame pointer the references into managed memory lie. `None`
/// where the frame does not hold them all.
pub fn root_offsets(slots: &Vec<GcRoot>, frame: &FrameLayout) -> (roots: Option<Vec<usize>>)
    ensures
        roots is Some <==> roots_in_frame(slots@, frame@),
        roots matches Some(roots) ==> roots@ == root_distances(slots@, frame@),
{
    let mut roots: Vec<usize> = Vec::new();
    let mut i: usize = 0;
    while i < slots.len()
        invariant
            i <= slots.len(),
            forall|j: int| 0 <= j < i ==> root_in_frame(#[trigger] slots@[j], frame@),
            roots@ =~= root_distances(slots@, frame@).take(i as int),
        decreases slots.len() - i,
    {
        let root = slots[i];
        let slot: usize = root.slot as usize;
        if slot >= frame.slots.len() || frame.slots[slot] > frame.frame_to_fp || root.offset > (
        frame.frame_to_fp - frame.slots[slot]) as usize {
            assert(!root_in_frame(slots@[i as int], frame@));
            return None;
        }
        roots.push((frame.frame_to_fp - frame.slots[slot]) as usize - root.offset);
        i = i + 1;
    }
    Some(roots)
}

/// What the runtime is told of the references in the frame of a function, by what
/// came of making its code.
pub fn roots_from_frame(
    id: FuncId,
    slots: &Vec<GcRoot>,
    made: Result<Option<FrameLayout>, ModuleError>,
) -> (res: Result<Vec<usize>, CompileError>)
    ensures
        match made {
            Err(error) => res == Err::<Vec<usize>, CompileError>(CompileError::Module(error)),
            Ok(None) => res == Err::<Vec<usize>, CompileError>(CompileError::Frame(id)),
            Ok(Some(frame)) => if roots_in_frame(slots@, frame@) {
                res matches Ok(roots) && roots@ == root_distances(slots@, frame@)
            } else {
                res == Err::<Vec<usize>, CompileError>(CompileError::Frame(id))
            },
        },
{
    match made {
        Err(error) => Err(CompileError::Module(error)),
        Ok(None) => Err(CompileError::Frame(id)),
        Ok(Some(frame)) => match root_offsets(slots, &frame) {
            Some(roots) => Ok(roots),
            None => Err(CompileError::Frame(id)),
        },
    }
}

/// What the runtime takes for the address of a reference is where the reference
/// lies: its slot starts above the bottom of the frame as far as the frame layout
/// says.
pub proof fn law_roots_are_found(
    roots: Seq<GcRoot>,
    frame: ClifFrame,
    frame_ptr: usize,
    i: int,
)
    requires
        roots_in_frame(roots, frame),
        frame.frame_to_fp <= frame_ptr,
        0 <= i < roots.len(),
    ensures
        frame_slots(frame_ptr, root_distances(roots, frame))[i] == (frame_ptr - frame.frame_to_fp)
            + frame.slots[roots[i].slot as int] + roots[i].offset,
{
    assert(root_in_frame(roots[i], frame));
}

/// Whether all locals have layouts.
pub open spec fn locals_ready(types: TypesModel, locals: Seq<TypeId>) -> bool {
    forall|i: int|
        0 <= i < locals.len() ==> types.contains(#[trigger] locals[i]) && layout_of(
            types,
            types.info(locals[i]),
        ) is Some
}

/// Each reference in the frame lies in the slot of a local, where a value of the
/// local's type has one.
proof fn lemma_root_slot(types: TypesModel, locals: Seq<TypeId>, k: int)
    requires
        0 <= k < root_slots(types, locals).len(),
        locals.len() < MAX_ENTITIES,
    ensures
        ({
            let root = root_slots(types, locals)[k];
            &&& root.slot < locals.len()
            &&& root.ty == locals[root.slot as int]
            &&& gc_offsets(types, types.info(root.ty)).contains(root.offset)
        }),
    decreases locals.len(),
{
    let front = root_slots(types, locals.drop_last());
    if k < front.len() {
        lemma_root_slot(types, locals.drop_last(), k);
        assert(root_slots(types, locals)[k] == front[k]);
    } else {
        let last = slot_roots(types, (locals.len() - 1) as u32, locals.last());
        assert(root_slots(types, locals)[k] == last[k - front.len()]);
        assert(gc_offsets(types, types.info(locals.last()))[k - front.len()] == last[k
            - front.len()].offset);
    }
}

/// A reference in a value of the type of a local is one in the slot of the local.
proof fn lemma_slot_root(types: TypesModel, locals: Seq<TypeId>, slot: u32, offset: usize)
    requires
        slot < locals.len() < MAX_ENTITIES,
        gc_offsets(types, types.info(locals[slot as int])).contains(offset),
    ensures
        root_slots(types, locals).contains(GcRoot { slot, offset, ty: locals[slot as int] }),
    decreases locals.len(),
{
    let root = GcRoot { slot, offset, ty: locals[slot as int] };
    let all = root_slots(types, locals);
    let front = root_slots(types, locals.drop_last());
    if slot < locals.len() - 1 {
        lemma_slot_root(types, locals.drop_last(), slot, offset);
        let k = choose|k: int| 0 <= k < front.len() && front[k] == root;
        assert(all[k] == root);
    } else {
        let offsets = gc_offsets(types, types.info(locals.last()));
        let k = choose|k: int| 0 <= k < offsets.len() && offsets[k] == offset;
        assert(slot_roots(types, slot, locals.last())[k] == root);
        assert(all[front.len() + k] == root);
    }
}

/// The references that are known in a frame are exactly those that the fields of the
/// locals lead to.
pub proof fn law_roots_are_references(
    types: TypesModel,
    locals: Seq<TypeId>,
    slot: u32,
    offset: usize,
    ty: TypeId,
)
    requires
        locals_ready(types, locals),
        locals.len() < MAX_ENTITIES,
    ensures
        root_slots(types, locals).contains(GcRoot { slot, offset, ty }) <==> slot < locals.len()
            && ty == locals[slot as int] && exists|path: Seq<int>| #[trigger]
            leads_to_ref(types, types.info(ty), path, offset as int),
{
    let roots = root_slots(types, locals);
    if slot < locals.len() && ty == locals[slot as int] {
        assert(layout_of(types, types.info(locals[slot as int])) is Some);
        law_refs_are_where_fields_lead(types, types.info(ty), offset);
        if gc_offsets(types, types.info(ty)).contains(offset) {
            lemma_slot_root(types, locals, slot, offset);
        }
    }
    if roots.contains(GcRoot { slot, offset, ty }) {
        let k = choose|k: int| 0 <= k < roots.len() && roots[k] == (GcRoot { slot, offset, ty });
        lemma_root_slot(types, locals, k);
    }
}

/// Whether `addr` is where a reference into managed memory lies in a local of a frame.
pub open spec fn is_ref_in_frame(
    types: TypesModel,
    locals: Seq<TypeId>,
    frame: ClifFrame,
    frame_ptr: usize,
    addr: usize,
    slot: int,
    path: Seq<int>,
) -> bool {
    &&& 0 <= slot < locals.len()
    &&& leads_to_ref(
        types,
        types.info(locals[slot]),
        path,
        addr - (frame_ptr - frame.frame_to_fp + frame.slots[slot]),
    )
}

/// The addresses that the runtime takes for those of the references in a frame are
/// exactly the addresses of the references in the locals.
pub proof fn law_frame_slots_are_references(
    types: TypesModel,
    locals: Seq<TypeId>,
    frame: ClifFrame,
    frame_ptr: usize,
    addr: usize,
)
    requires
        locals_ready(types, locals),
        locals.len() < MAX_ENTITIES,
        roots_in_frame(root_slots(types, locals), frame),
        frame.frame_to_fp <= frame_ptr,
    ensures
        frame_slots(frame_ptr, root_distances(root_slots(types, locals), frame)).contains(addr)
            <==> exists|slot: int, path: Seq<int>| #[trigger]
            is_ref_in_frame(types, locals, frame, frame_ptr, addr, slot, path),
{
    let roots = root_slots(types, locals);
    let slots = frame_slots(frame_ptr, root_distances(roots, frame));
    if slots.contains(addr) {
        let k = choose|k: int| 0 <= k < slots.len() && slots[k] == addr;
        law_roots_are_found(roots, frame, frame_ptr, k);
        let root = roots[k];
        assert(roots.contains(root));
        law_roots_are_references(types, locals, root.slot, root.offset, root.ty);
        let path = choose|path: Seq<int>| #[trigger]
            leads_to_ref(types, types.info(root.ty), path, root.offset as int);
        assert(is_ref_in_frame(
            types,
            locals,
            frame,
            frame_ptr,
            addr,
            root.slot as int,
            path,
        ));
    }
    if exists|slot: int, path: Seq<int>| #[trigger]
        is_ref_in_frame(types, locals, frame, frame_ptr, addr, slot, path) {
        let (slot, path) = choose|slot: int, path: Seq<int>| #[trigger]
            is_ref_in_frame(types, locals, frame, frame_ptr, addr, slot, path);
        let ty = locals[slot];
        let offset = addr - (frame_ptr - frame.frame_to_fp + frame.slots[slot]);
        assert(layout_of(types, types.info(locals[slot])) is Some);
        lemma_ref_offset(types, types.info(ty), path, offset);
        law_roots_are_references(types, locals, slot as u32, offset as usize, ty);
        let root = GcRoot { slot: slot as u32, offset: offset as usize, ty };
        let k = choose|k: int| 0 <= k < roots.len() && roots[k] == root;
        law_roots_are_found(roots, frame, frame_ptr, k);
        assert(slots[k] == addr);
    }
}

/// No local takes more room than all together.
pub proof fn lemma_locals_room(types: TypesModel, locals: Seq<TypeId>, i: int)
    ensures
        0 <= locals_room(types, locals),
        0 <= i < locals.len() ==> layout_of(types, types.info(locals[i]))->0.size <= locals_room(
            types,
            locals,
        ),
    decreases locals.len(),
{
    if locals.len() > 0 {
        lemma_locals_room(types, locals.drop_last(), i);
    }
}

/// The slots of locals take the room of the locals.
proof fn lemma_frame_room(types: TypesModel, locals: Seq<TypeId>)
    requires
        locals_ready(types, locals),
        locals_room(types, locals) <= MAX_FRAME,
    ensures
        frame_room(local_slots(types, locals)) == locals_room(types, locals),
    decreases locals.len(),
{
    if locals.len() > 0 {
        let front = locals.drop_last();
        lemma_locals_room(types, front, 0);
        lemma_locals_room(types, locals, locals.len() - 1);
        assert(locals_ready(types, front)) by {
            assert forall|i: int| 0 <= i < front.len() implies types.contains(#[trigger] front[i])
                && layout_of(types, types.info(front[i])) is Some by {
                assert(types.contains(locals[i]));
            }
        }
        lemma_frame_room(types, front);
        assert(local_slots(types, locals).drop_last() =~= local_slots(types, front));
    }
}

/// The frame of a function whose locals have their room holds all references.
pub proof fn lemma_roots_in_frame(types: TypesModel, locals: Seq<TypeId>, frame: ClifFrame)
    requires
        locals_ready(types, locals),
        locals.len() < MAX_ENTITIES,
        locals_room(types, locals) <= MAX_FRAME,
        frame_holds(frame, local_slots(types, locals)),
    ensures
        roots_in_frame(root_slots(types, locals), frame),
{
    let roots = root_slots(types, locals);
    assert forall|k: int| 0 <= k < roots.len() implies root_in_frame(#[trigger] roots[k], frame) by {
        lemma_root_slot(types, locals, k);
        let slot = roots[k].slot as int;
        assert(types.contains(locals[slot]));
        let info = types.info(locals[slot]);
        law_refs_inside(types, info);
        lemma_locals_room(types, locals, slot);
        let j = choose|j: int|
            0 <= j < gc_offsets(types, info).len() && gc_offsets(types, info)[j] == roots[k].offset;
        assert(gc_offsets(types, info)[j] + 8 <= layout_of(types, info)->0.size);
        assert(local_slots(types, locals)[slot].size == layout_of(types, info)->0.size);
        assert(frame.slots[slot] + local_slots(types, locals)[slot].size <= frame.frame_to_fp);
    }
}

/// The code of a function can be handed over where no function passes values of 16
/// bytes and the locals fit into a frame.
pub proof fn lemma_can_define(env: CodeEnv, refs: Seq<ClifRef>)
    requires
        refs_known(env, refs),
        func_ready(env, refs),
        0 < env.func().blocks.len() < MAX_ENTITIES,
        sig_fits(func_sig(env.types(), env.func())),
        forall|i: int| 0 <= i < refs.len() ==> sig_fits((#[trigger] refs[i]).sig),
        locals_room(env.types(), env.func().locals) <= MAX_FRAME,
    ensures
        can_define(func_code(env, refs)),
        func_code(env, refs).slots == local_slots(env.types(), env.func().locals),
{
    let types = env.types();
    let locals = env.func().locals;
    let body = func_code(env, refs);
    law_blocks_placed(env, refs);
    lemma_blocks_code(env, frame_of(env, refs), env.func().blocks.len());
    assert(locals_ready(types, locals));
    lemma_frame_room(types, locals);
    assert forall|i: int| 0 <= i < body.slots.len() implies (#[trigger] body.slots[i]).align_shift
        <= 3 by {
        assert(types.contains(locals[i]));
        law_layout_valid(types, types.info(locals[i]));
    }
}

} // verus!

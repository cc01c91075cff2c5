//! What programs do, and that their code does it.

use super::code::{
    bin_ins, call_code, fits, input_info, ins_code, ins_ready, inss_code, lemma_ins_code,
    lemma_inss_code, lemma_operand_code, lemma_place_code, lemma_place_code_front,
    lemma_place_ready, lemma_slot_place_code, lemma_value_code, operand_code, operand_ready,
    output_info, place_code, place_ready, ref_results, refs_known, slot_of, slot_place_code,
    slot_place_ready, ssa_type, value_code, value_ready, CodeEnv,
};
use super::layouts::{
    law_fields_apart, law_layout_valid, layout_of, lemma_layout_of, lemma_layout_of_struct,
    shape_of,
};
use super::machine::{
    bytes_at, lemma_bytes_range, lemma_run_push, quotient, run, step, type_size, with_bytes,
    Machine, Memory, Word, World,
};
use super::{
    final_type, step_type, BinOp, InsModel, LocalId, OperandModel, PlaceModel, Projection, TypeId,
    TypeModel, TypesModel, ValueModel,
};
use crate::clif::{low_bits, ClifBody, ClifIns, ClifRef, ClifType, MAX_ENTITIES, MAX_PARAMS};
use crate::layout::Layout;
use crate::slots::key_pos;
use vstd::prelude::*;

verus! {

/// How many bytes a value of the type takes.
pub open spec fn size_of(types: TypesModel, ty: TypeId) -> nat {
    layout_of(types, types.info(ty))->0.size as nat
}

/// Where a field lies in a struct of that type.
pub open spec fn offset_of(types: TypesModel, ty: TypeId, field: int) -> int {
    shape_of(types, types.info(ty)->Struct_0)->0.offsets[field] as int
}

/// The type of what projections lead to from a value of type `ty`: a reference leads to
/// what it refers to, a field has the type that the struct gives it.
pub open spec fn type_along(types: TypesModel, ty: TypeId, projs: Seq<Projection>) -> TypeId
    decreases projs.len(),
{
    if projs.len() == 0 {
        ty
    } else {
        match (projs[0], types.info(ty)) {
            (Projection::Deref, TypeModel::Ref(to)) => type_along(types, to, projs.skip(1)),
            (Projection::Deref, TypeModel::GcRef(to)) => type_along(types, to, projs.skip(1)),
            (Projection::Field { field_idx }, TypeModel::Struct(fields)) => type_along(
                types,
                fields[field_idx as int],
                projs.skip(1),
            ),
            _ => ty,
        }
    }
}

/// Where projections lead somewhere, what they lead to has that type. They lead
/// somewhere where each fits the type before it.
pub proof fn law_type_along(types: TypesModel, ty: TypeId, projs: Seq<Projection>)
    ensures
        final_type(types, ty, projs) matches Some(found) ==> found == type_along(types, ty, projs),
        final_type(types, ty, projs) is Some <==> fit_along(types, ty, projs),
    decreases projs.len(),
{
    if projs.len() > 0 {
        let rest = projs.skip(1);
        law_type_step(types, ty, projs);
        match (projs[0], types.info(ty)) {
            (Projection::Deref, TypeModel::Ref(to)) => law_type_along(types, to, rest),
            (Projection::Deref, TypeModel::GcRef(to)) => law_type_along(types, to, rest),
            (Projection::Field { field_idx }, TypeModel::Struct(fields)) => law_type_along(
                types,
                fields[field_idx as int],
                rest,
            ),
            _ => {},
        }
    }
}

/// Whether each projection fits the type that those before it lead to.
pub open spec fn fit_along(types: TypesModel, ty: TypeId, projs: Seq<Projection>) -> bool
    decreases projs.len(),
{
    projs.len() > 0 ==> types.contains(ty) && match (projs[0], types.info(ty)) {
        (Projection::Deref, TypeModel::Ref(to)) => fit_along(types, to, projs.skip(1)),
        (Projection::Deref, TypeModel::GcRef(to)) => fit_along(types, to, projs.skip(1)),
        (Projection::Field { field_idx }, TypeModel::Struct(fields)) => field_idx < fields.len()
            && fit_along(types, fields[field_idx as int], projs.skip(1)),
        _ => false,
    }
}

/// Projections lead where those behind the first lead from where the first leads.
pub proof fn law_type_step(types: TypesModel, ty: TypeId, projs: Seq<Projection>)
    requires
        projs.len() > 0,
    ensures
        final_type(types, ty, projs) == (match step_type(types, ty, projs[0]) {
            Some(next) => final_type(types, next, projs.skip(1)),
            None => None,
        }),
    decreases projs.len(),
{
    if projs.len() == 1 {
        assert(projs.drop_last() =~= Seq::empty());
        assert(projs.skip(1) =~= Seq::empty());
        assert(final_type(types, ty, projs.drop_last()) == Some(ty));
        assert(projs.last() == projs[0]);
    } else {
        let front = projs.drop_last();
        law_type_step(types, ty, front);
        assert(front.skip(1) =~= projs.skip(1).drop_last());
        assert(front[0] == projs[0]);
        assert(projs.skip(1).last() == projs.last());
    }
}

/// The address that projections lead to from a value of type `ty` at `root`: a
/// reference leads to the address that it holds, a field lies behind the start of
/// its struct.
pub open spec fn address(
    types: TypesModel,
    mem: Memory,
    root: int,
    ty: TypeId,
    projs: Seq<Projection>,
) -> int
    decreases projs.len(),
{
    if projs.len() == 0 {
        root
    } else {
        let before = address(types, mem, root, ty, projs.drop_last());
        match projs.last() {
            Projection::Deref => bytes_at(mem, before, 8),
            Projection::Field { field_idx } => (before + offset_of(
                types,
                type_along(types, ty, projs.drop_last()),
                field_idx as int,
            )) % 0x1_0000_0000_0000_0000,
            Projection::Index { .. } => before,
        }
    }
}

/// The number that the bits of an i32 stand for.
pub open spec fn as_i32(bits: int) -> int {
    if bits >= 0x8000_0000 {
        bits - 0x1_0000_0000
    } else {
        bits
    }
}

/// The bits of a number as an i32, which wraps around.
pub open spec fn i32_bits(n: int) -> int {
    n % 0x1_0000_0000
}

/// The bits of a bool.
pub open spec fn bool_bits(b: bool) -> int {
    if b {
        1
    } else {
        0
    }
}

/// The bits of what an operation on two i32 gives. A division has no result where the
/// quotient is no i32.
pub open spec fn i32_result(op: BinOp, a: int, b: int) -> Option<int> {
    match op {
        BinOp::Add => Some(i32_bits(a + b)),
        BinOp::Sub => Some(i32_bits(a - b)),
        BinOp::Mul => Some(i32_bits(a * b)),
        BinOp::Div => if b == 0 || (a == -0x8000_0000 && b == -1) {
            None
        } else {
            Some(i32_bits(quotient(a, b)))
        },
        BinOp::Eq => Some(bool_bits(a == b)),
        BinOp::Lt => Some(bool_bits(a < b)),
        BinOp::Le => Some(bool_bits(a <= b)),
    }
}

/// The bits of what an operation on the bits of two f32 gives.
pub open spec fn f32_result(world: World, op: BinOp, a: int, b: int) -> int {
    match op {
        BinOp::Add => (world.fadd)(a, b),
        BinOp::Sub => (world.fsub)(a, b),
        BinOp::Mul => (world.fmul)(a, b),
        BinOp::Div => (world.fdiv)(a, b),
        BinOp::Eq => bool_bits((world.feq)(a, b)),
        BinOp::Lt => bool_bits((world.flt)(a, b)),
        BinOp::Le => bool_bits((world.fle)(a, b)),
    }
}

/// The bits of what an operation on the bits of two values of a kind gives.
pub open spec fn bin_result(world: World, op: BinOp, kind: TypeModel, a: int, b: int) -> Option<
    int,
> {
    match kind {
        TypeModel::PrimI32 => i32_result(op, as_i32(a), as_i32(b)),
        TypeModel::PrimF32 => Some(f32_result(world, op, a, b)),
        _ => Some(bool_bits(a == b)),
    }
}

/// Whether an operation gives a bool.
pub open spec fn is_test(op: BinOp) -> bool {
    op == BinOp::Eq || op == BinOp::Lt || op == BinOp::Le
}

/// What an operand reads is of that kind.
pub open spec fn kind_of(types: TypesModel, operand: OperandModel) -> TypeModel {
    match operand {
        OperandModel::Place(place) => types.info(type_along(types, place.local_ty, place.projs)),
        OperandModel::ConstI32(_) => TypeModel::PrimI32,
        OperandModel::ConstF32(_) => TypeModel::PrimF32,
        OperandModel::ConstBool(_) => TypeModel::PrimBool,
    }
}

/// A function of a program that runs: what its calls reach, where its locals lie, and
/// the frame pointer.
pub struct Scene {
    pub env: CodeEnv,
    pub world: World,
    /// The functions of the program in the module.
    pub funcs: Seq<u32>,
    /// What the runtime provides, in the module.
    pub alloc: u32,
    pub push: u32,
    pub pop: u32,
    pub locals: Seq<int>,
    pub frame: int,
}

impl Scene {
    pub open spec fn types(self) -> TypesModel {
        self.env.program.types
    }

    /// Where a local lies.
    pub open spec fn local_address(self, local: LocalId) -> int {
        self.locals[key_pos(local.key)]
    }

    /// Where a place lies.
    pub open spec fn place_address(self, mem: Memory, place: PlaceModel) -> int {
        address(self.types(), mem, self.local_address(place.local), place.local_ty, place.projs)
    }

    /// How many bytes an operand reads.
    pub open spec fn operand_size(self, operand: OperandModel) -> nat {
        match operand {
            OperandModel::Place(place) => size_of(
                self.types(),
                type_along(self.types(), place.local_ty, place.projs),
            ),
            OperandModel::ConstI32(_) => 4,
            OperandModel::ConstF32(_) => 4,
            OperandModel::ConstBool(_) => 1,
        }
    }

    /// The bits that an operand reads.
    pub open spec fn operand_bits(self, mem: Memory, operand: OperandModel) -> int {
        match operand {
            OperandModel::Place(place) => bytes_at(
                mem,
                self.place_address(mem, place),
                self.operand_size(operand),
            ),
            OperandModel::ConstI32(n) => i32_bits(n as int),
            OperandModel::ConstF32(bits) => bits as int,
            OperandModel::ConstBool(b) => bool_bits(b),
        }
    }

    /// How many bytes a value has.
    pub open spec fn value_size(self, value: ValueModel) -> nat {
        match value {
            ValueModel::Read(operand) => self.operand_size(operand),
            ValueModel::Ref(_) => 8,
            ValueModel::BinOp(op, _, _) => if is_test(op) {
                1
            } else {
                4
            },
        }
    }

    /// The bits of a value. What is written first stands on the left.
    pub open spec fn value_bits(self, mem: Memory, value: ValueModel) -> Option<int> {
        match value {
            ValueModel::Read(operand) => Some(self.operand_bits(mem, operand)),
            ValueModel::Ref(operand) => Some(self.place_address(mem, operand->Place_0)),
            ValueModel::BinOp(op, lhs, rhs) => {
                let a = self.operand_bits(mem, lhs);
                let b = self.operand_bits(mem, rhs);
                bin_result(self.world, op, kind_of(self.types(), lhs), a, b)
            },
        }
    }

    /// Memory after an instruction: the value is where the place was, and so is the
    /// address of a value that was allocated.
    pub open spec fn after_ins(self, mem: Memory, ins: InsModel) -> Option<Memory> {
        match ins {
            InsModel::Assign { place, value } => match self.value_bits(mem, value) {
                Some(bits) => Some(
                    with_bytes(mem, self.place_address(mem, place), self.value_size(value), bits),
                ),
                None => None,
            },
            InsModel::AllocGc { place } => {
                let to = kind_of(self.types(), OperandModel::Place(place))->GcRef_0;
                match (self.world.call)(self.alloc, seq![self.env.rt_types[to.key] as int], mem) {
                    Some((results, after)) => Some(
                        with_bytes(after, self.place_address(mem, place), 8, results[0]),
                    ),
                    None => None,
                }
            },
        }
    }

    /// Memory after instructions that run one after the other.
    pub open spec fn after_inss(self, mem: Memory, inss: Seq<InsModel>) -> Option<Memory>
        decreases inss.len(),
    {
        if inss.len() == 0 {
            Some(mem)
        } else {
            match self.after_inss(mem, inss.drop_last()) {
                Some(before) => self.after_ins(before, inss.last()),
                None => None,
            }
        }
    }

    /// The locals have addresses, the primitive types have their ids, and the
    /// numbers that the runtime knows types and functions by are not negative ones.
    pub open spec fn wf(self) -> bool {
        &&& self.locals.len() == self.env.func().locals.len() < MAX_ENTITIES
        &&& forall|i: int| 0 <= i < self.locals.len() ==> is_address(#[trigger] self.locals[i])
        &&& self.env.func().blocks.len() < MAX_ENTITIES
        &&& self.types().prims_right()
        &&& forall|key: u64| #[trigger]
            self.env.rt_types.contains_key(key) ==> self.env.rt_types[key] < 0x8000_0000_0000_0000
        &&& forall|key: u64| #[trigger]
            self.env.rt_funcs.contains_key(key) ==> self.env.rt_funcs[key] < 0x8000_0000_0000_0000
    }

    /// The machine that the function starts on.
    pub open spec fn fits_machine(self, m: Machine) -> bool {
        m.slots == self.locals && m.frame == self.frame
    }

    /// What is called through each of the functions that code can call.
    pub open spec fn linked(self, refs: Seq<ClifRef>) -> bool {
        let n = self.env.program.functions.len() as int;
        &&& refs_known(self.env, refs)
        &&& self.funcs.len() == n
        &&& forall|i: int| #![trigger refs[i]] 0 <= i < n ==> refs[i].func == self.funcs[i]
        &&& refs[n].func == self.alloc
        &&& refs[n].sig.returns == seq![ClifType::I64]
        &&& refs[n + 1].func == self.push
        &&& refs[n + 2].func == self.pop
    }
}

/// Whether values of the type are read as a whole: no struct of 64 KiB or more is.
pub open spec fn read_whole(types: TypesModel, ty: TypeId) -> bool {
    size_of(types, ty) < 0x1_0000
}

/// Whether what an operand reads is read as a whole.
pub open spec fn operand_whole(types: TypesModel, operand: OperandModel) -> bool {
    operand matches OperandModel::Place(place) ==> read_whole(
        types,
        type_along(types, place.local_ty, place.projs),
    )
}

/// Whether operations are on two values of the kind that they are for.
pub open spec fn ins_typed(types: TypesModel, ins: InsModel) -> bool {
    match ins {
        InsModel::Assign { place, value } => match value {
            ValueModel::Read(operand) => operand_whole(types, operand),
            ValueModel::Ref(_) => true,
            ValueModel::BinOp(op, lhs, rhs) => {
                &&& kind_of(types, lhs) == kind_of(types, rhs)
                &&& !is_test(op) ==> kind_of(types, lhs) == kind_of(types, OperandModel::Place(place))
            },
        },
        InsModel::AllocGc { .. } => true,
    }
}

/// The machine after the code that is in a block so far.
pub open spec fn state(
    world: World,
    refs: Seq<ClifRef>,
    m: Option<Machine>,
    body: ClifBody,
    block: u32,
) -> Option<Machine> {
    run(world, refs, m, body.blocks[block as int].code)
}

/// Whether a machine differs from another one in nothing but values made later.
pub open spec fn extends(m: Machine, later: Machine, values: nat) -> bool {
    &&& later.mem == m.mem
    &&& later.slots == m.slots
    &&& later.frame == m.frame
    &&& forall|x: u32| x < values ==> (#[trigger] later.values[x]) == m.values[x]
}

pub proof fn lemma_state_ins(
    world: World,
    refs: Seq<ClifRef>,
    m: Option<Machine>,
    body: ClifBody,
    block: u32,
    ins: ClifIns,
    results: nat,
)
    requires
        block < body.blocks.len(),
    ensures
        state(world, refs, m, body.with_ins(block, ins, results), block) == (match state(
            world,
            refs,
            m,
            body,
            block,
        ) {
            Some(before) => step(world, refs, before, ins),
            None => None,
        }),
{
    lemma_run_push(world, refs, m, body.blocks[block as int].code, ins);
}

/// Whether a number is an address.
pub open spec fn is_address(addr: int) -> bool {
    0 <= addr < 0x1_0000_0000_0000_0000
}

/// Projections lead from addresses to addresses.
pub proof fn lemma_address(
    types: TypesModel,
    mem: Memory,
    root: int,
    ty: TypeId,
    projs: Seq<Projection>,
)
    requires
        is_address(root),
    ensures
        is_address(address(types, mem, root, ty, projs)),
    decreases projs.len(),
{
    if projs.len() > 0 {
        let before = address(types, mem, root, ty, projs.drop_last());
        lemma_address(types, mem, root, ty, projs.drop_last());
        lemma_bytes_range(mem, before, 8);
    }
}

/// The code that finds a place ends with its address.
#[verifier::spinoff_prover]
#[verifier::rlimit(40)]
pub proof fn lemma_place_runs(
    world: World,
    refs: Seq<ClifRef>,
    m: Option<Machine>,
    types: TypesModel,
    body: ClifBody,
    block: u32,
    ty: TypeId,
    projs: Seq<Projection>,
    root: u32,
)
    requires
        block < body.blocks.len(),
        place_ready(types, ty, projs),
        fits(place_code(types, body, block, ty, projs, root).0),
        body.values <= MAX_PARAMS + body.insts,
        root < body.values,
    ensures
        ({
            let (to, addr) = place_code(types, body, block, ty, projs, root);
            match state(world, refs, m, body, block) {
                None => state(world, refs, m, to, block) is None,
                Some(before) => before.values[root].ty == ClifType::I64 && is_address(
                    before.bits(root),
                ) ==> {
                    &&& state(world, refs, m, to, block) matches Some(after) && {
                        &&& extends(before, after, body.values)
                        &&& after.values[addr] == (Word {
                            ty: ClifType::I64,
                            bits: address(types, before.mem, before.bits(root), ty, projs),
                        })
                    }
                },
            }
        }),
    decreases projs.len(),
{
    if projs.len() > 0 {
        let front = projs.drop_last();
        let (before, addr) = place_code(types, body, block, ty, front, root);
        lemma_place_code(types, body, block, ty, front, root);
        lemma_place_code(types, body, block, ty, projs, root);
        lemma_place_runs(world, refs, m, types, body, block, ty, front, root);
        let res = before.next();
        if let Some(begun) = state(world, refs, m, body, block) {
            if is_address(begun.bits(root)) {
                lemma_address(types, begun.mem, begun.bits(root), ty, front);
            }
        }
        match projs.last() {
            Projection::Deref => {
                lemma_load_step(world, refs, m, body, before, block, addr);
            },
            Projection::Field { field_idx } => {
                law_type_along(types, ty, front);
                let at = type_along(types, ty, front);
                let fields = types.info(at)->Struct_0;
                lemma_offset_range(types, fields, field_idx as int);
                let offset = shape_of(types, fields)->0.offsets[field_idx as int];
                if offset != 0 {
                    lemma_add_step(world, refs, m, body, before, block, addr, offset as i64);
                }
            },
            Projection::Index { .. } => {},
        }
    }
}

/// Offsets are not negative as signed numbers.
proof fn lemma_offset_range(types: TypesModel, fields: Seq<TypeId>, i: int)
    requires
        shape_of(types, fields) is Some,
        0 <= i < fields.len(),
    ensures
        shape_of(types, fields)->0.offsets[i] <= i64::MAX,
{
    law_fields_apart(types, fields, i);
    lemma_layout_of_struct(types, fields);
    law_layout_valid(types, TypeModel::Struct(fields));
}

/// What a load of an address does.
proof fn lemma_load_step(
    world: World,
    refs: Seq<ClifRef>,
    m: Option<Machine>,
    body: ClifBody,
    before: ClifBody,
    block: u32,
    addr: u32,
)
    requires
        block < before.blocks.len(),
        body.values <= before.values <= u32::MAX,
    ensures
        ({
            let res = before.next();
            let ins = ClifIns::Load { res, ty: ClifType::I64, addr, offset: 0 };
            let to = before.with_ins(block, ins, 1);
            match state(world, refs, m, before, block) {
                None => state(world, refs, m, to, block) is None,
                Some(mid) => state(world, refs, m, to, block) matches Some(after) && {
                    &&& extends(mid, after, body.values)
                    &&& after.values[res] == (Word {
                        ty: ClifType::I64,
                        bits: bytes_at(mid.mem, mid.bits(addr), 8),
                    })
                },
            }
        }),
{
    let ins = ClifIns::Load { res: before.next(), ty: ClifType::I64, addr, offset: 0 };
    lemma_state_ins(world, refs, m, before, block, ins, 1);
}

/// What adding an offset to an address does.
proof fn lemma_add_step(
    world: World,
    refs: Seq<ClifRef>,
    m: Option<Machine>,
    body: ClifBody,
    before: ClifBody,
    block: u32,
    addr: u32,
    imm: i64,
)
    requires
        block < before.blocks.len(),
        body.values <= before.values <= u32::MAX,
    ensures
        ({
            let res = before.next();
            let to = before.with_ins(block, ClifIns::IaddImm { res, x: addr, imm }, 1);
            match state(world, refs, m, before, block) {
                None => state(world, refs, m, to, block) is None,
                Some(mid) => mid.values[addr].ty == ClifType::I64 ==> {
                    &&& state(world, refs, m, to, block) matches Some(after) && {
                        &&& extends(mid, after, body.values)
                        &&& after.values[res] == (Word {
                            ty: ClifType::I64,
                            bits: (mid.bits(addr) + imm) % 0x1_0000_0000_0000_0000,
                        })
                    }
                },
            }
        }),
{
    let ins = ClifIns::IaddImm { res: before.next(), x: addr, imm };
    lemma_state_ins(world, refs, m, before, block, ins, 1);
}

/// The code that finds a place in the frame ends with its address.
pub proof fn lemma_slot_place_runs(
    scene: Scene,
    refs: Seq<ClifRef>,
    m: Option<Machine>,
    body: ClifBody,
    block: u32,
    place: PlaceModel,
)
    requires
        scene.wf(),
        block < body.blocks.len(),
        slot_place_ready(scene.types(), scene.env.func(), place),
        fits(slot_place_code(scene.types(), body, block, place).0),
        body.values <= MAX_PARAMS + body.insts,
    ensures
        ({
            let (to, addr) = slot_place_code(scene.types(), body, block, place);
            match state(scene.world, refs, m, body, block) {
                None => state(scene.world, refs, m, to, block) is None,
                Some(before) => scene.fits_machine(before) ==> {
                    &&& state(scene.world, refs, m, to, block) matches Some(after) && {
                        &&& extends(before, after, body.values)
                        &&& after.values[addr] == (Word {
                            ty: ClifType::I64,
                            bits: scene.place_address(before.mem, place),
                        })
                    }
                },
            }
        }),
{
    let types = scene.types();
    let root = body.next();
    let ins = ClifIns::StackAddr {
        res: root,
        ty: ClifType::I64,
        slot: slot_of(place.local),
        offset: 0,
    };
    let begun = body.with_ins(block, ins, 1);
    lemma_state_ins(scene.world, refs, m, body, block, ins, 1);
    lemma_place_code(types, begun, block, place.local_ty, place.projs, root);
    lemma_place_runs(
        scene.world,
        refs,
        m,
        types,
        begun,
        block,
        place.local_ty,
        place.projs,
        root,
    );
}

/// The layouts of the types that are no structs.
pub proof fn law_layouts_of_primitives(types: TypesModel, to: TypeId)
    ensures
        layout_of(types, TypeModel::PrimBool) == Some(Layout { size: 1, align: 1 }),
        layout_of(types, TypeModel::PrimI32) == Some(Layout { size: 4, align: 4 }),
        layout_of(types, TypeModel::PrimI64) == Some(Layout { size: 8, align: 8 }),
        layout_of(types, TypeModel::PrimF32) == Some(Layout { size: 4, align: 4 }),
        layout_of(types, TypeModel::Ref(to)) == Some(Layout { size: 8, align: 8 }),
        layout_of(types, TypeModel::GcRef(to)) == Some(Layout { size: 8, align: 8 }),
{
    lemma_layout_of(types, TypeModel::PrimBool, 0);
    lemma_layout_of(types, TypeModel::PrimI32, 0);
    lemma_layout_of(types, TypeModel::PrimI64, 0);
    lemma_layout_of(types, TypeModel::PrimF32, 0);
    lemma_layout_of(types, TypeModel::Ref(to), 0);
    lemma_layout_of(types, TypeModel::GcRef(to), 0);
}

/// The machine type of a value has the size of the value, and only f32 is a number
/// with a fraction.
pub proof fn law_machine_type_size(types: TypesModel, ty: TypeId)
    requires
        read_whole(types, ty),
    ensures
        ssa_type(types, ty) matches Some(cf_ty) ==> {
            &&& type_size(cf_ty) == size_of(types, ty)
            &&& cf_ty == ClifType::F32 <==> types.info(ty) is PrimF32
        },
{
    law_layouts_of_primitives(types, types.info(ty)->Ref_0);
    law_layouts_of_primitives(types, types.info(ty)->GcRef_0);
    if let TypeModel::Struct(fields) = types.info(ty) {
        lemma_layout_of_struct(types, fields);
    }
}

/// The machine type of what an operand reads.
pub open spec fn operand_word(types: TypesModel, operand: OperandModel) -> ClifType {
    match operand {
        OperandModel::Place(place) => ssa_type(
            types,
            final_type(types, place.local_ty, place.projs)->0,
        )->0,
        OperandModel::ConstI32(_) => ClifType::I32,
        OperandModel::ConstF32(_) => ClifType::F32,
        OperandModel::ConstBool(_) => ClifType::I8,
    }
}

/// The code that reads an operand ends with what the operand is.
pub proof fn lemma_operand_runs(
    scene: Scene,
    refs: Seq<ClifRef>,
    m: Option<Machine>,
    body: ClifBody,
    block: u32,
    operand: OperandModel,
)
    requires
        scene.wf(),
        block < body.blocks.len(),
        operand_ready(scene.types(), scene.env.func(), operand),
        operand_whole(scene.types(), operand),
        fits(operand_code(scene.types(), body, block, operand).0),
        body.values <= MAX_PARAMS + body.insts,
    ensures
        ({
            let (to, x) = operand_code(scene.types(), body, block, operand);
            match state(scene.world, refs, m, body, block) {
                None => state(scene.world, refs, m, to, block) is None,
                Some(before) => scene.fits_machine(before) ==> {
                    &&& state(scene.world, refs, m, to, block) matches Some(after) && {
                        &&& extends(before, after, body.values)
                        &&& after.values[x] == (Word {
                            ty: operand_word(scene.types(), operand),
                            bits: scene.operand_bits(before.mem, operand),
                        })
                    }
                },
            }
        }),
        type_size(operand_word(scene.types(), operand)) == scene.operand_size(operand),
{
    let types = scene.types();
    let res = body.next();
    match operand {
        OperandModel::Place(place) => {
            let ty = final_type(types, place.local_ty, place.projs)->0;
            law_type_along(types, place.local_ty, place.projs);
            law_machine_type_size(types, ty);
            let (before, addr) = slot_place_code(types, body, block, place);
            lemma_slot_place_code(types, body, block, place);
            lemma_slot_place_runs(scene, refs, m, body, block, place);
            let ins = ClifIns::Load { res: before.next(), ty: ssa_type(types, ty)->0, addr, offset: 0 };
            lemma_state_ins(scene.world, refs, m, before, block, ins, 1);
        },
        OperandModel::ConstI32(n) => {
            let imm = low_bits(ClifType::I32, n as i64);
            let ins = ClifIns::Iconst { res, ty: ClifType::I32, imm };
            lemma_state_ins(scene.world, refs, m, body, block, ins, 1);
        },
        OperandModel::ConstF32(bits) => {
            let ins = ClifIns::F32const { res, bits };
            lemma_state_ins(scene.world, refs, m, body, block, ins, 1);
        },
        OperandModel::ConstBool(b) => {
            let imm: i64 = if b {
                1
            } else {
                0
            };
            let ins = ClifIns::Iconst { res, ty: ClifType::I8, imm };
            lemma_state_ins(scene.world, refs, m, body, block, ins, 1);
        },
    }
}

/// Both operands of an operation that code is made for are numbers or bools.
proof fn lemma_operand_kinds(
    scene: Scene,
    place: PlaceModel,
    op: BinOp,
    lhs: OperandModel,
    rhs: OperandModel,
)
    requires
        scene.wf(),
        ins_typed(
            scene.types(),
            InsModel::Assign { place, value: ValueModel::BinOp(op, lhs, rhs) },
        ),
        value_ready(scene.types(), scene.env.func(), place, ValueModel::BinOp(op, lhs, rhs)),
        place_ready(scene.types(), place.local_ty, place.projs),
    ensures
        ({
            let types = scene.types();
            let kind = kind_of(types, lhs);
            &&& input_info(types, lhs) == kind
            &&& operand_whole(types, lhs)
            &&& operand_whole(types, rhs)
            &&& operand_word(types, lhs) == operand_word(types, rhs)
            &&& match kind {
                TypeModel::PrimI32 => operand_word(types, lhs) == ClifType::I32,
                TypeModel::PrimF32 => operand_word(types, lhs) == ClifType::F32,
                TypeModel::PrimBool => operand_word(types, lhs) == ClifType::I8 && op == BinOp::Eq,
                _ => false,
            }
            &&& !is_test(op) ==> output_info(types, place) == kind
        }),
{
    let types = scene.types();
    law_layouts_of_primitives(types, TypeId { key: 0 });
    law_type_along(types, place.local_ty, place.projs);
    lemma_place_ready(types, place.local_ty, place.projs);
    if let OperandModel::Place(read) = lhs {
        law_type_along(types, read.local_ty, read.projs);
        lemma_place_ready(types, read.local_ty, read.projs);
    }
    if let OperandModel::Place(read) = rhs {
        law_type_along(types, read.local_ty, read.projs);
        lemma_place_ready(types, read.local_ty, read.projs);
    }
}

/// What a bool is read as.
proof fn lemma_bool_range(scene: Scene, mem: Memory, operand: OperandModel)
    requires
        kind_of(scene.types(), operand) is PrimBool,
    ensures
        0 <= scene.operand_bits(mem, operand) < 0x100,
{
    law_layouts_of_primitives(scene.types(), TypeId { key: 0 });
    if let OperandModel::Place(place) = operand {
        lemma_bytes_range(mem, scene.place_address(mem, place), 1);
    }
}

/// The code that makes a value ends with what the value is.
#[verifier::spinoff_prover]
#[verifier::rlimit(40)]
pub proof fn lemma_value_runs(
    scene: Scene,
    refs: Seq<ClifRef>,
    m: Option<Machine>,
    body: ClifBody,
    block: u32,
    place: PlaceModel,
    value: ValueModel,
)
    requires
        scene.wf(),
        block < body.blocks.len(),
        value_ready(scene.types(), scene.env.func(), place, value),
        place_ready(scene.types(), place.local_ty, place.projs),
        ins_typed(scene.types(), InsModel::Assign { place, value }),
        fits(value_code(scene.types(), body, block, place, value).0),
        body.values <= MAX_PARAMS + body.insts,
    ensures
        ({
            let (to, x) = value_code(scene.types(), body, block, place, value);
            match state(scene.world, refs, m, body, block) {
                None => state(scene.world, refs, m, to, block) is None,
                Some(before) => scene.fits_machine(before) ==> match scene.value_bits(
                    before.mem,
                    value,
                ) {
                    None => state(scene.world, refs, m, to, block) is None,
                    Some(bits) => state(scene.world, refs, m, to, block) matches Some(after) && {
                        &&& extends(before, after, body.values)
                        &&& after.bits(x) == bits
                        &&& type_size(after.values[x].ty) == scene.value_size(value)
                    },
                },
            }
        }),
{
    let types = scene.types();
    match value {
        ValueModel::Read(operand) => {
            lemma_operand_runs(scene, refs, m, body, block, operand);
        },
        ValueModel::Ref(operand) => {
            lemma_slot_place_runs(scene, refs, m, body, block, operand->Place_0);
        },
        ValueModel::BinOp(op, lhs, rhs) => {
            lemma_operand_kinds(scene, place, op, lhs, rhs);
            let (left, x) = operand_code(types, body, block, lhs);
            lemma_operand_code(types, body, block, lhs);
            let (both, y) = operand_code(types, left, block, rhs);
            lemma_operand_code(types, left, block, rhs);
            let made = bin_ins(
                op,
                input_info(types, lhs),
                output_info(types, place),
                both.next(),
                x,
                y,
            );
            let ins = made->0;
            assert(made is Some);
            lemma_operand_runs(scene, refs, m, body, block, lhs);
            lemma_operand_runs(scene, refs, m, left, block, rhs);
            lemma_state_ins(scene.world, refs, m, both, block, ins, 1);
            if let Some(before) = state(scene.world, refs, m, body, block) {
                if scene.fits_machine(before) {
                    let after = state(scene.world, refs, m, both, block)->0;
                    if kind_of(types, lhs) is PrimBool {
                        lemma_bool_range(scene, before.mem, lhs);
                        lemma_bool_range(scene, before.mem, rhs);
                    }
                    lemma_bin_step(
                        scene.world,
                        refs,
                        after,
                        op,
                        kind_of(types, lhs),
                        output_info(types, place),
                        both.next(),
                        x,
                        y,
                    );
                }
            }
        },
    }
}

/// The instruction for an operation does the operation.
proof fn lemma_bin_step(
    world: World,
    refs: Seq<ClifRef>,
    m: Machine,
    op: BinOp,
    kind: TypeModel,
    output: TypeModel,
    res: u32,
    x: u32,
    y: u32,
)
    requires
        bin_ins(op, kind, output, res, x, y) is Some,
        m.values[x].ty == m.values[y].ty,
        match kind {
            TypeModel::PrimI32 => m.values[x].ty == ClifType::I32,
            TypeModel::PrimF32 => m.values[x].ty == ClifType::F32,
            TypeModel::PrimBool => m.values[x].ty == ClifType::I8 && op == BinOp::Eq && 0 <= m.bits(
                x,
            ) < 0x100 && 0 <= m.bits(y) < 0x100,
            _ => false,
        },
        !is_test(op) ==> output == kind,
    ensures
        match bin_result(world, op, kind, m.bits(x), m.bits(y)) {
            None => step(world, refs, m, bin_ins(op, kind, output, res, x, y)->0) is None,
            Some(bits) => step(world, refs, m, bin_ins(op, kind, output, res, x, y)->0) matches Some(
                after,
            ) && {
                &&& after.mem == m.mem
                &&& after.slots == m.slots
                &&& after.frame == m.frame
                &&& forall|z: u32| z != res ==> (#[trigger] after.values[z]) == m.values[z]
                &&& after.bits(res) == bits
                &&& type_size(after.values[res].ty) == if is_test(op) {
                    1nat
                } else {
                    4nat
                }
            },
        },
{
    if kind is PrimI32 {
        assert(m.number(x) == as_i32(m.bits(x)));
        assert(m.number(y) == as_i32(m.bits(y)));
    } else if kind is PrimBool {
        assert((m.number(x) == m.number(y)) == (m.bits(x) == m.bits(y)));
    }
}

/// The code of an instruction does to memory what the instruction does.
pub proof fn lemma_ins_runs(
    scene: Scene,
    refs: Seq<ClifRef>,
    m: Option<Machine>,
    body: ClifBody,
    block: u32,
    ins: InsModel,
)
    requires
        scene.wf(),
        scene.linked(refs),
        body.refs == refs,
        block < body.blocks.len(),
        ins_ready(scene.env, ins),
        ins_typed(scene.types(), ins),
        fits(ins_code(scene.env, body, block, ins)),
        body.values <= MAX_PARAMS + body.insts,
    ensures
        ({
            let to = ins_code(scene.env, body, block, ins);
            match state(scene.world, refs, m, body, block) {
                None => state(scene.world, refs, m, to, block) is None,
                Some(before) => scene.fits_machine(before) ==> match scene.after_ins(
                    before.mem,
                    ins,
                ) {
                    None => state(scene.world, refs, m, to, block) is None,
                    Some(mem) => state(scene.world, refs, m, to, block) matches Some(after)
                        && scene.fits_machine(after) && after.mem == mem,
                },
            }
        }),
{
    let types = scene.types();
    match ins {
        InsModel::Assign { place, value } => {
            let (found, addr) = slot_place_code(types, body, block, place);
            lemma_slot_place_code(types, body, block, place);
            let (made, x) = value_code(types, found, block, place, value);
            lemma_value_code(types, found, block, place, value);
            lemma_slot_place_runs(scene, refs, m, body, block, place);
            lemma_value_runs(scene, refs, m, found, block, place, value);
            lemma_state_ins(
                scene.world,
                refs,
                m,
                made,
                block,
                ClifIns::Store { value: x, addr, offset: 0 },
                0,
            );
        },
        InsModel::AllocGc { place } => {
            let (found, addr) = slot_place_code(types, body, block, place);
            lemma_slot_place_code(types, body, block, place);
            lemma_slot_place_runs(scene, refs, m, body, block, place);
            law_type_along(types, place.local_ty, place.projs);
            let key = output_info(types, place)->GcRef_0.key;
            assert(scene.env.rt_types.contains_key(key));
            let ty = scene.env.rt_types[key];
            let arg = found.next();
            let name = ClifIns::Iconst { res: arg, ty: ClifType::I64, imm: ty as i64 };
            let named = found.with_ins(block, name, 1);
            lemma_state_ins(scene.world, refs, m, found, block, name, 1);
            let alloc = scene.env.alloc_ref();
            let (called, results) = call_code(named, block, alloc, seq![arg]);
            let call = ClifIns::Call { func: alloc, args: seq![arg], results };
            lemma_state_ins(scene.world, refs, m, named, block, call, ref_results(named, alloc));
            lemma_state_ins(
                scene.world,
                refs,
                m,
                called,
                block,
                ClifIns::Store { value: results[0], addr, offset: 0 },
                0,
            );
            if let Some(before) = state(scene.world, refs, m, body, block) {
                if scene.fits_machine(before) {
                    let told = state(scene.world, refs, m, named, block)->0;
                    assert(told.bits(arg) == ty);
                    assert(seq![arg].map_values(|x: u32| told.bits(x)) =~= seq![ty as int]);
                    assert(results =~= seq![named.next()]);
                    assert(results.drop_last() =~= Seq::empty());
                    reveal_with_fuel(Machine::with_results, 2);
                    assert(told.values[addr].bits == scene.place_address(before.mem, place));
                }
            }
        },
    }
}

/// The code of instructions does to memory what the instructions do.
pub proof fn lemma_inss_run(
    scene: Scene,
    refs: Seq<ClifRef>,
    m: Option<Machine>,
    body: ClifBody,
    block: u32,
    inss: Seq<InsModel>,
)
    requires
        scene.wf(),
        scene.linked(refs),
        body.refs == refs,
        block < body.blocks.len(),
        forall|i: int| 0 <= i < inss.len() ==> ins_ready(scene.env, #[trigger] inss[i]),
        forall|i: int| 0 <= i < inss.len() ==> ins_typed(scene.types(), #[trigger] inss[i]),
        fits(inss_code(scene.env, body, block, inss)),
        body.values <= MAX_PARAMS + body.insts,
    ensures
        ({
            let to = inss_code(scene.env, body, block, inss);
            match state(scene.world, refs, m, body, block) {
                None => state(scene.world, refs, m, to, block) is None,
                Some(before) => scene.fits_machine(before) ==> match scene.after_inss(
                    before.mem,
                    inss,
                ) {
                    None => state(scene.world, refs, m, to, block) is None,
                    Some(mem) => state(scene.world, refs, m, to, block) matches Some(after)
                        && scene.fits_machine(after) && after.mem == mem,
                },
            }
        }),
    decreases inss.len(),
{
    if inss.len() > 0 {
        let front = inss.drop_last();
        let before = inss_code(scene.env, body, block, front);
        lemma_inss_code(scene.env, body, block, front, front.len() as int);
        assert(front.take(front.len() as int) =~= front);
        lemma_ins_code(scene.env, before, block, inss.last());
        assert(inss[inss.len() - 1] == inss.last());
        lemma_inss_run(scene, refs, m, body, block, front);
        lemma_ins_runs(scene, refs, m, before, block, inss.last());
    }
}

/// Where the code for a place and the code for the same place with one more projection
/// run from the same machine, the second one finds this: behind a dereference the word
/// that is stored at the address that the first one finds, and for a field the address
/// that the first one finds plus where the field lies.
pub proof fn law_each_projection_goes_on(
    scene: Scene,
    refs: Seq<ClifRef>,
    m: Machine,
    body: ClifBody,
    block: u32,
    place: PlaceModel,
    proj: Projection,
)
    requires
        scene.wf(),
        scene.fits_machine(m),
        block < body.blocks.len(),
        body.values <= MAX_PARAMS + body.insts,
        state(scene.world, refs, Some(m), body, block) == Some(m),
        slot_place_ready(
            scene.types(),
            scene.env.func(),
            PlaceModel { projs: place.projs.push(proj), ..place },
        ),
        fits(
            slot_place_code(
                scene.types(),
                body,
                block,
                PlaceModel { projs: place.projs.push(proj), ..place },
            ).0,
        ),
    ensures
        ({
            let types = scene.types();
            let longer = PlaceModel { projs: place.projs.push(proj), ..place };
            let (code, found) = slot_place_code(types, body, block, place);
            let (more, next) = slot_place_code(types, body, block, longer);
            let before = state(scene.world, refs, Some(m), code, block);
            let after = state(scene.world, refs, Some(m), more, block);
            &&& before is Some
            &&& after is Some
            &&& after->0.mem == m.mem
            &&& proj is Deref ==> after->0.bits(next) == bytes_at(m.mem, before->0.bits(found), 8)
            &&& proj matches Projection::Field { field_idx } ==> after->0.bits(next) == (
            before->0.bits(found) + offset_of(
                types,
                type_along(types, place.local_ty, place.projs),
                field_idx as int,
            )) % 0x1_0000_0000_0000_0000
        }),
{
    let types = scene.types();
    let longer = PlaceModel { projs: place.projs.push(proj), ..place };
    assert(longer.projs.drop_last() =~= place.projs);
    let root = body.next();
    let begun = body.with_ins(
        block,
        ClifIns::StackAddr { res: root, ty: ClifType::I64, slot: slot_of(place.local), offset: 0 },
        1,
    );
    lemma_place_code_front(
        types,
        begun,
        block,
        place.local_ty,
        longer.projs,
        root,
        place.projs.len() as int,
    );
    assert(longer.projs.take(place.projs.len() as int) =~= place.projs);
    lemma_slot_place_runs(scene, refs, Some(m), body, block, place);
    lemma_slot_place_runs(scene, refs, Some(m), body, block, longer);
}

/// The code that assigns the result of an operation on two i32 stores, at the address of
/// the place, what the operation gives on the numbers that the operands hold: their sum,
/// difference or product, wrapped around, their quotient, rounded towards zero, or 1 or 0
/// where they are compared. The operand that is written first is the left one. A division
/// stops the run where it has no result.
pub proof fn law_i32_operations(
    scene: Scene,
    refs: Seq<ClifRef>,
    m: Machine,
    body: ClifBody,
    block: u32,
    place: PlaceModel,
    op: BinOp,
    lhs: OperandModel,
    rhs: OperandModel,
)
    requires
        scene.wf(),
        scene.linked(refs),
        scene.fits_machine(m),
        body.refs == refs,
        block < body.blocks.len(),
        body.values <= MAX_PARAMS + body.insts,
        state(scene.world, refs, Some(m), body, block) == Some(m),
        kind_of(scene.types(), lhs) is PrimI32,
        kind_of(scene.types(), rhs) is PrimI32,
        ({
            let ins = InsModel::Assign { place, value: ValueModel::BinOp(op, lhs, rhs) };
            &&& ins_ready(scene.env, ins)
            &&& ins_typed(scene.types(), ins)
            &&& fits(ins_code(scene.env, body, block, ins))
        }),
    ensures
        ({
            let ins = InsModel::Assign { place, value: ValueModel::BinOp(op, lhs, rhs) };
            let after = state(
                scene.world,
                refs,
                Some(m),
                ins_code(scene.env, body, block, ins),
                block,
            );
            let at = scene.place_address(m.mem, place);
            let a = as_i32(scene.operand_bits(m.mem, lhs));
            let b = as_i32(scene.operand_bits(m.mem, rhs));
            let fails = b == 0 || a == -0x8000_0000 && b == -1;
            &&& after is None <==> op == BinOp::Div && fails
            &&& after matches Some(done) ==> done.mem == match op {
                BinOp::Add => with_bytes(m.mem, at, 4, i32_bits(a + b)),
                BinOp::Sub => with_bytes(m.mem, at, 4, i32_bits(a - b)),
                BinOp::Mul => with_bytes(m.mem, at, 4, i32_bits(a * b)),
                BinOp::Div => with_bytes(m.mem, at, 4, i32_bits(quotient(a, b))),
                BinOp::Eq => with_bytes(m.mem, at, 1, bool_bits(a == b)),
                BinOp::Lt => with_bytes(m.mem, at, 1, bool_bits(a < b)),
                BinOp::Le => with_bytes(m.mem, at, 1, bool_bits(a <= b)),
            }
        }),
{
    let ins = InsModel::Assign { place, value: ValueModel::BinOp(op, lhs, rhs) };
    lemma_ins_runs(scene, refs, Some(m), body, block, ins);
}

} // verus!

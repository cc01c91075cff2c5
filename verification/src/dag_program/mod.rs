//! Mid-level control-flow graph of a program.

pub mod cf_build;
pub mod code;
pub mod codewf;
pub mod compile;
pub mod frames;
pub mod gc_refs;
pub mod human_format;
pub mod interp;
pub mod layouts;
pub mod machine;
pub mod meaning;
pub mod ready;
pub mod roots;
pub mod runs;
pub mod wellformed;
pub mod written;

pub use self::layouts::StructLayout;

use crate::names::{assoc_map, lemma_assoc_absent, lemma_assoc_at};
use crate::slots::{is_null_key, key_at, key_pos, null_key, Arena, MAX_SLOTS, NULL_KEY};
use vstd::prelude::*;

verus! {

/// A type of a program.
#[derive(Clone, Copy, PartialEq, Eq, Structural, Hash, Debug)]
pub struct TypeId {
    pub key: u64,
}

/// A function of a program.
#[derive(Clone, Copy, PartialEq, Eq, Structural, Hash, Debug)]
pub struct FuncId {
    pub key: u64,
}

/// A block of a function.
#[derive(Clone, Copy, PartialEq, Eq, Structural, Hash, Debug)]
pub struct BasicBlockId {
    pub key: u64,
}

/// A local of a function.
#[derive(Clone, Copy, PartialEq, Eq, Structural, Hash, Debug)]
pub struct LocalId {
    pub key: u64,
}

impl TypeId {
    /// The id that stands for no type.
    pub fn null() -> (id: TypeId)
        ensures
            id.key == NULL_KEY,
    {
        TypeId { key: null_key() }
    }

    pub fn is_null(&self) -> (null: bool)
        ensures
            null == (self.key % 0x1_0000_0000 == 0xffff_ffff),
    {
        is_null_key(self.key)
    }
}

impl BasicBlockId {
    /// The id that stands for no block.
    pub fn null() -> (id: BasicBlockId)
        ensures
            id.key == NULL_KEY,
    {
        BasicBlockId { key: null_key() }
    }

    pub fn is_null(&self) -> (null: bool)
        ensures
            null == (self.key % 0x1_0000_0000 == 0xffff_ffff),
    {
        is_null_key(self.key)
    }
}

/// A step from a value to something inside it or behind it.
#[derive(Clone, Copy, PartialEq, Eq, Structural, Debug)]
pub enum Projection {
    Deref,
    Field { field_idx: usize },
    Index { idx_local: LocalId },
}

/// An LValue
#[derive(Clone, Debug)]
pub struct PlaceExpr {
    pub local_ty: TypeId,
    /// The base local to project from
    pub local: LocalId,
    /// The projections, evaluated from left to right
    pub projs: Vec<Projection>,
}

#[derive(Clone, Copy, PartialEq, Eq, Structural, Debug)]
pub enum BinOp {
    Add,
    Sub,
    Mul,
    Div,
    Eq,
    Lt,
    Le,
}

#[derive(Clone, Debug)]
pub enum Operand {
    Place(PlaceExpr),
    ConstI32(i32),
    /// A number, as its bits
    ConstF32(u32),
    ConstBool(bool),
}

/// An RValue
#[derive(Clone, Debug)]
pub enum ValueExpr {
    Read(Operand),
    Ref(Operand),
    /// Performs a binary operation on a primitive type
    BinOp(BinOp, Operand, Operand),
}

#[derive(Clone, Debug)]
pub enum Ins {
    Assign { place: PlaceExpr, value: ValueExpr },
    AllocGc { place: PlaceExpr },
}

#[derive(Clone, Debug)]
pub enum InsFinal {
    Br { next: BasicBlockId },
    BrIf {
        /// Must be a bool
        cond: LocalId,
        is_true: BasicBlockId,
        is_false: BasicBlockId,
    },
    Call { func: FuncId, args: Vec<LocalId>, store_ret: Option<LocalId>, next: BasicBlockId },
    Return { value: Option<LocalId> },
}

#[derive(Debug)]
pub struct StructInfo {
    pub fields: Vec<TypeId>,
}

#[derive(Debug)]
pub enum TypeInfo {
    PrimI32,
    PrimI64,
    PrimF32,
    PrimBool,
    Ref(TypeId),
    GcRef(TypeId),
    Struct(StructInfo),
}

/// What a type is.
#[verifier::ext_equal]
pub enum TypeModel {
    PrimI32,
    PrimI64,
    PrimF32,
    PrimBool,
    Ref(TypeId),
    GcRef(TypeId),
    Struct(Seq<TypeId>),
}

impl View for TypeInfo {
    type V = TypeModel;

    open spec fn view(&self) -> TypeModel {
        match *self {
            TypeInfo::PrimI32 => TypeModel::PrimI32,
            TypeInfo::PrimI64 => TypeModel::PrimI64,
            TypeInfo::PrimF32 => TypeModel::PrimF32,
            TypeInfo::PrimBool => TypeModel::PrimBool,
            TypeInfo::Ref(to) => TypeModel::Ref(to),
            TypeInfo::GcRef(to) => TypeModel::GcRef(to),
            TypeInfo::Struct(info) => TypeModel::Struct(info.fields@),
        }
    }
}

impl Clone for StructInfo {
    fn clone(&self) -> (copy: Self)
        ensures
            copy.fields@ == self.fields@,
    {
        let mut fields: Vec<TypeId> = Vec::new();
        let mut i: usize = 0;
        while i < self.fields.len()
            invariant
                i <= self.fields.len(),
                fields@ =~= self.fields@.take(i as int),
            decreases self.fields.len() - i,
        {
            fields.push(self.fields[i]);
            i = i + 1;
        }
        StructInfo { fields }
    }
}

impl Clone for TypeInfo {
    fn clone(&self) -> (copy: Self)
        ensures
            copy@ == self@,
    {
        match self {
            TypeInfo::PrimI32 => TypeInfo::PrimI32,
            TypeInfo::PrimI64 => TypeInfo::PrimI64,
            TypeInfo::PrimF32 => TypeInfo::PrimF32,
            TypeInfo::PrimBool => TypeInfo::PrimBool,
            TypeInfo::Ref(to) => TypeInfo::Ref(*to),
            TypeInfo::GcRef(to) => TypeInfo::GcRef(*to),
            TypeInfo::Struct(info) => TypeInfo::Struct(info.clone()),
        }
    }
}

/// Whether two lists hold the same types in the same order.
fn same_fields(a: &Vec<TypeId>, b: &Vec<TypeId>) -> (same: bool)
    ensures
        same == (a@ == b@),
{
    if a.len() != b.len() {
        return false;
    }
    let mut i: usize = 0;
    while i < a.len()
        invariant
            i <= a.len(),
            a.len() == b.len(),
            forall|j: int| 0 <= j < i ==> a@[j] == b@[j],
        decreases a.len() - i,
    {
        if a[i] != b[i] {
            return false;
        }
        i = i + 1;
    }
    assert(a@ =~= b@);
    true
}

impl PartialEq for StructInfo {
    fn eq(&self, other: &Self) -> (same: bool) {
        same_fields(&self.fields, &other.fields)
    }
}

impl vstd::std_specs::cmp::PartialEqSpecImpl for StructInfo {
    open spec fn obeys_eq_spec() -> bool {
        true
    }

    open spec fn eq_spec(&self, other: &Self) -> bool {
        self.fields@ == other.fields@
    }
}

impl PartialEq for TypeInfo {
    fn eq(&self, other: &Self) -> (same: bool) {
        match (self, other) {
            (TypeInfo::PrimI32, TypeInfo::PrimI32) => true,
            (TypeInfo::PrimI64, TypeInfo::PrimI64) => true,
            (TypeInfo::PrimF32, TypeInfo::PrimF32) => true,
            (TypeInfo::PrimBool, TypeInfo::PrimBool) => true,
            (TypeInfo::Ref(a), TypeInfo::Ref(b)) => *a == *b,
            (TypeInfo::GcRef(a), TypeInfo::GcRef(b)) => *a == *b,
            (TypeInfo::Struct(a), TypeInfo::Struct(b)) => *a == *b,
            _ => false,
        }
    }
}

impl vstd::std_specs::cmp::PartialEqSpecImpl for TypeInfo {
    open spec fn obeys_eq_spec() -> bool {
        true
    }

    open spec fn eq_spec(&self, other: &Self) -> bool {
        self@ == other@
    }
}

/// The types of a program, in the order in which they were made, and the type
/// that each description stands for.
#[verifier::ext_equal]
pub struct TypesModel {
    pub infos: Seq<TypeModel>,
    pub ids: Map<TypeModel, TypeId>,
}

/// The id of the type made after `n` others.
pub open spec fn type_at(n: int) -> TypeId {
    TypeId { key: key_at(n) }
}

impl TypesModel {
    pub open spec fn contains(self, id: TypeId) -> bool {
        0 <= key_pos(id.key) < self.infos.len()
    }

    /// What the type of that id is.
    pub open spec fn info(self, id: TypeId) -> TypeModel {
        self.infos[key_pos(id.key)]
    }

    /// The types without any.
    pub open spec fn empty() -> TypesModel {
        TypesModel { infos: Seq::empty(), ids: Map::empty() }
    }

    /// The type that a description stands for, or will stand for once it is asked for.
    pub open spec fn id_of(self, info: TypeModel) -> TypeId {
        if self.ids.contains_key(info) {
            self.ids[info]
        } else {
            type_at(self.infos.len() as int)
        }
    }

    /// The types after that description was asked for.
    pub open spec fn interned(self, info: TypeModel) -> TypesModel {
        if self.ids.contains_key(info) {
            self
        } else {
            TypesModel {
                infos: self.infos.push(info),
                ids: self.ids.insert(info, type_at(self.infos.len() as int)),
            }
        }
    }

    /// The types after one more was declared. Until it is defined it is a bool.
    pub open spec fn declared(self) -> TypesModel {
        TypesModel { infos: self.infos.push(TypeModel::PrimBool), ..self }
    }

    /// The types after `id` was defined to be `info`.
    pub open spec fn defined(self, id: TypeId, info: TypeModel) -> TypesModel {
        TypesModel {
            infos: self.infos.update(key_pos(id.key), info),
            ids: self.ids.insert(info, id),
        }
    }

    /// Each description stands for a type that is there.
    pub open spec fn ids_known(self) -> bool {
        forall|info: TypeModel| #[trigger]
            self.ids.contains_key(info) ==> self.contains(self.ids[info])
    }

    /// Each description stands for a type that is as described.
    pub open spec fn consistent(self) -> bool {
        forall|info: TypeModel| #[trigger]
            self.ids.contains_key(info) ==> self.contains(self.ids[info]) && self.info(
                self.ids[info],
            ) == info
    }

    /// The primitive types have ids, which stand for them.
    pub open spec fn prims_right(self) -> bool {
        &&& self.prim_right(TypeModel::PrimI32)
        &&& self.prim_right(TypeModel::PrimI64)
        &&& self.prim_right(TypeModel::PrimF32)
        &&& self.prim_right(TypeModel::PrimBool)
    }

    /// The description has an id, which stands for it.
    pub open spec fn prim_right(self, info: TypeModel) -> bool {
        &&& self.ids.contains_key(info)
        &&& self.contains(self.ids[info])
        &&& self.info(self.ids[info]) == info
    }

    /// The primitive types have their ids.
    pub open spec fn has_prims(self) -> bool {
        &&& self.ids.contains_key(TypeModel::PrimI32)
        &&& self.ids.contains_key(TypeModel::PrimI64)
        &&& self.ids.contains_key(TypeModel::PrimF32)
        &&& self.ids.contains_key(TypeModel::PrimBool)
    }
}

/// Interner for type definitions
pub struct Types {
    id2info: Arena<TypeInfo>,
    info2id: Vec<(TypeInfo, TypeId)>,
}

impl View for Types {
    type V = TypesModel;

    closed spec fn view(&self) -> TypesModel {
        TypesModel {
            infos: self.id2info@.map_values(|info: TypeInfo| info@),
            ids: assoc_map(self.id_pairs()),
        }
    }
}

impl Types {
    spec fn id_pairs(&self) -> Seq<(TypeModel, TypeId)> {
        self.info2id@.map_values(|e: (TypeInfo, TypeId)| (e.0@, e.1))
    }

    /// Each type is found by its id.
    pub closed spec fn slots_wf(&self) -> bool {
        self.id2info.wf()
    }

    /// Each type is found by its id, and each description stands for a type that is
    /// there.
    pub open spec fn wf(&self) -> bool {
        self.slots_wf() && self@.ids_known()
    }

    /// An interner without any type.
    pub fn new() -> (types: Types)
        ensures
            types.wf(),
            types@ == TypesModel::empty(),
    {
        let types = Types { id2info: Arena::new(), info2id: Vec::new() };
        assert(types@.infos =~= Seq::empty());
        assert(types.id_pairs() =~= Seq::empty());
        types
    }

    /// How many types there are.
    pub fn len(&self) -> (n: usize)
        requires
            self.wf(),
        ensures
            n == self@.infos.len(),
            n <= MAX_SLOTS,
    {
        self.id2info.len()
    }

    pub fn i32(&mut self) -> (id: TypeId)
        requires
            old(self).wf(),
            old(self)@.ids.contains_key(TypeModel::PrimI32) || old(self)@.infos.len() < MAX_SLOTS,
        ensures
            final(self).wf(),
            final(self)@ == old(self)@.interned(TypeModel::PrimI32),
            id == old(self)@.id_of(TypeModel::PrimI32),
    {
        self.get_id(&TypeInfo::PrimI32)
    }

    pub fn i64(&mut self) -> (id: TypeId)
        requires
            old(self).wf(),
            old(self)@.ids.contains_key(TypeModel::PrimI64) || old(self)@.infos.len() < MAX_SLOTS,
        ensures
            final(self).wf(),
            final(self)@ == old(self)@.interned(TypeModel::PrimI64),
            id == old(self)@.id_of(TypeModel::PrimI64),
    {
        self.get_id(&TypeInfo::PrimI64)
    }

    pub fn float32(&mut self) -> (id: TypeId)
        requires
            old(self).wf(),
            old(self)@.ids.contains_key(TypeModel::PrimF32) || old(self)@.infos.len() < MAX_SLOTS,
        ensures
            final(self).wf(),
            final(self)@ == old(self)@.interned(TypeModel::PrimF32),
            id == old(self)@.id_of(TypeModel::PrimF32),
    {
        self.get_id(&TypeInfo::PrimF32)
    }

    pub fn bool(&mut self) -> (id: TypeId)
        requires
            old(self).wf(),
            old(self)@.ids.contains_key(TypeModel::PrimBool) || old(self)@.infos.len() < MAX_SLOTS,
        ensures
            final(self).wf(),
            final(self)@ == old(self)@.interned(TypeModel::PrimBool),
            id == old(self)@.id_of(TypeModel::PrimBool),
    {
        self.get_id(&TypeInfo::PrimBool)
    }

    /// The type of a pointer.
    pub fn ptr(&mut self) -> (id: TypeId)
        requires
            old(self).wf(),
            old(self)@.ids.contains_key(TypeModel::PrimI32) || old(self)@.infos.len() < MAX_SLOTS,
            old(self)@.interned(TypeModel::PrimI32).ids.contains_key(
                TypeModel::Ref(old(self)@.id_of(TypeModel::PrimI32)),
            ) || old(self)@.interned(TypeModel::PrimI32).infos.len() < MAX_SLOTS,
        ensures
            final(self).wf(),
            final(self)@ == old(self)@.interned(TypeModel::PrimI32).interned(
                TypeModel::Ref(old(self)@.id_of(TypeModel::PrimI32)),
            ),
            id == old(self)@.interned(TypeModel::PrimI32).id_of(
                TypeModel::Ref(old(self)@.id_of(TypeModel::PrimI32)),
            ),
    {
        let to = self.i32();
        self.get_id(&TypeInfo::Ref(to))
    }

    /// The type that a description stands for, if it stands for one.
    pub fn find_id(&self, info: &TypeInfo) -> (id: Option<TypeId>)
        requires
            self.wf(),
        ensures
            id == (if self@.ids.contains_key(info@) {
                Some(self@.ids[info@])
            } else {
                None
            }),
    {
        let mut i: usize = self.info2id.len();
        while i > 0
            invariant
                i <= self.info2id.len(),
                forall|j: int| i <= j < self.info2id.len() ==> self.id_pairs()[j].0 != info@,
            decreases i,
        {
            i = i - 1;
            let entry = &self.info2id[i];
            if entry.0 == *info {
                proof {
                    lemma_assoc_at(self.id_pairs(), i as int);
                }
                return Some(entry.1);
            }
        }
        proof {
            lemma_assoc_absent(self.id_pairs(), info@);
        }
        None
    }

    /// The type that a description stands for. One that stands for none yet gets
    /// a new type.
    pub fn get_id(&mut self, info: &TypeInfo) -> (id: TypeId)
        requires
            old(self).wf(),
            old(self)@.ids.contains_key(info@) || old(self)@.infos.len() < MAX_SLOTS,
        ensures
            final(self).wf(),
            final(self)@ == old(self)@.interned(info@),
            id == old(self)@.id_of(info@),
    {
        match self.find_id(info) {
            Some(id) => id,
            None => {
                let ghost before = *self;
                let id = TypeId { key: self.id2info.insert(info.clone()) };
                self.info2id.push((info.clone(), id));
                assert(self@.infos =~= before@.infos.push(info@));
                assert(self.id_pairs().drop_last() =~= before.id_pairs());
                id
            },
        }
    }

    /// What a type is.
    pub fn get_info(&self, id: TypeId) -> (info: Option<TypeInfo>)
        requires
            self.wf(),
        ensures
            info is Some <==> self@.contains(id),
            info matches Some(info) ==> info@ == self@.info(id),
    {
        match self.id2info.get(id.key) {
            Some(info) => Some(info.clone()),
            None => None,
        }
    }

    /// The position of a type among all types.
    pub(crate) fn position(&self, id: TypeId) -> (at: Option<usize>)
        requires
            self.wf(),
        ensures
            at is Some <==> self@.contains(id),
            at matches Some(n) ==> n == key_pos(id.key),
    {
        self.id2info.position(id.key)
    }

    /// A new type, to be defined later.
    pub fn declare_type(&mut self) -> (id: TypeId)
        requires
            old(self).wf(),
            old(self)@.infos.len() < MAX_SLOTS,
        ensures
            final(self).wf(),
            final(self)@ == old(self)@.declared(),
            id == type_at(old(self)@.infos.len() as int),
    {
        let ghost before = *self;
        let id = TypeId { key: self.id2info.insert(TypeInfo::PrimBool) };
        proof {
            assert(self@.infos =~= before@.infos.push(TypeModel::PrimBool));
            assert(self@.ids == before@.ids);
            assert forall|m: TypeModel| #[trigger] self@.ids.contains_key(m) implies self@.contains(
                self@.ids[m],
            ) by {
                assert(before@.ids.contains_key(m));
            }
        }
        id
    }

    /// Says what a type is.
    pub fn define_type(&mut self, ty: TypeId, info: TypeInfo)
        requires
            old(self).wf(),
            old(self)@.contains(ty),
        ensures
            final(self).wf(),
            final(self)@ == old(self)@.defined(ty, info@),
    {
        let ghost before = *self;
        self.id2info.set(ty.key, info.clone());
        self.info2id.push((info, ty));
        proof {
            assert(self@.infos =~= before@.infos.update(key_pos(ty.key), info@));
            assert(self.id_pairs().drop_last() =~= before.id_pairs());
            assert(self@.ids == before@.ids.insert(info@, ty));
            assert forall|m: TypeModel| #[trigger] self@.ids.contains_key(m) implies self@.contains(
                self@.ids[m],
            ) by {
                assert(m == info@ || before@.ids.contains_key(m));
            }
        }
    }

    /// All types, in the order in which they were made.
    pub fn all_types(&self) -> (all: Vec<(TypeId, TypeInfo)>)
        requires
            self.wf(),
        ensures
            all@.len() == self@.infos.len(),
            forall|i: int|
                #![trigger all@[i]]
                0 <= i < all@.len() ==> all@[i].0 == type_at(i) && all@[i].1@ == self@.infos[i],
    {
        let mut all: Vec<(TypeId, TypeInfo)> = Vec::new();
        let mut i: usize = 0;
        while i < self.id2info.len()
            invariant
                self.wf(),
                i <= self@.infos.len(),
                all@.len() == i,
                forall|j: int|
                    #![trigger all@[j]]
                    0 <= j < i ==> all@[j].0 == type_at(j) && all@[j].1@ == self@.infos[j],
            decreases self@.infos.len() - i,
        {
            let key = self.id2info.key_of(i);
            if let Some(info) = self.id2info.get(key) {
                all.push((TypeId { key }, info.clone()));
            }
            i = i + 1;
        }
        all
    }
}

/// A description that was asked for stands for a type that is as described, and
/// asking again changes nothing.
pub proof fn law_get_id(types: TypesModel, info: TypeModel)
    requires
        types.consistent(),
        types.infos.len() < MAX_SLOTS,
    ensures
        types.interned(info).consistent(),
        types.interned(info).contains(types.id_of(info)),
        types.interned(info).info(types.id_of(info)) == info,
        types.interned(info).id_of(info) == types.id_of(info),
        types.interned(info).interned(info) == types.interned(info),
{
}

/// Types of different descriptions are different.
pub proof fn law_ids_differ(types: TypesModel, a: TypeModel, b: TypeModel)
    requires
        types.consistent(),
        types.infos.len() + 2 <= MAX_SLOTS,
        a != b,
    ensures
        types.id_of(a) != types.interned(a).id_of(b),
{
    law_get_id(types, a);
    law_get_id(types.interned(a), b);
}

/// Declaring a type leaves every other type and description as it was. The new
/// type is one that was not there, and no description stands for it.
pub proof fn law_declare(types: TypesModel, id: TypeId, info: TypeModel)
    requires
        types.infos.len() < MAX_SLOTS,
        types.ids_known(),
        types.contains(id),
    ensures
        types.consistent() ==> types.declared().consistent(),
        !types.contains(type_at(types.infos.len() as int)),
        types.declared().contains(type_at(types.infos.len() as int)),
        types.declared().info(type_at(types.infos.len() as int)) == TypeModel::PrimBool,
        types.declared().contains(id),
        types.declared().info(id) == types.info(id),
        types.declared().id_of(info) == if types.ids.contains_key(info) {
            types.id_of(info)
        } else {
            type_at(types.infos.len() as int + 1)
        },
        types.declared().id_of(info) != type_at(types.infos.len() as int),
{
}

/// A type that was defined is as it was defined, and its description stands for
/// it. Other types stay as they were.
pub proof fn law_define(types: TypesModel, ty: TypeId, info: TypeModel, other: TypeId)
    requires
        types.contains(ty),
        types.contains(other),
    ensures
        types.defined(ty, info).contains(ty),
        types.defined(ty, info).info(ty) == info,
        types.defined(ty, info).id_of(info) == ty,
        other != ty ==> types.defined(ty, info).info(other) == types.info(other),
{
}

/// The first definition of a declared type keeps every description true.
pub proof fn law_define_consistent(types: TypesModel, ty: TypeId, info: TypeModel)
    requires
        types.consistent(),
        types.contains(ty),
        forall|m: TypeModel| #[trigger] types.ids.contains_key(m) ==> types.ids[m] != ty,
    ensures
        types.defined(ty, info).consistent(),
{
}

/// What a place is.
#[verifier::ext_equal]
pub struct PlaceModel {
    pub local_ty: TypeId,
    pub local: LocalId,
    pub projs: Seq<Projection>,
}

/// What an operand is.
#[verifier::ext_equal]
pub enum OperandModel {
    Place(PlaceModel),
    ConstI32(i32),
    ConstF32(u32),
    ConstBool(bool),
}

/// What a value is made of.
#[verifier::ext_equal]
pub enum ValueModel {
    Read(OperandModel),
    Ref(OperandModel),
    BinOp(BinOp, OperandModel, OperandModel),
}

/// What an instruction does.
#[verifier::ext_equal]
pub enum InsModel {
    Assign { place: PlaceModel, value: ValueModel },
    AllocGc { place: PlaceModel },
}

/// How a block ends.
#[verifier::ext_equal]
pub enum FinalModel {
    Br { next: BasicBlockId },
    BrIf { cond: LocalId, is_true: BasicBlockId, is_false: BasicBlockId },
    Call { func: FuncId, args: Seq<LocalId>, store_ret: Option<LocalId>, next: BasicBlockId },
    Return { value: Option<LocalId> },
}

/// What a block holds.
#[verifier::ext_equal]
pub struct BlockModel {
    pub instructions: Seq<InsModel>,
    pub ins_final: FinalModel,
}

/// What a function holds. Blocks and locals are in the order in which they were
/// made.
#[verifier::ext_equal]
pub struct FuncModel {
    pub name: Seq<char>,
    pub entrypoint: BasicBlockId,
    pub blocks: Seq<BlockModel>,
    pub locals: Seq<TypeId>,
    pub args: Seq<LocalId>,
    pub return_type: Option<TypeId>,
}

/// What a program holds.
#[verifier::ext_equal]
pub struct ProgramModel {
    pub entrypoint: FuncId,
    pub functions: Seq<FuncModel>,
    pub types: TypesModel,
}

/// The id of the function made after `n` others.
pub open spec fn func_at(n: int) -> FuncId {
    FuncId { key: key_at(n) }
}

impl FuncModel {
    pub open spec fn has_block(self, id: BasicBlockId) -> bool {
        0 <= key_pos(id.key) < self.blocks.len()
    }

    pub open spec fn block(self, id: BasicBlockId) -> BlockModel {
        self.blocks[key_pos(id.key)]
    }

    pub open spec fn has_local(self, id: LocalId) -> bool {
        0 <= key_pos(id.key) < self.locals.len()
    }

    /// The type of a local.
    pub open spec fn local(self, id: LocalId) -> TypeId {
        self.locals[key_pos(id.key)]
    }
}

impl ProgramModel {
    pub open spec fn has_func(self, id: FuncId) -> bool {
        0 <= key_pos(id.key) < self.functions.len()
    }

    pub open spec fn func(self, id: FuncId) -> FuncModel {
        self.functions[key_pos(id.key)]
    }
}

impl View for PlaceExpr {
    type V = PlaceModel;

    open spec fn view(&self) -> PlaceModel {
        PlaceModel { local_ty: self.local_ty, local: self.local, projs: self.projs@ }
    }
}

impl View for Operand {
    type V = OperandModel;

    open spec fn view(&self) -> OperandModel {
        match *self {
            Operand::Place(place) => OperandModel::Place(place@),
            Operand::ConstI32(imm) => OperandModel::ConstI32(imm),
            Operand::ConstF32(imm) => OperandModel::ConstF32(imm),
            Operand::ConstBool(imm) => OperandModel::ConstBool(imm),
        }
    }
}

impl View for ValueExpr {
    type V = ValueModel;

    open spec fn view(&self) -> ValueModel {
        match *self {
            ValueExpr::Read(op) => ValueModel::Read(op@),
            ValueExpr::Ref(op) => ValueModel::Ref(op@),
            ValueExpr::BinOp(bin_op, lhs, rhs) => ValueModel::BinOp(bin_op, lhs@, rhs@),
        }
    }
}

impl View for Ins {
    type V = InsModel;

    open spec fn view(&self) -> InsModel {
        match *self {
            Ins::Assign { place, value } => InsModel::Assign { place: place@, value: value@ },
            Ins::AllocGc { place } => InsModel::AllocGc { place: place@ },
        }
    }
}

impl View for InsFinal {
    type V = FinalModel;

    open spec fn view(&self) -> FinalModel {
        match *self {
            InsFinal::Br { next } => FinalModel::Br { next },
            InsFinal::BrIf { cond, is_true, is_false } => FinalModel::BrIf {
                cond,
                is_true,
                is_false,
            },
            InsFinal::Call { func, args, store_ret, next } => FinalModel::Call {
                func,
                args: args@,
                store_ret,
                next,
            },
            InsFinal::Return { value } => FinalModel::Return { value },
        }
    }
}

/// Instructions that run one after the other, and what comes next.
#[derive(Clone, Debug)]
pub struct BasicBlock {
    pub instructions: Vec<Ins>,
    pub ins_final: InsFinal,
}

impl View for BasicBlock {
    type V = BlockModel;

    open spec fn view(&self) -> BlockModel {
        BlockModel {
            instructions: self.instructions@.map_values(|ins: Ins| ins@),
            ins_final: self.ins_final@,
        }
    }
}

/// A function: its locals, some of which are its arguments, and its blocks.
pub struct Func {
    pub name: String,
    pub entrypoint: BasicBlockId,
    pub blocks: Arena<BasicBlock>,
    pub locals: Arena<TypeId>,
    pub args: Vec<LocalId>,
    pub return_type: Option<TypeId>,
}

impl View for Func {
    type V = FuncModel;

    open spec fn view(&self) -> FuncModel {
        FuncModel {
            name: self.name@,
            entrypoint: self.entrypoint,
            blocks: self.blocks@.map_values(|block: BasicBlock| block@),
            locals: self.locals@,
            args: self.args@,
            return_type: self.return_type,
        }
    }
}

impl Func {
    pub open spec fn wf(&self) -> bool {
        self.blocks.wf() && self.locals.wf()
    }
}

impl Default for Func {
    /// A function without a name, without blocks and without locals.
    fn default() -> (func: Func)
        ensures
            func.wf(),
            func@ == (FuncModel {
                name: Seq::empty(),
                entrypoint: BasicBlockId { key: NULL_KEY },
                blocks: Seq::empty(),
                locals: Seq::empty(),
                args: Seq::empty(),
                return_type: None,
            }),
    {
        let func = Func {
            name: String::new(),
            entrypoint: BasicBlockId::null(),
            blocks: Arena::new(),
            locals: Arena::new(),
            args: Vec::new(),
            return_type: None,
        };
        assert(func@.blocks =~= Seq::empty());
        func
    }
}

/// Functions, the types that they use, and the function to start with.
pub struct Program {
    pub entrypoint: FuncId,
    pub functions: Arena<Func>,
    pub types: Types,
}

impl View for Program {
    type V = ProgramModel;

    open spec fn view(&self) -> ProgramModel {
        ProgramModel {
            entrypoint: self.entrypoint,
            functions: self.functions@.map_values(|func: Func| func@),
            types: self.types@,
        }
    }
}

impl Program {
    /// The program knows the primitive types.
    pub open spec fn wf(&self) -> bool {
        &&& self.functions.wf()
        &&& self.types.wf()
        &&& self.types@.has_prims()
        &&& forall|i: int| 0 <= i < self.functions@.len() ==> (#[trigger] self.functions@[i]).wf()
    }
}

/// The type that one projection leads to from a value of type `ty`.
pub open spec fn step_type(types: TypesModel, ty: TypeId, proj: Projection) -> Option<TypeId> {
    if !types.contains(ty) {
        None
    } else {
        match (proj, types.info(ty)) {
            (Projection::Deref, TypeModel::Ref(to)) => Some(to),
            (Projection::Deref, TypeModel::GcRef(to)) => Some(to),
            (Projection::Field { field_idx }, TypeModel::Struct(fields)) => if field_idx
                < fields.len() {
                Some(fields[field_idx as int])
            } else {
                None
            },
            _ => None,
        }
    }
}

/// The type that projections lead to from a value of type `ty`. Projections that
/// do not fit the type before them lead nowhere, and so does an index.
pub open spec fn final_type(types: TypesModel, ty: TypeId, projs: Seq<Projection>) -> Option<TypeId>
    decreases projs.len(),
{
    if projs.len() == 0 {
        Some(ty)
    } else {
        match final_type(types, ty, projs.drop_last()) {
            Some(before) => step_type(types, before, projs.last()),
            None => None,
        }
    }
}

/// Projections lead somewhere only where each of their beginnings does.
pub proof fn lemma_final_type_prefix(
    types: TypesModel,
    ty: TypeId,
    projs: Seq<Projection>,
    n: int,
)
    requires
        0 <= n <= projs.len(),
        final_type(types, ty, projs) is Some,
    ensures
        final_type(types, ty, projs.take(n)) is Some,
        n < projs.len() ==> final_type(types, ty, projs.take(n + 1)) == step_type(
            types,
            final_type(types, ty, projs.take(n))->0,
            projs[n],
        ),
    decreases projs.len(),
{
    if n == projs.len() {
        assert(projs.take(n) =~= projs);
    } else {
        assert(projs.take(n + 1).drop_last() =~= projs.take(n));
        if n + 1 == projs.len() {
            assert(projs.take(n + 1) =~= projs);
        } else {
            lemma_final_type_prefix(types, ty, projs.drop_last(), n);
            assert(projs.drop_last().take(n) =~= projs.take(n));
            assert(projs.drop_last().take(n + 1) =~= projs.take(n + 1));
        }
    }
}

/// The type of an operand.
pub open spec fn operand_type(types: TypesModel, operand: OperandModel) -> Option<TypeId> {
    match operand {
        OperandModel::Place(place) => final_type(types, place.local_ty, place.projs),
        OperandModel::ConstI32(_) => Some(types.id_of(TypeModel::PrimI32)),
        OperandModel::ConstF32(_) => Some(types.id_of(TypeModel::PrimF32)),
        OperandModel::ConstBool(_) => Some(types.id_of(TypeModel::PrimBool)),
    }
}

impl PlaceExpr {
    fn final_type_in(&self, types: &Types) -> (ty: TypeId)
        requires
            types.wf(),
            final_type(types@, self.local_ty, self.projs@) is Some,
        ensures
            Some(ty) == final_type(types@, self.local_ty, self.projs@),
    {
        let mut curr = self.local_ty;
        let mut i: usize = 0;
        assert(self.projs@.take(0) =~= Seq::empty());
        while i < self.projs.len()
            invariant
                types.wf(),
                i <= self.projs.len(),
                final_type(types@, self.local_ty, self.projs@) is Some,
                Some(curr) == final_type(types@, self.local_ty, self.projs@.take(i as int)),
            decreases self.projs.len() - i,
        {
            proof {
                lemma_final_type_prefix(types@, self.local_ty, self.projs@, i as int);
                lemma_final_type_prefix(types@, self.local_ty, self.projs@, i + 1);
            }
            let curr_info = types.get_info(curr);
            match (&self.projs[i], curr_info) {
                (Projection::Deref, Some(TypeInfo::Ref(type_id))) => {
                    curr = type_id;
                },
                (Projection::Deref, Some(TypeInfo::GcRef(type_id))) => {
                    curr = type_id;
                },
                (Projection::Field { field_idx }, Some(TypeInfo::Struct(struct_info))) => {
                    curr = struct_info.fields[*field_idx];
                },
                _ => {},
            }
            i = i + 1;
        }
        assert(self.projs@.take(i as int) =~= self.projs@);
        curr
    }

    /// The type of what the place holds.
    pub fn get_final_type(&self, program: &Program, _func: &Func) -> (ty: TypeId)
        requires
            program.wf(),
            final_type(program@.types, self.local_ty, self.projs@) is Some,
        ensures
            Some(ty) == final_type(program@.types, self.local_ty, self.projs@),
    {
        self.final_type_in(&program.types)
    }
}

impl Operand {
    fn final_type_in(&self, types: &Types) -> (ty: TypeId)
        requires
            types.wf(),
            types@.has_prims(),
            operand_type(types@, self@) is Some,
        ensures
            Some(ty) == operand_type(types@, self@),
    {
        let info = match self {
            Operand::Place(place) => {
                return place.final_type_in(types);
            },
            Operand::ConstI32(_) => TypeInfo::PrimI32,
            Operand::ConstF32(_) => TypeInfo::PrimF32,
            Operand::ConstBool(_) => TypeInfo::PrimBool,
        };
        match types.find_id(&info) {
            Some(id) => id,
            None => TypeId::null(),
        }
    }

    /// The type of what the operand reads.
    pub fn get_final_type(&self, program: &Program, _func: &Func) -> (ty: TypeId)
        requires
            program.wf(),
            operand_type(program@.types, self@) is Some,
        ensures
            Some(ty) == operand_type(program@.types, self@),
    {
        self.final_type_in(&program.types)
    }
}

/// The operand whose type decides the type of a value: what is read, what is
/// referred to, or the left one of two.
pub open spec fn value_operand(value: ValueModel) -> OperandModel {
    match value {
        ValueModel::Read(op) => op,
        ValueModel::Ref(op) => op,
        ValueModel::BinOp(_, lhs, _) => lhs,
    }
}

impl ValueExpr {
    /// The type of the value. The type of a reference is made where the program
    /// does not have it yet.
    pub fn get_final_type(&self, program: &mut Program) -> (ty: TypeId)
        requires
            old(program).wf(),
            operand_type(old(program)@.types, value_operand(self@)) is Some,
            self is Ref ==> old(program)@.types.infos.len() < MAX_SLOTS,
        ensures
            final(program).wf(),
            match self@ {
                ValueModel::Ref(op) => {
                    let info = TypeModel::Ref(operand_type(old(program)@.types, op)->0);
                    &&& ty == old(program)@.types.id_of(info)
                    &&& final(program)@ == (ProgramModel {
                        types: old(program)@.types.interned(info),
                        ..old(program)@
                    })
                },
                _ => {
                    &&& Some(ty) == operand_type(old(program)@.types, value_operand(self@))
                    &&& final(program)@ == old(program)@
                },
            },
    {
        match self {
            ValueExpr::Read(op) => op.final_type_in(&program.types),
            ValueExpr::Ref(op) => {
                let to = op.final_type_in(&program.types);
                program.types.get_id(&TypeInfo::Ref(to))
            },
            ValueExpr::BinOp(_, lhs, _) => lhs.final_type_in(&program.types),
        }
    }
}

/// The type of a reference is one that a dereference leads back from.
pub proof fn law_deref_ref(types: TypesModel, ty: TypeId, projs: Seq<Projection>)
    requires
        types.consistent(),
        types.infos.len() < MAX_SLOTS,
        final_type(types, ty, projs) is Some,
    ensures
        ({
            let to = final_type(types, ty, projs)->0;
            let info = TypeModel::Ref(to);
            final_type(types.interned(info), types.id_of(info), seq![Projection::Deref]) == Some(to)
        }),
{
    let info = TypeModel::Ref(final_type(types, ty, projs)->0);
    law_get_id(types, info);
    assert(seq![Projection::Deref].drop_last() =~= Seq::empty());
    reveal_with_fuel(final_type, 2);
}

} // verus!

//! Where the fields of a value lie in memory.

use super::{Program, StructInfo, TypeId, TypeInfo, TypeModel, Types, TypesModel};
use crate::layout::{extended, lemma_round_up, Layout};
use vstd::prelude::*;

verus! {

/// Where the fields of a struct start, and how much room the struct takes.
pub struct StructLayout {
    pub field_offsets: Vec<usize>,
    pub size: usize,
    pub align: usize,
}

/// The layout of a struct.
#[verifier::ext_equal]
pub struct StructShape {
    pub offsets: Seq<usize>,
    pub whole: Layout,
}

impl View for StructLayout {
    type V = StructShape;

    open spec fn view(&self) -> StructShape {
        StructShape {
            offsets: self.field_offsets@,
            whole: Layout { size: self.size, align: self.align },
        }
    }
}

/// The layout of a type in which structs lie inside structs at most `depth`
/// times.
pub open spec fn layout_within(types: TypesModel, info: TypeModel, depth: nat) -> Option<Layout>
    decreases
            depth,
            (match info {
                TypeModel::Struct(fields) => fields.len() + 1,
                _ => 0,
            }),
{
    match info {
        TypeModel::PrimBool => Some(Layout { size: 1, align: 1 }),
        TypeModel::PrimI32 => Some(Layout { size: 4, align: 4 }),
        TypeModel::PrimI64 => Some(Layout { size: 8, align: 8 }),
        TypeModel::PrimF32 => Some(Layout { size: 4, align: 4 }),
        TypeModel::Ref(_) => Some(Layout { size: 8, align: 8 }),
        TypeModel::GcRef(_) => Some(Layout { size: 8, align: 8 }),
        TypeModel::Struct(fields) => match shape_within(types, fields, depth) {
            Some(shape) => Some(shape.whole),
            None => None,
        },
    }
}

/// The layout of a struct in which structs lie inside structs at most `depth`
/// times. Its fields lie in their order, each as close behind the one before as
/// its alignment allows.
pub open spec fn shape_within(types: TypesModel, fields: Seq<TypeId>, depth: nat) -> Option<
    StructShape,
>
    decreases depth, fields.len(),
{
    if fields.len() == 0 {
        Some(StructShape { offsets: Seq::empty(), whole: Layout { size: 0, align: 1 } })
    } else if depth == 0 || !types.contains(fields.last()) {
        None
    } else {
        match (
            shape_within(types, fields.drop_last(), depth),
            layout_within(types, types.info(fields.last()), (depth - 1) as nat),
        ) {
            (Some(front), Some(field)) => match extended(front.whole, field) {
                Some((whole, offset)) => Some(
                    StructShape { offsets: front.offsets.push(offset), whole },
                ),
                None => None,
            },
            _ => None,
        }
    }
}

/// The layout of a type. A struct that lies inside itself has none, nor has one
/// that is too large or that holds a field of an unknown type.
pub open spec fn layout_of(types: TypesModel, info: TypeModel) -> Option<Layout> {
    if exists|depth: nat| layout_within(types, info, depth) is Some {
        layout_within(types, info, choose|depth: nat| layout_within(types, info, depth) is Some)
    } else {
        None
    }
}

/// The layout of a struct of those fields.
pub open spec fn shape_of(types: TypesModel, fields: Seq<TypeId>) -> Option<StructShape> {
    if exists|depth: nat| shape_within(types, fields, depth) is Some {
        shape_within(types, fields, choose|depth: nat| shape_within(types, fields, depth) is Some)
    } else {
        None
    }
}

/// A layout that is found within one depth is found within every larger one.
proof fn lemma_layout_deeper(types: TypesModel, info: TypeModel, depth: nat, deeper: nat)
    requires
        depth <= deeper,
        layout_within(types, info, depth) is Some,
    ensures
        layout_within(types, info, deeper) == layout_within(types, info, depth),
    decreases
            depth,
            (match info {
                TypeModel::Struct(fields) => fields.len() + 1,
                _ => 0,
            }),
{
    if let TypeModel::Struct(fields) = info {
        lemma_shape_deeper(types, fields, depth, deeper);
    }
}

proof fn lemma_shape_deeper(types: TypesModel, fields: Seq<TypeId>, depth: nat, deeper: nat)
    requires
        depth <= deeper,
        shape_within(types, fields, depth) is Some,
    ensures
        shape_within(types, fields, deeper) == shape_within(types, fields, depth),
    decreases depth, fields.len(),
{
    if fields.len() > 0 {
        lemma_shape_deeper(types, fields.drop_last(), depth, deeper);
        lemma_layout_deeper(
            types,
            types.info(fields.last()),
            (depth - 1) as nat,
            (deeper - 1) as nat,
        );
    }
}

/// A layout that is found within some depth is the layout.
pub proof fn lemma_layout_of(types: TypesModel, info: TypeModel, depth: nat)
    requires
        layout_within(types, info, depth) is Some,
    ensures
        layout_of(types, info) == layout_within(types, info, depth),
{
    let found = choose|depth: nat| layout_within(types, info, depth) is Some;
    if found <= depth {
        lemma_layout_deeper(types, info, found, depth);
    } else {
        lemma_layout_deeper(types, info, depth, found);
    }
}

pub proof fn lemma_shape_of(types: TypesModel, fields: Seq<TypeId>, depth: nat)
    requires
        shape_within(types, fields, depth) is Some,
    ensures
        shape_of(types, fields) == shape_within(types, fields, depth),
{
    let found = choose|depth: nat| shape_within(types, fields, depth) is Some;
    if found <= depth {
        lemma_shape_deeper(types, fields, found, depth);
    } else {
        lemma_shape_deeper(types, fields, depth, found);
    }
}

/// A struct takes the room of its fields.
pub proof fn lemma_layout_of_struct(types: TypesModel, fields: Seq<TypeId>)
    ensures
        layout_of(types, TypeModel::Struct(fields)) == match shape_of(types, fields) {
            Some(shape) => Some(shape.whole),
            None => None,
        },
{
    let info = TypeModel::Struct(fields);
    if shape_of(types, fields) is Some {
        let depth = choose|depth: nat| shape_within(types, fields, depth) is Some;
        assert(layout_within(types, info, depth) is Some);
        lemma_layout_of(types, info, depth);
    } else if layout_of(types, info) is Some {
        let depth = choose|depth: nat| layout_within(types, info, depth) is Some;
        assert(shape_within(types, fields, depth) is Some);
        lemma_shape_of(types, fields, depth);
    }
}

/// An alignment that a value can have.
pub open spec fn known_align(align: usize) -> bool {
    align == 1 || align == 4 || align == 8
}

/// Every layout is one that memory can be asked for.
pub proof fn lemma_layout_within_valid(types: TypesModel, info: TypeModel, depth: nat)
    requires
        layout_within(types, info, depth) is Some,
    ensures
        layout_within(types, info, depth)->0.valid(),
        known_align(layout_within(types, info, depth)->0.align),
    decreases
            depth,
            (match info {
                TypeModel::Struct(fields) => fields.len() + 1,
                _ => 0,
            }),
{
    if let TypeModel::Struct(fields) = info {
        lemma_shape_within_valid(types, fields, depth);
    }
}

pub proof fn lemma_shape_within_valid(types: TypesModel, fields: Seq<TypeId>, depth: nat)
    requires
        shape_within(types, fields, depth) is Some,
    ensures
        shape_within(types, fields, depth)->0.whole.valid(),
        known_align(shape_within(types, fields, depth)->0.whole.align),
        shape_within(types, fields, depth)->0.offsets.len() == fields.len(),
    decreases depth, fields.len(),
{
    if fields.len() > 0 {
        lemma_shape_within_valid(types, fields.drop_last(), depth);
        let field = types.info(fields.last());
        lemma_layout_within_valid(types, field, (depth - 1) as nat);
        let front = shape_within(types, fields.drop_last(), depth)->0.whole;
        let last = layout_within(types, field, (depth - 1) as nat)->0;
        lemma_round_up(front.size as int, last.align as int);
        let size = crate::layout::round_up(front.size as int, last.align as int) + last.size;
        lemma_round_up(size, shape_within(types, fields, depth)->0.whole.align as int);
    }
}

/// Every type that has a layout has one that memory can be asked for, at one of
/// three alignments.
pub proof fn law_layout_valid(types: TypesModel, info: TypeModel)
    requires
        layout_of(types, info) is Some,
    ensures
        layout_of(types, info)->0.valid(),
        known_align(layout_of(types, info)->0.align),
{
    let depth = choose|depth: nat| layout_within(types, info, depth) is Some;
    lemma_layout_within_valid(types, info, depth);
}

/// The layout of a field.
pub open spec fn field_layout(types: TypesModel, fields: Seq<TypeId>, i: int) -> Layout {
    layout_of(types, types.info(fields[i]))->0
}

/// Each field of a struct has its own room: it starts at a multiple of its
/// alignment, lies inside the struct and behind all fields before it.
pub proof fn law_fields_apart(types: TypesModel, fields: Seq<TypeId>, i: int)
    requires
        shape_of(types, fields) is Some,
        0 <= i < fields.len(),
    ensures
        ({
            let shape = shape_of(types, fields)->0;
            let field = field_layout(types, fields, i);
            &&& shape.offsets.len() == fields.len()
            &&& types.contains(fields[i])
            &&& layout_of(types, types.info(fields[i])) is Some
            &&& shape.offsets[i] as int % field.align as int == 0
            &&& shape.offsets[i] + field.size <= shape.whole.size
            &&& field.align <= shape.whole.align
            &&& forall|j: int|
                i < j < fields.len() ==> shape.offsets[i] + field.size <= #[trigger] shape.offsets[j]
        }),
    decreases fields.len(),
{
    let depth = choose|depth: nat| shape_within(types, fields, depth) is Some;
    let shape = shape_within(types, fields, depth)->0;
    let front = shape_within(types, fields.drop_last(), depth)->0;
    let info = types.info(fields.last());
    let last = layout_within(types, info, (depth - 1) as nat)->0;
    lemma_shape_within_valid(types, fields, depth);
    lemma_shape_within_valid(types, fields.drop_last(), depth);
    lemma_layout_within_valid(types, info, (depth - 1) as nat);
    lemma_layout_of(types, info, (depth - 1) as nat);
    lemma_shape_of(types, fields.drop_last(), depth);
    lemma_round_up(front.whole.size as int, last.align as int);
    let size = crate::layout::round_up(front.whole.size as int, last.align as int) + last.size;
    lemma_round_up(size, shape.whole.align as int);
    if i < fields.len() - 1 {
        law_fields_apart(types, fields.drop_last(), i);
        assert(fields.drop_last()[i] == fields[i]);
        assert(shape.offsets[i] == front.offsets[i]);
        assert forall|j: int| i < j < fields.len() implies shape.offsets[i] + field_layout(
            types,
            fields,
            i,
        ).size <= #[trigger] shape.offsets[j] by {
            if j < fields.len() - 1 {
                assert(shape.offsets[j] == front.offsets[j]);
            }
        }
    }
}

/// Where the room of the first `n` fields of a struct ends.
pub open spec fn fields_end(types: TypesModel, fields: Seq<TypeId>, n: int) -> int {
    if n == 0 {
        0
    } else {
        shape_of(types, fields)->0.offsets[n - 1] + field_layout(types, fields, n - 1).size
    }
}

/// The fields of a struct lie as close together as their alignments allow, and the struct
/// ends with its last field.
pub proof fn law_fields_packed(types: TypesModel, fields: Seq<TypeId>, i: int)
    requires
        shape_of(types, fields) is Some,
        0 <= i < fields.len(),
    ensures
        fields_end(types, fields, i) <= shape_of(types, fields)->0.offsets[i] < fields_end(
            types,
            fields,
            i,
        ) + field_layout(types, fields, i).align,
        shape_of(types, fields)->0.whole.size == fields_end(types, fields, fields.len() as int),
    decreases fields.len(),
{
    let depth = choose|depth: nat| shape_within(types, fields, depth) is Some;
    let n = fields.len() - 1;
    let shape = shape_within(types, fields, depth)->0;
    let front = fields.drop_last();
    let before = shape_within(types, front, depth)->0;
    let info = types.info(fields.last());
    let last = layout_within(types, info, (depth - 1) as nat)->0;
    lemma_shape_within_valid(types, fields, depth);
    lemma_shape_within_valid(types, front, depth);
    lemma_layout_within_valid(types, info, (depth - 1) as nat);
    lemma_layout_of(types, info, (depth - 1) as nat);
    lemma_shape_of(types, front, depth);
    lemma_round_up(before.whole.size as int, last.align as int);
    let size = crate::layout::round_up(before.whole.size as int, last.align as int) + last.size;
    lemma_round_up(size, shape.whole.align as int);
    assert(fields[n] == fields.last());
    if n > 0 {
        law_fields_packed(types, front, if i < n {
            i
        } else {
            0
        });
        assert forall|k: int| 0 <= k < n implies (#[trigger] front[k]) == fields[k]
            && shape.offsets[k] == before.offsets[k] by {}
        assert(fields_end(types, front, n) == fields_end(types, fields, n)) by {
            assert(front[n - 1] == fields[n - 1]);
        }
        if i < n {
            assert(front[i] == fields[i]);
            if i > 0 {
                assert(front[i - 1] == fields[i - 1]);
            }
        }
    } else {
        assert(front =~= Seq::empty());
    }
}

/// The room of fields with the gaps that there can be between them.
pub open spec fn fields_room(types: TypesModel, fields: Seq<TypeId>) -> int
    decreases fields.len(),
{
    if fields.len() == 0 {
        0
    } else {
        fields_room(types, fields.drop_last()) + layout_of(types, types.info(fields.last()))->0.size
            + 8
    }
}

/// A struct has a layout where its fields have layouts and it does not get too large.
pub proof fn law_struct_has_layout(types: TypesModel, fields: Seq<TypeId>)
    requires
        forall|i: int|
            0 <= i < fields.len() ==> types.contains(#[trigger] fields[i]) && layout_of(
                types,
                types.info(fields[i]),
            ) is Some,
        fields_room(types, fields) + 8 <= crate::layout::max_size(),
    ensures
        shape_of(types, fields) is Some,
        shape_of(types, fields)->0.whole.size <= fields_room(types, fields),
    decreases fields.len(),
{
    if fields.len() == 0 {
        assert(shape_within(types, fields, 0) is Some);
        lemma_shape_of(types, fields, 0);
    } else {
        let front = fields.drop_last();
        let n = fields.len() - 1;
        assert(fields[n] == fields.last());
        let info = types.info(fields.last());
        assert forall|i: int| 0 <= i < front.len() implies types.contains(#[trigger] front[i])
            && layout_of(types, types.info(front[i])) is Some by {
            assert(front[i] == fields[i]);
        }
        law_layout_valid(types, info);
        law_struct_has_layout(types, front);
        let a = choose|depth: nat| shape_within(types, front, depth) is Some;
        let b = choose|depth: nat| layout_within(types, info, depth) is Some;
        let depth = (a + b + 1) as nat;
        lemma_shape_deeper(types, front, a, depth);
        lemma_layout_deeper(types, info, b, (depth - 1) as nat);
        let before = shape_of(types, front)->0.whole;
        let last = layout_of(types, info)->0;
        lemma_shape_within_valid(types, front, a);
        lemma_round_up(before.size as int, last.align as int);
        let size = crate::layout::round_up(before.size as int, last.align as int) + last.size;
        let align = if before.align < last.align {
            last.align
        } else {
            before.align
        };
        lemma_round_up(size, align as int);
        assert(shape_within(types, fields, depth) is Some);
        lemma_shape_of(types, fields, depth);
    }
}

/// The alignment of a struct is that of one of its fields, or 1 where it has no
/// field.
pub proof fn law_struct_align(types: TypesModel, fields: Seq<TypeId>)
    requires
        shape_of(types, fields) is Some,
    ensures
        fields.len() == 0 ==> shape_of(types, fields)->0.whole == (Layout { size: 0, align: 1 }),
        fields.len() > 0 ==> exists|i: int|
            0 <= i < fields.len() && shape_of(types, fields)->0.whole.align
                == (#[trigger] field_layout(types, fields, i)).align,
    decreases fields.len(),
{
    let depth = choose|depth: nat| shape_within(types, fields, depth) is Some;
    if fields.len() > 0 {
        let shape = shape_within(types, fields, depth)->0;
        let front = shape_within(types, fields.drop_last(), depth)->0;
        let info = types.info(fields.last());
        let last = fields.len() - 1;
        lemma_shape_of(types, fields.drop_last(), depth);
        lemma_layout_of(types, info, (depth - 1) as nat);
        lemma_layout_within_valid(types, info, (depth - 1) as nat);
        law_struct_align(types, fields.drop_last());
        if shape.whole.align == field_layout(types, fields, last).align {
        } else {
            assert(fields.drop_last().len() > 0);
            let i = choose|i: int|
                0 <= i < fields.len() - 1 && front.whole.align == (#[trigger] field_layout(
                    types,
                    fields.drop_last(),
                    i,
                )).align;
            assert(field_layout(types, fields, i).align == shape.whole.align);
        }
    }
}

impl StructInfo {
    /// The layout of the struct, whose structs inside structs are counted.
    fn layout_in(&self, types: &Types, Ghost(depth): Ghost<nat>) -> (layout: StructLayout)
        requires
            types.wf(),
            shape_within(types@, self.fields@, depth) is Some,
        ensures
            Some(layout@) == shape_within(types@, self.fields@, depth),
        decreases depth, 0int,
    {
        let mut layout = Layout { size: 0, align: 1 };
        let mut field_offsets: Vec<usize> = Vec::new();
        let mut i: usize = 0;
        assert(self.fields@.take(0) =~= Seq::empty());
        while i < self.fields.len()
            invariant
                types.wf(),
                i <= self.fields.len(),
                shape_within(types@, self.fields@, depth) is Some,
                shape_within(types@, self.fields@.take(i as int), depth) == Some(
                    StructShape { offsets: field_offsets@, whole: layout },
                ),
            decreases self.fields.len() - i,
        {
            let ty = self.fields[i];
            proof {
                lemma_shape_front(types@, self.fields@, depth, i + 1);
                assert(self.fields@.take(i + 1).drop_last() =~= self.fields@.take(i as int));
                lemma_shape_within_valid(types@, self.fields@.take(i as int), depth);
                lemma_layout_within_valid(types@, types@.info(ty), (depth - 1) as nat);
            }
            if let Some(info) = types.get_info(ty) {
                let field = info.layout_in(types, Ghost((depth - 1) as nat));
                if let Some((whole, offset)) = layout.extend(field) {
                    layout = whole;
                    field_offsets.push(offset);
                }
            }
            i = i + 1;
        }
        assert(self.fields@.take(i as int) =~= self.fields@);
        StructLayout { field_offsets, size: layout.size, align: layout.align }
    }

    /// Where the fields lie and how much room they take together.
    pub fn layout(&self, program: &Program) -> (layout: StructLayout)
        requires
            program.wf(),
            shape_of(program@.types, self.fields@) is Some,
        ensures
            Some(layout@) == shape_of(program@.types, self.fields@),
    {
        self.layout_in(
            &program.types,
            Ghost(choose|depth: nat| shape_within(program@.types, self.fields@, depth) is Some),
        )
    }

    /// Where a field starts.
    pub fn field_offset(&self, program: &Program, field_idx: usize) -> (offset: usize)
        requires
            program.wf(),
            shape_of(program@.types, self.fields@) is Some,
            field_idx < self.fields@.len(),
        ensures
            offset == shape_of(program@.types, self.fields@)->0.offsets[field_idx as int],
    {
        proof {
            law_fields_apart(program@.types, self.fields@, field_idx as int);
        }
        self.layout(program).field_offsets[field_idx]
    }
}

/// Fields that have their places have them when fewer come behind them.
pub proof fn lemma_shape_front(types: TypesModel, fields: Seq<TypeId>, depth: nat, n: int)
    requires
        0 <= n <= fields.len(),
        shape_within(types, fields, depth) is Some,
    ensures
        shape_within(types, fields.take(n), depth) is Some,
    decreases fields.len(),
{
    if n == fields.len() {
        assert(fields.take(n) =~= fields);
    } else {
        lemma_shape_front(types, fields.drop_last(), depth, n);
        assert(fields.drop_last().take(n) =~= fields.take(n));
    }
}

impl TypeInfo {
    fn layout_in(&self, types: &Types, Ghost(depth): Ghost<nat>) -> (layout: Layout)
        requires
            types.wf(),
            layout_within(types@, self@, depth) is Some,
        ensures
            Some(layout) == layout_within(types@, self@, depth),
        decreases depth, 1int,
    {
        match self {
            TypeInfo::PrimBool => Layout { size: 1, align: 1 },
            TypeInfo::PrimI32 => Layout { size: 4, align: 4 },
            TypeInfo::PrimI64 => Layout { size: 8, align: 8 },
            TypeInfo::PrimF32 => Layout { size: 4, align: 4 },
            TypeInfo::Ref(_) => Layout { size: 8, align: 8 },
            TypeInfo::GcRef(_) => Layout { size: 8, align: 8 },
            TypeInfo::Struct(struct_info) => {
                let layout = struct_info.layout_in(types, Ghost(depth));
                Layout { size: layout.size, align: layout.align }
            },
        }
    }

    /// Returns `(size, align)`
    pub fn layout(&self, program: &Program) -> (layout: Layout)
        requires
            program.wf(),
            layout_of(program@.types, self@) is Some,
        ensures
            Some(layout) == layout_of(program@.types, self@),
    {
        self.layout_in(
            &program.types,
            Ghost(choose|depth: nat| layout_within(program@.types, self@, depth) is Some),
        )
    }
}

/// The layouts of all types, in the order in which the types were made.
pub open spec fn all_layouts(types: TypesModel) -> Seq<Option<Layout>> {
    Seq::new(types.infos.len(), |i: int| layout_of(types, types.infos[i]))
}

/// What a table says of a type.
pub open spec fn table_at(types: TypesModel, table: Seq<Option<Layout>>, ty: TypeId) -> Option<
    Layout,
> {
    if types.contains(ty) {
        table[crate::slots::key_pos(ty.key)]
    } else {
        None
    }
}

/// The layout of a struct whose fields have the layouts of the table.
pub open spec fn whole_from(
    types: TypesModel,
    table: Seq<Option<Layout>>,
    fields: Seq<TypeId>,
) -> Option<Layout>
    decreases fields.len(),
{
    if fields.len() == 0 {
        Some(Layout { size: 0, align: 1 })
    } else {
        match (
            whole_from(types, table, fields.drop_last()),
            table_at(types, table, fields.last()),
        ) {
            (Some(front), Some(field)) => match extended(front, field) {
                Some((whole, _)) => Some(whole),
                None => None,
            },
            _ => None,
        }
    }
}

/// The layout of a type, of whose fields the table holds the layouts.
pub open spec fn layout_from(
    types: TypesModel,
    table: Seq<Option<Layout>>,
    info: TypeModel,
) -> Option<Layout> {
    match info {
        TypeModel::Struct(fields) => whole_from(types, table, fields),
        _ => layout_within(types, info, 0),
    }
}

/// The table holds no layout but the right ones.
spec fn table_true(types: TypesModel, table: Seq<Option<Layout>>) -> bool {
    &&& table.len() == types.infos.len()
    &&& forall|i: int|
        0 <= i < table.len() && (#[trigger] table[i]) is Some ==> table[i] == layout_of(
            types,
            types.infos[i],
        )
}

proof fn lemma_whole_from_true(types: TypesModel, table: Seq<Option<Layout>>, fields: Seq<TypeId>)
    requires
        table_true(types, table),
        whole_from(types, table, fields) is Some,
    ensures
        shape_of(types, fields) is Some,
        shape_of(types, fields)->0.whole == whole_from(types, table, fields)->0,
    decreases fields.len(),
{
    if fields.len() == 0 {
        assert(shape_within(types, fields, 0) is Some);
        lemma_shape_of(types, fields, 0);
    } else {
        lemma_whole_from_true(types, table, fields.drop_last());
        let info = types.info(fields.last());
        let front = choose|depth: nat| shape_within(types, fields.drop_last(), depth) is Some;
        let last = choose|depth: nat| layout_within(types, info, depth) is Some;
        let depth = if front <= last {
            last + 1
        } else {
            front
        };
        lemma_shape_deeper(types, fields.drop_last(), front, depth);
        lemma_layout_deeper(types, info, last, (depth - 1) as nat);
        assert(shape_within(types, fields, depth) is Some);
        lemma_shape_of(types, fields, depth);
    }
}

proof fn lemma_layout_from_true(types: TypesModel, table: Seq<Option<Layout>>, info: TypeModel)
    requires
        table_true(types, table),
        layout_from(types, table, info) is Some,
    ensures
        layout_from(types, table, info) == layout_of(types, info),
{
    match info {
        TypeModel::Struct(fields) => {
            lemma_whole_from_true(types, table, fields);
            lemma_layout_of_struct(types, fields);
        },
        _ => {
            lemma_layout_of(types, info, 0);
        },
    }
}

/// The table holds every layout that follows from what it holds.
spec fn table_closed(types: TypesModel, table: Seq<Option<Layout>>) -> bool {
    forall|i: int|
        0 <= i < table.len() && (#[trigger] table[i]) is None ==> layout_from(
            types,
            table,
            types.infos[i],
        ) is None
}

proof fn lemma_whole_from_full(
    types: TypesModel,
    table: Seq<Option<Layout>>,
    fields: Seq<TypeId>,
    depth: nat,
)
    requires
        table_true(types, table),
        table_closed(types, table),
        shape_within(types, fields, depth) is Some,
    ensures
        whole_from(types, table, fields) == Some(shape_within(types, fields, depth)->0.whole),
    decreases depth, fields.len(),
{
    if fields.len() > 0 {
        lemma_whole_from_full(types, table, fields.drop_last(), depth);
        let info = types.info(fields.last());
        lemma_layout_of(types, info, (depth - 1) as nat);
        if let TypeModel::Struct(inner) = info {
            lemma_whole_from_full(types, table, inner, (depth - 1) as nat);
        }
        assert(table_at(types, table, fields.last()) == layout_of(types, info));
    }
}

proof fn lemma_table_full(types: TypesModel, table: Seq<Option<Layout>>, i: int)
    requires
        table_true(types, table),
        table_closed(types, table),
        0 <= i < table.len(),
    ensures
        table[i] == layout_of(types, types.infos[i]),
{
    let info = types.infos[i];
    if layout_of(types, info) is Some {
        let depth = choose|depth: nat| layout_within(types, info, depth) is Some;
        if let TypeModel::Struct(fields) = info {
            lemma_whole_from_full(types, table, fields, depth);
        }
        assert(layout_from(types, table, info) is Some);
    }
}

/// How many layouts a table holds.
spec fn known_count(table: Seq<Option<Layout>>) -> nat
    decreases table.len(),
{
    if table.len() == 0 {
        0
    } else {
        known_count(table.drop_last()) + if table.last() is Some {
            1nat
        } else {
            0nat
        }
    }
}

proof fn lemma_known_count(table: Seq<Option<Layout>>, i: int, layout: Layout)
    ensures
        known_count(table) <= table.len(),
        0 <= i < table.len() && table[i] is None ==> known_count(table.update(i, Some(layout)))
            == known_count(table) + 1,
    decreases table.len(),
{
    if table.len() > 0 {
        lemma_known_count(table.drop_last(), i, layout);
        if 0 <= i < table.len() - 1 {
            assert(table.update(i, Some(layout)).drop_last() =~= table.drop_last().update(
                i,
                Some(layout),
            ));
        } else if i == table.len() - 1 {
            assert(table.update(i, Some(layout)).drop_last() =~= table.drop_last());
        }
    }
}

impl Types {
    fn whole_in_table(&self, table: &Vec<Option<Layout>>, fields: &Vec<TypeId>) -> (whole: Option<
        Layout,
    >)
        requires
            self.wf(),
            table@.len() == self@.infos.len(),
            table_true(self@, table@),
        ensures
            whole == whole_from(self@, table@, fields@),
    {
        let mut whole = Layout { size: 0, align: 1 };
        let mut i: usize = 0;
        assert(fields@.take(0) =~= Seq::empty());
        proof {
            lemma_round_up(0, 1);
        }
        while i < fields.len()
            invariant
                self.wf(),
                table@.len() == self@.infos.len(),
                table_true(self@, table@),
                i <= fields.len(),
                whole.valid(),
                whole_from(self@, table@, fields@.take(i as int)) == Some(whole),
            decreases fields.len() - i,
        {
            let ty = fields[i];
            assert(fields@.take(i + 1).drop_last() =~= fields@.take(i as int));
            let found = match self.position(ty) {
                Some(at) => table[at],
                None => None,
            };
            proof {
                if found is Some {
                    law_layout_valid(self@, self@.info(ty));
                }
            }
            let next = match found {
                Some(field) => whole.extend(field),
                None => None,
            };
            match next {
                Some((longer, _)) => {
                    whole = longer;
                },
                None => {
                    proof {
                        lemma_whole_from_front(self@, table@, fields@, i + 1);
                    }
                    return None;
                },
            }
            i = i + 1;
        }
        assert(fields@.take(i as int) =~= fields@);
        Some(whole)
    }

    /// The layouts of all types, in the order in which the types were made.
    pub fn layouts(&self) -> (table: Vec<Option<Layout>>)
        requires
            self.wf(),
        ensures
            table@ == all_layouts(self@),
    {
        let all = self.all_types();
        let n: usize = all.len();
        let mut table: Vec<Option<Layout>> = Vec::new();
        while table.len() < n
            invariant
                table.len() <= n,
                forall|i: int| 0 <= i < table@.len() ==> (#[trigger] table@[i]) is None,
                known_count(table@) == 0,
            decreases n - table.len(),
        {
            let ghost before = table@;
            table.push(None);
            assert(table@.drop_last() =~= before);
        }
        let ghost mut known: nat = 0;
        let mut changed = true;
        while changed
            invariant
                self.wf(),
                n == self@.infos.len(),
                all@.len() == n,
                forall|i: int|
                    #![trigger all@[i]]
                    0 <= i < n ==> all@[i].1@ == self@.infos[i],
                table@.len() == n,
                table_true(self@, table@),
                known == known_count(table@),
                known <= n,
                !changed ==> table_closed(self@, table@),
            decreases n - known + if changed {
                1int
            } else {
                0int
            },
        {
            let ghost start = table@;
            let ghost known_before = known;
            changed = false;
            let mut i: usize = 0;
            while i < n
                invariant
                    self.wf(),
                    i <= n,
                    n == self@.infos.len(),
                    all@.len() == n,
                    forall|j: int|
                        #![trigger all@[j]]
                        0 <= j < n ==> all@[j].1@ == self@.infos[j],
                    table@.len() == n,
                    table_true(self@, table@),
                    known == known_count(table@),
                    known <= n,
                    changed ==> known > known_before,
                    known >= known_before,
                    !changed ==> table@ == start && forall|j: int|
                        0 <= j < i && (#[trigger] table@[j]) is None ==> layout_from(
                            self@,
                            table@,
                            self@.infos[j],
                        ) is None,
                decreases n - i,
            {
                if table[i].is_none() {
                    let found = match &all[i].1 {
                        TypeInfo::Struct(info) => self.whole_in_table(&table, &info.fields),
                        info => Some(info.layout_in(self, Ghost(0))),
                    };
                    if let Some(layout) = found {
                        proof {
                            lemma_layout_from_true(self@, table@, self@.infos[i as int]);
                            lemma_known_count(table@, i as int, layout);
                            lemma_known_count(
                                table@.update(i as int, Some(layout)),
                                i as int,
                                layout,
                            );
                            known = known + 1;
                        }
                        table.set(i, found);
                        changed = true;
                    }
                }
                i = i + 1;
            }
        }
        assert forall|i: int| 0 <= i < table@.len() implies (#[trigger] table@[i]) == layout_of(
            self@,
            self@.infos[i],
        ) by {
            lemma_table_full(self@, table@, i);
        }
        table
    }
}

/// Without a layout for the front there is none for the whole.
proof fn lemma_whole_from_front(
    types: TypesModel,
    table: Seq<Option<Layout>>,
    fields: Seq<TypeId>,
    n: int,
)
    requires
        0 <= n <= fields.len(),
        whole_from(types, table, fields.take(n)) is None,
    ensures
        whole_from(types, table, fields) is None,
    decreases fields.len(),
{
    if n == fields.len() {
        assert(fields.take(n) =~= fields);
    } else {
        assert(fields.drop_last().take(n) =~= fields.take(n));
        lemma_whole_from_front(types, table, fields.drop_last(), n);
    }
}

} // verus!

//! Where references into managed memory lie in a value.

use super::layouts::{
    all_layouts, law_fields_apart, layout_of, layout_within, lemma_layout_of,
    lemma_layout_within_valid, lemma_shape_front, lemma_shape_of, lemma_shape_within_valid,
    shape_of, shape_within,
};
use super::{Program, StructInfo, TypeId, TypeInfo, TypeModel, Types, TypesModel};
use crate::layout::{lemma_round_up, Layout};
use vstd::prelude::*;

verus! {

/// Offsets in a value that starts at `base`.
pub open spec fn shifted(offsets: Seq<usize>, base: usize) -> Seq<usize> {
    offsets.map_values(|offset: usize| (base + offset) as usize)
}

/// Where references into managed memory lie in a value of a type in which structs
/// lie inside structs at most `depth` times.
pub open spec fn refs_within(types: TypesModel, info: TypeModel, depth: nat) -> Seq<usize>
    decreases
            depth,
            (match info {
                TypeModel::Struct(fields) => fields.len() + 1,
                _ => 0,
            }),
{
    match info {
        TypeModel::GcRef(_) => seq![0],
        TypeModel::Struct(fields) => field_refs_within(types, fields, depth),
        _ => Seq::empty(),
    }
}

/// Where references into managed memory lie in a struct in which structs lie inside
/// structs at most `depth` times: the references of each field, moved to where the
/// field starts.
pub open spec fn field_refs_within(types: TypesModel, fields: Seq<TypeId>, depth: nat) -> Seq<usize>
    decreases depth, fields.len(),
{
    if fields.len() == 0 || depth == 0 {
        Seq::empty()
    } else {
        field_refs_within(types, fields.drop_last(), depth) + shifted(
            refs_within(types, types.info(fields.last()), (depth - 1) as nat),
            shape_of(types, fields)->0.offsets.last(),
        )
    }
}

/// Where references into managed memory lie in a value of a type that has a layout.
/// Those inside the fields of a struct are among them.
pub open spec fn gc_offsets(types: TypesModel, info: TypeModel) -> Seq<usize> {
    refs_within(types, info, choose|depth: nat| layout_within(types, info, depth) is Some)
}

/// References that are found within one depth are the ones found within every
/// larger one.
proof fn lemma_refs_deeper(types: TypesModel, info: TypeModel, depth: nat, deeper: nat)
    requires
        depth <= deeper,
        layout_within(types, info, depth) is Some,
    ensures
        refs_within(types, info, deeper) == refs_within(types, info, depth),
    decreases
            depth,
            (match info {
                TypeModel::Struct(fields) => fields.len() + 1,
                _ => 0,
            }),
{
    if let TypeModel::Struct(fields) = info {
        lemma_field_refs_deeper(types, fields, depth, deeper);
    }
}

proof fn lemma_field_refs_deeper(types: TypesModel, fields: Seq<TypeId>, depth: nat, deeper: nat)
    requires
        depth <= deeper,
        shape_within(types, fields, depth) is Some,
    ensures
        field_refs_within(types, fields, deeper) == field_refs_within(types, fields, depth),
    decreases depth, fields.len(),
{
    if fields.len() > 0 {
        lemma_field_refs_deeper(types, fields.drop_last(), depth, deeper);
        lemma_refs_deeper(
            types,
            types.info(fields.last()),
            (depth - 1) as nat,
            (deeper - 1) as nat,
        );
    }
}

/// References that are found within some depth are the references.
pub proof fn lemma_gc_offsets(types: TypesModel, info: TypeModel, depth: nat)
    requires
        layout_within(types, info, depth) is Some,
    ensures
        gc_offsets(types, info) == refs_within(types, info, depth),
{
    let found = choose|depth: nat| layout_within(types, info, depth) is Some;
    if found <= depth {
        lemma_refs_deeper(types, info, found, depth);
    } else {
        lemma_refs_deeper(types, info, depth, found);
    }
}

/// The references in a struct are those in each of its fields, in the order of the
/// fields, moved to where the field starts.
pub proof fn law_gc_offsets_of_struct(types: TypesModel, fields: Seq<TypeId>)
    requires
        shape_of(types, fields) is Some,
    ensures
        gc_offsets(types, TypeModel::Struct(fields)) == if fields.len() == 0 {
            Seq::<usize>::empty()
        } else {
            gc_offsets(types, TypeModel::Struct(fields.drop_last())) + shifted(
                gc_offsets(types, types.info(fields.last())),
                shape_of(types, fields)->0.offsets.last(),
            )
        },
{
    let depth = choose|depth: nat| shape_within(types, fields, depth) is Some;
    assert(layout_within(types, TypeModel::Struct(fields), depth) is Some);
    lemma_gc_offsets(types, TypeModel::Struct(fields), depth);
    if fields.len() > 0 {
        let front = TypeModel::Struct(fields.drop_last());
        assert(layout_within(types, front, depth) is Some);
        lemma_gc_offsets(types, front, depth);
        lemma_gc_offsets(types, types.info(fields.last()), (depth - 1) as nat);
    }
}

/// Whether a reference lies at each of the offsets inside a value of that size.
pub open spec fn refs_inside(offsets: Seq<usize>, size: usize) -> bool {
    forall|i: int| 0 <= i < offsets.len() ==> (#[trigger] offsets[i]) + 8 <= size
}

proof fn lemma_refs_inside(types: TypesModel, info: TypeModel, depth: nat)
    requires
        layout_within(types, info, depth) is Some,
    ensures
        refs_inside(refs_within(types, info, depth), layout_within(types, info, depth)->0.size),
    decreases
            depth,
            (match info {
                TypeModel::Struct(fields) => fields.len() + 1,
                _ => 0,
            }),
{
    if let TypeModel::Struct(fields) = info {
        lemma_field_refs_inside(types, fields, depth);
    }
}

proof fn lemma_field_refs_inside(types: TypesModel, fields: Seq<TypeId>, depth: nat)
    requires
        shape_within(types, fields, depth) is Some,
    ensures
        refs_inside(
            field_refs_within(types, fields, depth),
            shape_within(types, fields, depth)->0.whole.size,
        ),
    decreases depth, fields.len(),
{
    if fields.len() > 0 {
        let info = types.info(fields.last());
        let shape = shape_within(types, fields, depth)->0;
        let front = shape_within(types, fields.drop_last(), depth)->0;
        let last = layout_within(types, info, (depth - 1) as nat)->0;
        lemma_field_refs_inside(types, fields.drop_last(), depth);
        lemma_refs_inside(types, info, (depth - 1) as nat);
        lemma_shape_within_valid(types, fields.drop_last(), depth);
        lemma_layout_within_valid(types, info, (depth - 1) as nat);
        lemma_shape_of(types, fields, depth);
        lemma_round_up(front.whole.size as int, last.align as int);
        let before = field_refs_within(types, fields.drop_last(), depth);
        let inner = refs_within(types, info, (depth - 1) as nat);
        let all = field_refs_within(types, fields, depth);
        assert forall|i: int| 0 <= i < all.len() implies (#[trigger] all[i]) + 8
            <= shape.whole.size by {
            if i < before.len() {
                assert(all[i] == before[i]);
            } else {
                assert(inner[i - before.len()] + 8 <= last.size);
            }
        }
    }
}

/// Every reference lies inside the value.
pub proof fn law_refs_inside(types: TypesModel, info: TypeModel)
    requires
        layout_of(types, info) is Some,
    ensures
        refs_inside(gc_offsets(types, info), layout_of(types, info)->0.size),
{
    let depth = choose|depth: nat| layout_within(types, info, depth) is Some;
    lemma_refs_inside(types, info, depth);
}

/// What lies inside a value where fields of structs are followed, and how far it is
/// from the start of the value.
pub open spec fn inside_at(types: TypesModel, info: TypeModel, path: Seq<int>) -> Option<
    (TypeModel, int),
>
    decreases path.len(),
{
    if path.len() == 0 {
        Some((info, 0))
    } else {
        match info {
            TypeModel::Struct(fields) => if 0 <= path[0] < fields.len() {
                match inside_at(types, types.info(fields[path[0]]), path.skip(1)) {
                    Some((found, offset)) => Some(
                        (found, shape_of(types, fields)->0.offsets[path[0]] + offset),
                    ),
                    None => None,
                }
            } else {
                None
            },
            _ => None,
        }
    }
}

/// Whether fields lead to a reference into managed memory at that offset.
pub open spec fn leads_to_ref(types: TypesModel, info: TypeModel, path: Seq<int>, offset: int) -> bool {
    inside_at(types, info, path) matches Some((found, at)) && found is GcRef && at == offset
}

/// Whether a field of a struct holds a reference at that offset.
spec fn ref_in_field(
    types: TypesModel,
    fields: Seq<TypeId>,
    depth: nat,
    i: int,
    inner: usize,
    offset: int,
) -> bool {
    &&& 0 <= i < fields.len()
    &&& refs_within(types, types.info(fields[i]), (depth - 1) as nat).contains(inner)
    &&& offset == shape_of(types, fields)->0.offsets[i] + inner
}

/// Where the last field of a struct starts, and where the others start.
proof fn lemma_shape_of_front(types: TypesModel, fields: Seq<TypeId>, depth: nat)
    requires
        shape_within(types, fields, depth) is Some,
        fields.len() > 0,
    ensures
        depth > 0,
        shape_within(types, fields.drop_last(), depth) is Some,
        layout_within(types, types.info(fields.last()), (depth - 1) as nat) is Some,
        shape_of(types, fields) == shape_within(types, fields, depth),
        shape_of(types, fields)->0.offsets.len() == fields.len(),
        shape_of(types, fields.drop_last()) is Some,
        forall|i: int|
            0 <= i < fields.len() - 1 ==> (#[trigger] shape_of(types, fields)->0.offsets[i])
                == shape_of(types, fields.drop_last())->0.offsets[i],
{
    lemma_shape_of(types, fields, depth);
    lemma_shape_of(types, fields.drop_last(), depth);
    lemma_shape_within_valid(types, fields, depth);
    lemma_shape_within_valid(types, fields.drop_last(), depth);
}

/// The references of a struct are those of its fields.
proof fn lemma_refs_of_fields(types: TypesModel, fields: Seq<TypeId>, depth: nat, offset: usize)
    requires
        shape_within(types, fields, depth) is Some,
    ensures
        field_refs_within(types, fields, depth).contains(offset) <==> exists|i: int, inner: usize|
            #[trigger] ref_in_field(types, fields, depth, i, inner, offset as int),
    decreases fields.len(),
{
    let all = field_refs_within(types, fields, depth);
    if fields.len() > 0 {
        lemma_shape_of_front(types, fields, depth);
        let front = fields.drop_last();
        let n = fields.len() - 1;
        let last_info = types.info(fields.last());
        let base = shape_of(types, fields)->0.offsets.last();
        let before = field_refs_within(types, front, depth);
        let last = refs_within(types, last_info, (depth - 1) as nat);
        lemma_refs_of_fields(types, front, depth, offset);
        lemma_field_starts(types, fields, depth);
        lemma_refs_inside(types, last_info, (depth - 1) as nat);
        assert forall|k: int| 0 <= k < last.len() implies (#[trigger] shifted(last, base)[k]) == base
            + last[k] by {
            assert(last[k] + 8 <= layout_within(types, last_info, (depth - 1) as nat)->0.size);
        }
        if all.contains(offset) {
            let k = choose|k: int| 0 <= k < all.len() && all[k] == offset;
            if k < before.len() {
                assert(before[k] == offset);
                let (i, inner) = choose|i: int, inner: usize| #[trigger]
                    ref_in_field(types, front, depth, i, inner, offset as int);
                assert(front[i] == fields[i]);
                assert(ref_in_field(types, fields, depth, i, inner, offset as int));
            } else {
                let inner = last[k - before.len()];
                assert(shifted(last, base)[k - before.len()] == base + inner);
                assert(ref_in_field(types, fields, depth, n, inner, offset as int));
            }
        }
        if exists|i: int, inner: usize| #[trigger]
            ref_in_field(types, fields, depth, i, inner, offset as int) {
            let (i, inner) = choose|i: int, inner: usize| #[trigger]
                ref_in_field(types, fields, depth, i, inner, offset as int);
            if i < n {
                assert(front[i] == fields[i]);
                assert(ref_in_field(types, front, depth, i, inner, offset as int));
                let k = choose|k: int| 0 <= k < before.len() && before[k] == offset;
                assert(all[k] == offset);
            } else {
                let k = choose|k: int| 0 <= k < last.len() && last[k] == inner;
                assert(all[before.len() + k] == shifted(last, base)[k]);
            }
        }
    } else {
        assert forall|i: int, inner: usize| !(#[trigger] ref_in_field(
            types,
            fields,
            depth,
            i,
            inner,
            offset as int,
        )) by {}
    }
}

/// The last field of a struct lies inside it, behind the others.
proof fn lemma_field_starts(types: TypesModel, fields: Seq<TypeId>, depth: nat)
    requires
        shape_within(types, fields, depth) is Some,
        fields.len() > 0,
    ensures
        ({
            let shape = shape_within(types, fields, depth)->0;
            let last = layout_within(types, types.info(fields.last()), (depth - 1) as nat)->0;
            &&& shape.offsets.last() + last.size <= shape.whole.size
            &&& shape_within(types, fields.drop_last(), depth)->0.whole.size
                <= shape.offsets.last()
        }),
{
    let front = shape_within(types, fields.drop_last(), depth)->0;
    let info = types.info(fields.last());
    let last = layout_within(types, info, (depth - 1) as nat)->0;
    lemma_shape_within_valid(types, fields, depth);
    lemma_shape_within_valid(types, fields.drop_last(), depth);
    lemma_layout_within_valid(types, info, (depth - 1) as nat);
    lemma_round_up(front.whole.size as int, last.align as int);
}

/// A reference is found where fields lead to one.
proof fn lemma_refs_where_fields_lead(
    types: TypesModel,
    info: TypeModel,
    depth: nat,
    offset: usize,
)
    requires
        layout_within(types, info, depth) is Some,
    ensures
        refs_within(types, info, depth).contains(offset) ==> exists|path: Seq<int>| #[trigger]
            leads_to_ref(types, info, path, offset as int),
    decreases depth,
{
    if refs_within(types, info, depth).contains(offset) {
        match info {
            TypeModel::Struct(fields) => {
                lemma_refs_of_fields(types, fields, depth, offset);
                let (i, inner) = choose|i: int, inner: usize| #[trigger]
                    ref_in_field(types, fields, depth, i, inner, offset as int);
                let field = types.info(fields[i]);
                lemma_field_within(types, fields, depth, i);
                lemma_refs_where_fields_lead(types, field, (depth - 1) as nat, inner);
                let rest = choose|path: Seq<int>| #[trigger]
                    leads_to_ref(types, field, path, inner as int);
                let path = seq![i] + rest;
                assert(path.skip(1) =~= rest);
                assert(leads_to_ref(types, info, path, offset as int));
            },
            _ => {
                assert(offset == 0 && info is GcRef);
                assert(leads_to_ref(types, info, Seq::empty(), 0));
            },
        }
    }
}

/// The fields of a struct that has a layout have layouts.
proof fn lemma_field_within(types: TypesModel, fields: Seq<TypeId>, depth: nat, i: int)
    requires
        shape_within(types, fields, depth) is Some,
        0 <= i < fields.len(),
    ensures
        depth > 0,
        layout_within(types, types.info(fields[i]), (depth - 1) as nat) is Some,
    decreases fields.len(),
{
    if i < fields.len() - 1 {
        assert(fields.drop_last()[i] == fields[i]);
        lemma_field_within(types, fields.drop_last(), depth, i);
    }
}

/// Where fields lead to a reference one is found.
proof fn lemma_fields_lead_to_refs(
    types: TypesModel,
    info: TypeModel,
    depth: nat,
    path: Seq<int>,
    offset: int,
)
    requires
        layout_within(types, info, depth) is Some,
        leads_to_ref(types, info, path, offset),
    ensures
        0 <= offset <= usize::MAX,
        refs_within(types, info, depth).contains(offset as usize),
    decreases path.len(),
{
    if path.len() == 0 {
        assert(refs_within(types, info, depth)[0] == 0);
    } else {
        let fields = info->Struct_0;
        let i = path[0];
        let field = types.info(fields[i]);
        let (_, inner) = inside_at(types, field, path.skip(1))->0;
        lemma_field_within(types, fields, depth, i);
        lemma_fields_lead_to_refs(types, field, (depth - 1) as nat, path.skip(1), inner);
        lemma_refs_inside(types, field, (depth - 1) as nat);
        lemma_layout_of(types, field, (depth - 1) as nat);
        lemma_shape_of(types, fields, depth);
        law_fields_apart(types, fields, i);
        let refs = refs_within(types, field, (depth - 1) as nat);
        let k = choose|k: int| 0 <= k < refs.len() && refs[k] == inner;
        assert(refs[k] + 8 <= layout_within(types, field, (depth - 1) as nat)->0.size);
        assert(ref_in_field(types, fields, depth, i, inner as usize, offset));
        lemma_refs_of_fields(types, fields, depth, offset as usize);
    }
}

/// References into managed memory lie exactly where fields of structs lead to one: in a
/// number or a bool there is none, nor behind a reference, and a reference into managed
/// memory is one itself.
pub proof fn law_refs_are_where_fields_lead(types: TypesModel, info: TypeModel, offset: usize)
    requires
        layout_of(types, info) is Some,
    ensures
        gc_offsets(types, info).contains(offset) <==> exists|path: Seq<int>| #[trigger]
            leads_to_ref(types, info, path, offset as int),
{
    let depth = choose|depth: nat| layout_within(types, info, depth) is Some;
    lemma_refs_where_fields_lead(types, info, depth, offset);
    if exists|path: Seq<int>| #[trigger] leads_to_ref(types, info, path, offset as int) {
        let path = choose|path: Seq<int>| #[trigger]
            leads_to_ref(types, info, path, offset as int);
        lemma_fields_lead_to_refs(types, info, depth, path, offset as int);
    }
}

/// Where fields lead to a reference lies inside the value.
pub proof fn lemma_ref_offset(types: TypesModel, info: TypeModel, path: Seq<int>, offset: int)
    requires
        layout_of(types, info) is Some,
        leads_to_ref(types, info, path, offset),
    ensures
        0 <= offset <= usize::MAX,
{
    let depth = choose|depth: nat| layout_within(types, info, depth) is Some;
    lemma_fields_lead_to_refs(types, info, depth, path, offset);
}

/// Where references lie in the types that are no structs.
pub proof fn law_refs_of_primitives(types: TypesModel, to: TypeId)
    ensures
        gc_offsets(types, TypeModel::PrimI32) == Seq::<usize>::empty(),
        gc_offsets(types, TypeModel::PrimI64) == Seq::<usize>::empty(),
        gc_offsets(types, TypeModel::PrimF32) == Seq::<usize>::empty(),
        gc_offsets(types, TypeModel::PrimBool) == Seq::<usize>::empty(),
        gc_offsets(types, TypeModel::Ref(to)) == Seq::<usize>::empty(),
        gc_offsets(types, TypeModel::GcRef(to)) == seq![0usize],
{
}

/// References do not lie over each other, and come in the order in which they lie.
pub proof fn law_refs_in_order(types: TypesModel, info: TypeModel, i: int, j: int)
    requires
        layout_of(types, info) is Some,
        0 <= i < j < gc_offsets(types, info).len(),
    ensures
        gc_offsets(types, info)[i] + 8 <= gc_offsets(types, info)[j],
{
    let depth = choose|depth: nat| layout_within(types, info, depth) is Some;
    lemma_refs_in_order(types, info, depth, i, j);
}

proof fn lemma_refs_in_order(types: TypesModel, info: TypeModel, depth: nat, i: int, j: int)
    requires
        layout_within(types, info, depth) is Some,
        0 <= i < j < refs_within(types, info, depth).len(),
    ensures
        refs_within(types, info, depth)[i] + 8 <= refs_within(types, info, depth)[j],
    decreases
            depth,
            (match info {
                TypeModel::Struct(fields) => fields.len() + 1,
                _ => 0,
            }),
{
    if let TypeModel::Struct(fields) = info {
        lemma_field_refs_in_order(types, fields, depth, i, j);
    }
}

proof fn lemma_field_refs_in_order(
    types: TypesModel,
    fields: Seq<TypeId>,
    depth: nat,
    i: int,
    j: int,
)
    requires
        shape_within(types, fields, depth) is Some,
        0 <= i < j < field_refs_within(types, fields, depth).len(),
    ensures
        field_refs_within(types, fields, depth)[i] + 8 <= field_refs_within(
            types,
            fields,
            depth,
        )[j],
    decreases depth, fields.len(),
{
    if fields.len() > 0 {
        let front = fields.drop_last();
        let info = types.info(fields.last());
        lemma_shape_of_front(types, fields, depth);
        lemma_field_starts(types, fields, depth);
        let base = shape_of(types, fields)->0.offsets.last();
        let before = field_refs_within(types, front, depth);
        let last = refs_within(types, info, (depth - 1) as nat);
        let all = field_refs_within(types, fields, depth);
        lemma_refs_inside(types, info, (depth - 1) as nat);
        assert forall|k: int| 0 <= k < last.len() implies (#[trigger] all[before.len() + k]) == base
            + last[k] by {
            assert(last[k] + 8 <= layout_within(types, info, (depth - 1) as nat)->0.size);
        }
        let n = before.len() as int;
        if j < n {
            lemma_field_refs_in_order(types, front, depth, i, j);
            assert(all[i] == before[i] && all[j] == before[j]);
        } else if i < n {
            lemma_field_refs_inside(types, front, depth);
            assert(all[i] == before[i]);
            assert(all[n + (j - n)] == base + last[j - n]);
        } else {
            lemma_refs_in_order(types, info, (depth - 1) as nat, i - n, j - n);
            assert(all[n + (i - n)] == base + last[i - n]);
            assert(all[n + (j - n)] == base + last[j - n]);
        }
    }
}

/// A value that is not aligned as references are holds none.
proof fn lemma_refs_aligned(types: TypesModel, info: TypeModel, depth: nat)
    requires
        layout_within(types, info, depth) is Some,
    ensures
        refs_within(types, info, depth).len() > 0 ==> layout_within(types, info, depth)->0.align
            >= 8,
    decreases
            depth,
            (match info {
                TypeModel::Struct(fields) => fields.len() + 1,
                _ => 0,
            }),
{
    if let TypeModel::Struct(fields) = info {
        lemma_field_refs_aligned(types, fields, depth);
    }
}

proof fn lemma_field_refs_aligned(types: TypesModel, fields: Seq<TypeId>, depth: nat)
    requires
        shape_within(types, fields, depth) is Some,
    ensures
        field_refs_within(types, fields, depth).len() > 0 ==> shape_within(
            types,
            fields,
            depth,
        )->0.whole.align >= 8,
    decreases depth, fields.len(),
{
    if fields.len() > 0 {
        lemma_field_refs_aligned(types, fields.drop_last(), depth);
        lemma_refs_aligned(types, types.info(fields.last()), (depth - 1) as nat);
    }
}

impl StructInfo {
    fn gc_offsets_in(
        &self,
        types: &Types,
        layouts: &Vec<Option<Layout>>,
        Ghost(depth): Ghost<nat>,
    ) -> (offsets: Vec<usize>)
        requires
            types.wf(),
            layouts@ == all_layouts(types@),
            shape_within(types@, self.fields@, depth) is Some,
        ensures
            offsets@ == field_refs_within(types@, self.fields@, depth),
        decreases depth, 0int,
    {
        let ghost fields = self.fields@;
        let mut whole = Layout { size: 0, align: 1 };
        let mut offsets: Vec<usize> = Vec::new();
        let mut i: usize = 0;
        assert(fields.take(0) =~= Seq::empty());
        while i < self.fields.len()
            invariant
                types.wf(),
                layouts@ == all_layouts(types@),
                fields == self.fields@,
                i <= fields.len(),
                shape_within(types@, fields, depth) is Some,
                shape_within(types@, fields.take(i as int), depth) is Some,
                shape_within(types@, fields.take(i as int), depth)->0.whole == whole,
                offsets@ == field_refs_within(types@, fields.take(i as int), depth),
            decreases fields.len() - i,
        {
            let ty = self.fields[i];
            let ghost longer = fields.take(i + 1);
            let ghost info = types@.info(ty);
            let ghost inner_refs = refs_within(types@, info, (depth - 1) as nat);
            proof {
                lemma_shape_front(types@, fields, depth, i + 1);
                assert(longer.drop_last() =~= fields.take(i as int));
                assert(longer.last() == ty);
                lemma_shape_of(types@, longer, depth);
                lemma_shape_within_valid(types@, fields.take(i as int), depth);
                lemma_shape_within_valid(types@, longer, depth);
                lemma_layout_of(types@, info, (depth - 1) as nat);
                lemma_layout_within_valid(types@, info, (depth - 1) as nat);
                lemma_refs_inside(types@, info, (depth - 1) as nat);
                lemma_refs_aligned(types@, info, (depth - 1) as nat);
            }
            if let Some(at) = types.position(ty) {
                if let Some(field) = layouts[at] {
                    if let Some((next, start)) = whole.extend(field) {
                        let ghost before = offsets@;
                        let ghost moved = shifted(inner_refs, start);
                        assert(field_refs_within(types@, longer, depth) == before + moved);
                        if field.align >= 8 {
                            if let Some(info) = types.get_info(ty) {
                                let inner = info.gc_offsets_in(
                                    types,
                                    layouts,
                                    Ghost((depth - 1) as nat),
                                );
                                add_shifted(&mut offsets, &inner, start);
                            }
                        } else {
                            assert(moved =~= Seq::empty());
                            assert(before + moved =~= before);
                        }
                        whole = next;
                    }
                }
            }
            i = i + 1;
        }
        assert(fields.take(i as int) =~= fields);
        offsets
    }
}

/// Adds offsets in a value that starts at `start`.
fn add_shifted(offsets: &mut Vec<usize>, inner: &Vec<usize>, start: usize)
    requires
        forall|j: int| 0 <= j < inner@.len() ==> start + (#[trigger] inner@[j]) <= usize::MAX,
    ensures
        final(offsets)@ == old(offsets)@ + shifted(inner@, start),
{
    let ghost before = offsets@;
    let ghost moved = shifted(inner@, start);
    let mut k: usize = 0;
    while k < inner.len()
        invariant
            k <= inner.len(),
            moved == shifted(inner@, start),
            forall|j: int| 0 <= j < inner@.len() ==> start + (#[trigger] inner@[j]) <= usize::MAX,
            offsets@ =~= before + moved.take(k as int),
        decreases inner.len() - k,
    {
        offsets.push(start + inner[k]);
        k = k + 1;
    }
    assert(moved.take(k as int) =~= moved);
}

impl TypeInfo {
    fn gc_offsets_in(
        &self,
        types: &Types,
        layouts: &Vec<Option<Layout>>,
        Ghost(depth): Ghost<nat>,
    ) -> (offsets: Vec<usize>)
        requires
            types.wf(),
            layouts@ == all_layouts(types@),
            layout_within(types@, self@, depth) is Some,
        ensures
            offsets@ == refs_within(types@, self@, depth),
        decreases depth, 1int,
    {
        let mut offsets: Vec<usize> = Vec::new();
        match self {
            TypeInfo::GcRef(_) => {
                offsets.push(0);
                assert(offsets@ =~= seq![0usize]);
            },
            TypeInfo::Struct(info) => {
                offsets = info.gc_offsets_in(types, layouts, Ghost(depth));
            },
            _ => {},
        }
        offsets
    }

    /// Where references into managed memory lie in a value of the type. `layouts`
    /// are those of all types.
    pub fn gc_offsets(&self, program: &Program, layouts: &Vec<Option<Layout>>) -> (offsets: Vec<
        usize,
    >)
        requires
            program.wf(),
            layouts@ == all_layouts(program@.types),
            layout_of(program@.types, self@) is Some,
        ensures
            offsets@ == gc_offsets(program@.types, self@),
    {
        self.gc_offsets_in(
            &program.types,
            layouts,
            Ghost(choose|depth: nat| layout_within(program@.types, self@, depth) is Some),
        )
    }
}

} // verus!

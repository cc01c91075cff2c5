use emscript::dag_program::{FuncId, Program, StructInfo, TypeId, TypeInfo, Types};
use emscript::layout::Layout;
use emscript::slots::{null_key, Arena};

fn program() -> Program {
    let mut types = Types::new();
    types.i32();
    types.i64();
    types.float32();
    types.bool();
    Program { entrypoint: FuncId { key: null_key() }, functions: Arena::new(), types }
}

fn define(program: &mut Program, fields: Vec<TypeId>) -> TypeId {
    program.types.get_id(&TypeInfo::Struct(StructInfo { fields }))
}

#[test]
fn values_lie_behind_one_another() {
    let byte = Layout { size: 1, align: 1 };
    let word = Layout { size: 8, align: 8 };
    assert_eq!(byte.extend(word), Some((Layout { size: 16, align: 8 }, 8)));
    assert_eq!(word.extend(byte), Some((Layout { size: 9, align: 8 }, 8)));
    assert_eq!(byte.extend(byte), Some((Layout { size: 2, align: 1 }, 1)));
    let large = Layout { size: usize::MAX / 2 - 7, align: 8 };
    assert_eq!(large.extend(word), None);
    assert_eq!(large.extend(Layout { size: 0, align: 1 }), Some((large, usize::MAX / 2 - 7)));
}

#[test]
fn primitive_layouts() {
    let p = program();
    let to = TypeId { key: null_key() };
    assert_eq!(TypeInfo::PrimBool.layout(&p), Layout { size: 1, align: 1 });
    assert_eq!(TypeInfo::PrimI32.layout(&p), Layout { size: 4, align: 4 });
    assert_eq!(TypeInfo::PrimI64.layout(&p), Layout { size: 8, align: 8 });
    assert_eq!(TypeInfo::PrimF32.layout(&p), Layout { size: 4, align: 4 });
    assert_eq!(TypeInfo::Ref(to).layout(&p), Layout { size: 8, align: 8 });
    assert_eq!(TypeInfo::GcRef(to).layout(&p), Layout { size: 8, align: 8 });
}

#[test]
fn struct_fields_are_aligned() {
    let mut p = program();
    let (i32_id, i64_id, bool_id) = (p.types.i32(), p.types.i64(), p.types.bool());
    let info = StructInfo { fields: vec![bool_id, i32_id, bool_id, i64_id, bool_id] };
    let layout = info.layout(&p);
    assert_eq!(layout.field_offsets, vec![0, 4, 8, 16, 24]);
    assert_eq!(layout.size, 25);
    assert_eq!(layout.align, 8);
    assert_eq!(info.field_offset(&p, 3), 16);

    let inner = define(&mut p, vec![i32_id, bool_id]);
    let outer = StructInfo { fields: vec![bool_id, inner, bool_id] };
    let layout = outer.layout(&p);
    assert_eq!(layout.field_offsets, vec![0, 4, 9]);
    assert_eq!(layout.size, 10);
    assert_eq!(layout.align, 4);
    assert_eq!(TypeInfo::Struct(outer).layout(&p), Layout { size: 10, align: 4 });
}

#[test]
fn empty_structs_take_no_room() {
    let p = program();
    let layout = StructInfo { fields: vec![] }.layout(&p);
    assert!(layout.field_offsets.is_empty());
    assert_eq!((layout.size, layout.align), (0, 1));
}

#[test]
fn structs_inside_themselves_have_no_layout() {
    let mut types = Types::new();
    let i = types.i32();
    let a = types.declare_type();
    let b = types.declare_type();
    let c = types.declare_type();
    let list = types.declare_type();
    let to_list = types.get_id(&TypeInfo::GcRef(list));
    types.define_type(a, TypeInfo::Struct(StructInfo { fields: vec![i, b] }));
    types.define_type(b, TypeInfo::Struct(StructInfo { fields: vec![a] }));
    types.define_type(c, TypeInfo::Struct(StructInfo { fields: vec![i, i, i] }));
    types.define_type(list, TypeInfo::Struct(StructInfo { fields: vec![i, to_list] }));
    let dangling = types.get_id(&TypeInfo::Struct(StructInfo {
        fields: vec![TypeId { key: null_key() }],
    }));
    let layouts = types.layouts();
    assert_eq!(layouts.len(), 7);
    assert_eq!(layouts[0], Some(Layout { size: 4, align: 4 }));
    assert_eq!(layouts[1], None);
    assert_eq!(layouts[2], None);
    assert_eq!(layouts[3], Some(Layout { size: 12, align: 4 }));
    assert_eq!(layouts[4], Some(Layout { size: 16, align: 8 }));
    assert_eq!(layouts[5], Some(Layout { size: 8, align: 8 }));
    assert_eq!(layouts[6], None);
    assert!(types.get_info(dangling).is_some());
}

#[test]
fn layouts_are_found_whatever_the_order() {
    let mut types = Types::new();
    let outer = types.declare_type();
    let middle = types.declare_type();
    let inner = types.declare_type();
    types.define_type(outer, TypeInfo::Struct(StructInfo { fields: vec![middle, middle] }));
    types.define_type(middle, TypeInfo::Struct(StructInfo { fields: vec![inner, inner] }));
    types.define_type(inner, TypeInfo::PrimI64);
    let layouts = types.layouts();
    assert_eq!(layouts[0], Some(Layout { size: 32, align: 8 }));
    assert_eq!(layouts[1], Some(Layout { size: 16, align: 8 }));
    assert_eq!(layouts[2], Some(Layout { size: 8, align: 8 }));
}

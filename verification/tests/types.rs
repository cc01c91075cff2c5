use emscript::dag_program::{StructInfo, TypeId, TypeInfo, Types};
use emscript::slots::FIRST_KEY;

fn id(n: u64) -> TypeId {
    TypeId { key: FIRST_KEY + n }
}

#[test]
fn descriptions_are_interned_once() {
    let mut types = Types::new();
    assert_eq!(types.i32(), id(0));
    assert_eq!(types.i64(), id(1));
    assert_eq!(types.float32(), id(2));
    assert_eq!(types.bool(), id(3));
    assert_eq!(types.i32(), id(0));
    assert_eq!(types.ptr(), id(4));
    assert_eq!(types.ptr(), id(4));
    assert_eq!(types.get_id(&TypeInfo::Ref(id(0))), id(4));
    assert_eq!(types.len(), 5);
    assert!(types.get_info(id(4)) == Some(TypeInfo::Ref(id(0))));
    assert!(types.get_info(id(5)).is_none());
    assert!(types.find_id(&TypeInfo::GcRef(id(0))).is_none());
}

#[test]
fn the_pointer_type_makes_what_it_points_to() {
    let mut types = Types::new();
    assert_eq!(types.ptr(), id(1));
    assert!(types.get_info(id(0)) == Some(TypeInfo::PrimI32));
}

#[test]
fn declared_types_are_bools_until_defined() {
    let mut types = Types::new();
    let b = types.bool();
    let t = types.declare_type();
    assert_ne!(b, t);
    assert!(types.get_info(t) == Some(TypeInfo::PrimBool));
    assert_eq!(types.bool(), b);
    let info = TypeInfo::Struct(StructInfo { fields: vec![b, t] });
    types.define_type(t, info.clone());
    assert!(types.get_info(t) == Some(info.clone()));
    assert_eq!(types.get_id(&info), t);
    assert!(types.get_info(b) == Some(TypeInfo::PrimBool));
}

#[test]
fn the_last_definition_counts() {
    let mut types = Types::new();
    let a = types.declare_type();
    let b = types.declare_type();
    types.define_type(a, TypeInfo::PrimI64);
    types.define_type(b, TypeInfo::PrimI64);
    assert_eq!(types.i64(), b);
    types.define_type(b, TypeInfo::PrimF32);
    assert_eq!(types.i64(), b);
    assert!(types.get_info(b) == Some(TypeInfo::PrimF32));
}

#[test]
fn all_types_come_in_order() {
    let mut types = Types::new();
    types.i32();
    types.bool();
    let all = types.all_types();
    assert_eq!(all.len(), 2);
    assert_eq!(all[0].0, id(0));
    assert!(all[0].1 == TypeInfo::PrimI32);
    assert_eq!(all[1].0, id(1));
    assert!(all[1].1 == TypeInfo::PrimBool);
}

#[test]
fn null_types_are_known() {
    assert!(TypeId::null().is_null());
    assert!(!id(0).is_null());
}

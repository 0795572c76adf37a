use nameres::llvm_types::{type_eq, Builder, NamedStructDef, Type, TypeRef};

#[test]
fn integer_types_are_interned() {
    let mut b = Builder::new();
    let one = b.int_type(32);
    let two = b.int_type(32);
    assert!(type_eq(one.as_ref(), two.as_ref()));
    assert_eq!(b.int_types.len(), 1);
    let other = b.int_type(64);
    assert!(!type_eq(one.as_ref(), other.as_ref()));
    assert_eq!(b.int_types.len(), 2);
}

#[test]
fn abbreviations_match_bit_widths() {
    let mut b = Builder::new();
    let i1 = b.bool();
    let i8 = b.i8();
    let i16 = b.i16();
    let i32t = b.i32();
    let i64t = b.i64();
    assert!(matches!(i1.as_ref(), Type::Integer { bits: 1 }));
    assert!(matches!(i8.as_ref(), Type::Integer { bits: 8 }));
    assert!(matches!(i16.as_ref(), Type::Integer { bits: 16 }));
    assert!(matches!(i32t.as_ref(), Type::Integer { bits: 32 }));
    assert!(matches!(i64t.as_ref(), Type::Integer { bits: 64 }));
}

#[test]
fn pointers_carry_their_pointee() {
    let mut b = Builder::new();
    let i8t = b.i8();
    let p = b.pointer_to(i8t);
    match p.as_ref() {
        Type::Pointer { pointee_type, addr_space } => {
            assert_eq!(*addr_space, 0);
            assert!(matches!(pointee_type.as_ref(), Type::Integer { bits: 8 }));
        },
        other => panic!("expected a pointer, got {other:?}"),
    }
    let i8t2 = b.i8();
    let p2 = b.pointer_in_addr_space(i8t2, 3);
    match p2.as_ref() {
        Type::Pointer { addr_space, .. } => assert_eq!(*addr_space, 3),
        other => panic!("expected a pointer, got {other:?}"),
    }
    assert_eq!(b.pointer_types.len(), 2);
}

#[test]
fn function_types_are_interned_by_signature() {
    let mut b = Builder::new();
    let r1 = b.void();
    let a1 = b.i32();
    let f1 = b.func_type(r1, vec![a1], false);
    let r2 = b.void();
    let a2 = b.i32();
    let f2 = b.func_type(r2, vec![a2], false);
    assert!(type_eq(f1.as_ref(), f2.as_ref()));
    assert_eq!(b.func_types.len(), 1);
    let r3 = b.void();
    let a3 = b.i32();
    let variadic = b.func_type(r3, vec![a3], true);
    assert!(!type_eq(f1.as_ref(), variadic.as_ref()));
    assert_eq!(b.func_types.len(), 2);
}

#[test]
fn qubit_and_result_are_named_struct_pointers() {
    let mut b = Builder::new();
    let q = b.qubit();
    match q.as_ref() {
        Type::Pointer { pointee_type, addr_space: 0 } => match pointee_type.as_ref() {
            Type::NamedStruct { name } => assert_eq!(name, "Qubit"),
            other => panic!("expected a named struct, got {other:?}"),
        },
        other => panic!("expected a pointer, got {other:?}"),
    }
    let r = b.result();
    match r.as_ref() {
        Type::Pointer { pointee_type, addr_space: 0 } => match pointee_type.as_ref() {
            Type::NamedStruct { name } => assert_eq!(name, "Result"),
            other => panic!("expected a named struct, got {other:?}"),
        },
        other => panic!("expected a pointer, got {other:?}"),
    }
}

#[test]
fn named_struct_defs_are_recorded() {
    let mut b = Builder::new();
    let i64t = b.i64();
    let body = b.struct_of(vec![i64t], false);
    b.add_named_struct_def("Pair".to_string(), NamedStructDef::Defined(body));
    b.add_named_struct_def("Opaque".to_string(), NamedStructDef::Opaque);
    match b.named_struct_def(&"Pair".to_string()) {
        NamedStructDef::Defined(tr) => {
            assert!(matches!(tr.as_ref(), Type::Struct { .. }));
        },
        NamedStructDef::Opaque => panic!("Pair should be defined"),
    }
    assert!(matches!(b.named_struct_def(&"Opaque".to_string()), NamedStructDef::Opaque));
}

#[test]
fn vectors_arrays_and_structs_keep_their_shape() {
    let mut b = Builder::new();
    let e1 = b.i32();
    let v = b.vector_of(e1, 4, false);
    match v.as_ref() {
        Type::Vector { num_elements, scalable, element_type } => {
            assert_eq!(*num_elements, 4);
            assert!(!*scalable);
            assert!(matches!(element_type.as_ref(), Type::Integer { bits: 32 }));
        },
        other => panic!("expected a vector, got {other:?}"),
    }
    let e2 = b.i32();
    let a = b.array_of(e2, 10);
    assert!(matches!(a.as_ref(), Type::Array { num_elements: 10, .. }));
    let e3 = b.bool();
    let s = b.struct_of(vec![e3], true);
    assert!(matches!(s.as_ref(), Type::Struct { is_packed: true, .. }));
}

#[test]
fn singleton_types_are_distinct() {
    let b = Builder::new();
    let void = b.void();
    let meta = b.metadata_type();
    let label = b.label_type();
    let token = b.token_type();
    assert!(matches!(void.as_ref(), Type::Void));
    assert!(matches!(meta.as_ref(), Type::Metadata));
    assert!(matches!(label.as_ref(), Type::Label));
    assert!(matches!(token.as_ref(), Type::Token));
    assert!(!type_eq(void.as_ref(), meta.as_ref()));
    assert!(!type_eq(label.as_ref(), token.as_ref()));
}

#[test]
fn duplicate_preserves_structure() {
    let mut b = Builder::new();
    let r1 = b.void();
    let a1 = b.i32();
    let f = b.func_type(r1, vec![a1], false);
    let copy: TypeRef = f.duplicate();
    assert!(type_eq(f.as_ref(), copy.as_ref()));
}

#[test]
fn rendering_matches_ir_syntax() {
    let mut b = Builder::new();
    let i32t = b.i32();
    assert_eq!(i32t.to_text(), "i32");
    let i8t = b.i8();
    let p = b.pointer_to(i8t);
    assert_eq!(p.to_text(), "i8*");
    let r = b.void();
    let a1 = b.i32();
    let a2 = b.i64();
    let f = b.func_type(r, vec![a1, a2], false);
    assert_eq!(f.to_text(), "void (i32, i64)");
    let r2 = b.void();
    let a3 = b.i8();
    let vf = b.func_type(r2, vec![a3], true);
    assert_eq!(vf.to_text(), "void (i8, ...)");
    let fp = b.single();
    assert_eq!(fp.to_text(), "float");
}

#[test]
fn rendering_aggregates() {
    let mut b = Builder::new();
    let e = b.i32();
    let v = b.vector_of(e, 4, false);
    assert_eq!(v.to_text(), "<4 x i32>");
    let e2 = b.single();
    let sv = b.vector_of(e2, 2, true);
    assert_eq!(sv.to_text(), "<vscale x 2 x float>");
    let e3 = b.bool();
    let a = b.array_of(e3, 10);
    assert_eq!(a.to_text(), "[10 x i1]");
    let s1 = b.i32();
    let s2 = b.i64();
    let st = b.struct_of(vec![s1, s2], false);
    assert_eq!(st.to_text(), "{ i32, i64 }");
    let s3 = b.i8();
    let packed = b.struct_of(vec![s3], true);
    assert_eq!(packed.to_text(), "<{ i8 }>");
    let named = b.named_struct("Foo".to_string());
    assert_eq!(named.to_text(), "%Foo");
}

#[test]
fn builder_renders_its_definitions() {
    let mut b = Builder::new();
    let i64t = b.i64();
    let body = b.struct_of(vec![i64t], false);
    b.add_named_struct_def("Pair".to_string(), NamedStructDef::Defined(body));
    b.add_named_struct_def("Opaque".to_string(), NamedStructDef::Opaque);
    assert_eq!(b.to_text(), "%Pair = type { i64 }\n%Opaque = type opaque\n");
}

//! An interning builder for the target IR's type system.
//!
//! Types are trees: pointers, functions, vectors, arrays and structs
//! refer to other types. The builder hands out references to types
//! and caches every composite type it has built, so that asking for
//! the same type twice yields the same structure. Named struct types
//! are declared separately from their definitions.

use vstd::prelude::*;

use crate::resolve::{assoc_find, assoc_index};

verus! {

/// A pointer address space.
pub type AddrSpace = u32;

/// A floating-point type of the target IR.
#[derive(Clone, Copy, Debug, PartialEq, Eq, Hash, Structural)]
#[allow(non_camel_case_types)]
pub enum FPType {
    Half,
    BFloat,
    Single,
    Double,
    FP128,
    X86_FP80,
    PPC_FP128,
}

/// The mathematical shape of a type: the same tree with views in
/// place of the executable containers.
pub enum TyV {
    Void,
    Integer(u32),
    Pointer(Box<TyV>, AddrSpace),
    Fp(FPType),
    Func { result: Box<TyV>, params: Seq<TyV>, is_var_arg: bool },
    Vector { element: Box<TyV>, num_elements: u32, scalable: bool },
    Array { element: Box<TyV>, num_elements: usize },
    Struct { elements: Seq<TyV>, is_packed: bool },
    NamedStruct(Seq<char>),
    Metadata,
    Label,
    Token,
}

/// A type of the target IR.
#[derive(Debug)]
pub enum Type {
    /// The void type.
    Void,
    /// An integer type of the given bit width.
    Integer { bits: u32 },
    /// A pointer into the given address space.
    Pointer { pointee_type: TypeRef, addr_space: AddrSpace },
    /// A floating-point type.
    Fp(FPType),
    /// A function type.
    Func { result_type: TypeRef, param_types: Vec<TypeRef>, is_var_arg: bool },
    /// A (possibly scalable) vector type.
    Vector { element_type: TypeRef, num_elements: u32, scalable: bool },
    /// An array type.
    Array { element_type: TypeRef, num_elements: usize },
    /// A literal (anonymous) structure type.
    Struct { element_types: Vec<TypeRef>, is_packed: bool },
    /// A named structure type; its definition lives in the builder.
    NamedStruct { name: String },
    /// The metadata type.
    Metadata,
    /// The basic-block label type.
    Label,
    /// The token type.
    Token,
}

/// A reference to a [`Type`].
#[derive(Debug)]
pub struct TypeRef(pub Box<Type>);

/// The views of a list of type references.
pub open spec fn tyrefs_view(s: Seq<TypeRef>) -> Seq<TyV>
    decreases s,
{
    Seq::new(
        s.len(),
        |i: int|
            if 0 <= i < s.len() {
                ty_view(*s[i].0)
            } else {
                TyV::Void
            },
    )
}

/// The shape of a type.
pub open spec fn ty_view(t: Type) -> TyV
    decreases t,
{
    match t {
        Type::Void => TyV::Void,
        Type::Integer { bits } => TyV::Integer(bits),
        Type::Pointer { pointee_type, addr_space } => TyV::Pointer(
            Box::new(ty_view(*pointee_type.0)),
            addr_space,
        ),
        Type::Fp(fpt) => TyV::Fp(fpt),
        Type::Func { result_type, param_types, is_var_arg } => TyV::Func {
            result: Box::new(ty_view(*result_type.0)),
            params: tyrefs_view(param_types@),
            is_var_arg,
        },
        Type::Vector { element_type, num_elements, scalable } => TyV::Vector {
            element: Box::new(ty_view(*element_type.0)),
            num_elements,
            scalable,
        },
        Type::Array { element_type, num_elements } => TyV::Array {
            element: Box::new(ty_view(*element_type.0)),
            num_elements,
        },
        Type::Struct { element_types, is_packed } => TyV::Struct {
            elements: tyrefs_view(element_types@),
            is_packed,
        },
        Type::NamedStruct { name } => TyV::NamedStruct(name@),
        Type::Metadata => TyV::Metadata,
        Type::Label => TyV::Label,
        Type::Token => TyV::Token,
    }
}

impl View for Type {
    type V = TyV;

    open spec fn view(&self) -> TyV {
        ty_view(*self)
    }
}

impl View for TypeRef {
    type V = TyV;

    open spec fn view(&self) -> TyV {
        ty_view(*self.0)
    }
}

/// Structural equality of two types.
pub fn type_eq(a: &Type, b: &Type) -> (r: bool)
    ensures
        r == (a@ == b@),
    decreases *a, 1int,
{
    match (a, b) {
        (Type::Void, Type::Void) => true,
        (Type::Integer { bits: x }, Type::Integer { bits: y }) => *x == *y,
        (
            Type::Pointer { pointee_type: p1, addr_space: s1 },
            Type::Pointer { pointee_type: p2, addr_space: s2 },
        ) => {
            if *s1 != *s2 {
                return false;
            }
            type_eq(&p1.0, &p2.0)
        },
        (Type::Fp(x), Type::Fp(y)) => *x == *y,
        (
            Type::Func { result_type: r1, param_types: p1, is_var_arg: v1 },
            Type::Func { result_type: r2, param_types: p2, is_var_arg: v2 },
        ) => {
            if *v1 != *v2 {
                return false;
            }
            if !type_eq(&r1.0, &r2.0) {
                return false;
            }
            type_refs_eq_from(a, p1, p2)
        },
        (
            Type::Vector { element_type: e1, num_elements: n1, scalable: s1 },
            Type::Vector { element_type: e2, num_elements: n2, scalable: s2 },
        ) => {
            if *n1 != *n2 || *s1 != *s2 {
                return false;
            }
            type_eq(&e1.0, &e2.0)
        },
        (
            Type::Array { element_type: e1, num_elements: n1 },
            Type::Array { element_type: e2, num_elements: n2 },
        ) => {
            if *n1 != *n2 {
                return false;
            }
            type_eq(&e1.0, &e2.0)
        },
        (
            Type::Struct { element_types: p1, is_packed: k1 },
            Type::Struct { element_types: p2, is_packed: k2 },
        ) => {
            if *k1 != *k2 {
                return false;
            }
            type_refs_eq_from(a, p1, p2)
        },
        (Type::NamedStruct { name: n1 }, Type::NamedStruct { name: n2 }) => *n1 == *n2,
        (Type::Metadata, Type::Metadata) => true,
        (Type::Label, Type::Label) => true,
        (Type::Token, Type::Token) => true,
        _ => false,
    }
}

/// Elementwise structural equality of two type lists; `parent` only
/// bounds the recursion (the first list belongs to it).
fn type_refs_eq_from(parent: &Type, p1: &Vec<TypeRef>, p2: &Vec<TypeRef>) -> (r: bool)
    requires
        decreases_to!(*parent => *p1),
    ensures
        r == (tyrefs_view(p1@) == tyrefs_view(p2@)),
    decreases *parent, 0int,
{
    if p1.len() != p2.len() {
        proof {
            assert(tyrefs_view(p1@).len() != tyrefs_view(p2@).len());
        }
        return false;
    }
    let n = p1.len();
    let mut i: usize = 0;
    while i < n
        invariant
            decreases_to!(*parent => *p1),
            n == p1@.len(),
            n == p2@.len(),
            i <= n,
            forall|k: int| 0 <= k < i ==> tyrefs_view(p1@)[k] == tyrefs_view(p2@)[k],
        decreases n - i,
    {
        proof {
            assert(decreases_to!(*p1 => p1@[i as int]));
            assert(decreases_to!(p1@[i as int] => *p1@[i as int].0));
        }
        if !type_eq(&p1[i].0, &p2[i].0) {
            proof {
                assert(tyrefs_view(p1@)[i as int] != tyrefs_view(p2@)[i as int]);
            }
            return false;
        }
        i += 1;
    }
    proof {
        assert(tyrefs_view(p1@) =~= tyrefs_view(p2@));
    }
    true
}

/// A structural copy of a type.
pub fn type_copy(t: &Type) -> (r: Type)
    ensures
        r@ == t@,
    decreases *t, 1int,
{
    match t {
        Type::Void => Type::Void,
        Type::Integer { bits } => Type::Integer { bits: *bits },
        Type::Pointer { pointee_type, addr_space } => Type::Pointer {
            pointee_type: TypeRef(Box::new(type_copy(&pointee_type.0))),
            addr_space: *addr_space,
        },
        Type::Fp(fpt) => Type::Fp(*fpt),
        Type::Func { result_type, param_types, is_var_arg } => {
            let result = TypeRef(Box::new(type_copy(&result_type.0)));
            let params = type_refs_copy_from(t, param_types);
            Type::Func { result_type: result, param_types: params, is_var_arg: *is_var_arg }
        },
        Type::Vector { element_type, num_elements, scalable } => Type::Vector {
            element_type: TypeRef(Box::new(type_copy(&element_type.0))),
            num_elements: *num_elements,
            scalable: *scalable,
        },
        Type::Array { element_type, num_elements } => Type::Array {
            element_type: TypeRef(Box::new(type_copy(&element_type.0))),
            num_elements: *num_elements,
        },
        Type::Struct { element_types, is_packed } => {
            let elems = type_refs_copy_from(t, element_types);
            Type::Struct { element_types: elems, is_packed: *is_packed }
        },
        Type::NamedStruct { name } => Type::NamedStruct { name: name.clone() },
        Type::Metadata => Type::Metadata,
        Type::Label => Type::Label,
        Type::Token => Type::Token,
    }
}

/// A structural copy of a list of type references.
fn type_refs_copy_from(parent: &Type, ps: &Vec<TypeRef>) -> (r: Vec<TypeRef>)
    requires
        decreases_to!(*parent => *ps),
    ensures
        tyrefs_view(r@) == tyrefs_view(ps@),
    decreases *parent, 0int,
{
    let n = ps.len();
    let mut out: Vec<TypeRef> = Vec::new();
    let mut i: usize = 0;
    while i < n
        invariant
            decreases_to!(*parent => *ps),
            n == ps@.len(),
            i <= n,
            out@.len() == i,
            forall|k: int| 0 <= k < i ==> tyrefs_view(out@)[k] == tyrefs_view(ps@)[k],
        decreases n - i,
    {
        proof {
            assert(decreases_to!(*ps => ps@[i as int]));
            assert(decreases_to!(ps@[i as int] => *ps@[i as int].0));
        }
        out.push(TypeRef(Box::new(type_copy(&ps[i].0))));
        proof {
            assert(forall|k: int|
                0 <= k < i ==> tyrefs_view(out@)[k] == tyrefs_view(ps@)[k]);
            assert(tyrefs_view(out@)[i as int] == tyrefs_view(ps@)[i as int]);
        }
        i += 1;
    }
    proof {
        assert(tyrefs_view(out@) =~= tyrefs_view(ps@));
    }
    out
}

impl TypeRef {
    /// Wrap an owned type.
    fn new(ty: Type) -> (r: Self)
        ensures
            r@ == ty@,
    {
        TypeRef(Box::new(ty))
    }

    /// The referenced type.
    pub fn as_ref(&self) -> (r: &Type)
        ensures
            r@ == self@,
    {
        &self.0
    }

    /// A structural copy of this reference.
    pub fn duplicate(&self) -> (r: TypeRef)
        ensures
            r@ == self@,
    {
        TypeRef(Box::new(type_copy(&self.0)))
    }
}

impl From<FPType> for Type {
    /// A floating-point type as a type.
    fn from(fpt: FPType) -> (r: Type)
        ensures
            r == Type::Fp(fpt),
    {
        Type::Fp(fpt)
    }
}

impl vstd::std_specs::convert::FromSpecImpl<FPType> for Type {
    open spec fn obeys_from_spec() -> bool {
        true
    }

    open spec fn from_spec(fpt: FPType) -> Type {
        Type::Fp(fpt)
    }
}

/// The definition of a named structure type.
#[derive(Debug)]
pub enum NamedStructDef {
    /// An opaque struct type: declared, never defined.
    Opaque,
    /// A defined struct type; the reference is to a `Struct` type.
    Defined(TypeRef),
}


/// Elementwise structural equality of two type lists.
pub fn tyrefs_eq(a: &Vec<TypeRef>, b: &Vec<TypeRef>) -> (r: bool)
    ensures
        r == (tyrefs_view(a@) == tyrefs_view(b@)),
{
    if a.len() != b.len() {
        proof {
            assert(tyrefs_view(a@).len() != tyrefs_view(b@).len());
        }
        return false;
    }
    let n = a.len();
    let mut i: usize = 0;
    while i < n
        invariant
            n == a@.len(),
            n == b@.len(),
            i <= n,
            forall|k: int| 0 <= k < i ==> tyrefs_view(a@)[k] == tyrefs_view(b@)[k],
        decreases n - i,
    {
        if !type_eq(&a[i].0, &b[i].0) {
            proof {
                assert(tyrefs_view(a@)[i as int] != tyrefs_view(b@)[i as int]);
            }
            return false;
        }
        i += 1;
    }
    proof {
        assert(tyrefs_view(a@) =~= tyrefs_view(b@));
    }
    true
}

/// A structural copy of a list of type references.
pub fn tyrefs_copy(ps: &Vec<TypeRef>) -> (r: Vec<TypeRef>)
    ensures
        tyrefs_view(r@) == tyrefs_view(ps@),
{
    let n = ps.len();
    let mut out: Vec<TypeRef> = Vec::new();
    let mut i: usize = 0;
    while i < n
        invariant
            n == ps@.len(),
            i <= n,
            out@.len() == i,
            forall|k: int| 0 <= k < i ==> tyrefs_view(out@)[k] == tyrefs_view(ps@)[k],
        decreases n - i,
    {
        out.push(ps[i].duplicate());
        proof {
            assert(tyrefs_view(out@)[i as int] == tyrefs_view(ps@)[i as int]);
            assert(forall|k: int| 0 <= k < i ==> tyrefs_view(out@)[k] == tyrefs_view(ps@)[k]);
        }
        i += 1;
    }
    proof {
        assert(tyrefs_view(out@) =~= tyrefs_view(ps@));
    }
    out
}

/// Holds every type built so far and hands out references to them, so
/// that asking for the same type twice yields the same structure.
#[derive(Debug)]
pub struct Builder {
    /// The single void type.
    pub void_type: TypeRef,
    /// Integer types, by bit width.
    pub int_types: Vec<(u32, TypeRef)>,
    /// Pointer types, by pointee type and address space.
    pub pointer_types: Vec<(TypeRef, AddrSpace, TypeRef)>,
    /// Floating-point types.
    pub fp_types: Vec<(FPType, TypeRef)>,
    /// Function types, by result, parameters and variadic flag.
    pub func_types: Vec<(TypeRef, Vec<TypeRef>, bool, TypeRef)>,
    /// Vector types, by element, count and scalability.
    pub vec_types: Vec<(TypeRef, u32, bool, TypeRef)>,
    /// Array types, by element and count.
    pub arr_types: Vec<(TypeRef, usize, TypeRef)>,
    /// Literal struct types, by elements and packedness.
    pub struct_types: Vec<(Vec<TypeRef>, bool, TypeRef)>,
    /// Named struct types, by name.
    pub named_struct_types: Vec<(String, TypeRef)>,
    /// Definitions of named struct types, by name.
    pub named_struct_defs: Vec<(String, NamedStructDef)>,
    /// The single metadata type.
    pub metadata_type: TypeRef,
    /// The single label type.
    pub label_type: TypeRef,
    /// The single token type.
    pub token_type: TypeRef,
}

impl Builder {
    /// Every cached reference denotes the type its key describes.
    pub open spec fn wf(self) -> bool {
        &&& self.void_type@ == TyV::Void
        &&& self.metadata_type@ == TyV::Metadata
        &&& self.label_type@ == TyV::Label
        &&& self.token_type@ == TyV::Token
        &&& forall|i: int|
            0 <= i < self.int_types@.len() ==> (#[trigger] self.int_types@[i]).1@ == TyV::Integer(
                self.int_types@[i].0,
            )
        &&& forall|i: int|
            0 <= i < self.pointer_types@.len() ==> (#[trigger] self.pointer_types@[i]).2@
                == TyV::Pointer(
                Box::new(self.pointer_types@[i].0@),
                self.pointer_types@[i].1,
            )
        &&& forall|i: int|
            0 <= i < self.fp_types@.len() ==> (#[trigger] self.fp_types@[i]).1@ == TyV::Fp(
                self.fp_types@[i].0,
            )
        &&& forall|i: int|
            0 <= i < self.func_types@.len() ==> (#[trigger] self.func_types@[i]).3@ == (TyV::Func {
                result: Box::new(self.func_types@[i].0@),
                params: tyrefs_view(self.func_types@[i].1@),
                is_var_arg: self.func_types@[i].2,
            })
        &&& forall|i: int|
            0 <= i < self.vec_types@.len() ==> (#[trigger] self.vec_types@[i]).3@ == (TyV::Vector {
                element: Box::new(self.vec_types@[i].0@),
                num_elements: self.vec_types@[i].1,
                scalable: self.vec_types@[i].2,
            })
        &&& forall|i: int|
            0 <= i < self.arr_types@.len() ==> (#[trigger] self.arr_types@[i]).2@ == (TyV::Array {
                element: Box::new(self.arr_types@[i].0@),
                num_elements: self.arr_types@[i].1,
            })
        &&& forall|i: int|
            0 <= i < self.struct_types@.len() ==> (#[trigger] self.struct_types@[i]).2@ == (
            TyV::Struct {
                elements: tyrefs_view(self.struct_types@[i].0@),
                is_packed: self.struct_types@[i].1,
            })
        &&& forall|i: int|
            0 <= i < self.named_struct_types@.len() ==> (#[trigger] self.named_struct_types@[i]).1@
                == TyV::NamedStruct(self.named_struct_types@[i].0@)
    }

    /// A builder with the singleton types ready and every cache empty.
    pub fn new() -> (r: Self)
        ensures
            r.wf(),
            r.named_struct_defs@.len() == 0,
    {
        Builder {
            void_type: TypeRef::new(Type::Void),
            int_types: Vec::new(),
            pointer_types: Vec::new(),
            fp_types: Vec::new(),
            func_types: Vec::new(),
            vec_types: Vec::new(),
            arr_types: Vec::new(),
            struct_types: Vec::new(),
            named_struct_types: Vec::new(),
            named_struct_defs: Vec::new(),
            metadata_type: TypeRef::new(Type::Metadata),
            label_type: TypeRef::new(Type::Label),
            token_type: TypeRef::new(Type::Token),
        }
    }

    /// The void type.
    pub fn void(&self) -> (r: TypeRef)
        requires
            self.wf(),
        ensures
            r@ == TyV::Void,
    {
        self.void_type.duplicate()
    }

    /// The metadata type.
    pub fn metadata_type(&self) -> (r: TypeRef)
        requires
            self.wf(),
        ensures
            r@ == TyV::Metadata,
    {
        self.metadata_type.duplicate()
    }

    /// The label type.
    pub fn label_type(&self) -> (r: TypeRef)
        requires
            self.wf(),
        ensures
            r@ == TyV::Label,
    {
        self.label_type.duplicate()
    }

    /// The token type.
    pub fn token_type(&self) -> (r: TypeRef)
        requires
            self.wf(),
        ensures
            r@ == TyV::Token,
    {
        self.token_type.duplicate()
    }

    /// The integer type of the given bit width.
    pub fn int_type(&mut self, bits: u32) -> (r: TypeRef)
        requires
            old(self).wf(),
        ensures
            final(self).wf(),
            final(self).named_struct_defs == old(self).named_struct_defs,
            r@ == TyV::Integer(bits),
    {
        let n = self.int_types.len();
        let mut j: usize = 0;
        while j < n
            invariant
                self == old(self),
                n == self.int_types@.len(),
                j <= n,
                old(self).wf(),
            decreases n - j,
        {
            if self.int_types[j].0 == bits {
                return self.int_types[j].1.duplicate();
            }
            j += 1;
        }
        let tr = TypeRef::new(Type::Integer { bits });
        let ret = tr.duplicate();
        self.int_types.push((bits, tr));
        proof {
            assert forall|i: int|
                0 <= i < self.int_types@.len() implies (#[trigger] self.int_types@[i]).1@
                == TyV::Integer(self.int_types@[i].0) by {
                if i < old(self).int_types@.len() {
                    assert(self.int_types@[i] == old(self).int_types@[i]);
                }
            }
        }
        ret
    }

    /// The boolean type (a one-bit integer).
    pub fn bool(&mut self) -> (r: TypeRef)
        requires
            old(self).wf(),
        ensures
            final(self).wf(),
            final(self).named_struct_defs == old(self).named_struct_defs,
            r@ == TyV::Integer(1),
    {
        self.int_type(1)
    }

    /// The 8-bit integer type.
    pub fn i8(&mut self) -> (r: TypeRef)
        requires
            old(self).wf(),
        ensures
            final(self).wf(),
            final(self).named_struct_defs == old(self).named_struct_defs,
            r@ == TyV::Integer(8),
    {
        self.int_type(8)
    }

    /// The 16-bit integer type.
    pub fn i16(&mut self) -> (r: TypeRef)
        requires
            old(self).wf(),
        ensures
            final(self).wf(),
            final(self).named_struct_defs == old(self).named_struct_defs,
            r@ == TyV::Integer(16),
    {
        self.int_type(16)
    }

    /// The 32-bit integer type.
    pub fn i32(&mut self) -> (r: TypeRef)
        requires
            old(self).wf(),
        ensures
            final(self).wf(),
            final(self).named_struct_defs == old(self).named_struct_defs,
            r@ == TyV::Integer(32),
    {
        self.int_type(32)
    }

    /// The 64-bit integer type.
    pub fn i64(&mut self) -> (r: TypeRef)
        requires
            old(self).wf(),
        ensures
            final(self).wf(),
            final(self).named_struct_defs == old(self).named_struct_defs,
            r@ == TyV::Integer(64),
    {
        self.int_type(64)
    }

    /// The pointer type to `pointee_type` in the default address
    /// space.
    pub fn pointer_to(&mut self, pointee_type: TypeRef) -> (r: TypeRef)
        requires
            old(self).wf(),
        ensures
            final(self).wf(),
            final(self).named_struct_defs == old(self).named_struct_defs,
            r@ == TyV::Pointer(Box::new(pointee_type@), 0),
    {
        self.pointer_in_addr_space(pointee_type, 0)
    }

    /// The pointer type to `pointee_type` in the given address space.
    pub fn pointer_in_addr_space(&mut self, pointee_type: TypeRef, addr_space: AddrSpace) -> (r:
        TypeRef)
        requires
            old(self).wf(),
        ensures
            final(self).wf(),
            final(self).named_struct_defs == old(self).named_struct_defs,
            r@ == TyV::Pointer(Box::new(pointee_type@), addr_space),
    {
        let n = self.pointer_types.len();
        let mut j: usize = 0;
        while j < n
            invariant
                self == old(self),
                n == self.pointer_types@.len(),
                j <= n,
                old(self).wf(),
            decreases n - j,
        {
            if self.pointer_types[j].1 == addr_space && type_eq(
                &self.pointer_types[j].0.0,
                &pointee_type.0,
            ) {
                return self.pointer_types[j].2.duplicate();
            }
            j += 1;
        }
        let key = pointee_type.duplicate();
        let tr = TypeRef::new(Type::Pointer { pointee_type, addr_space });
        let ret = tr.duplicate();
        self.pointer_types.push((key, addr_space, tr));
        proof {
            assert forall|i: int|
                0 <= i < self.pointer_types@.len() implies (#[trigger] self.pointer_types@[i]).2@
                == TyV::Pointer(
                Box::new(self.pointer_types@[i].0@),
                self.pointer_types@[i].1,
            ) by {
                if i < old(self).pointer_types@.len() {
                    assert(self.pointer_types@[i] == old(self).pointer_types@[i]);
                }
            }
        }
        ret
    }

    /// The given floating-point type.
    pub fn fp(&mut self, fpt: FPType) -> (r: TypeRef)
        requires
            old(self).wf(),
        ensures
            final(self).wf(),
            final(self).named_struct_defs == old(self).named_struct_defs,
            r@ == TyV::Fp(fpt),
    {
        let n = self.fp_types.len();
        let mut j: usize = 0;
        while j < n
            invariant
                self == old(self),
                n == self.fp_types@.len(),
                j <= n,
                old(self).wf(),
            decreases n - j,
        {
            if self.fp_types[j].0 == fpt {
                return self.fp_types[j].1.duplicate();
            }
            j += 1;
        }
        let tr = TypeRef::new(Type::Fp(fpt));
        let ret = tr.duplicate();
        self.fp_types.push((fpt, tr));
        proof {
            assert forall|i: int|
                0 <= i < self.fp_types@.len() implies (#[trigger] self.fp_types@[i]).1@ == TyV::Fp(
                self.fp_types@[i].0,
            ) by {
                if i < old(self).fp_types@.len() {
                    assert(self.fp_types@[i] == old(self).fp_types@[i]);
                }
            }
        }
        ret
    }

    /// The single-precision floating-point type.
    pub fn single(&mut self) -> (r: TypeRef)
        requires
            old(self).wf(),
        ensures
            final(self).wf(),
            final(self).named_struct_defs == old(self).named_struct_defs,
            r@ == TyV::Fp(FPType::Single),
    {
        self.fp(FPType::Single)
    }

    /// The double-precision floating-point type.
    pub fn double(&mut self) -> (r: TypeRef)
        requires
            old(self).wf(),
        ensures
            final(self).wf(),
            final(self).named_struct_defs == old(self).named_struct_defs,
            r@ == TyV::Fp(FPType::Double),
    {
        self.fp(FPType::Double)
    }

    /// The function type with the given result and parameter types.
    pub fn func_type(
        &mut self,
        result_type: TypeRef,
        param_types: Vec<TypeRef>,
        is_var_arg: bool,
    ) -> (r: TypeRef)
        requires
            old(self).wf(),
        ensures
            final(self).wf(),
            final(self).named_struct_defs == old(self).named_struct_defs,
            r@ == (TyV::Func {
                result: Box::new(result_type@),
                params: tyrefs_view(param_types@),
                is_var_arg,
            }),
    {
        let n = self.func_types.len();
        let mut j: usize = 0;
        while j < n
            invariant
                self == old(self),
                n == self.func_types@.len(),
                j <= n,
                old(self).wf(),
            decreases n - j,
        {
            if self.func_types[j].2 == is_var_arg && type_eq(
                &self.func_types[j].0.0,
                &result_type.0,
            ) && tyrefs_eq(&self.func_types[j].1, &param_types) {
                return self.func_types[j].3.duplicate();
            }
            j += 1;
        }
        let key_result = result_type.duplicate();
        let key_params = tyrefs_copy(&param_types);
        let tr = TypeRef::new(Type::Func { result_type, param_types, is_var_arg });
        let ret = tr.duplicate();
        self.func_types.push((key_result, key_params, is_var_arg, tr));
        proof {
            assert forall|i: int|
                0 <= i < self.func_types@.len() implies (#[trigger] self.func_types@[i]).3@ == (
            TyV::Func {
                result: Box::new(self.func_types@[i].0@),
                params: tyrefs_view(self.func_types@[i].1@),
                is_var_arg: self.func_types@[i].2,
            }) by {
                if i < old(self).func_types@.len() {
                    assert(self.func_types@[i] == old(self).func_types@[i]);
                }
            }
        }
        ret
    }

    /// The vector type with the given element type and element count.
    pub fn vector_of(&mut self, element_type: TypeRef, num_elements: u32, scalable: bool) -> (r:
        TypeRef)
        requires
            old(self).wf(),
        ensures
            final(self).wf(),
            final(self).named_struct_defs == old(self).named_struct_defs,
            r@ == (TyV::Vector { element: Box::new(element_type@), num_elements, scalable }),
    {
        let n = self.vec_types.len();
        let mut j: usize = 0;
        while j < n
            invariant
                self == old(self),
                n == self.vec_types@.len(),
                j <= n,
                old(self).wf(),
            decreases n - j,
        {
            if self.vec_types[j].1 == num_elements && self.vec_types[j].2 == scalable && type_eq(
                &self.vec_types[j].0.0,
                &element_type.0,
            ) {
                return self.vec_types[j].3.duplicate();
            }
            j += 1;
        }
        let key = element_type.duplicate();
        let tr = TypeRef::new(Type::Vector { element_type, num_elements, scalable });
        let ret = tr.duplicate();
        self.vec_types.push((key, num_elements, scalable, tr));
        proof {
            assert forall|i: int|
                0 <= i < self.vec_types@.len() implies (#[trigger] self.vec_types@[i]).3@ == (
            TyV::Vector {
                element: Box::new(self.vec_types@[i].0@),
                num_elements: self.vec_types@[i].1,
                scalable: self.vec_types@[i].2,
            }) by {
                if i < old(self).vec_types@.len() {
                    assert(self.vec_types@[i] == old(self).vec_types@[i]);
                }
            }
        }
        ret
    }

    /// The array type with the given element type and length.
    pub fn array_of(&mut self, element_type: TypeRef, num_elements: usize) -> (r: TypeRef)
        requires
            old(self).wf(),
        ensures
            final(self).wf(),
            final(self).named_struct_defs == old(self).named_struct_defs,
            r@ == (TyV::Array { element: Box::new(element_type@), num_elements }),
    {
        let n = self.arr_types.len();
        let mut j: usize = 0;
        while j < n
            invariant
                self == old(self),
                n == self.arr_types@.len(),
                j <= n,
                old(self).wf(),
            decreases n - j,
        {
            if self.arr_types[j].1 == num_elements && type_eq(
                &self.arr_types[j].0.0,
                &element_type.0,
            ) {
                return self.arr_types[j].2.duplicate();
            }
            j += 1;
        }
        let key = element_type.duplicate();
        let tr = TypeRef::new(Type::Array { element_type, num_elements });
        let ret = tr.duplicate();
        self.arr_types.push((key, num_elements, tr));
        proof {
            assert forall|i: int|
                0 <= i < self.arr_types@.len() implies (#[trigger] self.arr_types@[i]).2@ == (
            TyV::Array {
                element: Box::new(self.arr_types@[i].0@),
                num_elements: self.arr_types@[i].1,
            }) by {
                if i < old(self).arr_types@.len() {
                    assert(self.arr_types@[i] == old(self).arr_types@[i]);
                }
            }
        }
        ret
    }

    /// The literal struct type with the given element types.
    pub fn struct_of(&mut self, element_types: Vec<TypeRef>, is_packed: bool) -> (r: TypeRef)
        requires
            old(self).wf(),
        ensures
            final(self).wf(),
            final(self).named_struct_defs == old(self).named_struct_defs,
            r@ == (TyV::Struct { elements: tyrefs_view(element_types@), is_packed }),
    {
        let n = self.struct_types.len();
        let mut j: usize = 0;
        while j < n
            invariant
                self == old(self),
                n == self.struct_types@.len(),
                j <= n,
                old(self).wf(),
            decreases n - j,
        {
            if self.struct_types[j].1 == is_packed && tyrefs_eq(
                &self.struct_types[j].0,
                &element_types,
            ) {
                return self.struct_types[j].2.duplicate();
            }
            j += 1;
        }
        let key = tyrefs_copy(&element_types);
        let tr = TypeRef::new(Type::Struct { element_types, is_packed });
        let ret = tr.duplicate();
        self.struct_types.push((key, is_packed, tr));
        proof {
            assert forall|i: int|
                0 <= i < self.struct_types@.len() implies (#[trigger] self.struct_types@[i]).2@
                == (TyV::Struct {
                elements: tyrefs_view(self.struct_types@[i].0@),
                is_packed: self.struct_types@[i].1,
            }) by {
                if i < old(self).struct_types@.len() {
                    assert(self.struct_types@[i] == old(self).struct_types@[i]);
                }
            }
        }
        ret
    }

    /// The named struct type with the given name. This is the type;
    /// its definition, if any, is held separately.
    pub fn named_struct(&mut self, name: String) -> (r: TypeRef)
        requires
            old(self).wf(),
        ensures
            final(self).wf(),
            final(self).named_struct_defs == old(self).named_struct_defs,
            r@ == TyV::NamedStruct(name@),
    {
        let n = self.named_struct_types.len();
        let mut j: usize = 0;
        while j < n
            invariant
                self == old(self),
                n == self.named_struct_types@.len(),
                j <= n,
                old(self).wf(),
            decreases n - j,
        {
            if self.named_struct_types[j].0 == name {
                return self.named_struct_types[j].1.duplicate();
            }
            j += 1;
        }
        let tr = TypeRef::new(Type::NamedStruct { name: name.clone() });
        let ret = tr.duplicate();
        self.named_struct_types.push((name, tr));
        proof {
            assert forall|i: int|
                0 <= i < self.named_struct_types@.len() implies (
            #[trigger] self.named_struct_types@[i]).1@ == TyV::NamedStruct(
                self.named_struct_types@[i].0@,
            ) by {
                if i < old(self).named_struct_types@.len() {
                    assert(self.named_struct_types@[i] == old(self).named_struct_types@[i]);
                }
            }
        }
        ret
    }

    /// The opaque `Qubit` type: a pointer to the named struct.
    pub fn qubit(&mut self) -> (r: TypeRef)
        requires
            old(self).wf(),
        ensures
            final(self).wf(),
            final(self).named_struct_defs == old(self).named_struct_defs,
            r@ == TyV::Pointer(Box::new(TyV::NamedStruct("Qubit"@)), 0),
    {
        let qubit_ty = self.named_struct("Qubit".to_owned());
        self.pointer_to(qubit_ty)
    }

    /// The opaque `Result` type: a pointer to the named struct.
    pub fn result(&mut self) -> (r: TypeRef)
        requires
            old(self).wf(),
        ensures
            final(self).wf(),
            final(self).named_struct_defs == old(self).named_struct_defs,
            r@ == TyV::Pointer(Box::new(TyV::NamedStruct("Result"@)), 0),
    {
        let result_ty = self.named_struct("Result".to_owned());
        self.pointer_to(result_ty)
    }

    /// The definition recorded for the named struct; the definition
    /// must have been added.
    pub fn named_struct_def(&self, name: &String) -> (r: &NamedStructDef)
        requires
            assoc_find(self.named_struct_defs@, name@) is Some,
        ensures
            assoc_find(self.named_struct_defs@, name@) == Some(*r),
    {
        match assoc_index(&self.named_struct_defs, name) {
            Some(j) => &self.named_struct_defs[j].1,
            None => {
                proof {
                    assert(false);
                }
                &self.named_struct_defs[0].1
            },
        }
    }

    /// Record the definition of a named struct; a name may be defined
    /// at most once.
    pub fn add_named_struct_def(&mut self, name: String, def: NamedStructDef)
        requires
            old(self).wf(),
            assoc_find(old(self).named_struct_defs@, name@) is None,
        ensures
            final(self).wf(),
            final(self).named_struct_defs@ == old(self).named_struct_defs@.push((name, def)),
            assoc_find(final(self).named_struct_defs@, name@) == Some(def),
            forall|n2: Seq<char>|
                n2 != name@ ==> assoc_find(final(self).named_struct_defs@, n2) == assoc_find(
                    old(self).named_struct_defs@,
                    n2,
                ),
    {
        proof {
            crate::resolve::lemma_assoc_push(self.named_struct_defs@, (name, def));
        }
        self.named_struct_defs.push((name, def));
    }
}


/// The decimal digit characters.
pub open spec fn dec_digit(d: int) -> char {
    if d == 0 {
        '0'
    } else if d == 1 {
        '1'
    } else if d == 2 {
        '2'
    } else if d == 3 {
        '3'
    } else if d == 4 {
        '4'
    } else if d == 5 {
        '5'
    } else if d == 6 {
        '6'
    } else if d == 7 {
        '7'
    } else if d == 8 {
        '8'
    } else {
        '9'
    }
}

/// The decimal spelling of a nonnegative number.
pub open spec fn dec_str(n: int) -> Seq<char>
    decreases n,
{
    if n < 10 {
        seq![dec_digit(n)]
    } else {
        dec_str(n / 10).push(dec_digit(n % 10))
    }
}

/// One decimal digit as a string.
fn digit_str(d: u64) -> (r: &'static str)
    requires
        d < 10,
    ensures
        r@ == seq![dec_digit(d as int)],
{
    proof {
        reveal_strlit("0");
        reveal_strlit("1");
        reveal_strlit("2");
        reveal_strlit("3");
        reveal_strlit("4");
        reveal_strlit("5");
        reveal_strlit("6");
        reveal_strlit("7");
        reveal_strlit("8");
        reveal_strlit("9");
    }
    if d == 0 {
        "0"
    } else if d == 1 {
        "1"
    } else if d == 2 {
        "2"
    } else if d == 3 {
        "3"
    } else if d == 4 {
        "4"
    } else if d == 5 {
        "5"
    } else if d == 6 {
        "6"
    } else if d == 7 {
        "7"
    } else if d == 8 {
        "8"
    } else {
        "9"
    }
}

/// The decimal spelling of a number.
pub fn dec_string(n: u64) -> (r: String)
    ensures
        r@ == dec_str(n as int),
    decreases n,
{
    if n < 10 {
        digit_str(n).to_owned()
    } else {
        let mut s = dec_string(n / 10);
        s.append(digit_str(n % 10));
        proof {
            assert(s@ =~= dec_str(n as int / 10).push(dec_digit(n as int % 10)));
        }
        s
    }
}


/// The textual form of a floating-point type.
pub open spec fn fp_text(fpt: FPType) -> Seq<char> {
    match fpt {
        FPType::Half => "half"@,
        FPType::BFloat => "bfloat"@,
        FPType::Single => "float"@,
        FPType::Double => "double"@,
        FPType::FP128 => "fp128"@,
        FPType::X86_FP80 => "x86_fp80"@,
        FPType::PPC_FP128 => "ppc_fp128"@,
    }
}

impl FPType {
    /// Render a floating-point type as IR text.
    pub fn to_text(self) -> (r: &'static str)
        ensures
            r@ == fp_text(self),
    {
        match self {
            FPType::Half => "half",
            FPType::BFloat => "bfloat",
            FPType::Single => "float",
            FPType::Double => "double",
            FPType::FP128 => "fp128",
            FPType::X86_FP80 => "x86_fp80",
            FPType::PPC_FP128 => "ppc_fp128",
        }
    }
}

/// The textual form of a type, as the target IR spells it.
pub open spec fn ty_text(v: TyV) -> Seq<char>
    decreases v, 1int,
{
    match v {
        TyV::Void => "void"@,
        TyV::Integer(bits) => seq!['i'] + dec_str(bits as int),
        TyV::Pointer(p, _) => ty_text(*p) + seq!['*'],
        TyV::Fp(fpt) => fp_text(fpt),
        TyV::Func { result, params, is_var_arg } => ty_text(*result) + " ("@ + params_text(
            params,
            0,
        ) + (if is_var_arg {
            ", ..."@
        } else {
            Seq::empty()
        }) + ")"@,
        TyV::Vector { element, num_elements, scalable } => (if scalable {
            "<vscale x "@
        } else {
            "<"@
        }) + dec_str(num_elements as int) + " x "@ + ty_text(*element) + ">"@,
        TyV::Array { element, num_elements } => "["@ + dec_str(num_elements as int) + " x "@
            + ty_text(*element) + "]"@,
        TyV::Struct { elements, is_packed } => (if is_packed {
            "<"@
        } else {
            Seq::empty()
        }) + "{ "@ + params_text(elements, 0) + " }"@ + (if is_packed {
            ">"@
        } else {
            Seq::empty()
        }),
        TyV::NamedStruct(name) => seq!['%'] + name,
        TyV::Metadata => "metadata"@,
        TyV::Label => "label"@,
        TyV::Token => "token"@,
    }
}

/// The types from index `i` onward, rendered and joined with commas.
pub open spec fn params_text(s: Seq<TyV>, i: int) -> Seq<char>
    decreases s, s.len() - i,
{
    if i < 0 || i >= s.len() {
        Seq::empty()
    } else if i == s.len() - 1 {
        ty_text(s[i])
    } else {
        ty_text(s[i]) + ", "@ + params_text(s, i + 1)
    }
}


impl Type {
    /// Render a type as the target IR spells it.
    pub fn to_text(&self) -> (r: String)
        ensures
            r@ == ty_text(self@),
        decreases *self, 1int,
    {
        match self {
            Type::Void => "void".to_owned(),
            Type::Integer { bits } => {
                let mut s = "i".to_owned();
                let d = dec_string(*bits as u64);
                s.append(d.as_str());
                proof {
                    reveal_strlit("i");
                    assert("i"@ =~= seq!['i']);
                    assert(s@ =~= ty_text(self@));
                }
                s
            },
            Type::Pointer { pointee_type, addr_space: _ } => {
                let mut s = pointee_type.0.to_text();
                s.append("*");
                proof {
                    reveal_strlit("*");
                    assert("*"@ =~= seq!['*']);
                    assert(s@ =~= ty_text(self@));
                }
                s
            },
            Type::Fp(fpt) => fpt.to_text().to_owned(),
            Type::Func { result_type, param_types, is_var_arg } => {
                let mut s = result_type.0.to_text();
                s.append(" (");
                let ps = refs_text_from(self, param_types);
                s.append(ps.as_str());
                if *is_var_arg {
                    s.append(", ...");
                }
                s.append(")");
                proof {
                    assert(s@ =~= ty_text(self@));
                }
                s
            },
            Type::Vector { element_type, num_elements, scalable } => {
                let mut s = if *scalable {
                    "<vscale x ".to_owned()
                } else {
                    "<".to_owned()
                };
                let d = dec_string(*num_elements as u64);
                s.append(d.as_str());
                s.append(" x ");
                let e = element_type.0.to_text();
                s.append(e.as_str());
                s.append(">");
                proof {
                    assert(s@ =~= ty_text(self@));
                }
                s
            },
            Type::Array { element_type, num_elements } => {
                let mut s = "[".to_owned();
                let d = dec_string(*num_elements as u64);
                s.append(d.as_str());
                s.append(" x ");
                let e = element_type.0.to_text();
                s.append(e.as_str());
                s.append("]");
                proof {
                    assert(s@ =~= ty_text(self@));
                }
                s
            },
            Type::Struct { element_types, is_packed } => {
                let mut s = if *is_packed {
                    "<".to_owned()
                } else {
                    String::new()
                };
                s.append("{ ");
                let ps = refs_text_from(self, element_types);
                s.append(ps.as_str());
                s.append(" }");
                if *is_packed {
                    s.append(">");
                }
                proof {
                    assert(s@ =~= ty_text(self@));
                }
                s
            },
            Type::NamedStruct { name } => {
                let mut s = "%".to_owned();
                s.append(name.as_str());
                proof {
                    reveal_strlit("%");
                    assert("%"@ =~= seq!['%']);
                    assert(s@ =~= ty_text(self@));
                }
                s
            },
            Type::Metadata => "metadata".to_owned(),
            Type::Label => "label".to_owned(),
            Type::Token => "token".to_owned(),
        }
    }
}

/// Render a list of types joined by commas; `parent` only bounds the
/// recursion.
fn refs_text_from(parent: &Type, ps: &Vec<TypeRef>) -> (r: String)
    requires
        decreases_to!(*parent => *ps),
    ensures
        r@ == params_text(tyrefs_view(ps@), 0),
    decreases *parent, 0int,
{
    let n = ps.len();
    let mut out = String::new();
    if n == 0 {
        proof {
            assert(params_text(tyrefs_view(ps@), 0) =~= Seq::<char>::empty());
        }
        return out;
    }
    let mut i: usize = 0;
    while i < n - 1
        invariant
            decreases_to!(*parent => *ps),
            n == ps@.len(),
            n >= 1,
            i <= n - 1,
            params_text(tyrefs_view(ps@), 0) == out@ + params_text(tyrefs_view(ps@), i as int),
        decreases n - i,
    {
        proof {
            assert(decreases_to!(*ps => ps@[i as int]));
            assert(decreases_to!(ps@[i as int] => *ps@[i as int].0));
        }
        let t = ps[i].0.to_text();
        out.append(t.as_str());
        out.append(", ");
        proof {
            assert(tyrefs_view(ps@)[i as int] == ty_view(*ps@[i as int].0));
            assert(params_text(tyrefs_view(ps@), 0) =~= out@ + params_text(
                tyrefs_view(ps@),
                i as int + 1,
            ));
        }
        i += 1;
    }
    proof {
        assert(decreases_to!(*ps => ps@[i as int]));
        assert(decreases_to!(ps@[i as int] => *ps@[i as int].0));
    }
    let t = ps[n - 1].0.to_text();
    out.append(t.as_str());
    proof {
        assert(tyrefs_view(ps@)[n - 1] == ty_view(*ps@[n - 1].0));
        assert(params_text(tyrefs_view(ps@), n - 1 as int) == ty_text(tyrefs_view(ps@)[n - 1]));
        assert(out@ =~= params_text(tyrefs_view(ps@), 0));
    }
    out
}


impl TypeRef {
    /// Render the referenced type as IR text.
    pub fn to_text(&self) -> (r: String)
        ensures
            r@ == ty_text(self@),
    {
        self.0.to_text()
    }
}

/// The textual form of a named struct definition.
pub open spec fn def_text(d: NamedStructDef) -> Seq<char> {
    match d {
        NamedStructDef::Opaque => "opaque"@,
        NamedStructDef::Defined(tr) => ty_text(tr@),
    }
}

impl NamedStructDef {
    /// Render a definition as IR text.
    pub fn to_text(&self) -> (r: String)
        ensures
            r@ == def_text(*self),
    {
        match self {
            NamedStructDef::Opaque => "opaque".to_owned(),
            NamedStructDef::Defined(tr) => tr.to_text(),
        }
    }
}

/// The textual form of a list of named struct definitions, one line
/// each.
pub open spec fn defs_text(s: Seq<(String, NamedStructDef)>) -> Seq<char>
    decreases s.len(),
{
    if s.len() == 0 {
        Seq::empty()
    } else {
        defs_text(s.drop_last()) + seq!['%'] + s.last().0@ + " = type "@ + def_text(s.last().1)
            + seq!['\n']
    }
}

impl Builder {
    /// Render every named struct definition, one line each.
    pub fn to_text(&self) -> (r: String)
        ensures
            r@ == defs_text(self.named_struct_defs@),
    {
        let mut out = String::new();
        let n = self.named_struct_defs.len();
        let mut i: usize = 0;
        while i < n
            invariant
                n == self.named_struct_defs@.len(),
                i <= n,
                out@ == defs_text(self.named_struct_defs@.take(i as int)),
            decreases n - i,
        {
            let ghost pre = self.named_struct_defs@.take(i as int + 1);
            proof {
                assert(pre.last() == self.named_struct_defs@[i as int]);
                assert(pre.drop_last() =~= self.named_struct_defs@.take(i as int));
            }
            out.append("%");
            out.append(self.named_struct_defs[i].0.as_str());
            out.append(" = type ");
            let d = self.named_struct_defs[i].1.to_text();
            out.append(d.as_str());
            out.append("\n");
            proof {
                reveal_strlit("%");
                reveal_strlit("\n");
                assert("%"@ =~= seq!['%']);
                assert("\n"@ =~= seq!['\n']);
                assert(out@ =~= defs_text(self.named_struct_defs@.take(i as int + 1)));
            }
            i += 1;
        }
        proof {
            assert(self.named_struct_defs@.take(n as int) =~= self.named_struct_defs@);
        }
        out
    }
}

} // verus!






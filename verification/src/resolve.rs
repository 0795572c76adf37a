//! The name-resolution engine.
//!
//! Resolution maps each identifier occurrence to a [`Res`]: the
//! declaration it refers to. The search order is strict: local scopes
//! from innermost to outermost (local bindings shadow items), then the
//! explicit opens of each scope, then the implicitly opened prelude,
//! and finally the root namespace. Crossing a callable boundary going
//! outward hides local variables, but not items: local callables are
//! not closures.

use vstd::prelude::*;

use crate::ast::{Ident, NodeId, Span};
use crate::namespaces::{path_view, NamespaceId, NamespaceTreeRoot};

verus! {

/// A generic-parameter index within its callable declaration.
pub type ParamId = usize;

/// An item index local to one package.
pub type LocalItemId = usize;

/// A package index within the set of compiled packages.
pub type PackageId = usize;

/// The durable identity of an item: the package it lives in (`None`
/// for the package currently being compiled) and its index there.
#[derive(Clone, Copy, Debug, PartialEq, Eq, Hash, Structural)]
pub struct ItemId {
    pub package: Option<PackageId>,
    pub item: LocalItemId,
}

/// Whether an item is backed by an implementation.
#[derive(Clone, Copy, Debug, PartialEq, Eq, Hash, Structural)]
pub enum ItemStatus {
    Available,
    Unimplemented,
}

/// A built-in primitive type.
#[derive(Clone, Copy, Debug, PartialEq, Eq, Hash, Structural)]
pub enum Prim {
    BigInt,
    Bool,
    Double,
    Int,
    Pauli,
    Qubit,
    Range,
    Result,
    String,
}

/// A resolution: what a name refers to.
#[derive(Clone, Copy, Debug, PartialEq, Eq, Hash, Structural)]
pub enum Res {
    /// A global or local item, with its availability.
    Item(ItemId, ItemStatus),
    /// A local variable, identified by the node that declared it.
    Local(NodeId),
    /// A type parameter of the enclosing callable declaration.
    Param(ParamId),
    /// A built-in primitive type.
    PrimTy(Prim),
    /// The unit type.
    UnitTy,
}

/// Which of the two declaration namespaces a lookup searches.
#[derive(Clone, Copy, Debug, PartialEq, Eq, Structural)]
pub enum NameKind {
    Ty,
    Term,
}

/// An explicit import: the namespace it points to and the span of the
/// `open` statement that introduced it.
#[derive(Clone, Copy, Debug, PartialEq, Eq, Structural)]
pub struct Open {
    pub namespace: NamespaceId,
    pub span: Span,
}

/// An error found during resolution. All errors are collected; none
/// aborts the pass.
#[derive(Clone, Debug, PartialEq, Eq)]
pub enum Error {
    /// A name is reachable through two opens of one scope.
    Ambiguous {
        name: String,
        first_open: String,
        second_open: String,
        name_span: Span,
        first_open_span: Span,
        second_open_span: Span,
    },
    /// A name is reachable through two prelude namespaces.
    AmbiguousPrelude { name: String, candidate_a: String, candidate_b: String, span: Span },
    /// A name is declared twice as the same kind in one namespace.
    Duplicate(String, String, Span),
    /// A pattern binds the same name twice.
    DuplicateBinding(String, Span),
    /// An intrinsic callable name is declared twice program-wide.
    DuplicateIntrinsic(String, Span),
    /// No stage of resolution produced a match.
    NotFound(String, Span),
    /// Not found, but the name matches a declaration that existed in an
    /// earlier compilation; the second field is its former location.
    NotAvailable(String, String, Span),
    /// The resolved item is declared but not implemented.
    Unimplemented(String, Span),
}

/// The kind of a lexical scope.
#[derive(Clone, Copy, Debug, PartialEq, Eq, Structural)]
pub enum ScopeKind {
    /// The body of a namespace declaration.
    Namespace(NamespaceId),
    /// A callable declaration, including its signature.
    Callable,
    /// A block, a `for` pattern region, a lambda body, or a qubit
    /// allocation region.
    Block,
}

/// The first match in an association list keyed by name.
pub open spec fn assoc_find<V>(s: Seq<(String, V)>, name: Seq<char>) -> Option<V>
    decreases s.len(),
{
    if s.len() == 0 {
        None
    } else if s[0].0@ == name {
        Some(s[0].1)
    } else {
        assoc_find(s.skip(1), name)
    }
}

/// Stepping an association-list search past a non-matching head.
pub proof fn lemma_assoc_find_step<V>(s: Seq<(String, V)>, name: Seq<char>, j: int)
    requires
        0 <= j <= s.len(),
        forall|k: int| 0 <= k < j ==> s[k].0@ != name,
    ensures
        assoc_find(s, name) == assoc_find(s.skip(j), name),
    decreases j,
{
    if j > 0 {
        lemma_assoc_find_step(s, name, j - 1);
        assert(s.skip(j - 1)[0] == s[j - 1]);
        assert(s.skip(j - 1).skip(1) =~= s.skip(j));
    } else {
        assert(s.skip(0) =~= s);
    }
}

/// A search that scanned the whole list finds nothing.
pub proof fn lemma_assoc_find_none<V>(s: Seq<(String, V)>, name: Seq<char>)
    requires
        forall|k: int| 0 <= k < s.len() ==> s[k].0@ != name,
    ensures
        assoc_find(s, name) is None,
{
    if s.len() > 0 {
        lemma_assoc_find_step(s, name, s.len() as int);
        assert(s.skip(s.len() as int) =~= Seq::<(String, V)>::empty());
    }
}

/// Replacing the value at the first match changes only that key.
pub proof fn lemma_assoc_update<V>(s: Seq<(String, V)>, j: int, v: V)
    requires
        0 <= j < s.len(),
        forall|k: int| 0 <= k < j ==> s[k].0@ != s[j].0@,
    ensures
        assoc_find(s.update(j, (s[j].0, v)), s[j].0@) == Some(v),
        forall|n: Seq<char>|
            n != s[j].0@ ==> assoc_find(s.update(j, (s[j].0, v)), n) == assoc_find(s, n),
    decreases j,
{
    let s2 = s.update(j, (s[j].0, v));
    if j == 0 {
        assert(s2[0] == (s[j].0, v));
        assert forall|n: Seq<char>| n != s[j].0@ implies assoc_find(s2, n) == assoc_find(
            s,
            n,
        ) by {
            assert(s2.skip(1) =~= s.skip(1));
        }
    } else {
        lemma_assoc_update(s.skip(1), j - 1, v);
        assert(s.skip(1)[j - 1] == s[j]);
        assert(s2.skip(1) =~= s.skip(1).update(j - 1, (s[j].0, v)));
        assert(s2[0] == s[0]);
        assert(s[0].0@ != s[j].0@);
        assert(assoc_find(s2, s[j].0@) == Some(v));
        assert forall|n: Seq<char>| n != s[j].0@ implies assoc_find(s2, n) == assoc_find(
            s,
            n,
        ) by {
            assert(assoc_find(s2.skip(1), n) == assoc_find(s.skip(1), n));
        }
    }
}

/// Appending a fresh key changes only that key.
pub proof fn lemma_assoc_push<V>(s: Seq<(String, V)>, e: (String, V))
    ensures
        assoc_find(s, e.0@) is None ==> assoc_find(s.push(e), e.0@) == Some(e.1),
        forall|n: Seq<char>| n != e.0@ ==> assoc_find(s.push(e), n) == assoc_find(s, n),
    decreases s.len(),
{
    if s.len() == 0 {
        assert(s.push(e)[0] == e);
        assert forall|n: Seq<char>| n != e.0@ implies assoc_find(s.push(e), n) == assoc_find(
            s,
            n,
        ) by {
            assert(s.push(e).skip(1) =~= Seq::<(String, V)>::empty());
            assert(assoc_find(Seq::<(String, V)>::empty(), n) is None);
            assert(assoc_find(s, n) is None);
        }
    } else {
        lemma_assoc_push(s.skip(1), e);
        assert(s.push(e)[0] == s[0]);
        assert(s.push(e).skip(1) =~= s.skip(1).push(e));
        assert forall|n: Seq<char>| n != e.0@ implies assoc_find(s.push(e), n) == assoc_find(
            s,
            n,
        ) by {
            assert(assoc_find(s.push(e).skip(1), n) == assoc_find(s.skip(1), n));
        }
    }
}

/// A fruitless search means no entry carries the key.
pub proof fn lemma_assoc_find_none_all<V>(s: Seq<(String, V)>, name: Seq<char>)
    requires
        assoc_find(s, name) is None,
    ensures
        forall|k: int| 0 <= k < s.len() ==> (#[trigger] s[k]).0@ != name,
    decreases s.len(),
{
    if s.len() > 0 {
        lemma_assoc_find_none_all::<V>(s.skip(1), name);
        assert forall|k: int| 0 <= k < s.len() implies (#[trigger] s[k]).0@ != name by {
            if k > 0 {
                assert(s.skip(1)[k - 1] == s[k]);
            }
        }
    }
}

/// Replace the value at the first entry with the given key, keeping
/// the stored key; a fresh key is appended.
pub open spec fn assoc_set<V>(s: Seq<(String, V)>, key: String, v: V) -> Seq<(String, V)>
    decreases s.len(),
{
    if s.len() == 0 {
        seq![(key, v)]
    } else if s[0].0@ == key@ {
        seq![(s[0].0, v)] + s.skip(1)
    } else {
        seq![s[0]] + assoc_set(s.skip(1), key, v)
    }
}

pub proof fn lemma_assoc_set_found<V>(s: Seq<(String, V)>, key: String, v: V, j: int)
    requires
        0 <= j < s.len(),
        s[j].0@ == key@,
        forall|k: int| 0 <= k < j ==> s[k].0@ != key@,
    ensures
        assoc_set(s, key, v) == s.update(j, (s[j].0, v)),
    decreases j,
{
    if j == 0 {
        assert(assoc_set(s, key, v) =~= s.update(0, (s[0].0, v)));
    } else {
        lemma_assoc_set_found(s.skip(1), key, v, j - 1);
        assert(s.skip(1)[j - 1] == s[j]);
        assert(seq![s[0]] + s.skip(1).update(j - 1, (s[j].0, v)) =~= s.update(j, (s[j].0, v)));
    }
}

pub proof fn lemma_assoc_set_missing<V>(s: Seq<(String, V)>, key: String, v: V)
    requires
        forall|k: int| 0 <= k < s.len() ==> s[k].0@ != key@,
    ensures
        assoc_set(s, key, v) == s.push((key, v)),
    decreases s.len(),
{
    if s.len() == 0 {
        assert(assoc_set(s, key, v) =~= s.push((key, v)));
    } else {
        lemma_assoc_set_missing(s.skip(1), key, v);
        assert(seq![s[0]] + s.skip(1).push((key, v)) =~= s.push((key, v)));
    }
}

/// Find the index of the first entry with the given key.
pub fn assoc_index<V>(s: &Vec<(String, V)>, name: &String) -> (r: Option<usize>)
    ensures
        match r {
            Some(j) => {
                &&& j < s@.len()
                &&& s@[j as int].0@ == name@
                &&& forall|k: int| 0 <= k < j ==> s@[k].0@ != name@
                &&& assoc_find(s@, name@) == Some(s@[j as int].1)
            },
            None => assoc_find(s@, name@) is None,
        },
{
    let n = s.len();
    let mut j: usize = 0;
    while j < n
        invariant
            n == s@.len(),
            j <= n,
            forall|k: int| 0 <= k < j ==> s@[k].0@ != name@,
        decreases n - j,
    {
        if s[j].0 == *name {
            proof {
                lemma_assoc_find_step(s@, name@, j as int);
                assert(s@.skip(j as int)[0] == s@[j as int]);
            }
            return Some(j);
        }
        j += 1;
    }
    proof {
        lemma_assoc_find_none(s@, name@);
    }
    None
}

/// One global declaration: a name bound in a namespace.
#[derive(Clone, Debug)]
pub struct GlobalEntry {
    pub namespace: NamespaceId,
    pub name: String,
    pub res: Res,
}

/// The first match in a table of global declarations.
pub open spec fn table_find(s: Seq<GlobalEntry>, ns: NamespaceId, name: Seq<char>) -> Option<Res>
    decreases s.len(),
{
    if s.len() == 0 {
        None
    } else if s[0].namespace == ns && s[0].name@ == name {
        Some(s[0].res)
    } else {
        table_find(s.skip(1), ns, name)
    }
}

pub proof fn lemma_table_find_step(s: Seq<GlobalEntry>, ns: NamespaceId, name: Seq<char>, j: int)
    requires
        0 <= j <= s.len(),
        forall|k: int| 0 <= k < j ==> !(s[k].namespace == ns && s[k].name@ == name),
    ensures
        table_find(s, ns, name) == table_find(s.skip(j), ns, name),
    decreases j,
{
    if j > 0 {
        lemma_table_find_step(s, ns, name, j - 1);
        assert(s.skip(j - 1)[0] == s[j - 1]);
        assert(s.skip(j - 1).skip(1) =~= s.skip(j));
    } else {
        assert(s.skip(0) =~= s);
    }
}

/// Appending a binding for a key not yet bound changes only that key.
pub proof fn lemma_table_push(s: Seq<GlobalEntry>, e: GlobalEntry)
    ensures
        table_find(s, e.namespace, e.name@) is None ==> table_find(
            s.push(e),
            e.namespace,
            e.name@,
        ) == Some(e.res),
        forall|ns: NamespaceId, n: Seq<char>|
            !(ns == e.namespace && n == e.name@) ==> table_find(s.push(e), ns, n) == table_find(
                s,
                ns,
                n,
            ),
    decreases s.len(),
{
    if s.len() == 0 {
        assert(s.push(e)[0] == e);
        assert forall|ns: NamespaceId, n: Seq<char>|
            !(ns == e.namespace && n == e.name@) implies table_find(s.push(e), ns, n)
            == table_find(s, ns, n) by {
            assert(s.push(e).skip(1) =~= Seq::<GlobalEntry>::empty());
            assert(table_find(Seq::<GlobalEntry>::empty(), ns, n) is None);
            assert(table_find(s, ns, n) is None);
        }
    } else {
        lemma_table_push(s.skip(1), e);
        assert(s.push(e)[0] == s[0]);
        assert(s.push(e).skip(1) =~= s.skip(1).push(e));
        assert forall|ns: NamespaceId, n: Seq<char>|
            !(ns == e.namespace && n == e.name@) implies table_find(s.push(e), ns, n)
            == table_find(s, ns, n) by {
            assert(table_find(s.push(e).skip(1), ns, n) == table_find(s.skip(1), ns, n));
        }
    }
}

/// Find a declaration in a table.
pub fn table_get(s: &Vec<GlobalEntry>, ns: NamespaceId, name: &String) -> (r: Option<Res>)
    ensures
        r == table_find(s@, ns, name@),
{
    let n = s.len();
    let mut j: usize = 0;
    while j < n
        invariant
            n == s@.len(),
            j <= n,
            forall|k: int| 0 <= k < j ==> !(s@[k].namespace == ns && s@[k].name@ == name@),
        decreases n - j,
    {
        if s[j].namespace == ns && s[j].name == *name {
            proof {
                lemma_table_find_step(s@, ns, name@, j as int);
                assert(s@.skip(j as int)[0] == s@[j as int]);
            }
            return Some(s[j].res);
        }
        j += 1;
    }
    proof {
        lemma_table_find_step(s@, ns, name@, n as int);
        assert(s@.skip(n as int) =~= Seq::<GlobalEntry>::empty());
    }
    None
}

/// Whether a name occurs in a list of strings.
pub open spec fn names_contain(s: Seq<String>, name: Seq<char>) -> bool {
    exists|i: int| 0 <= i < s.len() && (#[trigger] s[i])@ == name
}

/// One lexical region and everything declared directly in it.
#[derive(Debug)]
pub struct Scope {
    /// The region's source span.
    pub span: Span,
    /// What kind of region this is.
    pub kind: ScopeKind,
    /// Open statements, grouped by alias (or by the opened namespace's
    /// own dotted name when no alias was given).
    pub opens: Vec<(Vec<String>, Vec<Open>)>,
    /// Local newtype declarations.
    pub tys: Vec<(String, ItemId)>,
    /// Local callable and newtype declarations.
    pub terms: Vec<(String, ItemId)>,
    /// Local variables; the `u32` is the lowest offset at which the
    /// name is visible. Only the most recent binding per name is kept.
    pub vars: Vec<(String, (u32, NodeId))>,
    /// Type parameters of the enclosing callable declaration.
    pub ty_vars: Vec<(String, ParamId)>,
}

impl Scope {
    pub fn new(kind: ScopeKind, span: Span) -> (r: Self)
        ensures
            r.span == span,
            r.kind == kind,
            r.opens@.len() == 0,
            r.tys@.len() == 0,
            r.terms@.len() == 0,
            r.vars@.len() == 0,
            r.ty_vars@.len() == 0,
    {
        Self {
            span,
            kind,
            opens: Vec::new(),
            tys: Vec::new(),
            terms: Vec::new(),
            vars: Vec::new(),
            ty_vars: Vec::new(),
        }
    }

    /// The locally declared items of the given kind.
    pub open spec fn spec_item(self, kind: NameKind, name: Seq<char>) -> Option<ItemId> {
        match kind {
            NameKind::Ty => assoc_find(self.tys@, name),
            NameKind::Term => assoc_find(self.terms@, name),
        }
    }

    /// Look up a locally declared item of the given kind.
    pub fn item(&self, kind: NameKind, name: &String) -> (r: Option<ItemId>)
        ensures
            r == self.spec_item(kind, name@),
    {
        let items = match kind {
            NameKind::Ty => &self.tys,
            NameKind::Term => &self.terms,
        };
        match assoc_index(items, name) {
            Some(j) => Some(items[j].1),
            None => None,
        }
    }
}

/// An index into the scope list of [`Locals`].
pub type ScopeId = usize;

/// Every scope created by a resolution pass, in creation order
/// (outermost first). Scopes are never removed, so offset queries
/// remain valid after the pass.
#[derive(Debug)]
pub struct Locals {
    pub scopes: Vec<Scope>,
}

/// A name visible at some offset, reported by position queries.
#[derive(Debug)]
pub struct Local {
    pub name: String,
    pub kind: LocalKind,
}

/// What kind of entity a visible name is.
#[derive(Clone, Copy, Debug, PartialEq, Eq, Structural)]
pub enum LocalKind {
    /// A local callable or newtype.
    Item(ItemId),
    /// A type parameter.
    TyParam(ParamId),
    /// A local variable or parameter.
    Var(NodeId),
}

/// The visible-name entries contributed by the variables of one scope:
/// those whose first-visible offset has been reached.
pub open spec fn spec_scope_vars(s: Seq<(String, (u32, NodeId))>, offset: u32) -> Seq<
    (Seq<char>, LocalKind),
>
    decreases s.len(),
{
    if s.len() == 0 {
        Seq::empty()
    } else {
        let front = spec_scope_vars(s.drop_last(), offset);
        let e = s.last();
        if e.1.0 <= offset {
            front.push((e.0@, LocalKind::Var(e.1.1)))
        } else {
            front
        }
    }
}

/// The visible-name entries contributed by the type parameters of one
/// scope.
pub open spec fn spec_scope_ty_vars(s: Seq<(String, ParamId)>) -> Seq<(Seq<char>, LocalKind)>
    decreases s.len(),
{
    if s.len() == 0 {
        Seq::empty()
    } else {
        spec_scope_ty_vars(s.drop_last()).push((s.last().0@, LocalKind::TyParam(s.last().1)))
    }
}

/// The visible-name entries contributed by the term items of one scope.
pub open spec fn spec_scope_terms(s: Seq<(String, ItemId)>) -> Seq<(Seq<char>, LocalKind)>
    decreases s.len(),
{
    if s.len() == 0 {
        Seq::empty()
    } else {
        spec_scope_terms(s.drop_last()).push((s.last().0@, LocalKind::Item(s.last().1)))
    }
}

/// Everything one scope contributes at an offset: variables and type
/// parameters only while variables are visible, items always.
pub open spec fn spec_scope_locals(s: Scope, offset: u32, vars: bool) -> Seq<
    (Seq<char>, LocalKind),
> {
    (if vars {
        spec_scope_vars(s.vars@, offset) + spec_scope_ty_vars(s.ty_vars@)
    } else {
        Seq::empty()
    }) + spec_scope_terms(s.terms@)
}

/// The entries of all scopes whose span strictly contains the offset,
/// innermost (latest-created) first. Crossing a callable scope going
/// outward stops variable visibility.
pub open spec fn spec_all_locals(scopes: Seq<Scope>, offset: u32, vars: bool) -> Seq<
    (Seq<char>, LocalKind),
>
    decreases scopes.len(),
{
    if scopes.len() == 0 {
        Seq::empty()
    } else {
        let s = scopes.last();
        if s.span.lo < offset && s.span.hi > offset {
            spec_scope_locals(s, offset, vars) + spec_all_locals(
                scopes.drop_last(),
                offset,
                vars && !(s.kind is Callable),
            )
        } else {
            spec_all_locals(scopes.drop_last(), offset, vars)
        }
    }
}

/// Deduplicate entries by name, keeping the first occurrence of each
/// name: the list is ordered innermost first, so an inner binding
/// shadows every outer one of the same name.
pub open spec fn spec_dedup_names(s: Seq<(Seq<char>, LocalKind)>) -> Seq<(Seq<char>, LocalKind)>
    decreases s.len(),
{
    if s.len() == 0 {
        Seq::empty()
    } else {
        let front = spec_dedup_names(s.drop_last());
        if exists|j: int| 0 <= j < s.len() - 1 && (#[trigger] s[j]).0 == s.last().0 {
            front
        } else {
            front.push(s.last())
        }
    }
}

/// The views of a list of visible-name entries.
pub open spec fn locals_view(s: Seq<Local>) -> Seq<(Seq<char>, LocalKind)> {
    s.map_values(|l: Local| (l.name@, l.kind))
}

/// The view of a list distributes over appending one entry.
pub proof fn lemma_locals_view_push(s: Seq<Local>, l: Local)
    ensures
        locals_view(s.push(l)) == locals_view(s).push((l.name@, l.kind)),
{
    assert forall|ii: int| 0 <= ii < s.len() + 1 implies locals_view(s.push(l))[ii]
        == locals_view(s).push((l.name@, l.kind))[ii] by {
        assert(locals_view(s.push(l))[ii] == (s.push(l)[ii].name@, s.push(l)[ii].kind));
        if ii < s.len() {
            assert(locals_view(s)[ii] == (s[ii].name@, s[ii].kind));
        }
    }
    assert(locals_view(s.push(l)) =~= locals_view(s).push((l.name@, l.kind)));
}

/// Appending to the second part of a concatenation.
pub proof fn lemma_add_push<T>(a: Seq<T>, b: Seq<T>, e: T)
    ensures
        a + b.push(e) == (a + b).push(e),
{
    assert(a + b.push(e) =~= (a + b).push(e));
}

impl Locals {
    /// Append a scope, returning its stable index.
    pub fn push_scope(&mut self, s: Scope) -> (r: ScopeId)
        ensures
            final(self).scopes@ == old(self).scopes@.push(s),
            r == old(self).scopes@.len(),
    {
        let id = self.scopes.len();
        self.scopes.push(s);
        id
    }

    /// All names visible at `offset`, innermost first, deduplicated by
    /// name so that inner bindings shadow outer ones. Variables are
    /// listed only when their first-visible offset has been reached,
    /// and not across an intervening callable boundary; items are
    /// always listed.
    pub fn get_all_at_offset(&self, offset: u32) -> (r: Vec<Local>)
        ensures
            locals_view(r@) == spec_dedup_names(
                spec_all_locals(self.scopes@, offset, true),
            ),
    {
        let mut vars = true;
        let mut all: Vec<Local> = Vec::new();
        let n = self.scopes.len();
        proof {
            assert(self.scopes@.take(n as int) =~= self.scopes@);
            assert(locals_view(Seq::<Local>::empty()) + spec_all_locals(
                self.scopes@,
                offset,
                true,
            ) =~= spec_all_locals(self.scopes@, offset, true));
        }
        let mut i: usize = n;
        while i > 0
            invariant
                n == self.scopes@.len(),
                i <= n,
                spec_all_locals(self.scopes@, offset, true) == locals_view(all@)
                    + spec_all_locals(self.scopes@.take(i as int), offset, vars),
            decreases i,
        {
            i -= 1;
            let ghost pre = self.scopes@.take(i as int + 1);
            proof {
                assert(pre.last() == self.scopes@[i as int]);
                assert(pre.drop_last() =~= self.scopes@.take(i as int));
            }
            let scope = &self.scopes[i];
            if scope.span.lo < offset && scope.span.hi > offset {
                let ghost all0 = all@;
                self.append_scope_locals(&mut all, i, offset, vars);
                proof {
                    assert(locals_view(all@) =~= locals_view(all0) + spec_scope_locals(
                        self.scopes@[i as int],
                        offset,
                        vars,
                    ));
                }
                if matches!(scope.kind, ScopeKind::Callable) {
                    vars = false;
                }
            }
            proof {
                assert(spec_all_locals(self.scopes@, offset, true) == locals_view(all@)
                    + spec_all_locals(self.scopes@.take(i as int), offset, vars));
            }
        }
        proof {
            assert(self.scopes@.take(0) =~= Seq::<Scope>::empty());
            assert(spec_all_locals(self.scopes@, offset, true) =~= locals_view(all@));
        }
        // Dedup by name over the whole list: the first (innermost)
        // occurrence of each name shadows every later one.
        let mut out: Vec<Local> = Vec::new();
        let m = all.len();
        let mut j: usize = 0;
        while j < m
            invariant
                m == all@.len(),
                j <= m,
                locals_view(out@) == spec_dedup_names(locals_view(all@).take(j as int)),
                locals_view(all@) == spec_all_locals(self.scopes@, offset, true),
            decreases m - j,
        {
            let ghost pre = locals_view(all@).take(j as int + 1);
            proof {
                assert(pre.last() == locals_view(all@)[j as int]);
                assert(pre.drop_last() =~= locals_view(all@).take(j as int));
                assert(locals_view(all@)[j as int] == (all@[j as int].name@, all@[
                    j as int
                ].kind));
            }
            let mut seen = false;
            let mut k: usize = 0;
            while k < j
                invariant
                    k <= j < m,
                    m == all@.len(),
                    seen == exists|w: int|
                        0 <= w < k && (#[trigger] all@[w]).name@ == all@[j as int].name@,
                decreases j - k,
            {
                if all[k].name == all[j].name {
                    proof {
                        assert(all@[k as int].name@ == all@[j as int].name@);
                    }
                    seen = true;
                }
                k += 1;
            }
            proof {
                assert(seen == exists|w: int|
                    0 <= w < j && (#[trigger] all@[w]).name@ == all@[j as int].name@);
                assert forall|w: int| 0 <= w < pre.len() - 1 implies ((#[trigger] pre[w]).0
                    == pre.last().0) == (all@[w].name@ == all@[j as int].name@) by {
                    assert(pre[w] == locals_view(all@)[w]);
                    assert(locals_view(all@)[w] == (all@[w].name@, all@[w].kind));
                }
            }
            if !seen {
                let ghost out0 = out@;
                let entry = Local { name: clone_string(&all[j].name), kind: all[j].kind };
                proof {
                    lemma_locals_view_push(out0, entry);
                    assert(!(exists|w: int|
                        0 <= w < pre.len() - 1 && (#[trigger] pre[w]).0 == pre.last().0));
                    assert(spec_dedup_names(pre) == spec_dedup_names(pre.drop_last()).push(
                        pre.last(),
                    ));
                }
                out.push(entry);
                proof {
                    assert(locals_view(out@) == spec_dedup_names(
                        locals_view(all@).take(j as int + 1),
                    ));
                }
            } else {
                proof {
                    let w = choose|w: int|
                        0 <= w < j && (#[trigger] all@[w]).name@ == all@[j as int].name@;
                    assert(pre[w].0 == pre.last().0);
                    assert(spec_dedup_names(pre) == spec_dedup_names(pre.drop_last()));
                    assert(locals_view(out@) == spec_dedup_names(
                        locals_view(all@).take(j as int + 1),
                    ));
                }
            }
            j += 1;
        }
        proof {
            assert(locals_view(all@).take(m as int) =~= locals_view(all@));
        }
        out
    }

    /// Append the entries of scope `i` at `offset` to `acc`.
    fn append_scope_locals(&self, acc: &mut Vec<Local>, i: usize, offset: u32, vars: bool)
        requires
            i < self.scopes@.len(),
        ensures
            locals_view(final(acc)@) == locals_view(old(acc)@) + spec_scope_locals(
                self.scopes@[i as int],
                offset,
                vars,
            ),
    {
        let scope = &self.scopes[i];
        let ghost base = acc@;
        if vars {
            let n = scope.vars.len();
            let mut k: usize = 0;
            while k < n
                invariant
                    n == scope.vars@.len(),
                    k <= n,
                    locals_view(acc@) == locals_view(base) + spec_scope_vars(
                        scope.vars@.take(k as int),
                        offset,
                    ),
                decreases n - k,
            {
                let ghost pre = scope.vars@.take(k as int + 1);
                proof {
                    assert(pre.last() == scope.vars@[k as int]);
                    assert(pre.drop_last() =~= scope.vars@.take(k as int));
                }
                let e = &scope.vars[k];
                if offset >= e.1.0 {
                    let ghost acc0 = acc@;
                    let entry = Local { name: clone_string(&e.0), kind: LocalKind::Var(e.1.1) };
                    proof {
                        lemma_locals_view_push(acc0, entry);
                        lemma_add_push(
                            locals_view(base),
                            spec_scope_vars(scope.vars@.take(k as int), offset),
                            (entry.name@, entry.kind),
                        );
                    }
                    acc.push(entry);
                    proof {
                        assert(spec_scope_vars(scope.vars@.take(k as int + 1), offset)
                            == spec_scope_vars(scope.vars@.take(k as int), offset).push(
                            (scope.vars@[k as int].0@, LocalKind::Var(scope.vars@[k as int].1.1)),
                        ));
                        assert(locals_view(acc@) == locals_view(base) + spec_scope_vars(
                            scope.vars@.take(k as int + 1),
                            offset,
                        ));
                    }
                }
                k += 1;
            }
            proof {
                assert(scope.vars@.take(n as int) =~= scope.vars@);
            }
            let ghost base2 = acc@;
            let n2 = scope.ty_vars.len();
            let mut k2: usize = 0;
            while k2 < n2
                invariant
                    n2 == scope.ty_vars@.len(),
                    k2 <= n2,
                    locals_view(acc@) == locals_view(base2) + spec_scope_ty_vars(
                        scope.ty_vars@.take(k2 as int),
                    ),
                decreases n2 - k2,
            {
                let ghost pre = scope.ty_vars@.take(k2 as int + 1);
                proof {
                    assert(pre.last() == scope.ty_vars@[k2 as int]);
                    assert(pre.drop_last() =~= scope.ty_vars@.take(k2 as int));
                }
                let e = &scope.ty_vars[k2];
                let ghost acc0 = acc@;
                let entry = Local { name: clone_string(&e.0), kind: LocalKind::TyParam(e.1) };
                proof {
                    lemma_locals_view_push(acc0, entry);
                    lemma_add_push(
                        locals_view(base2),
                        spec_scope_ty_vars(scope.ty_vars@.take(k2 as int)),
                        (entry.name@, entry.kind),
                    );
                }
                acc.push(entry);
                proof {
                    assert(spec_scope_ty_vars(scope.ty_vars@.take(k2 as int + 1))
                        == spec_scope_ty_vars(scope.ty_vars@.take(k2 as int)).push(
                        (scope.ty_vars@[k2 as int].0@, LocalKind::TyParam(
                            scope.ty_vars@[k2 as int].1,
                        )),
                    ));
                    assert(locals_view(acc@) == locals_view(base2) + spec_scope_ty_vars(
                        scope.ty_vars@.take(k2 as int + 1),
                    ));
                }
                k2 += 1;
            }
            proof {
                assert(scope.ty_vars@.take(n2 as int) =~= scope.ty_vars@);
            }
        }
        let ghost base3 = acc@;
        let n3 = scope.terms.len();
        let mut k3: usize = 0;
        while k3 < n3
            invariant
                n3 == scope.terms@.len(),
                k3 <= n3,
                locals_view(acc@) == locals_view(base3) + spec_scope_terms(
                    scope.terms@.take(k3 as int),
                ),
            decreases n3 - k3,
        {
            let ghost pre = scope.terms@.take(k3 as int + 1);
            proof {
                assert(pre.last() == scope.terms@[k3 as int]);
                assert(pre.drop_last() =~= scope.terms@.take(k3 as int));
            }
            let e = &scope.terms[k3];
            let ghost acc0 = acc@;
            let entry = Local { name: clone_string(&e.0), kind: LocalKind::Item(e.1) };
            proof {
                lemma_locals_view_push(acc0, entry);
                lemma_add_push(
                    locals_view(base3),
                    spec_scope_terms(scope.terms@.take(k3 as int)),
                    (entry.name@, entry.kind),
                );
            }
            acc.push(entry);
            proof {
                assert(spec_scope_terms(scope.terms@.take(k3 as int + 1)) == spec_scope_terms(
                    scope.terms@.take(k3 as int),
                ).push((scope.terms@[k3 as int].0@, LocalKind::Item(scope.terms@[k3 as int].1))));
                assert(locals_view(acc@) == locals_view(base3) + spec_scope_terms(
                    scope.terms@.take(k3 as int + 1),
                ));
            }
            k3 += 1;
        }
        proof {
            assert(scope.terms@.take(n3 as int) =~= scope.terms@);
            assert(locals_view(acc@) =~= locals_view(base) + spec_scope_locals(
                self.scopes@[i as int],
                offset,
                vars,
            ));
        }
    }
}

impl Default for Locals {
    fn default() -> (r: Self)
        ensures
            r.scopes@.len() == 0,
    {
        Self { scopes: Vec::new() }
    }
}

/// Copy a string value.
pub fn clone_string(s: &String) -> (r: String)
    ensures
        r@ == s@,
{
    s.clone()
}

/// The global declaration table: type-level and term-level
/// declarations keyed by namespace and name, the namespace tree, and
/// the set of names declared intrinsic anywhere in the program.
#[derive(Debug)]
pub struct GlobalScope {
    pub tys: Vec<GlobalEntry>,
    pub terms: Vec<GlobalEntry>,
    pub namespaces: NamespaceTreeRoot,
    pub intrinsics: Vec<String>,
}

impl GlobalScope {
    /// The declaration bound to `name` in `namespace` at the given
    /// kind, if any.
    pub open spec fn spec_get(self, kind: NameKind, ns: NamespaceId, name: Seq<char>) -> Option<
        Res,
    > {
        match kind {
            NameKind::Ty => table_find(self.tys@, ns, name),
            NameKind::Term => table_find(self.terms@, ns, name),
        }
    }

    /// Resolve a dotted namespace path to its ID.
    pub fn find_namespace(&self, ns: &Vec<String>) -> (r: Option<NamespaceId>)
        requires
            self.namespaces.wf(),
        ensures
            r == self.namespaces.spec_find(path_view(ns@)),
    {
        self.namespaces.find_namespace(ns)
    }

    /// Look up a declaration.
    pub fn get(&self, kind: NameKind, namespace: NamespaceId, name: &String) -> (r: Option<Res>)
        ensures
            r == self.spec_get(kind, namespace, name@),
    {
        let items = match kind {
            NameKind::Ty => &self.tys,
            NameKind::Term => &self.terms,
        };
        table_get(items, namespace, name)
    }

    /// Create (or find) a namespace in the namespace tree.
    pub fn insert_or_find_namespace(&mut self, name: &Vec<String>) -> (r: NamespaceId)
        requires
            old(self).namespaces.wf(),
            old(self).namespaces.assigner + name@.len() <= usize::MAX,
        ensures
            final(self).namespaces.wf(),
            final(self).namespaces.spec_find(path_view(name@)) == Some(r),
            final(self).tys == old(self).tys,
            final(self).terms == old(self).terms,
            final(self).intrinsics == old(self).intrinsics,
            final(self).namespaces.tree.id == old(self).namespaces.tree.id,
            old(self).namespaces.assigner <= final(self).namespaces.assigner,
            final(self).namespaces.assigner <= old(self).namespaces.assigner + name@.len(),
            final(self).namespaces.assigner == old(self).namespaces.assigner + old(
                self,
            ).namespaces.tree.spec_missing_count(path_view(name@)),
            forall|x: int|
                old(self).namespaces.tree.contains_id(x)
                    ==> final(self).namespaces.tree.contains_id(x),
            forall|p: Seq<Seq<char>>|
                old(self).namespaces.spec_find(p) is Some ==> final(self).namespaces.spec_find(p)
                    == old(self).namespaces.spec_find(p),
            old(self).namespaces.spec_find(path_view(name@)) is Some ==> (old(
                self,
            ).namespaces.spec_find(path_view(name@)) == Some(r) && final(self).namespaces.assigner
                == old(self).namespaces.assigner && (forall|p: Seq<Seq<char>>|
                final(self).namespaces.spec_find(p) == old(self).namespaces.spec_find(p))),
    {
        self.namespaces.insert_or_find_namespace(name)
    }
}


/// The view of an optional qualifier path.
pub open spec fn qual_view(q: Option<Vec<String>>) -> Option<Seq<Seq<char>>> {
    match q {
        Some(v) => Some(path_view(v@)),
        None => None,
    }
}

/// A dotted path joined with `.` separators.
pub open spec fn join_dot(parts: Seq<Seq<char>>) -> Seq<char>
    decreases parts.len(),
{
    if parts.len() == 0 {
        Seq::empty()
    } else if parts.len() == 1 {
        parts[0]
    } else {
        join_dot(parts.drop_last()) + seq!['.'] + parts.last()
    }
}

/// Join a dotted path into one string.
pub fn join_dot_exec(parts: &Vec<String>) -> (r: String)
    ensures
        r@ == join_dot(path_view(parts@)),
{
    let mut out = String::new();
    let n = parts.len();
    let mut i: usize = 0;
    while i < n
        invariant
            n == parts@.len(),
            i <= n,
            out@ == join_dot(path_view(parts@).take(i as int)),
        decreases n - i,
    {
        let ghost pre = path_view(parts@).take(i as int + 1);
        proof {
            assert(pre.last() == parts@[i as int]@);
            assert(pre.drop_last() =~= path_view(parts@).take(i as int));
        }
        if i > 0 {
            out.append(".");
            proof {
                reveal_strlit(".");
                assert("."@ =~= seq!['.']);
            }
        }
        out.append(parts[i].as_str());
        proof {
            if i == 0 {
                assert(pre.len() == 1);
                assert(out@ =~= pre[0]);
            } else {
                assert(join_dot(pre) == join_dot(pre.drop_last()) + seq!['.'] + pre.last());
                assert(out@ =~= join_dot(pre.drop_last()) + seq!['.'] + pre.last());
            }
        }
        i += 1;
    }
    proof {
        assert(path_view(parts@).take(n as int) =~= path_view(parts@));
    }
    out
}

/// Whether a resolution names an unimplemented item.
pub open spec fn is_unimpl(r: Res) -> bool {
    r matches Res::Item(_, ItemStatus::Unimplemented)
}

/// Record a candidate resolution: a repeated resolution keeps its
/// place but takes the new associated value, as a map insert would.
pub open spec fn cand_insert<V>(s: Seq<(Res, V)>, res: Res, v: V) -> Seq<(Res, V)>
    decreases s.len(),
{
    if s.len() == 0 {
        seq![(res, v)]
    } else if s[0].0 == res {
        seq![(res, v)] + s.skip(1)
    } else {
        seq![s[0]] + cand_insert(s.skip(1), res, v)
    }
}

pub proof fn lemma_cand_insert_found<V>(s: Seq<(Res, V)>, res: Res, v: V, j: int)
    requires
        0 <= j < s.len(),
        s[j].0 == res,
        forall|k: int| 0 <= k < j ==> s[k].0 != res,
    ensures
        cand_insert(s, res, v) == s.update(j, (res, v)),
    decreases j,
{
    if j == 0 {
        assert(cand_insert(s, res, v) =~= s.update(0, (res, v)));
    } else {
        lemma_cand_insert_found(s.skip(1), res, v, j - 1);
        assert(s.skip(1)[j - 1] == s[j]);
        assert(cand_insert(s, res, v) == seq![s[0]] + cand_insert(s.skip(1), res, v));
        assert(seq![s[0]] + s.skip(1).update(j - 1, (res, v)) =~= s.update(j, (res, v)));
    }
}

pub proof fn lemma_cand_insert_missing<V>(s: Seq<(Res, V)>, res: Res, v: V)
    requires
        forall|k: int| 0 <= k < s.len() ==> s[k].0 != res,
    ensures
        cand_insert(s, res, v) == s.push((res, v)),
    decreases s.len(),
{
    if s.len() == 0 {
        assert(cand_insert(s, res, v) =~= s.push((res, v)));
    } else {
        lemma_cand_insert_missing(s.skip(1), res, v);
        assert(seq![s[0]] + s.skip(1).push((res, v)) =~= s.push((res, v)));
    }
}

/// Record a candidate in a candidate list.
pub fn cand_insert_exec<V>(s: &mut Vec<(Res, V)>, res: Res, v: V)
    ensures
        final(s)@ == cand_insert(old(s)@, res, v),
{
    let n = s.len();
    let mut j: usize = 0;
    while j < n
        invariant
            n == s@.len(),
            j <= n,
            s@ == old(s)@,
            forall|k: int| 0 <= k < j ==> s@[k].0 != res,
        decreases n - j,
    {
        if s[j].0 == res {
            proof {
                lemma_cand_insert_found(s@, res, v, j as int);
            }
            s[j] = (res, v);
            return;
        }
        j += 1;
    }
    proof {
        lemma_cand_insert_missing(s@, res, v);
    }
    s.push((res, v));
}

/// Drop the unimplemented resolutions from a candidate list.
pub open spec fn filter_unimpl<V>(s: Seq<(Res, V)>) -> Seq<(Res, V)>
    decreases s.len(),
{
    if s.len() == 0 {
        Seq::empty()
    } else {
        let front = filter_unimpl(s.drop_last());
        if is_unimpl(s.last().0) {
            front
        } else {
            front.push(s.last())
        }
    }
}

/// With several candidates, unimplemented items are discarded so that
/// a newer implementation supersedes a stale placeholder; a single
/// candidate is kept as it is.
pub open spec fn finalize_candidates<V>(s: Seq<(Res, V)>) -> Seq<(Res, V)> {
    if s.len() > 1 {
        filter_unimpl(s)
    } else {
        s
    }
}

/// Ordering of source spans: by start offset, then by end offset.
pub open spec fn span_le(a: Span, b: Span) -> bool {
    a.lo < b.lo || (a.lo == b.lo && a.hi <= b.hi)
}

/// The index of the first candidate with the earliest span.
pub open spec fn idx_min_span(s: Seq<(Res, Open)>) -> int
    decreases s.len(),
{
    if s.len() <= 1 {
        0
    } else {
        let m = idx_min_span(s.drop_last());
        if span_le(s[m].1.span, s.last().1.span) {
            m
        } else {
            s.len() - 1
        }
    }
}

pub proof fn lemma_idx_min_span_in_range(s: Seq<(Res, Open)>)
    requires
        s.len() >= 1,
    ensures
        0 <= idx_min_span(s) < s.len(),
    decreases s.len(),
{
    if s.len() > 1 {
        lemma_idx_min_span_in_range(s.drop_last());
    }
}

/// The two earliest opens among the candidates, by span.
pub open spec fn spec_two_earliest(s: Seq<(Res, Open)>) -> (Open, Open) {
    let i = idx_min_span(s);
    let rest = s.remove(i);
    (s[i].1, rest[idx_min_span(rest)].1)
}

/// The index of the candidate with the earliest span.
pub fn find_min_span(s: &Vec<(Res, Open)>) -> (r: usize)
    requires
        s@.len() >= 1,
    ensures
        r < s@.len(),
        r == idx_min_span(s@),
{
    let n = s.len();
    let mut m: usize = 0;
    let mut j: usize = 1;
    proof {
        assert(s@.take(1).len() == 1);
        assert(idx_min_span(s@.take(1)) == 0);
    }
    while j < n
        invariant
            n == s@.len(),
            1 <= j <= n,
            m < j,
            m == idx_min_span(s@.take(j as int)),
        decreases n - j,
    {
        let ghost pre = s@.take(j as int + 1);
        proof {
            assert(pre.last() == s@[j as int]);
            assert(pre.drop_last() =~= s@.take(j as int));
            assert(forall|k: int| 0 <= k < j ==> pre[k] == s@[k]);
            lemma_idx_min_span_in_range(s@.take(j as int));
        }
        let ml = s[m].1.span;
        let cl = s[j].1.span;
        if ml.lo < cl.lo || (ml.lo == cl.lo && ml.hi <= cl.hi) {
            proof {
                assert(pre[m as int] == s@[m as int]);
                assert(idx_min_span(pre) == m);
            }
        } else {
            m = j;
            proof {
                assert(idx_min_span(pre) == pre.len() - 1);
            }
        }
        j += 1;
    }
    proof {
        assert(s@.take(n as int) =~= s@);
    }
    m
}


/// A spec-level resolution outcome, with error payloads as views.
pub enum SpecResolved {
    /// Resolution succeeded.
    Found(Res),
    /// Two opens of one scope offer the name.
    Ambig {
        name: Seq<char>,
        first_open: Seq<char>,
        second_open: Seq<char>,
        name_span: Span,
        first_open_span: Span,
        second_open_span: Span,
    },
    /// Two prelude namespaces offer the name.
    AmbigPrelude { name: Seq<char>, candidate_a: Seq<char>, candidate_b: Seq<char>, span: Span },
    /// No stage produced a match.
    Missing(Seq<char>, Span),
}

/// Whether an executable resolution result realizes a spec outcome.
pub open spec fn resolution_matches(r: Result<Res, Error>, s: SpecResolved) -> bool {
    match s {
        SpecResolved::Found(res) => r == Ok::<Res, Error>(res),
        SpecResolved::Ambig {
            name,
            first_open,
            second_open,
            name_span,
            first_open_span,
            second_open_span,
        } => match r {
            Err(
                Error::Ambiguous {
                    name: n,
                    first_open: f,
                    second_open: s2,
                    name_span: nsp,
                    first_open_span: fsp,
                    second_open_span: ssp,
                },
            ) => n@ == name && f@ == first_open && s2@ == second_open && nsp == name_span && fsp
                == first_open_span && ssp == second_open_span,
            _ => false,
        },
        SpecResolved::AmbigPrelude { name, candidate_a, candidate_b, span } => match r {
            Err(Error::AmbiguousPrelude { name: n, candidate_a: a, candidate_b: b, span: sp }) => n@
                == name && a@ == candidate_a && b@ == candidate_b && sp == span,
            _ => false,
        },
        SpecResolved::Missing(name, span) => match r {
            Err(Error::NotFound(n, sp)) => n@ == name && sp == span,
            _ => false,
        },
    }
}

/// Whether an optional result realizes an optional spec outcome.
pub open spec fn outcome_matches(r: Option<Result<Res, Error>>, s: Option<SpecResolved>) -> bool {
    match (r, s) {
        (Option::None, Option::None) => true,
        (Option::Some(rr), Option::Some(ss)) => resolution_matches(rr, ss),
        _ => false,
    }
}

/// The shadowing rules within one scope: a visible local variable or
/// type parameter wins over a locally declared item, which wins over
/// the scope's namespace's own global declarations.
pub open spec fn spec_resolve_scope_locals(
    g: GlobalScope,
    s: Scope,
    vars: bool,
    kind: NameKind,
    name: Seq<char>,
) -> Option<Res> {
    let var_hit: Option<Res> = if vars {
        match kind {
            NameKind::Term => match assoc_find(s.vars@, name) {
                Some(v) => Some(Res::Local(v.1)),
                None => None,
            },
            NameKind::Ty => match assoc_find(s.ty_vars@, name) {
                Some(pid) => Some(Res::Param(pid)),
                None => None,
            },
        }
    } else {
        None
    };
    match var_hit {
        Some(r) => Some(r),
        None => match s.spec_item(kind, name) {
            Some(id) => Some(Res::Item(id, ItemStatus::Available)),
            None => match s.kind {
                ScopeKind::Namespace(ns) => g.spec_get(kind, ns, name),
                _ => None,
            },
        },
    }
}

/// Resolve a name against the bindings of a single scope.
pub fn resolve_scope_locals(
    kind: NameKind,
    globals: &GlobalScope,
    scope: &Scope,
    vars: bool,
    name: &String,
) -> (r: Option<Res>)
    ensures
        r == spec_resolve_scope_locals(*globals, *scope, vars, kind, name@),
{
    if vars {
        match kind {
            NameKind::Term => {
                match assoc_index(&scope.vars, name) {
                    Some(j) => {
                        return Some(Res::Local(scope.vars[j].1.1));
                    },
                    None => {},
                }
            },
            NameKind::Ty => {
                match assoc_index(&scope.ty_vars, name) {
                    Some(j) => {
                        return Some(Res::Param(scope.ty_vars[j].1));
                    },
                    None => {},
                }
            },
        }
    }
    match scope.item(kind, name) {
        Some(id) => Some(Res::Item(id, ItemStatus::Available)),
        None => {
            match scope.kind {
                ScopeKind::Namespace(ns) => globals.get(kind, ns, name),
                _ => None,
            }
        },
    }
}

/// Look up a namespace relative to the namespace an open points to; an
/// absent qualifier yields the open's namespace itself.
pub open spec fn spec_probe(
    g: GlobalScope,
    ns: NamespaceId,
    kind: NameKind,
    name: Seq<char>,
    qual: Option<Seq<Seq<char>>>,
) -> Option<Res> {
    match qual {
        None => g.spec_get(kind, ns, name),
        Some(q) => match g.namespaces.spec_node_of_id(ns).spec_find(q) {
            Some(ns2) => g.spec_get(kind, ns2, name),
            None => None,
        },
    }
}

/// Search one namespace for the name, honoring the qualifier by a
/// relative namespace lookup under that namespace.
pub fn probe_namespace(
    globals: &GlobalScope,
    ns: NamespaceId,
    kind: NameKind,
    name: &String,
    qual: &Option<Vec<String>>,
) -> (r: Option<Res>)
    requires
        globals.namespaces.wf(),
        globals.namespaces.tree.contains_id(ns.0 as int),
    ensures
        r == spec_probe(*globals, ns, kind, name@, qual_view(*qual)),
{
    match qual {
        None => globals.get(kind, ns, name),
        Some(q) => {
            let (path, node_opt) = globals.namespaces.find_id(ns);
            match node_opt {
                Some(node) => {
                    proof {
                        globals.namespaces.lemma_node_of_id(path_view(path@), ns);
                    }
                    match node.find_namespace(q) {
                        Some(ns2) => globals.get(kind, ns2, name),
                        None => None,
                    }
                },
                None => {
                    proof {
                        assert(false);
                    }
                    None
                },
            }
        },
    }
}

/// The candidates found by probing a list of opens in order.
pub open spec fn spec_open_candidates(
    g: GlobalScope,
    opens: Seq<Open>,
    kind: NameKind,
    name: Seq<char>,
    qual: Option<Seq<Seq<char>>>,
) -> Seq<(Res, Open)>
    decreases opens.len(),
{
    if opens.len() == 0 {
        Seq::empty()
    } else {
        let front = spec_open_candidates(g, opens.drop_last(), kind, name, qual);
        match spec_probe(g, opens.last().namespace, kind, name, qual) {
            Some(res) => cand_insert(front, res, opens.last()),
            None => front,
        }
    }
}

/// Every open in the list points into the namespace tree.
pub open spec fn opens_valid(g: GlobalScope, opens: Seq<Open>) -> bool {
    forall|i: int|
        0 <= i < opens.len() ==> g.namespaces.tree.contains_id(
            (#[trigger] opens[i]).namespace.0 as int,
        )
}

/// Probe a list of opens, collecting candidate resolutions.
pub fn collect_open_candidates(
    globals: &GlobalScope,
    opens: &Vec<Open>,
    kind: NameKind,
    name: &String,
    qual: &Option<Vec<String>>,
) -> (r: Vec<(Res, Open)>)
    requires
        globals.namespaces.wf(),
        opens_valid(*globals, opens@),
    ensures
        r@ == spec_open_candidates(*globals, opens@, kind, name@, qual_view(*qual)),
{
    let mut cands: Vec<(Res, Open)> = Vec::new();
    let n = opens.len();
    let mut i: usize = 0;
    while i < n
        invariant
            n == opens@.len(),
            i <= n,
            globals.namespaces.wf(),
            opens_valid(*globals, opens@),
            cands@ == spec_open_candidates(
                *globals,
                opens@.take(i as int),
                kind,
                name@,
                qual_view(*qual),
            ),
        decreases n - i,
    {
        let ghost pre = opens@.take(i as int + 1);
        proof {
            assert(pre.last() == opens@[i as int]);
            assert(pre.drop_last() =~= opens@.take(i as int));
        }
        let o = opens[i];
        match probe_namespace(globals, o.namespace, kind, name, qual) {
            Some(res) => {
                cand_insert_exec(&mut cands, res, o);
            },
            None => {},
        }
        i += 1;
    }
    proof {
        assert(opens@.take(n as int) =~= opens@);
    }
    cands
}

/// All opens of a scope, flattened in group order.
pub open spec fn spec_all_opens(groups: Seq<(Vec<String>, Vec<Open>)>) -> Seq<Open>
    decreases groups.len(),
{
    if groups.len() == 0 {
        Seq::empty()
    } else {
        spec_all_opens(groups.drop_last()) + groups.last().1@
    }
}

/// Flatten the opens of a scope in group order.
pub fn flatten_opens(groups: &Vec<(Vec<String>, Vec<Open>)>) -> (r: Vec<Open>)
    ensures
        r@ == spec_all_opens(groups@),
{
    let mut out: Vec<Open> = Vec::new();
    let n = groups.len();
    let mut i: usize = 0;
    while i < n
        invariant
            n == groups@.len(),
            i <= n,
            out@ == spec_all_opens(groups@.take(i as int)),
        decreases n - i,
    {
        let ghost pre = groups@.take(i as int + 1);
        proof {
            assert(pre.last() == groups@[i as int]);
            assert(pre.drop_last() =~= groups@.take(i as int));
        }
        let ghost out0 = out@;
        let m = groups[i].1.len();
        let mut j: usize = 0;
        while j < m
            invariant
                i < n == groups@.len(),
                m == groups@[i as int].1@.len(),
                j <= m,
                out@ == out0 + groups@[i as int].1@.take(j as int),
            decreases m - j,
        {
            out.push(groups[i].1[j]);
            proof {
                assert(groups@[i as int].1@.take(j as int + 1) =~= groups@[
                    i as int
                ].1@.take(j as int).push(groups@[i as int].1@[j as int]));
                assert(out@ =~= out0 + groups@[i as int].1@.take(j as int + 1));
            }
            j += 1;
        }
        proof {
            assert(groups@[i as int].1@.take(m as int) =~= groups@[i as int].1@);
            assert(out@ == out0 + groups@[i as int].1@);
        }
        i += 1;
    }
    proof {
        assert(groups@.take(n as int) =~= groups@);
    }
    out
}

/// The open group recorded under the given alias, if any.
pub open spec fn opens_group_find(
    groups: Seq<(Vec<String>, Vec<Open>)>,
    alias: Seq<Seq<char>>,
) -> Option<Seq<Open>>
    decreases groups.len(),
{
    if groups.len() == 0 {
        None
    } else if path_view(groups[0].0@) == alias {
        Some(groups[0].1@)
    } else {
        opens_group_find(groups.skip(1), alias)
    }
}

/// Compare two dotted paths segment by segment.
pub fn str_vec_eq(a: &Vec<String>, b: &Vec<String>) -> (r: bool)
    ensures
        r == (path_view(a@) == path_view(b@)),
{
    if a.len() != b.len() {
        proof {
            assert(path_view(a@).len() != path_view(b@).len());
        }
        return false;
    }
    let n = a.len();
    let mut i: usize = 0;
    while i < n
        invariant
            n == a@.len(),
            n == b@.len(),
            i <= n,
            forall|k: int| 0 <= k < i ==> path_view(a@)[k] == path_view(b@)[k],
        decreases n - i,
    {
        if !(a[i] == b[i]) {
            proof {
                assert(path_view(a@)[i as int] != path_view(b@)[i as int]);
            }
            return false;
        }
        i += 1;
    }
    proof {
        assert(path_view(a@) =~= path_view(b@));
    }
    true
}

/// The index of the open group recorded under the given alias.
pub fn find_opens_group(groups: &Vec<(Vec<String>, Vec<Open>)>, alias: &Vec<String>) -> (r: Option<
    usize,
>)
    ensures
        match r {
            Some(j) => {
                &&& j < groups@.len()
                &&& path_view(groups@[j as int].0@) == path_view(alias@)
                &&& opens_group_find(groups@, path_view(alias@)) == Some(groups@[j as int].1@)
                &&& forall|k: int|
                    0 <= k < j ==> path_view((#[trigger] groups@[k]).0@) != path_view(alias@)
            },
            None => opens_group_find(groups@, path_view(alias@)) is None,
        },
{
    let n = groups.len();
    let mut i: usize = 0;
    proof {
        assert(groups@.skip(0) =~= groups@);
    }
    while i < n
        invariant
            n == groups@.len(),
            i <= n,
            opens_group_find(groups@, path_view(alias@)) == opens_group_find(
                groups@.skip(i as int),
                path_view(alias@),
            ),
            forall|k: int|
                0 <= k < i ==> path_view((#[trigger] groups@[k]).0@) != path_view(alias@),
        decreases n - i,
    {
        proof {
            assert(groups@.skip(i as int)[0] == groups@[i as int]);
            assert(groups@.skip(i as int).skip(1) =~= groups@.skip(i as int + 1));
        }
        if str_vec_eq(&groups[i].0, alias) {
            return Some(i);
        }
        i += 1;
    }
    proof {
        assert(groups@.skip(n as int) =~= Seq::<(Vec<String>, Vec<Open>)>::empty());
    }
    None
}

/// Pushing a new open into the first group with its key changes only
/// that key's group.
pub proof fn lemma_opens_update(groups: Seq<(Vec<String>, Vec<Open>)>, gi: int, g2: Vec<Open>)
    requires
        0 <= gi < groups.len(),
        forall|k: int|
            0 <= k < gi ==> path_view((#[trigger] groups[k]).0@) != path_view(groups[gi].0@),
    ensures
        opens_group_find(
            groups.update(gi, (groups[gi].0, g2)),
            path_view(groups[gi].0@),
        ) == Some(g2@),
        forall|k2: Seq<Seq<char>>|
            k2 != path_view(groups[gi].0@) ==> opens_group_find(
                groups.update(gi, (groups[gi].0, g2)),
                k2,
            ) == opens_group_find(groups, k2),
    decreases gi,
{
    let groups2 = groups.update(gi, (groups[gi].0, g2));
    if gi == 0 {
        assert(groups2[0] == (groups[0].0, g2));
        assert forall|k2: Seq<Seq<char>>|
            k2 != path_view(groups[gi].0@) implies opens_group_find(groups2, k2)
            == opens_group_find(groups, k2) by {
            assert(groups2.skip(1) =~= groups.skip(1));
        }
    } else {
        assert(groups.skip(1)[gi - 1] == groups[gi]);
        assert(groups2.skip(1) =~= groups.skip(1).update(gi - 1, (groups[gi].0, g2)));
        lemma_opens_update(groups.skip(1), gi - 1, g2);
        assert(groups2[0] == groups[0]);
        assert forall|k2: Seq<Seq<char>>|
            k2 != path_view(groups[gi].0@) implies opens_group_find(groups2, k2)
            == opens_group_find(groups, k2) by {
            assert(opens_group_find(groups2.skip(1), k2) == opens_group_find(
                groups.skip(1),
                k2,
            ));
        }
    }
}

/// Appending a group under a fresh key changes only that key.
pub proof fn lemma_opens_push(groups: Seq<(Vec<String>, Vec<Open>)>, e: (Vec<String>, Vec<Open>))
    requires
        opens_group_find(groups, path_view(e.0@)) is None,
    ensures
        opens_group_find(groups.push(e), path_view(e.0@)) == Some(e.1@),
        forall|k2: Seq<Seq<char>>|
            k2 != path_view(e.0@) ==> opens_group_find(groups.push(e), k2) == opens_group_find(
                groups,
                k2,
            ),
    decreases groups.len(),
{
    if groups.len() == 0 {
        assert(groups.push(e)[0] == e);
        assert forall|k2: Seq<Seq<char>>|
            k2 != path_view(e.0@) implies opens_group_find(groups.push(e), k2)
            == opens_group_find(groups, k2) by {
            assert(groups.push(e).skip(1) =~= Seq::<(Vec<String>, Vec<Open>)>::empty());
            assert(opens_group_find(Seq::<(Vec<String>, Vec<Open>)>::empty(), k2) is None);
            assert(opens_group_find(groups, k2) is None);
        }
    } else {
        lemma_opens_push(groups.skip(1), e);
        assert(groups.push(e)[0] == groups[0]);
        assert(groups.push(e).skip(1) =~= groups.skip(1).push(e));
        assert forall|k2: Seq<Seq<char>>|
            k2 != path_view(e.0@) implies opens_group_find(groups.push(e), k2)
            == opens_group_find(groups, k2) by {
            assert(opens_group_find(groups.push(e).skip(1), k2) == opens_group_find(
                groups.skip(1),
                k2,
            ));
        }
    }
}


/// Every open recorded in a scope points into the namespace tree.
pub open spec fn scope_opens_valid(g: GlobalScope, s: Scope) -> bool {
    forall|gi: int, oi: int|
        0 <= gi < s.opens@.len() && 0 <= oi < s.opens@[gi].1@.len()
            ==> g.namespaces.tree.contains_id(
            (#[trigger] s.opens@[gi].1@[oi]).namespace.0 as int,
        )
}

/// Every candidate's open points into the namespace tree.
pub open spec fn cands_valid(g: GlobalScope, s: Seq<(Res, Open)>) -> bool {
    forall|i: int|
        0 <= i < s.len() ==> g.namespaces.tree.contains_id(
            (#[trigger] s[i]).1.namespace.0 as int,
        )
}

pub proof fn lemma_cand_insert_valid(g: GlobalScope, s: Seq<(Res, Open)>, res: Res, o: Open)
    requires
        cands_valid(g, s),
        g.namespaces.tree.contains_id(o.namespace.0 as int),
    ensures
        cands_valid(g, cand_insert(s, res, o)),
    decreases s.len(),
{
    if s.len() == 0 {
    } else if s[0].0 == res {
        assert forall|i: int| 0 <= i < cand_insert(s, res, o).len() implies g.namespaces.tree.contains_id(
            (#[trigger] cand_insert(s, res, o)[i]).1.namespace.0 as int,
        ) by {
            if i == 0 {
            } else {
                assert(cand_insert(s, res, o)[i] == s[i]);
            }
        }
    } else {
        assert forall|k: int| 0 <= k < s.skip(1).len() implies g.namespaces.tree.contains_id(
            (#[trigger] s.skip(1)[k]).1.namespace.0 as int,
        ) by {
            assert(s.skip(1)[k] == s[k + 1]);
        }
        lemma_cand_insert_valid(g, s.skip(1), res, o);
        assert forall|i: int| 0 <= i < cand_insert(s, res, o).len() implies g.namespaces.tree.contains_id(
            (#[trigger] cand_insert(s, res, o)[i]).1.namespace.0 as int,
        ) by {
            if i > 0 {
                assert(cand_insert(s, res, o)[i] == cand_insert(s.skip(1), res, o)[i - 1]);
            }
        }
    }
}

pub proof fn lemma_open_candidates_valid(
    g: GlobalScope,
    opens: Seq<Open>,
    kind: NameKind,
    name: Seq<char>,
    qual: Option<Seq<Seq<char>>>,
)
    requires
        opens_valid(g, opens),
    ensures
        cands_valid(g, spec_open_candidates(g, opens, kind, name, qual)),
    decreases opens.len(),
{
    if opens.len() > 0 {
        assert forall|k: int| 0 <= k < opens.drop_last().len() implies g.namespaces.tree.contains_id(
            (#[trigger] opens.drop_last()[k]).namespace.0 as int,
        ) by {
            assert(opens.drop_last()[k] == opens[k]);
        }
        lemma_open_candidates_valid(g, opens.drop_last(), kind, name, qual);
        match spec_probe(g, opens.last().namespace, kind, name, qual) {
            Some(res) => {
                lemma_cand_insert_valid(
                    g,
                    spec_open_candidates(g, opens.drop_last(), kind, name, qual),
                    res,
                    opens.last(),
                );
            },
            None => {},
        }
    }
}

pub proof fn lemma_filter_unimpl_valid(g: GlobalScope, s: Seq<(Res, Open)>)
    requires
        cands_valid(g, s),
    ensures
        cands_valid(g, filter_unimpl(s)),
    decreases s.len(),
{
    if s.len() > 0 {
        assert forall|k: int| 0 <= k < s.drop_last().len() implies g.namespaces.tree.contains_id(
            (#[trigger] s.drop_last()[k]).1.namespace.0 as int,
        ) by {
            assert(s.drop_last()[k] == s[k]);
        }
        lemma_filter_unimpl_valid(g, s.drop_last());
    }
}

/// Drop the unimplemented candidates.
pub fn filter_unimpl_exec(s: Vec<(Res, Open)>) -> (r: Vec<(Res, Open)>)
    ensures
        r@ == filter_unimpl(s@),
{
    let mut out: Vec<(Res, Open)> = Vec::new();
    let n = s.len();
    let mut i: usize = 0;
    while i < n
        invariant
            n == s@.len(),
            i <= n,
            out@ == filter_unimpl(s@.take(i as int)),
        decreases n - i,
    {
        let ghost pre = s@.take(i as int + 1);
        proof {
            assert(pre.last() == s@[i as int]);
            assert(pre.drop_last() =~= s@.take(i as int));
        }
        let keep = match s[i].0 {
            Res::Item(_, ItemStatus::Unimplemented) => false,
            _ => true,
        };
        if keep {
            out.push(s[i]);
        }
        i += 1;
    }
    proof {
        assert(s@.take(n as int) =~= s@);
    }
    out
}

/// The ambiguity error for a set of conflicting candidates: it names
/// the two earliest opens by source span.
pub open spec fn spec_ambig(
    g: GlobalScope,
    name: Seq<char>,
    name_span: Span,
    cands: Seq<(Res, Open)>,
) -> SpecResolved {
    let pair = spec_two_earliest(cands);
    SpecResolved::Ambig {
        name,
        first_open: join_dot(g.namespaces.spec_path_of_id(pair.0.namespace)),
        second_open: join_dot(g.namespaces.spec_path_of_id(pair.1.namespace)),
        name_span,
        first_open_span: pair.0.span,
        second_open_span: pair.1.span,
    }
}

/// Report a name reachable through several opens: the two earliest
/// opens by span are named, any further ones are not.
pub fn ambiguous_symbol_error(
    globals: &GlobalScope,
    provided_symbol_name: &Ident,
    candidates: Vec<(Res, Open)>,
) -> (r: Result<Res, Error>)
    requires
        globals.namespaces.wf(),
        candidates@.len() >= 2,
        cands_valid(*globals, candidates@),
    ensures
        resolution_matches(
            r,
            spec_ambig(
                *globals,
                provided_symbol_name.name@,
                provided_symbol_name.span,
                candidates@,
            ),
        ),
{
    let ghost cands0 = candidates@;
    let i = find_min_span(&candidates);
    let first = candidates[i].1;
    let mut rest = candidates;
    let _ = rest.remove(i);
    proof {
        assert(rest@ == cands0.remove(i as int));
        assert(rest@.len() >= 1);
        lemma_idx_min_span_in_range(rest@);
        assert forall|k: int| 0 <= k < rest@.len() implies globals.namespaces.tree.contains_id(
            (#[trigger] rest@[k]).1.namespace.0 as int,
        ) by {
            if k < i {
                assert(rest@[k] == cands0[k]);
            } else {
                assert(rest@[k] == cands0[k + 1]);
            }
        }
    }
    let i2 = find_min_span(&rest);
    let second = rest[i2].1;
    let (p1, n1) = globals.namespaces.find_id(first.namespace);
    let first_open = match n1 {
        Some(_) => join_dot_exec(&p1),
        None => {
            proof {
                assert(false);
            }
            String::new()
        },
    };
    proof {
        globals.namespaces.lemma_node_of_id(path_view(p1@), first.namespace);
    }
    let (p2, n2) = globals.namespaces.find_id(second.namespace);
    let second_open = match n2 {
        Some(_) => join_dot_exec(&p2),
        None => {
            proof {
                assert(false);
            }
            String::new()
        },
    };
    proof {
        globals.namespaces.lemma_node_of_id(path_view(p2@), second.namespace);
    }
    Err(
        Error::Ambiguous {
            name: clone_string(&provided_symbol_name.name),
            first_open,
            second_open,
            name_span: provided_symbol_name.span,
            first_open_span: first.span,
            second_open_span: second.span,
        },
    )
}

/// What one scope decides about a name: a local hit, a unique open
/// candidate, an ambiguity, or nothing (fall through to the next
/// scope). When the qualifier names an alias recorded in this scope,
/// only the opens under that alias are searched, directly; otherwise
/// all opens of the scope are searched, and with several candidates
/// the unimplemented ones are discarded first.
pub open spec fn spec_scope_outcome(
    g: GlobalScope,
    s: Scope,
    vars: bool,
    kind: NameKind,
    name: Seq<char>,
    name_span: Span,
    qual: Option<Seq<Seq<char>>>,
) -> Option<SpecResolved> {
    let local_hit = if qual is None {
        spec_resolve_scope_locals(g, s, vars, kind, name)
    } else {
        None
    };
    match local_hit {
        Some(res) => Some(SpecResolved::Found(res)),
        None => {
            let alias_cands = match qual {
                Some(q) => match opens_group_find(s.opens@, q) {
                    Some(os) => spec_open_candidates(g, os, kind, name, None),
                    None => Seq::empty(),
                },
                None => Seq::empty(),
            };
            let cands = if alias_cands.len() > 0 {
                alias_cands
            } else {
                finalize_candidates(spec_open_candidates(g, spec_all_opens(s.opens@), kind, name, qual))
            };
            if cands.len() == 1 {
                Some(SpecResolved::Found(cands[0].0))
            } else if cands.len() > 1 {
                Some(spec_ambig(g, name, name_span, cands))
            } else {
                None
            }
        },
    }
}

/// Check one scope for a resolution. Returns `None` to continue with
/// the enclosing scope; crossing a callable scope then hides local
/// variables from all further scopes.
pub fn check_scoped_resolutions(
    kind: NameKind,
    globals: &GlobalScope,
    provided_symbol_name: &Ident,
    qual: &Option<Vec<String>>,
    vars: &mut bool,
    scope: &Scope,
) -> (r: Option<Result<Res, Error>>)
    requires
        globals.namespaces.wf(),
        scope_opens_valid(*globals, *scope),
    ensures
        outcome_matches(
            r,
            spec_scope_outcome(
                *globals,
                *scope,
                *old(vars),
                kind,
                provided_symbol_name.name@,
                provided_symbol_name.span,
                qual_view(*qual),
            ),
        ),
        r is Some ==> *final(vars) == *old(vars),
        r is None ==> *final(vars) == (*old(vars) && !(scope.kind is Callable)),
{
    if qual.is_none() {
        match resolve_scope_locals(kind, globals, scope, *vars, &provided_symbol_name.name) {
            Some(res) => {
                return Some(Ok(res));
            },
            None => {},
        }
    }
    let mut cands: Vec<(Res, Open)> = Vec::new();
    let mut have_alias = false;
    match qual {
        Some(q) => {
            match find_opens_group(&scope.opens, q) {
                Some(gi) => {
                    proof {
                        assert forall|oi: int|
                            0 <= oi < scope.opens@[gi as int].1@.len()
                                implies globals.namespaces.tree.contains_id(
                            (#[trigger] scope.opens@[gi as int].1@[oi]).namespace.0 as int,
                        ) by {}
                    }
                    let none_qual: Option<Vec<String>> = None;
                    cands = collect_open_candidates(
                        globals,
                        &scope.opens[gi].1,
                        kind,
                        &provided_symbol_name.name,
                        &none_qual,
                    );
                    if cands.len() > 0 {
                        have_alias = true;
                    }
                },
                None => {},
            }
        },
        None => {},
    }
    if !have_alias {
        let all = flatten_opens(&scope.opens);
        proof {
            lemma_all_opens_valid(*globals, *scope);
        }
        let raw = collect_open_candidates(
            globals,
            &all,
            kind,
            &provided_symbol_name.name,
            qual,
        );
        if raw.len() > 1 {
            cands = filter_unimpl_exec(raw);
        } else {
            cands = raw;
        }
    }
    if cands.len() == 1 {
        Some(Ok(cands[0].0))
    } else if cands.len() >= 2 {
        proof {
            match qual_view(*qual) {
                Some(q) => {
                    match opens_group_find(scope.opens@, q) {
                        Some(os) => {
                            assert forall|k: int| 0 <= k < os.len()
                                implies globals.namespaces.tree.contains_id(
                                (#[trigger] os[k]).namespace.0 as int,
                            ) by {}
                            lemma_open_candidates_valid(*globals, os, kind, provided_symbol_name.name@, None);
                        },
                        None => {},
                    }
                },
                None => {},
            }
            lemma_all_opens_valid(*globals, *scope);
            lemma_open_candidates_valid(
                *globals,
                spec_all_opens(scope.opens@),
                kind,
                provided_symbol_name.name@,
                qual_view(*qual),
            );
            lemma_filter_unimpl_valid(
                *globals,
                spec_open_candidates(
                    *globals,
                    spec_all_opens(scope.opens@),
                    kind,
                    provided_symbol_name.name@,
                    qual_view(*qual),
                ),
            );
        }
        Some(ambiguous_symbol_error(globals, provided_symbol_name, cands))
    } else {
        if matches!(scope.kind, ScopeKind::Callable) {
            *vars = false;
        }
        None
    }
}

/// The opens of a whole scope are valid when each group's are.
pub proof fn lemma_all_opens_valid(g: GlobalScope, s: Scope)
    requires
        scope_opens_valid(g, s),
    ensures
        opens_valid(g, spec_all_opens(s.opens@)),
{
    lemma_all_opens_valid_upto(g, s, s.opens@.len() as int);
    assert(s.opens@.take(s.opens@.len() as int) =~= s.opens@);
}

proof fn lemma_all_opens_valid_upto(g: GlobalScope, s: Scope, n: int)
    requires
        scope_opens_valid(g, s),
        0 <= n <= s.opens@.len(),
    ensures
        opens_valid(g, spec_all_opens(s.opens@.take(n))),
    decreases n,
{
    if n > 0 {
        lemma_all_opens_valid_upto(g, s, n - 1);
        let pre = s.opens@.take(n);
        assert(pre.last() == s.opens@[n - 1]);
        assert(pre.drop_last() =~= s.opens@.take(n - 1));
        let flat = spec_all_opens(pre);
        assert forall|i: int| 0 <= i < flat.len() implies g.namespaces.tree.contains_id(
            (#[trigger] flat[i]).namespace.0 as int,
        ) by {
            let front = spec_all_opens(s.opens@.take(n - 1));
            if i < front.len() {
                assert(flat[i] == front[i]);
            } else {
                assert(flat[i] == s.opens@[n - 1].1@[i - front.len()]);
            }
        }
    }
}


/// The active scope chain as a sequence, innermost scope first.
pub open spec fn chain_scopes(locals: Locals, chain: Seq<ScopeId>) -> Seq<Scope> {
    Seq::new(chain.len(), |t: int| locals.scopes@[chain[chain.len() - 1 - t] as int])
}

/// Every index of the chain names a scope.
pub open spec fn chain_valid(locals: Locals, chain: Seq<ScopeId>) -> bool {
    forall|i: int| 0 <= i < chain.len() ==> (#[trigger] chain[i]) < locals.scopes@.len()
}

/// Every scope ever created has valid opens.
pub open spec fn locals_opens_valid(g: GlobalScope, locals: Locals) -> bool {
    forall|i: int|
        0 <= i < locals.scopes@.len() ==> scope_opens_valid(g, #[trigger] locals.scopes@[i])
}

/// What the scope chain decides, checking scopes innermost first and
/// hiding variables past a callable boundary.
pub open spec fn spec_check_scopes(
    g: GlobalScope,
    scopes: Seq<Scope>,
    kind: NameKind,
    name: Seq<char>,
    name_span: Span,
    qual: Option<Seq<Seq<char>>>,
    vars: bool,
) -> Option<SpecResolved>
    decreases scopes.len(),
{
    if scopes.len() == 0 {
        None
    } else {
        match spec_scope_outcome(g, scopes[0], vars, kind, name, name_span, qual) {
            Some(out) => Some(out),
            None => spec_check_scopes(
                g,
                scopes.skip(1),
                kind,
                name,
                name_span,
                qual,
                vars && !(scopes[0].kind is Callable),
            ),
        }
    }
}

/// Check every active scope, innermost first, for a resolution.
pub fn check_all_scopes(
    kind: NameKind,
    globals: &GlobalScope,
    provided_symbol_name: &Ident,
    qual: &Option<Vec<String>>,
    locals: &Locals,
    chain: &Vec<ScopeId>,
) -> (r: Option<Result<Res, Error>>)
    requires
        globals.namespaces.wf(),
        chain_valid(*locals, chain@),
        locals_opens_valid(*globals, *locals),
    ensures
        outcome_matches(
            r,
            spec_check_scopes(
                *globals,
                chain_scopes(*locals, chain@),
                kind,
                provided_symbol_name.name@,
                provided_symbol_name.span,
                qual_view(*qual),
                true,
            ),
        ),
{
    let ghost scopes = chain_scopes(*locals, chain@);
    let mut vars = true;
    let n = chain.len();
    let mut t: usize = 0;
    proof {
        assert(scopes.skip(0) =~= scopes);
    }
    while t < n
        invariant
            n == chain@.len(),
            t <= n,
            globals.namespaces.wf(),
            chain_valid(*locals, chain@),
            locals_opens_valid(*globals, *locals),
            scopes == chain_scopes(*locals, chain@),
            spec_check_scopes(
                *globals,
                scopes,
                kind,
                provided_symbol_name.name@,
                provided_symbol_name.span,
                qual_view(*qual),
                true,
            ) == spec_check_scopes(
                *globals,
                scopes.skip(t as int),
                kind,
                provided_symbol_name.name@,
                provided_symbol_name.span,
                qual_view(*qual),
                vars,
            ),
        decreases n - t,
    {
        let idx = chain[n - 1 - t];
        proof {
            assert(chain@[n - 1 - t as int] < locals.scopes@.len());
            assert(scopes.skip(t as int)[0] == scopes[t as int]);
            assert(scopes[t as int] == locals.scopes@[chain@[n - 1 - t as int] as int]);
            assert(scopes.skip(t as int).skip(1) =~= scopes.skip(t as int + 1));
            assert(scope_opens_valid(*globals, locals.scopes@[chain@[n - 1 - t as int] as int]));
        }
        let scope = &locals.scopes[idx];
        match check_scoped_resolutions(kind, globals, provided_symbol_name, qual, &mut vars, scope)
        {
            Some(out) => {
                return Some(out);
            },
            None => {},
        }
        t += 1;
    }
    proof {
        assert(scopes.skip(n as int) =~= Seq::<Scope>::empty());
    }
    None
}

/// The prelude: namespace paths implicitly opened everywhere, listed
/// in lexicographic order.
pub open spec fn spec_prelude() -> Seq<Seq<Seq<char>>> {
    seq![
        seq!["Microsoft"@, "Quantum"@, "Canon"@],
        seq!["Microsoft"@, "Quantum"@, "Core"@],
        seq!["Microsoft"@, "Quantum"@, "Intrinsic"@],
        seq!["Microsoft"@, "Quantum"@, "Measurement"@],
    ]
}

/// The prelude namespaces present in the tree, with their dotted
/// names, in prelude order.
pub open spec fn prelude_ns_upto(g: GlobalScope, i: int) -> Seq<(Seq<char>, NamespaceId)>
    decreases i,
{
    if i <= 0 {
        Seq::empty()
    } else {
        let front = prelude_ns_upto(g, i - 1);
        match g.namespaces.spec_find(spec_prelude()[i - 1]) {
            Some(ns) => front.push((join_dot(spec_prelude()[i - 1]), ns)),
            None => front,
        }
    }
}

pub open spec fn spec_prelude_namespaces(g: GlobalScope) -> Seq<(Seq<char>, NamespaceId)> {
    prelude_ns_upto(g, 4)
}

/// The views of a list of named namespaces.
pub open spec fn pns_view(s: Seq<(String, NamespaceId)>) -> Seq<(Seq<char>, NamespaceId)> {
    s.map_values(|e: (String, NamespaceId)| (e.0@, e.1))
}

pub proof fn lemma_pns_view_push(s: Seq<(String, NamespaceId)>, e: (String, NamespaceId))
    ensures
        pns_view(s.push(e)) == pns_view(s).push((e.0@, e.1)),
{
    assert forall|ii: int| 0 <= ii < s.len() + 1 implies pns_view(s.push(e))[ii] == pns_view(
        s,
    ).push((e.0@, e.1))[ii] by {
        assert(pns_view(s.push(e))[ii] == (s.push(e)[ii].0@, s.push(e)[ii].1));
        if ii < s.len() {
            assert(pns_view(s)[ii] == (s[ii].0@, s[ii].1));
        }
    }
    assert(pns_view(s.push(e)) =~= pns_view(s).push((e.0@, e.1)));
}

/// Build a three-segment dotted path.
fn make_path3(a: &str, b: &str, c: &str) -> (r: Vec<String>)
    ensures
        path_view(r@) == seq![a@, b@, c@],
{
    let mut v: Vec<String> = Vec::new();
    v.push(a.to_owned());
    v.push(b.to_owned());
    v.push(c.to_owned());
    proof {
        assert(path_view(v@) =~= seq![a@, b@, c@]);
    }
    v
}

/// The name and namespace ID of each prelude namespace that exists in
/// the namespace tree, in prelude order.
pub fn prelude_namespaces(globals: &GlobalScope) -> (r: Vec<(String, NamespaceId)>)
    requires
        globals.namespaces.wf(),
    ensures
        pns_view(r@) == spec_prelude_namespaces(*globals),
{
    let mut out: Vec<(String, NamespaceId)> = Vec::new();
    proof {
        assert(pns_view(out@) =~= prelude_ns_upto(*globals, 0));
    }
    let p1 = make_path3("Microsoft", "Quantum", "Canon");
    proof {
        assert(path_view(p1@) =~= spec_prelude()[0]);
    }
    match globals.find_namespace(&p1) {
        Some(ns) => {
            let ghost prev = out@;
            let nm = join_dot_exec(&p1);
            proof {
                lemma_pns_view_push(prev, (nm, ns));
            }
            out.push((nm, ns));
            proof {
                assert(pns_view(out@) == pns_view(prev).push((join_dot(spec_prelude()[0]), ns)));
            }
        },
        None => {},
    }
    proof {
        assert(pns_view(out@) == prelude_ns_upto(*globals, 1));
    }
    let p2 = make_path3("Microsoft", "Quantum", "Core");
    proof {
        assert(path_view(p2@) =~= spec_prelude()[1]);
    }
    match globals.find_namespace(&p2) {
        Some(ns) => {
            let ghost prev = out@;
            let nm = join_dot_exec(&p2);
            proof {
                lemma_pns_view_push(prev, (nm, ns));
            }
            out.push((nm, ns));
            proof {
                assert(pns_view(out@) == pns_view(prev).push((join_dot(spec_prelude()[1]), ns)));
            }
        },
        None => {},
    }
    proof {
        assert(pns_view(out@) == prelude_ns_upto(*globals, 2));
    }
    let p3 = make_path3("Microsoft", "Quantum", "Intrinsic");
    proof {
        assert(path_view(p3@) =~= spec_prelude()[2]);
    }
    match globals.find_namespace(&p3) {
        Some(ns) => {
            let ghost prev = out@;
            let nm = join_dot_exec(&p3);
            proof {
                lemma_pns_view_push(prev, (nm, ns));
            }
            out.push((nm, ns));
            proof {
                assert(pns_view(out@) == pns_view(prev).push((join_dot(spec_prelude()[2]), ns)));
            }
        },
        None => {},
    }
    proof {
        assert(pns_view(out@) == prelude_ns_upto(*globals, 3));
    }
    let p4 = make_path3("Microsoft", "Quantum", "Measurement");
    proof {
        assert(path_view(p4@) =~= spec_prelude()[3]);
    }
    match globals.find_namespace(&p4) {
        Some(ns) => {
            let ghost prev = out@;
            let nm = join_dot_exec(&p4);
            proof {
                lemma_pns_view_push(prev, (nm, ns));
            }
            out.push((nm, ns));
            proof {
                assert(pns_view(out@) == pns_view(prev).push((join_dot(spec_prelude()[3]), ns)));
            }
        },
        None => {},
    }
    proof {
        assert(pns_view(out@) == prelude_ns_upto(*globals, 4));
    }
    out
}

/// The prelude candidates for a name: each present prelude namespace
/// is searched like an open, without any qualifier.
pub open spec fn prelude_cands_from(
    g: GlobalScope,
    kind: NameKind,
    name: Seq<char>,
    pns: Seq<(Seq<char>, NamespaceId)>,
) -> Seq<(Res, Seq<char>)>
    decreases pns.len(),
{
    if pns.len() == 0 {
        Seq::empty()
    } else {
        let front = prelude_cands_from(g, kind, name, pns.drop_last());
        match g.spec_get(kind, pns.last().1, name) {
            Some(res) => cand_insert(front, res, pns.last().0),
            None => front,
        }
    }
}

pub open spec fn spec_prelude_candidates(g: GlobalScope, kind: NameKind, name: Seq<char>) -> Seq<
    (Res, Seq<char>),
> {
    prelude_cands_from(g, kind, name, spec_prelude_namespaces(g))
}

/// The views of a list of named candidates.
pub open spec fn rcands_view(s: Seq<(Res, String)>) -> Seq<(Res, Seq<char>)> {
    s.map_values(|e: (Res, String)| (e.0, e.1@))
}

/// Record a named candidate.
fn rcand_insert_exec(s: &mut Vec<(Res, String)>, res: Res, v: String)
    ensures
        rcands_view(final(s)@) == cand_insert(rcands_view(old(s)@), res, v@),
{
    let n = s.len();
    let mut j: usize = 0;
    while j < n
        invariant
            n == s@.len(),
            j <= n,
            s@ == old(s)@,
            forall|k: int| 0 <= k < j ==> s@[k].0 != res,
        decreases n - j,
    {
        if s[j].0 == res {
            proof {
                assert forall|k: int| 0 <= k < j implies rcands_view(s@)[k].0 != res by {
                    assert(rcands_view(s@)[k] == (s@[k].0, s@[k].1@));
                }
                assert(rcands_view(s@)[j as int] == (s@[j as int].0, s@[j as int].1@));
                lemma_cand_insert_found(rcands_view(s@), res, v@, j as int);
            }
            s[j] = (res, v);
            proof {
                assert(rcands_view(s@) =~= cand_insert(rcands_view(old(s)@), res, v@));
            }
            return;
        }
        j += 1;
    }
    proof {
        assert forall|k: int| 0 <= k < rcands_view(s@).len() implies rcands_view(s@)[k].0
            != res by {
            assert(rcands_view(s@)[k] == (s@[k].0, s@[k].1@));
        }
        lemma_cand_insert_missing(rcands_view(s@), res, v@);
    }
    s.push((res, v));
    proof {
        assert(rcands_view(s@) =~= cand_insert(rcands_view(old(s)@), res, v@));
    }
}

/// The element of a list with exactly one, and nothing otherwise.
pub fn single<T>(mut xs: Vec<T>) -> (r: Option<T>)
    ensures
        match r {
            Some(x) => xs@.len() == 1 && x == xs@[0],
            None => xs@.len() != 1,
        },
{
    if xs.len() == 1 {
        xs.pop()
    } else {
        None
    }
}

/// The outcome of the whole resolution cascade: local scopes, then
/// (for unqualified names) the prelude, then the root namespace, and
/// otherwise a missing-name outcome.
pub open spec fn spec_resolve(
    g: GlobalScope,
    scopes: Seq<Scope>,
    kind: NameKind,
    name: Seq<char>,
    name_span: Span,
    qual: Option<Seq<Seq<char>>>,
) -> SpecResolved {
    match spec_check_scopes(g, scopes, kind, name, name_span, qual, true) {
        Some(out) => out,
        None => {
            let pc = finalize_candidates(spec_prelude_candidates(g, kind, name));
            if qual is None && pc.len() > 1 {
                SpecResolved::AmbigPrelude {
                    name,
                    candidate_a: pc[0].1,
                    candidate_b: pc[1].1,
                    span: name_span,
                }
            } else if qual is None && pc.len() == 1 {
                SpecResolved::Found(pc[0].0)
            } else {
                match spec_probe(g, g.namespaces.tree.id, kind, name, qual) {
                    Some(res) => SpecResolved::Found(res),
                    None => SpecResolved::Missing(name, name_span),
                }
            }
        },
    }
}

/// Resolve a name against the scope chain and the global tables,
/// following the shadowing rules: local scopes first (local bindings
/// shadow items, which shadow opens), then the prelude, then the root
/// namespace.
pub fn resolve(
    kind: NameKind,
    globals: &GlobalScope,
    locals: &Locals,
    chain: &Vec<ScopeId>,
    provided_symbol_name: &Ident,
    provided_namespace_name: &Option<Vec<String>>,
) -> (r: Result<Res, Error>)
    requires
        globals.namespaces.wf(),
        chain_valid(*locals, chain@),
        locals_opens_valid(*globals, *locals),
    ensures
        resolution_matches(
            r,
            spec_resolve(
                *globals,
                chain_scopes(*locals, chain@),
                kind,
                provided_symbol_name.name@,
                provided_symbol_name.span,
                qual_view(*provided_namespace_name),
            ),
        ),
{
    match check_all_scopes(
        kind,
        globals,
        provided_symbol_name,
        provided_namespace_name,
        locals,
        chain,
    ) {
        Some(out) => {
            return out;
        },
        None => {},
    }
    if provided_namespace_name.is_none() {
        let pns = prelude_namespaces(globals);
        let mut pc: Vec<(Res, String)> = Vec::new();
        let n = pns.len();
        let mut i: usize = 0;
        while i < n
            invariant
                n == pns@.len(),
                i <= n,
                rcands_view(pc@) == prelude_cands_from(
                    *globals,
                    kind,
                    provided_symbol_name.name@,
                    pns_view(pns@).take(i as int),
                ),
            decreases n - i,
        {
            let ghost pre = pns_view(pns@).take(i as int + 1);
            proof {
                assert(pre.last() == pns_view(pns@)[i as int]);
                assert(pns_view(pns@)[i as int] == (pns@[i as int].0@, pns@[i as int].1));
                assert(pre.drop_last() =~= pns_view(pns@).take(i as int));
            }
            match globals.get(kind, pns[i].1, &provided_symbol_name.name) {
                Some(res) => {
                    rcand_insert_exec(&mut pc, res, clone_string(&pns[i].0));
                },
                None => {},
            }
            i += 1;
        }
        proof {
            assert(pns_view(pns@).take(n as int) =~= pns_view(pns@));
        }
        let pc = if pc.len() > 1 {
            let f = prelude_filter_unimpl(pc);
            f
        } else {
            pc
        };
        if pc.len() > 1 {
            return Err(
                Error::AmbiguousPrelude {
                    span: provided_symbol_name.span,
                    name: clone_string(&provided_symbol_name.name),
                    candidate_a: clone_string(&pc[0].1),
                    candidate_b: clone_string(&pc[1].1),
                },
            );
        }
        if pc.len() == 1 {
            return Ok(pc[0].0);
        }
    }
    proof {
        assert(globals.namespaces.tree.contains_id(globals.namespaces.tree.id.0 as int));
    }
    match probe_namespace(
        globals,
        NamespaceId(globals.namespaces.tree.id.0),
        kind,
        &provided_symbol_name.name,
        provided_namespace_name,
    ) {
        Some(res) => Ok(res),
        None => Err(
            Error::NotFound(
                clone_string(&provided_symbol_name.name),
                provided_symbol_name.span,
            ),
        ),
    }
}

/// Drop the unimplemented candidates from a named candidate list.
fn prelude_filter_unimpl(s: Vec<(Res, String)>) -> (r: Vec<(Res, String)>)
    ensures
        rcands_view(r@) == filter_unimpl(rcands_view(s@)),
{
    let mut out: Vec<(Res, String)> = Vec::new();
    let n = s.len();
    let mut i: usize = 0;
    proof {
        assert(rcands_view(s@).take(0) =~= Seq::<(Res, Seq<char>)>::empty());
    }
    while i < n
        invariant
            n == s@.len(),
            i <= n,
            rcands_view(out@) == filter_unimpl(rcands_view(s@).take(i as int)),
        decreases n - i,
    {
        let ghost pre = rcands_view(s@).take(i as int + 1);
        proof {
            assert(pre.last() == rcands_view(s@)[i as int]);
            assert(rcands_view(s@)[i as int] == (s@[i as int].0, s@[i as int].1@));
            assert(pre.drop_last() =~= rcands_view(s@).take(i as int));
        }
        let keep = match s[i].0 {
            Res::Item(_, ItemStatus::Unimplemented) => false,
            _ => true,
        };
        if keep {
            let ghost out0 = out@;
            out.push((s[i].0, clone_string(&s[i].1)));
            proof {
                assert(rcands_view(out@) =~= rcands_view(out0).push(
                    (s@[i as int].0, s@[i as int].1@),
                ));
            }
        }
        i += 1;
    }
    proof {
        assert(rcands_view(s@).take(n as int) =~= rcands_view(s@));
    }
    out
}


/// Compare a string against a borrowed string slice.
pub fn string_eq_str(a: &String, b: &str) -> (r: bool)
    ensures
        r == (a@ == b@),
{
    let owned = b.to_owned();
    *a == owned
}

/// The first match in a node-keyed association list.
pub open spec fn nodes_find(s: Seq<(NodeId, Res)>, id: NodeId) -> Option<Res>
    decreases s.len(),
{
    if s.len() == 0 {
        None
    } else if s[0].0 == id {
        Some(s[0].1)
    } else {
        nodes_find(s.skip(1), id)
    }
}

/// Replacing or adding a node binding changes only that node.
pub open spec fn nodes_insert(s: Seq<(NodeId, Res)>, id: NodeId, res: Res) -> Seq<(NodeId, Res)>
    decreases s.len(),
{
    if s.len() == 0 {
        seq![(id, res)]
    } else if s[0].0 == id {
        seq![(id, res)] + s.skip(1)
    } else {
        seq![s[0]] + nodes_insert(s.skip(1), id, res)
    }
}

pub proof fn lemma_nodes_insert_found(s: Seq<(NodeId, Res)>, id: NodeId, res: Res, j: int)
    requires
        0 <= j < s.len(),
        s[j].0 == id,
        forall|k: int| 0 <= k < j ==> s[k].0 != id,
    ensures
        nodes_insert(s, id, res) == s.update(j, (id, res)),
    decreases j,
{
    if j == 0 {
        assert(nodes_insert(s, id, res) =~= s.update(0, (id, res)));
    } else {
        lemma_nodes_insert_found(s.skip(1), id, res, j - 1);
        assert(s.skip(1)[j - 1] == s[j]);
        assert(seq![s[0]] + s.skip(1).update(j - 1, (id, res)) =~= s.update(j, (id, res)));
    }
}

pub proof fn lemma_nodes_insert_missing(s: Seq<(NodeId, Res)>, id: NodeId, res: Res)
    requires
        forall|k: int| 0 <= k < s.len() ==> s[k].0 != id,
    ensures
        nodes_insert(s, id, res) == s.push((id, res)),
    decreases s.len(),
{
    if s.len() == 0 {
        assert(nodes_insert(s, id, res) =~= s.push((id, res)));
    } else {
        lemma_nodes_insert_missing(s.skip(1), id, res);
        assert(seq![s[0]] + s.skip(1).push((id, res)) =~= s.push((id, res)));
    }
}

/// The resolutions recorded for the nodes of the syntax tree. A later
/// insert for the same node replaces the earlier resolution.
#[derive(Debug)]
pub struct Names {
    pub entries: Vec<(NodeId, Res)>,
}

impl Names {
    pub open spec fn spec_get(self, id: NodeId) -> Option<Res> {
        nodes_find(self.entries@, id)
    }

    pub fn new() -> (r: Self)
        ensures
            r.entries@.len() == 0,
    {
        Names { entries: Vec::new() }
    }

    /// The resolution recorded for a node, if any.
    pub fn get(&self, id: NodeId) -> (r: Option<Res>)
        ensures
            r == self.spec_get(id),
    {
        let n = self.entries.len();
        let mut j: usize = 0;
        proof {
            assert(self.entries@.skip(0) =~= self.entries@);
        }
        while j < n
            invariant
                n == self.entries@.len(),
                j <= n,
                nodes_find(self.entries@, id) == nodes_find(self.entries@.skip(j as int), id),
            decreases n - j,
        {
            proof {
                assert(self.entries@.skip(j as int)[0] == self.entries@[j as int]);
                assert(self.entries@.skip(j as int).skip(1) =~= self.entries@.skip(j as int + 1));
            }
            if self.entries[j].0 == id {
                return Some(self.entries[j].1);
            }
            j += 1;
        }
        proof {
            assert(self.entries@.skip(n as int) =~= Seq::<(NodeId, Res)>::empty());
        }
        None
    }

    /// Record the resolution of a node.
    pub fn insert(&mut self, id: NodeId, res: Res)
        ensures
            final(self).entries@ == nodes_insert(old(self).entries@, id, res),
    {
        let n = self.entries.len();
        let mut j: usize = 0;
        while j < n
            invariant
                n == self.entries@.len(),
                j <= n,
                self.entries@ == old(self).entries@,
                forall|k: int| 0 <= k < j ==> self.entries@[k].0 != id,
            decreases n - j,
        {
            if self.entries[j].0 == id {
                proof {
                    lemma_nodes_insert_found(self.entries@, id, res, j as int);
                }
                self.entries[j] = (id, res);
                return;
            }
            j += 1;
        }
        proof {
            lemma_nodes_insert_missing(self.entries@, id, res);
        }
        self.entries.push((id, res));
    }
}

/// A declaration that existed in an earlier compilation and was
/// removed: its name and the namespace it lived in.
#[derive(Debug)]
pub struct TrackedName {
    pub name: String,
    pub namespace: Vec<String>,
}

/// The first tracked name matching a plain name.
pub open spec fn dropped_find(s: Seq<TrackedName>, name: Seq<char>) -> Option<TrackedName>
    decreases s.len(),
{
    if s.len() == 0 {
        None
    } else if s[0].name@ == name {
        Some(s[0])
    } else {
        dropped_find(s.skip(1), name)
    }
}

/// Allocates the next durable item ID. The counter saturates at the
/// machine limit rather than wrapping.
#[derive(Debug)]
pub struct Assigner {
    pub next: LocalItemId,
}

impl Assigner {
    pub fn new() -> (r: Self)
        ensures
            r.next == 0,
    {
        Assigner { next: 0 }
    }

    /// Hand out the next item ID.
    pub fn next_item(&mut self) -> (r: LocalItemId)
        ensures
            r == old(self).next,
            final(self).next == if old(self).next < usize::MAX {
                old(self).next + 1
            } else {
                old(self).next as int
            },
    {
        let id = self.next;
        if self.next < usize::MAX {
            self.next = self.next + 1;
        }
        id
    }
}

/// An `ItemId` for an item local to the package being compiled.
pub fn intrapackage(item: LocalItemId) -> (r: ItemId)
    ensures
        r == (ItemId { package: None, item }),
{
    ItemId { package: None, item }
}

/// An attribute understood by the compiler.
#[derive(Clone, Copy, Debug, PartialEq, Eq, Structural)]
pub enum HirAttr {
    /// Arguments of this attribute are not resolved.
    Config,
    EntryPoint,
    Measurement,
    Reset,
    Unimplemented,
}

impl HirAttr {
    /// Which spelling names which attribute.
    pub open spec fn spec_from_str(s: Seq<char>) -> Option<HirAttr> {
        if s == "Config"@ {
            Some(HirAttr::Config)
        } else if s == "EntryPoint"@ {
            Some(HirAttr::EntryPoint)
        } else if s == "Measurement"@ {
            Some(HirAttr::Measurement)
        } else if s == "Reset"@ {
            Some(HirAttr::Reset)
        } else if s == "Unimplemented"@ {
            Some(HirAttr::Unimplemented)
        } else {
            None
        }
    }

    /// Parse an attribute name.
    pub fn from_str(s: &String) -> (r: Option<HirAttr>)
        ensures
            r == HirAttr::spec_from_str(s@),
    {
        if string_eq_str(s, "Config") {
            Some(HirAttr::Config)
        } else if string_eq_str(s, "EntryPoint") {
            Some(HirAttr::EntryPoint)
        } else if string_eq_str(s, "Measurement") {
            Some(HirAttr::Measurement)
        } else if string_eq_str(s, "Reset") {
            Some(HirAttr::Reset)
        } else if string_eq_str(s, "Unimplemented") {
            Some(HirAttr::Unimplemented)
        } else {
            None
        }
    }
}

/// Whether the attributes of an item mark it unimplemented.
pub open spec fn spec_status_from_attrs(attrs: Seq<crate::ast::Attr>) -> ItemStatus {
    if exists|i: int|
        0 <= i < attrs.len() && HirAttr::spec_from_str((#[trigger] attrs[i]).name.name@) == Some(
            HirAttr::Unimplemented,
        ) {
        ItemStatus::Unimplemented
    } else {
        ItemStatus::Available
    }
}

/// The availability of an item as decided by its attributes: an
/// `@Unimplemented` attribute marks it unimplemented.
pub fn item_status_from_attrs(attrs: &Vec<crate::ast::Attr>) -> (r: ItemStatus)
    ensures
        r == spec_status_from_attrs(attrs@),
{
    let n = attrs.len();
    let mut i: usize = 0;
    while i < n
        invariant
            n == attrs@.len(),
            i <= n,
            forall|k: int|
                0 <= k < i ==> HirAttr::spec_from_str((#[trigger] attrs@[k]).name.name@) != Some(
                    HirAttr::Unimplemented,
                ),
        decreases n - i,
    {
        match HirAttr::from_str(&attrs[i].name.name) {
            Some(HirAttr::Unimplemented) => {
                return ItemStatus::Unimplemented;
            },
            _ => {},
        }
        i += 1;
    }
    ItemStatus::Available
}

/// Whether a callable declaration has an intrinsic specialization.
pub open spec fn spec_decl_is_intrinsic(decl: crate::ast::CallableDecl) -> bool {
    match decl.body {
        crate::ast::CallableBody::Specs(specs) => exists|i: int|
            0 <= i < specs@.len() && (#[trigger] specs@[i]).body matches crate::ast::SpecBody::Gen(
                crate::ast::SpecGen::Intrinsic,
            ),
        _ => false,
    }
}

/// Whether a callable is declared `body intrinsic`.
pub fn decl_is_intrinsic(decl: &crate::ast::CallableDecl) -> (r: bool)
    ensures
        r == spec_decl_is_intrinsic(*decl),
{
    match &decl.body {
        crate::ast::CallableBody::Specs(specs) => {
            let n = specs.len();
            let mut i: usize = 0;
            while i < n
                invariant
                    decl.body == crate::ast::CallableBody::Specs(*specs),
                    n == specs@.len(),
                    i <= n,
                    forall|k: int|
                        0 <= k < i ==> !((#[trigger] specs@[k]).body
                            matches crate::ast::SpecBody::Gen(crate::ast::SpecGen::Intrinsic)),
                decreases n - i,
            {
                match &specs[i].body {
                    crate::ast::SpecBody::Gen(crate::ast::SpecGen::Intrinsic) => {
                        proof {
                            assert((i as int) < specs@.len() && specs@[i as int].body
                                matches crate::ast::SpecBody::Gen(
                                crate::ast::SpecGen::Intrinsic,
                            ));
                            assert(spec_decl_is_intrinsic(*decl));
                        }
                        return true;
                    },
                    _ => {},
                }
                i += 1;
            }
            false
        },
        _ => false,
    }
}


impl GlobalScope {
    /// Bind or overwrite a declaration, as an import from another
    /// package does: the new resolution wins.
    pub fn set(&mut self, kind: NameKind, namespace: NamespaceId, name: String, res: Res)
        ensures
            final(self).namespaces == old(self).namespaces,
            final(self).intrinsics == old(self).intrinsics,
            final(self).spec_get(kind, namespace, name@) == Some(res),
            forall|ns2: NamespaceId, n2: Seq<char>|
                !(ns2 == namespace && n2 == name@) ==> #[trigger] final(self).spec_get(kind, ns2, n2)
                    == old(self).spec_get(kind, ns2, n2),
            match kind {
                NameKind::Ty => final(self).terms == old(self).terms,
                NameKind::Term => final(self).tys == old(self).tys,
            },
    {
        match kind {
            NameKind::Ty => table_set_exec(&mut self.tys, namespace, name, res),
            NameKind::Term => table_set_exec(&mut self.terms, namespace, name, res),
        }
    }

    /// Mark a name intrinsic; reports whether it was new.
    pub fn add_intrinsic(&mut self, name: String) -> (r: bool)
        ensures
            r == !names_contain(old(self).intrinsics@, name@),
            r ==> final(self).intrinsics@ == old(self).intrinsics@.push(name),
            !r ==> *final(self) == *old(self),
            final(self).tys == old(self).tys,
            final(self).terms == old(self).terms,
            final(self).namespaces == old(self).namespaces,
    {
        let n = self.intrinsics.len();
        let mut j: usize = 0;
        while j < n
            invariant
                n == self.intrinsics@.len(),
                j <= n,
                self == old(self),
                forall|k: int| 0 <= k < j ==> (#[trigger] self.intrinsics@[k])@ != name@,
            decreases n - j,
        {
            if self.intrinsics[j] == name {
                proof {
                    assert(names_contain(self.intrinsics@, name@));
                }
                return false;
            }
            j += 1;
        }
        proof {
            assert(!names_contain(self.intrinsics@, name@));
        }
        self.intrinsics.push(name);
        true
    }
}

/// Bind or overwrite one entry of a declaration table.
pub fn table_set_exec(items: &mut Vec<GlobalEntry>, namespace: NamespaceId, name: String, res: Res)
    ensures
        table_find(final(items)@, namespace, name@) == Some(res),
        forall|ns2: NamespaceId, n2: Seq<char>|
            !(ns2 == namespace && n2 == name@) ==> table_find(final(items)@, ns2, n2)
                == table_find(old(items)@, ns2, n2),
{
    let n = items.len();
    let mut j: usize = 0;
    while j < n
        invariant
            n == items@.len(),
            j <= n,
            items@ == old(items)@,
            forall|k: int|
                0 <= k < j ==> !(items@[k].namespace == namespace && items@[k].name@ == name@),
        decreases n - j,
    {
        if items[j].namespace == namespace && items[j].name == name {
            let ghost items0 = items@;
            let ghost jj = j as int;
            items[j] = GlobalEntry { namespace, name, res };
            proof {
                lemma_table_set_at(items0, items@, items@[jj], jj);
            }
            return;
        }
        j += 1;
    }
    let ghost items0 = items@;
    proof {
        lemma_table_find_step(items@, namespace, name@, n as int);
        assert(items@.skip(n as int) =~= Seq::<GlobalEntry>::empty());
    }
    items.push(GlobalEntry { namespace, name, res });
    proof {
        lemma_table_push(items0, items@[items0.len() as int]);
    }
}

/// Overwriting the first matching entry changes only that key.
proof fn lemma_table_set_at(s0: Seq<GlobalEntry>, s1: Seq<GlobalEntry>, e: GlobalEntry, j: int)
    requires
        0 <= j < s0.len(),
        s0[j].namespace == e.namespace && s0[j].name@ == e.name@,
        forall|k: int| 0 <= k < j ==> !(s0[k].namespace == e.namespace && s0[k].name@ == e.name@),
        s1 == s0.update(j, e),
    ensures
        table_find(s1, e.namespace, e.name@) == Some(e.res),
        forall|ns2: NamespaceId, n2: Seq<char>|
            !(ns2 == e.namespace && n2 == e.name@) ==> table_find(s1, ns2, n2) == table_find(
                s0,
                ns2,
                n2,
            ),
    decreases j,
{
    if j == 0 {
        assert(s1[0] == e);
        assert forall|ns2: NamespaceId, n2: Seq<char>|
            !(ns2 == e.namespace && n2 == e.name@) implies table_find(s1, ns2, n2) == table_find(
            s0,
            ns2,
            n2,
        ) by {
            assert(s1.skip(1) =~= s0.skip(1));
        }
    } else {
        assert(s1.skip(1) =~= s0.skip(1).update(j - 1, e));
        assert(s0.skip(1)[j - 1] == s0[j]);
        lemma_table_set_at(s0.skip(1), s1.skip(1), e, j - 1);
        assert(s1[0] == s0[0]);
        assert forall|ns2: NamespaceId, n2: Seq<char>|
            !(ns2 == e.namespace && n2 == e.name@) implies table_find(s1, ns2, n2) == table_find(
            s0,
            ns2,
            n2,
        ) by {
            assert(table_find(s1.skip(1), ns2, n2) == table_find(s0.skip(1), ns2, n2));
        }
    }
}


/// The dotted name of a namespace, for error messages.
pub fn namespace_name_of(scope: &GlobalScope, ns: NamespaceId) -> (r: String)
    requires
        scope.namespaces.wf(),
        scope.namespaces.tree.contains_id(ns.0 as int),
    ensures
        r@ == join_dot(scope.namespaces.spec_path_of_id(ns)),
{
    let (path, node) = scope.namespaces.find_id(ns);
    match node {
        Some(_) => {
            proof {
                scope.namespaces.lemma_node_of_id(path_view(path@), ns);
            }
            join_dot_exec(&path)
        },
        None => {
            proof {
                assert(false);
            }
            String::new()
        },
    }
}

/// Bind one top-level item into the global table under its namespace.
///
/// A name may be bound at most once per namespace and kind: a second
/// binding reports a duplicate and leaves the first binding untouched.
/// A newtype occupies both the type and term namespaces atomically: if
/// either is taken, neither is bound. An intrinsic callable's name
/// must be unique program-wide. The node's resolution is recorded
/// either way, and a fresh item ID is consumed for every callable or
/// newtype.
pub fn bind_global_item(
    names: &mut Names,
    scope: &mut GlobalScope,
    namespace: NamespaceId,
    assigner: &mut Assigner,
    item: &crate::ast::Item,
) -> (r: Result<(), Vec<Error>>)
    requires
        old(scope).namespaces.wf(),
        old(scope).namespaces.tree.contains_id(namespace.0 as int),
    ensures
        final(scope).namespaces == old(scope).namespaces,
        (item.kind matches crate::ast::ItemKind::Open(_, _) || item.kind
            matches crate::ast::ItemKind::Invalid) ==> (r is Ok && *final(names) == *old(names)
            && *final(scope) == *old(scope) && *final(assigner) == *old(assigner)),
        item.kind matches crate::ast::ItemKind::Callable(decl) ==> ({
            let name_v = decl.name.name@;
            let res = Res::Item(
                ItemId { package: None, item: old(assigner).next },
                spec_status_from_attrs(item.attrs@),
            );
            let dup_term = table_find(old(scope).terms@, namespace, name_v) is Some;
            let is_intr = spec_decl_is_intrinsic(decl);
            let dup_intr = is_intr && names_contain(old(scope).intrinsics@, name_v);
            &&& final(assigner).next == (if old(assigner).next < usize::MAX {
                old(assigner).next + 1
            } else {
                old(assigner).next as int
            })
            &&& final(names).entries@ == nodes_insert(old(names).entries@, decl.name.id, res)
            &&& final(scope).tys == old(scope).tys
            &&& (!dup_term ==> final(scope).spec_get(NameKind::Term, namespace, name_v) == Some(
                res,
            ) && (forall|ns2: NamespaceId, n2: Seq<char>|
                !(ns2 == namespace && n2 == name_v) ==> final(scope).spec_get(
                    NameKind::Term,
                    ns2,
                    n2,
                ) == old(scope).spec_get(NameKind::Term, ns2, n2)))
            &&& (dup_term ==> final(scope).terms == old(scope).terms)
            &&& ((is_intr && !dup_intr) ==> final(scope).intrinsics@ == old(
                scope,
            ).intrinsics@.push(decl.name.name))
            &&& (!(is_intr && !dup_intr) ==> final(scope).intrinsics == old(scope).intrinsics)
            &&& (r is Ok <==> (!dup_term && !dup_intr))
            &&& (r matches Err(es) ==> {
                &&& es@.len() == (if dup_term && dup_intr {
                    2int
                } else {
                    1int
                })
                &&& (dup_term ==> (es@[0] matches Error::Duplicate(n, nsn, sp) && n@ == name_v
                    && nsn@ == join_dot(old(scope).namespaces.spec_path_of_id(namespace)) && sp
                    == decl.name.span))
                &&& (dup_intr ==> (es@[es@.len() - 1] matches Error::DuplicateIntrinsic(n, sp)
                    && n@ == name_v && sp == decl.name.span))
            })
        }),
        item.kind matches crate::ast::ItemKind::Ty(tyname, _) ==> ({
            let name_v = tyname.name@;
            let res = Res::Item(
                ItemId { package: None, item: old(assigner).next },
                spec_status_from_attrs(item.attrs@),
            );
            let occupied = table_find(old(scope).terms@, namespace, name_v) is Some || table_find(
                old(scope).tys@,
                namespace,
                name_v,
            ) is Some;
            &&& final(assigner).next == (if old(assigner).next < usize::MAX {
                old(assigner).next + 1
            } else {
                old(assigner).next as int
            })
            &&& final(names).entries@ == nodes_insert(old(names).entries@, tyname.id, res)
            &&& final(scope).intrinsics == old(scope).intrinsics
            &&& (occupied ==> final(scope).terms == old(scope).terms && final(scope).tys == old(
                scope,
            ).tys)
            &&& (!occupied ==> final(scope).spec_get(NameKind::Term, namespace, name_v) == Some(
                res,
            ) && final(scope).spec_get(NameKind::Ty, namespace, name_v) == Some(res) && (forall|
                ns2: NamespaceId,
                n2: Seq<char>,
            |
                !(ns2 == namespace && n2 == name_v) ==> final(scope).spec_get(NameKind::Term, ns2, n2)
                    == old(scope).spec_get(NameKind::Term, ns2, n2) && final(scope).spec_get(
                    NameKind::Ty,
                    ns2,
                    n2,
                ) == old(scope).spec_get(NameKind::Ty, ns2, n2)))
            &&& (r is Ok <==> !occupied)
            &&& (r matches Err(es) ==> es@.len() == 1 && (es@[0] matches Error::Duplicate(
                n,
                nsn,
                sp,
            ) && n@ == name_v && nsn@ == join_dot(
                old(scope).namespaces.spec_path_of_id(namespace),
            ) && sp == tyname.span))
        }),
{
    match &item.kind {
        crate::ast::ItemKind::Open(_, _) => Ok(()),
        crate::ast::ItemKind::Invalid => Ok(()),
        crate::ast::ItemKind::Callable(decl) => {
            let item_id = intrapackage(assigner.next_item());
            let status = item_status_from_attrs(&item.attrs);
            let res = Res::Item(item_id, status);
            names.insert(decl.name.id, res);
            let mut errors: Vec<Error> = Vec::new();
            let occupied = scope.get(NameKind::Term, namespace, &decl.name.name).is_some();
            if occupied {
                let nsname = namespace_name_of(scope, namespace);
                errors.push(Error::Duplicate(decl.name.name.clone(), nsname, decl.name.span));
            } else {
                table_set_exec(&mut scope.terms, namespace, decl.name.name.clone(), res);
            }
            if decl_is_intrinsic(decl) {
                if !scope.add_intrinsic(decl.name.name.clone()) {
                    errors.push(
                        Error::DuplicateIntrinsic(decl.name.name.clone(), decl.name.span),
                    );
                }
            }
            if errors.len() == 0 {
                Ok(())
            } else {
                Err(errors)
            }
        },
        crate::ast::ItemKind::Ty(tyname, _) => {
            let item_id = intrapackage(assigner.next_item());
            let status = item_status_from_attrs(&item.attrs);
            let res = Res::Item(item_id, status);
            names.insert(tyname.id, res);
            let term_occ = scope.get(NameKind::Term, namespace, &tyname.name).is_some();
            let ty_occ = scope.get(NameKind::Ty, namespace, &tyname.name).is_some();
            if term_occ || ty_occ {
                let nsname = namespace_name_of(scope, namespace);
                let mut errors: Vec<Error> = Vec::new();
                errors.push(Error::Duplicate(tyname.name.clone(), nsname, tyname.span));
                Err(errors)
            } else {
                table_set_exec(&mut scope.terms, namespace, tyname.name.clone(), res);
                table_set_exec(&mut scope.tys, namespace, tyname.name.clone(), res);
                Ok(())
            }
        },
    }
}


/// Clone the segment names of a namespace path.
pub fn idents_to_path(ids: &Vec<Ident>) -> (r: Vec<String>)
    ensures
        path_view(r@) == crate::ast::idents_view(ids@),
{
    let mut path: Vec<String> = Vec::new();
    let n = ids.len();
    let mut i: usize = 0;
    while i < n
        invariant
            n == ids@.len(),
            i <= n,
            path@.len() == i,
            forall|k: int| 0 <= k < i ==> (#[trigger] path@[k])@ == ids@[k].name@,
        decreases n - i,
    {
        path.push(ids[i].name.clone());
        i += 1;
    }
    proof {
        assert(path_view(path@) =~= crate::ast::idents_view(ids@));
    }
    path
}

/// A declaration inside a window is one in any wider window.
pub proof fn lemma_term_declared_mono(items: Seq<crate::ast::Item>, k1: int, k2: int, n: Seq<char>)
    requires
        k1 <= k2,
        term_declared_before(items, k1, n),
    ensures
        term_declared_before(items, k2, n),
{
    let w = choose|w: int| 0 <= w < k1 && item_declares_term(#[trigger] items[w], n);
    assert(0 <= w < k2 && item_declares_term(items[w], n));
}

pub proof fn lemma_term_declared_intro(items: Seq<crate::ast::Item>, w: int, bound: int, n: Seq<char>)
    requires
        0 <= w < bound,
        item_declares_term(items[w], n),
    ensures
        term_declared_before(items, bound, n),
{
    assert(0 <= w < bound && item_declares_term(#[trigger] items[w], n));
}

pub proof fn lemma_ty_declared_mono(items: Seq<crate::ast::Item>, k1: int, k2: int, n: Seq<char>)
    requires
        k1 <= k2,
        ty_declared_before(items, k1, n),
    ensures
        ty_declared_before(items, k2, n),
{
    let w = choose|w: int| 0 <= w < k1 && item_declares_ty(#[trigger] items[w], n);
    assert(0 <= w < k2 && item_declares_ty(items[w], n));
}

pub proof fn lemma_ty_declared_intro(items: Seq<crate::ast::Item>, w: int, bound: int, n: Seq<char>)
    requires
        0 <= w < bound,
        item_declares_ty(items[w], n),
    ensures
        ty_declared_before(items, bound, n),
{
    assert(0 <= w < bound && item_declares_ty(#[trigger] items[w], n));
}

/// Whether an item declares `n` as a term: callables and newtypes do.
pub open spec fn item_declares_term(item: crate::ast::Item, n: Seq<char>) -> bool {
    match item.kind {
        crate::ast::ItemKind::Callable(decl) => decl.name.name@ == n,
        crate::ast::ItemKind::Ty(tyname, _) => tyname.name@ == n,
        _ => false,
    }
}

/// Whether an item declares `n` as a type: only newtypes do.
pub open spec fn item_declares_ty(item: crate::ast::Item, n: Seq<char>) -> bool {
    match item.kind {
        crate::ast::ItemKind::Ty(tyname, _) => tyname.name@ == n,
        _ => false,
    }
}

/// Whether any item of the window `[0, k)` declares `n` as a term.
pub open spec fn term_declared_before(
    items: Seq<crate::ast::Item>,
    k: int,
    n: Seq<char>,
) -> bool {
    exists|k2: int| 0 <= k2 < k && item_declares_term(#[trigger] items[k2], n)
}

/// Whether any item of the window `[0, k)` declares `n` as a type.
pub open spec fn ty_declared_before(items: Seq<crate::ast::Item>, k: int, n: Seq<char>) -> bool {
    exists|k2: int| 0 <= k2 < k && item_declares_ty(#[trigger] items[k2], n)
}

/// What item `k` of a namespace's body obtained in the term table:
/// the first declaration of a name free beforehand is bound with its
/// attribute-derived status.
pub open spec fn callable_first_bound(
    base: GlobalScope,
    cur: GlobalScope,
    nsid: NamespaceId,
    items: Seq<crate::ast::Item>,
    k: int,
) -> bool {
    items[k].kind matches crate::ast::ItemKind::Callable(decl) ==> (base.spec_get(
        NameKind::Term,
        nsid,
        decl.name.name@,
    ) is None && !term_declared_before(items, k, decl.name.name@) ==> (cur.spec_get(
        NameKind::Term,
        nsid,
        decl.name.name@,
    ) matches Some(res2) && res2 matches Res::Item(_, st) && st == spec_status_from_attrs(
        items[k].attrs@,
    )))
}

/// What newtype item `k` obtained: with both slots free and the name
/// undeclared earlier, it occupies the type and the term table with
/// one resolution.
pub open spec fn newtype_first_bound(
    base: GlobalScope,
    cur: GlobalScope,
    nsid: NamespaceId,
    items: Seq<crate::ast::Item>,
    k: int,
) -> bool {
    items[k].kind matches crate::ast::ItemKind::Ty(tyname, _) ==> (base.spec_get(
        NameKind::Term,
        nsid,
        tyname.name@,
    ) is None && base.spec_get(NameKind::Ty, nsid, tyname.name@) is None
        && !term_declared_before(items, k, tyname.name@) ==> (cur.spec_get(
        NameKind::Term,
        nsid,
        tyname.name@,
    ) matches Some(res2) && res2 matches Res::Item(_, st) && st == spec_status_from_attrs(
        items[k].attrs@,
    ) && cur.spec_get(NameKind::Ty, nsid, tyname.name@) == cur.spec_get(
        NameKind::Term,
        nsid,
        tyname.name@,
    )))
}

/// Bind all the global items declared by one namespace declaration.
/// Duplicate declarations are reported and skipped; the first binding
/// of each name stays: the first declaration of a free name lands in
/// the table with its attribute-derived status, slots the namespace
/// does not declare keep their values, and other namespaces are
/// untouched.
#[verifier::rlimit(100)]
pub fn bind_global_items(
    names: &mut Names,
    scope: &mut GlobalScope,
    namespace: &crate::ast::Namespace,
    assigner: &mut Assigner,
    errors: &mut Vec<Error>,
)
    requires
        old(scope).namespaces.wf(),
        old(scope).namespaces.assigner + namespace.name@.len() <= usize::MAX,
    ensures
        final(scope).namespaces.wf(),
        final(scope).namespaces.spec_find(crate::ast::idents_view(namespace.name@)) is Some,
        final(scope).namespaces.assigner <= old(scope).namespaces.assigner
            + namespace.name@.len(),
        forall|p: Seq<Seq<char>>|
            old(scope).namespaces.spec_find(p) is Some ==> final(scope).namespaces.spec_find(p)
                == old(scope).namespaces.spec_find(p),
        forall|x: int|
            old(scope).namespaces.tree.contains_id(x)
                ==> final(scope).namespaces.tree.contains_id(x),
        old(errors)@.is_prefix_of(final(errors)@),
        final(scope).namespaces.spec_find(crate::ast::idents_view(namespace.name@))
            matches Some(nsid) ==> ({
            let items = namespace.items@;
            &&& (forall|ns2: NamespaceId, n2: Seq<char>|
                (ns2 != nsid || !term_declared_before(items, items.len() as int, n2))
                    ==> #[trigger] final(scope).spec_get(NameKind::Term, ns2, n2)
                    == old(scope).spec_get(NameKind::Term, ns2, n2))
            &&& (forall|ns2: NamespaceId, n2: Seq<char>|
                (ns2 != nsid || !ty_declared_before(items, items.len() as int, n2))
                    ==> #[trigger] final(scope).spec_get(NameKind::Ty, ns2, n2)
                    == old(scope).spec_get(NameKind::Ty, ns2, n2))
            &&& (forall|k: int|
                0 <= k < items.len() ==> #[trigger] callable_first_bound(
                    *old(scope),
                    *final(scope),
                    nsid,
                    items,
                    k,
                ))
            &&& (forall|k: int|
                0 <= k < items.len() ==> #[trigger] newtype_first_bound(
                    *old(scope),
                    *final(scope),
                    nsid,
                    items,
                    k,
                ))
        }),
{
    names.insert(
        namespace.id,
        Res::Item(intrapackage(assigner.next_item()), ItemStatus::Available),
    );
    let path = idents_to_path(&namespace.name);
    let namespace_id = scope.insert_or_find_namespace(&path);
    proof {
        scope.namespaces.tree.lemma_find_contains(path_view(path@));
    }
    let ghost ns_snapshot = scope.namespaces;
    let ghost errors0 = errors@;
    let ghost base = *scope;
    let n = namespace.items.len();
    let mut i: usize = 0;
    while i < n
        invariant
            n == namespace.items@.len(),
            i <= n,
            scope.namespaces == ns_snapshot,
            ns_snapshot.wf(),
            ns_snapshot.tree.contains_id(namespace_id.0 as int),
            ns_snapshot.spec_find(crate::ast::idents_view(namespace.name@)) == Some(namespace_id),
            errors0.is_prefix_of(errors@),
            base.tys == old(scope).tys,
            base.terms == old(scope).terms,
            forall|ns2: NamespaceId, n2: Seq<char>|
                (ns2 != namespace_id || !term_declared_before(namespace.items@, i as int, n2))
                    ==> #[trigger] scope.spec_get(NameKind::Term, ns2, n2) == base.spec_get(
                    NameKind::Term,
                    ns2,
                    n2,
                ),
            forall|ns2: NamespaceId, n2: Seq<char>|
                (ns2 != namespace_id || !ty_declared_before(namespace.items@, i as int, n2))
                    ==> #[trigger] scope.spec_get(NameKind::Ty, ns2, n2) == base.spec_get(
                    NameKind::Ty,
                    ns2,
                    n2,
                ),
            forall|k: int|
                0 <= k < i ==> #[trigger] callable_first_bound(
                    base,
                    *scope,
                    namespace_id,
                    namespace.items@,
                    k,
                ),
            forall|k: int|
                0 <= k < i ==> #[trigger] newtype_first_bound(
                    base,
                    *scope,
                    namespace_id,
                    namespace.items@,
                    k,
                ),
        decreases n - i,
    {
        let ghost pre_call = *scope;
        match bind_global_item(names, scope, namespace_id, assigner, &namespace.items[i]) {
            Ok(()) => {},
            Err(mut es) => {
                errors.append(&mut es);
            },
        }
        proof {
            let items = namespace.items@;
            let ii = i as int;
            let it = items[ii];
            assert forall|ns2: NamespaceId, n2: Seq<char>|
                (ns2 != namespace_id || !term_declared_before(items, ii + 1, n2))
                    implies #[trigger] scope.spec_get(NameKind::Term, ns2, n2) == base.spec_get(
                NameKind::Term,
                ns2,
                n2,
            ) by {
                if ns2 == namespace_id && term_declared_before(items, ii, n2) {
                    lemma_term_declared_mono(items, ii, ii + 1, n2);
                }
                assert(pre_call.spec_get(NameKind::Term, ns2, n2) == base.spec_get(
                    NameKind::Term,
                    ns2,
                    n2,
                ));
                match it.kind {
                    crate::ast::ItemKind::Callable(decl) => {
                        if ns2 == namespace_id && n2 == decl.name.name@ {
                            lemma_term_declared_intro(items, ii, ii + 1, n2);
                        } else {
                            assert(scope.spec_get(NameKind::Term, ns2, n2)
                                == pre_call.spec_get(NameKind::Term, ns2, n2));
                        }
                    },
                    crate::ast::ItemKind::Ty(tyname, _) => {
                        if ns2 == namespace_id && n2 == tyname.name@ {
                            lemma_term_declared_intro(items, ii, ii + 1, n2);
                        } else {
                            assert(scope.spec_get(NameKind::Term, ns2, n2)
                                == pre_call.spec_get(NameKind::Term, ns2, n2));
                        }
                    },
                    _ => {},
                }
            }
            assert forall|ns2: NamespaceId, n2: Seq<char>|
                (ns2 != namespace_id || !ty_declared_before(items, ii + 1, n2))
                    implies #[trigger] scope.spec_get(NameKind::Ty, ns2, n2) == base.spec_get(
                NameKind::Ty,
                ns2,
                n2,
            ) by {
                if ns2 == namespace_id && ty_declared_before(items, ii, n2) {
                    lemma_ty_declared_mono(items, ii, ii + 1, n2);
                }
                assert(pre_call.spec_get(NameKind::Ty, ns2, n2) == base.spec_get(
                    NameKind::Ty,
                    ns2,
                    n2,
                ));
                match it.kind {
                    crate::ast::ItemKind::Callable(_) => {
                        assert(scope.tys == pre_call.tys);
                    },
                    crate::ast::ItemKind::Ty(tyname, _) => {
                        if ns2 == namespace_id && n2 == tyname.name@ {
                            lemma_ty_declared_intro(items, ii, ii + 1, n2);
                        } else {
                            assert(scope.spec_get(NameKind::Ty, ns2, n2)
                                == pre_call.spec_get(NameKind::Ty, ns2, n2));
                        }
                    },
                    _ => {},
                }
            }
            assert forall|k: int|
                0 <= k < ii + 1 implies #[trigger] callable_first_bound(
                base,
                *scope,
                namespace_id,
                items,
                k,
            ) by {
                match items[k].kind {
                    crate::ast::ItemKind::Callable(decl2) => {
                        let nm = decl2.name.name@;
                        if base.spec_get(NameKind::Term, namespace_id, nm) is None
                            && !term_declared_before(items, k, nm) {
                            if k < ii {
                                assert(callable_first_bound(
                                    base,
                                    pre_call,
                                    namespace_id,
                                    items,
                                    k,
                                ));
                                assert(pre_call.spec_get(NameKind::Term, namespace_id, nm)
                                    matches Some(r0) && r0 matches Res::Item(_, st0) && st0
                                    == spec_status_from_attrs(items[k].attrs@));
                                match it.kind {
                                    crate::ast::ItemKind::Callable(d3) => {
                                        if d3.name.name@ == nm {
                                            assert(scope.terms == pre_call.terms);
                                        } else {
                                            assert(scope.spec_get(
                                                NameKind::Term,
                                                namespace_id,
                                                nm,
                                            ) == pre_call.spec_get(
                                                NameKind::Term,
                                                namespace_id,
                                                nm,
                                            ));
                                        }
                                    },
                                    crate::ast::ItemKind::Ty(t3, _) => {
                                        if t3.name@ == nm {
                                            assert(scope.terms == pre_call.terms);
                                        } else {
                                            assert(scope.spec_get(
                                                NameKind::Term,
                                                namespace_id,
                                                nm,
                                            ) == pre_call.spec_get(
                                                NameKind::Term,
                                                namespace_id,
                                                nm,
                                            ));
                                        }
                                    },
                                    _ => {},
                                }
                            } else {
                                assert(it.kind == items[ii].kind);
                                assert(pre_call.spec_get(NameKind::Term, namespace_id, nm)
                                    == base.spec_get(NameKind::Term, namespace_id, nm));
                            }
                        }
                    },
                    _ => {},
                }
                assert(callable_first_bound(base, *scope, namespace_id, items, k));
            }
            assert forall|k: int|
                0 <= k < ii + 1 implies #[trigger] newtype_first_bound(
                base,
                *scope,
                namespace_id,
                items,
                k,
            ) by {
                match items[k].kind {
                    crate::ast::ItemKind::Ty(ty2, _) => {
                        let nm = ty2.name@;
                        if base.spec_get(NameKind::Term, namespace_id, nm) is None
                            && base.spec_get(NameKind::Ty, namespace_id, nm) is None
                            && !term_declared_before(items, k, nm) {
                            if k < ii {
                                assert(newtype_first_bound(
                                    base,
                                    pre_call,
                                    namespace_id,
                                    items,
                                    k,
                                ));
                                assert(pre_call.spec_get(NameKind::Term, namespace_id, nm)
                                    matches Some(r0) && r0 matches Res::Item(_, st0) && st0
                                    == spec_status_from_attrs(items[k].attrs@));
                                match it.kind {
                                    crate::ast::ItemKind::Callable(d3) => {
                                        if d3.name.name@ == nm {
                                            assert(scope.terms == pre_call.terms);
                                        } else {
                                            assert(scope.spec_get(
                                                NameKind::Term,
                                                namespace_id,
                                                nm,
                                            ) == pre_call.spec_get(
                                                NameKind::Term,
                                                namespace_id,
                                                nm,
                                            ));
                                        }
                                        assert(scope.tys == pre_call.tys);
                                    },
                                    crate::ast::ItemKind::Ty(t3, _) => {
                                        if t3.name@ == nm {
                                            assert(scope.terms == pre_call.terms);
                                            assert(scope.tys == pre_call.tys);
                                        } else {
                                            assert(scope.spec_get(
                                                NameKind::Term,
                                                namespace_id,
                                                nm,
                                            ) == pre_call.spec_get(
                                                NameKind::Term,
                                                namespace_id,
                                                nm,
                                            ));
                                            assert(scope.spec_get(
                                                NameKind::Ty,
                                                namespace_id,
                                                nm,
                                            ) == pre_call.spec_get(
                                                NameKind::Ty,
                                                namespace_id,
                                                nm,
                                            ));
                                        }
                                    },
                                    _ => {},
                                }
                            } else {
                                assert(pre_call.spec_get(NameKind::Term, namespace_id, nm)
                                    == base.spec_get(NameKind::Term, namespace_id, nm));
                                assert(pre_call.spec_get(NameKind::Ty, namespace_id, nm)
                                    == base.spec_get(NameKind::Ty, namespace_id, nm));
                            }
                        }
                    },
                    _ => {},
                }
                assert(newtype_first_bound(base, *scope, namespace_id, items, k));
            }
        }
        i += 1;
    }
    proof {
        let items = namespace.items@;
        assert forall|k: int| 0 <= k < items.len() implies #[trigger] callable_first_bound(
            *old(scope),
            *scope,
            namespace_id,
            items,
            k,
        ) by {
            assert(callable_first_bound(base, *scope, namespace_id, items, k));
            match items[k].kind {
                crate::ast::ItemKind::Callable(decl) => {
                    assert(base.spec_get(NameKind::Term, namespace_id, decl.name.name@) == old(
                        scope,
                    ).spec_get(NameKind::Term, namespace_id, decl.name.name@));
                },
                _ => {},
            }
        }
        assert forall|k: int| 0 <= k < items.len() implies #[trigger] newtype_first_bound(
            *old(scope),
            *scope,
            namespace_id,
            items,
            k,
        ) by {
            assert(newtype_first_bound(base, *scope, namespace_id, items, k));
            match items[k].kind {
                crate::ast::ItemKind::Ty(tyname, _) => {
                    assert(base.spec_get(NameKind::Term, namespace_id, tyname.name@) == old(
                        scope,
                    ).spec_get(NameKind::Term, namespace_id, tyname.name@));
                    assert(base.spec_get(NameKind::Ty, namespace_id, tyname.name@) == old(
                        scope,
                    ).spec_get(NameKind::Ty, namespace_id, tyname.name@));
                },
                _ => {},
            }
        }
    }
}

/// The visibility of a declaration imported from another package.
#[derive(Clone, Copy, Debug, PartialEq, Eq, Structural)]
pub enum Visibility {
    Public,
    Internal,
}

/// What kind of declaration another package exports.
#[derive(Clone, Copy, Debug, PartialEq, Eq, Structural)]
pub enum GlobalKind {
    /// A type declaration.
    Ty(ItemId),
    /// A term declaration; the flag marks an intrinsic callable.
    Term(ItemId, bool),
    /// A bare namespace.
    Namespace,
}

/// One declaration yielded by the cross-package global-item iterator.
#[derive(Debug)]
pub struct Global {
    pub namespace: Vec<String>,
    pub name: String,
    pub visibility: Visibility,
    pub status: ItemStatus,
    pub kind: GlobalKind,
}

/// Whether an imported declaration is taken: public declarations,
/// plus intrinsic terms whatever their visibility.
pub open spec fn global_qualifies(g: Global) -> bool {
    ||| g.visibility is Public
    ||| g.kind matches GlobalKind::Term(_, true)
}

/// Whether an imported declaration writes the type table.
pub open spec fn writes_ty(g: Global) -> bool {
    g.visibility is Public && g.kind matches GlobalKind::Ty(_)
}

/// Whether an imported declaration writes the term table.
pub open spec fn writes_term(g: Global) -> bool {
    g.visibility is Public && g.kind matches GlobalKind::Term(_, _)
}

/// The resolution an imported declaration binds.
pub open spec fn imported_res(g: Global) -> Res {
    match g.kind {
        GlobalKind::Ty(id) => Res::Item(id, g.status),
        GlobalKind::Term(id, _) => Res::Item(id, g.status),
        GlobalKind::Namespace => Res::UnitTy,
    }
}

/// Whether a later declaration in the window `(i, bound)` writes the
/// same table slot as declaration `i`, overriding it.
pub open spec fn slot_shadowed_upto(globals: Seq<Global>, i: int, bound: int, ty: bool) -> bool {
    exists|j: int|
        i < j < bound && (if ty {
            writes_ty(#[trigger] globals[j])
        } else {
            writes_term(globals[j])
        }) && path_view(globals[j].namespace@) == path_view(globals[i].namespace@)
            && globals[j].name@ == globals[i].name@
}

/// Whether a type import not overridden inside the window has landed
/// in the type table with its ID and status.
pub open spec fn ty_import_ok(cur: GlobalScope, globals: Seq<Global>, k: int, bound: int) -> bool {
    writes_ty(globals[k]) && !slot_shadowed_upto(globals, k, bound, true) ==> (
    cur.namespaces.spec_find(path_view(globals[k].namespace@)) matches Some(ns) && cur.spec_get(
        NameKind::Ty,
        ns,
        globals[k].name@,
    ) == Some(imported_res(globals[k])))
}

/// Whether a term import not overridden inside the window has landed
/// in the term table with its ID and status.
pub open spec fn term_import_ok(cur: GlobalScope, globals: Seq<Global>, k: int, bound: int) -> bool {
    writes_term(globals[k]) && !slot_shadowed_upto(globals, k, bound, false) ==> (
    cur.namespaces.spec_find(path_view(globals[k].namespace@)) matches Some(ns) && cur.spec_get(
        NameKind::Term,
        ns,
        globals[k].name@,
    ) == Some(imported_res(globals[k])))
}

/// Whether an intrinsic term's name is marked intrinsic.
pub open spec fn intrinsic_marked(cur: GlobalScope, globals: Seq<Global>, k: int) -> bool {
    globals[k].kind matches GlobalKind::Term(_, true) ==> names_contain(
        cur.intrinsics@,
        globals[k].name@,
    )
}

/// A concrete later writer of the same slot shadows it.
pub proof fn lemma_shadow_intro(globals: Seq<Global>, i: int, j: int, bound: int, ty: bool)
    requires
        i < j < bound,
        if ty {
            writes_ty(globals[j])
        } else {
            writes_term(globals[j])
        },
        path_view(globals[j].namespace@) == path_view(globals[i].namespace@),
        globals[j].name@ == globals[i].name@,
    ensures
        slot_shadowed_upto(globals, i, bound, ty),
{
    assert(i < j < bound && (if ty {
        writes_ty(#[trigger] globals[j])
    } else {
        writes_term(globals[j])
    }) && path_view(globals[j].namespace@) == path_view(globals[i].namespace@)
        && globals[j].name@ == globals[i].name@);
}

/// A shadowing witness inside a window stays one in a wider window.
pub proof fn lemma_shadow_mono(globals: Seq<Global>, i: int, b1: int, b2: int, ty: bool)
    requires
        b1 <= b2,
        slot_shadowed_upto(globals, i, b1, ty),
    ensures
        slot_shadowed_upto(globals, i, b2, ty),
{
    let j = choose|j: int|
        i < j < b1 && (if ty {
            writes_ty(#[trigger] globals[j])
        } else {
            writes_term(globals[j])
        }) && path_view(globals[j].namespace@) == path_view(globals[i].namespace@)
            && globals[j].name@ == globals[i].name@;
    assert(i < j < b2 && (if ty {
        writes_ty(globals[j])
    } else {
        writes_term(globals[j])
    }) && path_view(globals[j].namespace@) == path_view(globals[i].namespace@)
        && globals[j].name@ == globals[i].name@);
}

/// The total number of namespace path segments of a list of imported
/// declarations; bounds how many IDs an import can consume.
pub open spec fn spec_globals_segments(s: Seq<Global>) -> int
    decreases s.len(),
{
    if s.len() == 0 {
        0
    } else {
        spec_globals_segments(s.drop_last()) + s.last().namespace@.len()
    }
}

/// The total number of namespace path segments declared by a package.
pub open spec fn spec_package_segments(nodes: Seq<crate::ast::TopLevelNode>) -> int
    decreases nodes.len(),
{
    if nodes.len() == 0 {
        0
    } else {
        spec_package_segments(nodes.drop_last()) + (match nodes.last() {
            crate::ast::TopLevelNode::Namespace(ns) => ns.name@.len() as int,
            crate::ast::TopLevelNode::Stmt(_) => 0,
        })
    }
}

pub proof fn lemma_package_segments_nonneg(nodes: Seq<crate::ast::TopLevelNode>)
    ensures
        spec_package_segments(nodes) >= 0,
    decreases nodes.len(),
{
    if nodes.len() > 0 {
        lemma_package_segments_nonneg(nodes.drop_last());
    }
}

pub proof fn lemma_globals_segments_nonneg(s: Seq<Global>)
    ensures
        spec_globals_segments(s) >= 0,
    decreases s.len(),
{
    if s.len() > 0 {
        lemma_globals_segments_nonneg(s.drop_last());
    }
}

/// Whether node `m` is the only namespace node with its dotted path.
pub open spec fn ns_path_unique(nodes: Seq<crate::ast::TopLevelNode>, m: int) -> bool {
    nodes[m] matches crate::ast::TopLevelNode::Namespace(ns) ==> (forall|m2: int|
        0 <= m2 < nodes.len() && m2 != m ==> ((#[trigger] nodes[m2])
            matches crate::ast::TopLevelNode::Namespace(ns2) ==> crate::ast::idents_view(
            ns2.name@,
        ) != crate::ast::idents_view(ns.name@)))
}

/// What namespace node `m` of a package obtained, when no other node
/// re-declares its namespace: each first declaration of a free name
/// is bound, as one namespace's binding contract fixes.
pub open spec fn pkg_node_ok(
    pre: GlobalScope,
    cur: GlobalScope,
    nodes: Seq<crate::ast::TopLevelNode>,
    m: int,
) -> bool {
    nodes[m] matches crate::ast::TopLevelNode::Namespace(ns) ==> (ns_path_unique(nodes, m)
        ==> (cur.namespaces.spec_find(crate::ast::idents_view(ns.name@)) matches Some(nsid)
        ==> (forall|k: int|
        0 <= k < ns.items@.len() ==> #[trigger] callable_first_bound(pre, cur, nsid, ns.items@, k)
            && newtype_first_bound(pre, cur, nsid, ns.items@, k))))
}

/// Whether any namespace node of the window `[0, j)` declares `n2` as
/// a term in the namespace `ns2` of the current tree.
pub open spec fn pkg_term_written(
    cur: GlobalScope,
    nodes: Seq<crate::ast::TopLevelNode>,
    j: int,
    ns2: NamespaceId,
    n2: Seq<char>,
) -> bool {
    exists|m2: int|
        0 <= m2 < j && ((#[trigger] nodes[m2]) matches crate::ast::TopLevelNode::Namespace(ns)
            && cur.namespaces.spec_find(crate::ast::idents_view(ns.name@)) == Some(ns2)
            && term_declared_before(ns.items@, ns.items@.len() as int, n2))
}

/// The same for the type table.
pub open spec fn pkg_ty_written(
    cur: GlobalScope,
    nodes: Seq<crate::ast::TopLevelNode>,
    j: int,
    ns2: NamespaceId,
    n2: Seq<char>,
) -> bool {
    exists|m2: int|
        0 <= m2 < j && ((#[trigger] nodes[m2]) matches crate::ast::TopLevelNode::Namespace(ns)
            && cur.namespaces.spec_find(crate::ast::idents_view(ns.name@)) == Some(ns2)
            && ty_declared_before(ns.items@, ns.items@.len() as int, n2))
}

/// One package node's binding step lifts to the whole package: the
/// bound node's effect is preserved by the later nodes of distinct
/// namespaces, and slots no processed node declares stay at their
/// pre-package values.
#[verifier::rlimit(100)]
proof fn lemma_pkg_step(
    base: GlobalScope,
    pre: GlobalScope,
    post: GlobalScope,
    nodes: Seq<crate::ast::TopLevelNode>,
    i: int,
)
    requires
        0 <= i < nodes.len(),
        nodes[i] matches crate::ast::TopLevelNode::Namespace(_),
        post.namespaces.wf(),
        forall|p: Seq<Seq<char>>|
            pre.namespaces.spec_find(p) is Some ==> post.namespaces.spec_find(p)
                == pre.namespaces.spec_find(p),
        nodes[i] matches crate::ast::TopLevelNode::Namespace(ns0)
            ==> post.namespaces.spec_find(crate::ast::idents_view(ns0.name@)) is Some,
        nodes[i] matches crate::ast::TopLevelNode::Namespace(ns0) ==> (post.namespaces.spec_find(
            crate::ast::idents_view(ns0.name@),
        ) matches Some(nsid) ==> ({
            let items = ns0.items@;
            &&& (forall|ns2: NamespaceId, n2: Seq<char>|
                (ns2 != nsid || !term_declared_before(items, items.len() as int, n2))
                    ==> #[trigger] post.spec_get(NameKind::Term, ns2, n2) == pre.spec_get(
                    NameKind::Term,
                    ns2,
                    n2,
                ))
            &&& (forall|ns2: NamespaceId, n2: Seq<char>|
                (ns2 != nsid || !ty_declared_before(items, items.len() as int, n2))
                    ==> #[trigger] post.spec_get(NameKind::Ty, ns2, n2) == pre.spec_get(
                    NameKind::Ty,
                    ns2,
                    n2,
                ))
            &&& (forall|k: int|
                0 <= k < items.len() ==> #[trigger] callable_first_bound(pre, post, nsid, items, k))
            &&& (forall|k: int|
                0 <= k < items.len() ==> #[trigger] newtype_first_bound(pre, post, nsid, items, k))
        })),
        forall|k: int|
            0 <= k < i ==> ((#[trigger] nodes[k]) matches crate::ast::TopLevelNode::Namespace(ns2)
                ==> pre.namespaces.spec_find(crate::ast::idents_view(ns2.name@)) is Some),
        forall|m: int| 0 <= m < i ==> #[trigger] pkg_node_ok(base, pre, nodes, m),
        forall|ns2: NamespaceId, n2: Seq<char>|
            !pkg_term_written(pre, nodes, i, ns2, n2) ==> #[trigger] pre.spec_get(
                NameKind::Term,
                ns2,
                n2,
            ) == base.spec_get(NameKind::Term, ns2, n2),
        forall|ns2: NamespaceId, n2: Seq<char>|
            !pkg_ty_written(pre, nodes, i, ns2, n2) ==> #[trigger] pre.spec_get(
                NameKind::Ty,
                ns2,
                n2,
            ) == base.spec_get(NameKind::Ty, ns2, n2),
    ensures
        forall|m: int| 0 <= m < i + 1 ==> #[trigger] pkg_node_ok(base, post, nodes, m),
        forall|ns2: NamespaceId, n2: Seq<char>|
            !pkg_term_written(post, nodes, i + 1, ns2, n2) ==> #[trigger] post.spec_get(
                NameKind::Term,
                ns2,
                n2,
            ) == base.spec_get(NameKind::Term, ns2, n2),
        forall|ns2: NamespaceId, n2: Seq<char>|
            !pkg_ty_written(post, nodes, i + 1, ns2, n2) ==> #[trigger] post.spec_get(
                NameKind::Ty,
                ns2,
                n2,
            ) == base.spec_get(NameKind::Ty, ns2, n2),
{
    let ns_i = nodes[i]->Namespace_0;
    let path_i = crate::ast::idents_view(ns_i.name@);
    let nsid_i = post.namespaces.spec_find(path_i)->0;
    let items_i = ns_i.items@;
    // Slot stability carries forward.
    assert forall|ns2: NamespaceId, n2: Seq<char>|
        !pkg_term_written(post, nodes, i + 1, ns2, n2) implies #[trigger] post.spec_get(
        NameKind::Term,
        ns2,
        n2,
    ) == base.spec_get(NameKind::Term, ns2, n2) by {
        if pkg_term_written(pre, nodes, i, ns2, n2) {
            let m2 = choose|m2: int|
                0 <= m2 < i && ((#[trigger] nodes[m2])
                    matches crate::ast::TopLevelNode::Namespace(ns)
                    && pre.namespaces.spec_find(crate::ast::idents_view(ns.name@)) == Some(ns2)
                    && term_declared_before(ns.items@, ns.items@.len() as int, n2));
            let ns_m = nodes[m2]->Namespace_0;
            assert(post.namespaces.spec_find(crate::ast::idents_view(ns_m.name@)) == Some(ns2));
            assert(pkg_term_written(post, nodes, i + 1, ns2, n2));
        }
        assert(pre.spec_get(NameKind::Term, ns2, n2) == base.spec_get(NameKind::Term, ns2, n2));
        if ns2 == nsid_i && term_declared_before(items_i, items_i.len() as int, n2) {
            assert(pkg_term_written(post, nodes, i + 1, ns2, n2));
        }
        assert(post.spec_get(NameKind::Term, ns2, n2) == pre.spec_get(NameKind::Term, ns2, n2));
    }
    assert forall|ns2: NamespaceId, n2: Seq<char>|
        !pkg_ty_written(post, nodes, i + 1, ns2, n2) implies #[trigger] post.spec_get(
        NameKind::Ty,
        ns2,
        n2,
    ) == base.spec_get(NameKind::Ty, ns2, n2) by {
        if pkg_ty_written(pre, nodes, i, ns2, n2) {
            let m2 = choose|m2: int|
                0 <= m2 < i && ((#[trigger] nodes[m2])
                    matches crate::ast::TopLevelNode::Namespace(ns)
                    && pre.namespaces.spec_find(crate::ast::idents_view(ns.name@)) == Some(ns2)
                    && ty_declared_before(ns.items@, ns.items@.len() as int, n2));
            let ns_m = nodes[m2]->Namespace_0;
            assert(post.namespaces.spec_find(crate::ast::idents_view(ns_m.name@)) == Some(ns2));
            assert(pkg_ty_written(post, nodes, i + 1, ns2, n2));
        }
        assert(pre.spec_get(NameKind::Ty, ns2, n2) == base.spec_get(NameKind::Ty, ns2, n2));
        if ns2 == nsid_i && ty_declared_before(items_i, items_i.len() as int, n2) {
            assert(pkg_ty_written(post, nodes, i + 1, ns2, n2));
        }
        assert(post.spec_get(NameKind::Ty, ns2, n2) == pre.spec_get(NameKind::Ty, ns2, n2));
    }
    // Node effects carry forward, and the fresh node's effect holds
    // against the pre-package baseline.
    assert forall|m: int| 0 <= m < i + 1 implies #[trigger] pkg_node_ok(base, post, nodes, m) by {
        match nodes[m] {
            crate::ast::TopLevelNode::Namespace(ns_m) => {
                if ns_path_unique(nodes, m) {
                    let path_m = crate::ast::idents_view(ns_m.name@);
                    if m == i {
                        assert forall|k: int|
                            0 <= k < items_i.len() implies #[trigger] callable_first_bound(
                            base,
                            post,
                            nsid_i,
                            items_i,
                            k,
                        ) && newtype_first_bound(base, post, nsid_i, items_i, k) by {
                            assert(callable_first_bound(pre, post, nsid_i, items_i, k));
                            assert(newtype_first_bound(pre, post, nsid_i, items_i, k));
                            match items_i[k].kind {
                                crate::ast::ItemKind::Callable(decl) => {
                                    let nm = decl.name.name@;
                                    assert(!pkg_term_written(pre, nodes, i, nsid_i, nm)) by {
                                        if pkg_term_written(pre, nodes, i, nsid_i, nm) {
                                            let m2 = choose|m2: int|
                                                0 <= m2 < i && ((#[trigger] nodes[m2])
                                                    matches crate::ast::TopLevelNode::Namespace(
                                                    ns,
                                                ) && pre.namespaces.spec_find(
                                                    crate::ast::idents_view(ns.name@),
                                                ) == Some(nsid_i) && term_declared_before(
                                                    ns.items@,
                                                    ns.items@.len() as int,
                                                    nm,
                                                ));
                                            let ns2 = nodes[m2]->Namespace_0;
                                            let path2 = crate::ast::idents_view(ns2.name@);
                                            assert(post.namespaces.spec_find(path2) == Some(
                                                nsid_i,
                                            ));
                                            if path2 != path_i {
                                                post.namespaces.lemma_distinct_paths_distinct_ids(
                                                    path2,
                                                    path_i,
                                                );
                                            }
                                        }
                                    }
                                    assert(pre.spec_get(NameKind::Term, nsid_i, nm)
                                        == base.spec_get(NameKind::Term, nsid_i, nm));
                                },
                                crate::ast::ItemKind::Ty(tyname, _) => {
                                    let nm = tyname.name@;
                                    assert(!pkg_term_written(pre, nodes, i, nsid_i, nm)) by {
                                        if pkg_term_written(pre, nodes, i, nsid_i, nm) {
                                            let m2 = choose|m2: int|
                                                0 <= m2 < i && ((#[trigger] nodes[m2])
                                                    matches crate::ast::TopLevelNode::Namespace(
                                                    ns,
                                                ) && pre.namespaces.spec_find(
                                                    crate::ast::idents_view(ns.name@),
                                                ) == Some(nsid_i) && term_declared_before(
                                                    ns.items@,
                                                    ns.items@.len() as int,
                                                    nm,
                                                ));
                                            let ns2 = nodes[m2]->Namespace_0;
                                            let path2 = crate::ast::idents_view(ns2.name@);
                                            assert(post.namespaces.spec_find(path2) == Some(
                                                nsid_i,
                                            ));
                                            if path2 != path_i {
                                                post.namespaces.lemma_distinct_paths_distinct_ids(
                                                    path2,
                                                    path_i,
                                                );
                                            }
                                        }
                                    }
                                    assert(!pkg_ty_written(pre, nodes, i, nsid_i, nm)) by {
                                        if pkg_ty_written(pre, nodes, i, nsid_i, nm) {
                                            let m2 = choose|m2: int|
                                                0 <= m2 < i && ((#[trigger] nodes[m2])
                                                    matches crate::ast::TopLevelNode::Namespace(
                                                    ns,
                                                ) && pre.namespaces.spec_find(
                                                    crate::ast::idents_view(ns.name@),
                                                ) == Some(nsid_i) && ty_declared_before(
                                                    ns.items@,
                                                    ns.items@.len() as int,
                                                    nm,
                                                ));
                                            let ns2 = nodes[m2]->Namespace_0;
                                            let path2 = crate::ast::idents_view(ns2.name@);
                                            assert(post.namespaces.spec_find(path2) == Some(
                                                nsid_i,
                                            ));
                                            if path2 != path_i {
                                                post.namespaces.lemma_distinct_paths_distinct_ids(
                                                    path2,
                                                    path_i,
                                                );
                                            }
                                        }
                                    }
                                    assert(pre.spec_get(NameKind::Term, nsid_i, nm)
                                        == base.spec_get(NameKind::Term, nsid_i, nm));
                                    assert(pre.spec_get(NameKind::Ty, nsid_i, nm)
                                        == base.spec_get(NameKind::Ty, nsid_i, nm));
                                },
                                _ => {},
                            }
                        }
                    } else {
                        assert(pkg_node_ok(base, pre, nodes, m));
                        assert(pre.namespaces.spec_find(path_m) is Some);
                        let nsid_m = pre.namespaces.spec_find(path_m)->0;
                        assert(post.namespaces.spec_find(path_m) == Some(nsid_m));
                        assert(path_m != path_i);
                        post.namespaces.lemma_distinct_paths_distinct_ids(path_m, path_i);
                        assert(nsid_m != nsid_i);
                        assert forall|k: int|
                            0 <= k < ns_m.items@.len() implies #[trigger] callable_first_bound(
                            base,
                            post,
                            nsid_m,
                            ns_m.items@,
                            k,
                        ) && newtype_first_bound(base, post, nsid_m, ns_m.items@, k) by {
                            assert(callable_first_bound(base, pre, nsid_m, ns_m.items@, k));
                            assert(newtype_first_bound(base, pre, nsid_m, ns_m.items@, k));
                            match ns_m.items@[k].kind {
                                crate::ast::ItemKind::Callable(decl) => {
                                    assert(post.spec_get(
                                        NameKind::Term,
                                        nsid_m,
                                        decl.name.name@,
                                    ) == pre.spec_get(NameKind::Term, nsid_m, decl.name.name@));
                                },
                                crate::ast::ItemKind::Ty(tyname, _) => {
                                    assert(post.spec_get(NameKind::Term, nsid_m, tyname.name@)
                                        == pre.spec_get(NameKind::Term, nsid_m, tyname.name@));
                                    assert(post.spec_get(NameKind::Ty, nsid_m, tyname.name@)
                                        == pre.spec_get(NameKind::Ty, nsid_m, tyname.name@));
                                },
                                _ => {},
                            }
                        }
                    }
                }
            },
            _ => {},
        }
    }
}

/// The global declaration table under construction, together with the
/// resolutions already recorded for declaration-name nodes.
#[derive(Debug)]
pub struct GlobalTable {
    pub names: Names,
    pub scope: GlobalScope,
}

impl GlobalTable {
    /// The fresh table: the built-in primitive types stand in the
    /// `Microsoft.Quantum.Core` namespace as type declarations.
    pub fn new() -> (r: Self)
        ensures
            r.scope.namespaces.wf(),
            r.names.entries@.len() == 0,
            r.scope.terms@.len() == 0,
            r.scope.intrinsics@.len() == 0,
            r.scope.namespaces.spec_find(
                seq!["Microsoft"@, "Quantum"@, "Core"@],
            ) matches Some(core) && (forall|n: Seq<char>, res: Res|
                builtin_prim(n, res) ==> r.scope.spec_get(NameKind::Ty, core, n) == Some(res))
                && (forall|ns2: NamespaceId, n2: Seq<char>|
                r.scope.spec_get(NameKind::Ty, ns2, n2) is Some ==> ns2 == core && (exists|
                res: Res,
            |
                builtin_prim(n2, res))),
            r.scope.namespaces.tree.id == NamespaceId(0),
    {
        let mut scope = GlobalScope {
            tys: Vec::new(),
            terms: Vec::new(),
            namespaces: NamespaceTreeRoot::default(),
            intrinsics: Vec::new(),
        };
        let core_path = make_path3("Microsoft", "Quantum", "Core");
        proof {
            assert(path_view(core_path@) =~= seq!["Microsoft"@, "Quantum"@, "Core"@]);
        }
        let ns = scope.insert_or_find_namespace(&core_path);
        proof {
            assert forall|ns2: NamespaceId, n2: Seq<char>|
                scope.spec_get(NameKind::Ty, ns2, n2) is None by {
                assert(scope.tys@.len() == 0);
            }
        }
        let nm0: String = "BigInt".to_owned();
        proof {
            assert(nm0@ == "BigInt"@);
        }
        let ghost g0 = scope;
        scope.set(NameKind::Ty, ns, nm0, Res::PrimTy(Prim::BigInt));
        proof {
            reveal_strlit("BigInt");
            assert(scope.spec_get(NameKind::Ty, ns, "BigInt"@) == Some(Res::PrimTy(Prim::BigInt)));
            assert forall|ns2: NamespaceId, n2: Seq<char>|
                scope.spec_get(NameKind::Ty, ns2, n2) is Some implies ns2 == ns && (n2 == "BigInt"@) by {
                if !(ns2 == ns && n2 == "BigInt"@) {
                    assert(scope.spec_get(NameKind::Ty, ns2, n2) == g0.spec_get(
                        NameKind::Ty,
                        ns2,
                        n2,
                    ));
                }
            }
        }
        let nm1: String = "Bool".to_owned();
        proof {
            assert(nm1@ == "Bool"@);
        }
        let ghost g1 = scope;
        scope.set(NameKind::Ty, ns, nm1, Res::PrimTy(Prim::Bool));
        proof {
            reveal_strlit("BigInt");
            reveal_strlit("Bool");
            assert("BigInt"@ != "Bool"@);
            assert(scope.spec_get(NameKind::Ty, ns, "BigInt"@) == Some(Res::PrimTy(Prim::BigInt)));
            assert(scope.spec_get(NameKind::Ty, ns, "Bool"@) == Some(Res::PrimTy(Prim::Bool)));
            assert forall|ns2: NamespaceId, n2: Seq<char>|
                scope.spec_get(NameKind::Ty, ns2, n2) is Some implies ns2 == ns && (n2 == "BigInt"@ || n2 == "Bool"@) by {
                if !(ns2 == ns && n2 == "Bool"@) {
                    assert(scope.spec_get(NameKind::Ty, ns2, n2) == g1.spec_get(
                        NameKind::Ty,
                        ns2,
                        n2,
                    ));
                }
            }
        }
        let nm2: String = "Double".to_owned();
        proof {
            assert(nm2@ == "Double"@);
        }
        let ghost g2 = scope;
        scope.set(NameKind::Ty, ns, nm2, Res::PrimTy(Prim::Double));
        proof {
            reveal_strlit("BigInt");
            reveal_strlit("Bool");
            reveal_strlit("Double");
            assert("BigInt"@[0] != "Double"@[0]);
            assert("BigInt"@ != "Double"@);
            assert("Bool"@ != "Double"@);
            assert(scope.spec_get(NameKind::Ty, ns, "BigInt"@) == Some(Res::PrimTy(Prim::BigInt)));
            assert(scope.spec_get(NameKind::Ty, ns, "Bool"@) == Some(Res::PrimTy(Prim::Bool)));
            assert(scope.spec_get(NameKind::Ty, ns, "Double"@) == Some(Res::PrimTy(Prim::Double)));
            assert forall|ns2: NamespaceId, n2: Seq<char>|
                scope.spec_get(NameKind::Ty, ns2, n2) is Some implies ns2 == ns && (n2 == "BigInt"@ || n2 == "Bool"@ || n2 == "Double"@) by {
                if !(ns2 == ns && n2 == "Double"@) {
                    assert(scope.spec_get(NameKind::Ty, ns2, n2) == g2.spec_get(
                        NameKind::Ty,
                        ns2,
                        n2,
                    ));
                }
            }
        }
        let nm3: String = "Int".to_owned();
        proof {
            assert(nm3@ == "Int"@);
        }
        let ghost g3 = scope;
        scope.set(NameKind::Ty, ns, nm3, Res::PrimTy(Prim::Int));
        proof {
            reveal_strlit("BigInt");
            reveal_strlit("Bool");
            reveal_strlit("Double");
            reveal_strlit("Int");
            assert("BigInt"@ != "Int"@);
            assert("Bool"@ != "Int"@);
            assert("Double"@ != "Int"@);
            assert(scope.spec_get(NameKind::Ty, ns, "BigInt"@) == Some(Res::PrimTy(Prim::BigInt)));
            assert(scope.spec_get(NameKind::Ty, ns, "Bool"@) == Some(Res::PrimTy(Prim::Bool)));
            assert(scope.spec_get(NameKind::Ty, ns, "Double"@) == Some(Res::PrimTy(Prim::Double)));
            assert(scope.spec_get(NameKind::Ty, ns, "Int"@) == Some(Res::PrimTy(Prim::Int)));
            assert forall|ns2: NamespaceId, n2: Seq<char>|
                scope.spec_get(NameKind::Ty, ns2, n2) is Some implies ns2 == ns && (n2 == "BigInt"@ || n2 == "Bool"@ || n2 == "Double"@ || n2 == "Int"@) by {
                if !(ns2 == ns && n2 == "Int"@) {
                    assert(scope.spec_get(NameKind::Ty, ns2, n2) == g3.spec_get(
                        NameKind::Ty,
                        ns2,
                        n2,
                    ));
                }
            }
        }
        let nm4: String = "Pauli".to_owned();
        proof {
            assert(nm4@ == "Pauli"@);
        }
        let ghost g4 = scope;
        scope.set(NameKind::Ty, ns, nm4, Res::PrimTy(Prim::Pauli));
        proof {
            reveal_strlit("BigInt");
            reveal_strlit("Bool");
            reveal_strlit("Double");
            reveal_strlit("Int");
            reveal_strlit("Pauli");
            assert("BigInt"@ != "Pauli"@);
            assert("Bool"@ != "Pauli"@);
            assert("Double"@ != "Pauli"@);
            assert("Int"@ != "Pauli"@);
            assert(scope.spec_get(NameKind::Ty, ns, "BigInt"@) == Some(Res::PrimTy(Prim::BigInt)));
            assert(scope.spec_get(NameKind::Ty, ns, "Bool"@) == Some(Res::PrimTy(Prim::Bool)));
            assert(scope.spec_get(NameKind::Ty, ns, "Double"@) == Some(Res::PrimTy(Prim::Double)));
            assert(scope.spec_get(NameKind::Ty, ns, "Int"@) == Some(Res::PrimTy(Prim::Int)));
            assert(scope.spec_get(NameKind::Ty, ns, "Pauli"@) == Some(Res::PrimTy(Prim::Pauli)));
            assert forall|ns2: NamespaceId, n2: Seq<char>|
                scope.spec_get(NameKind::Ty, ns2, n2) is Some implies ns2 == ns && (n2 == "BigInt"@ || n2 == "Bool"@ || n2 == "Double"@ || n2 == "Int"@ || n2 == "Pauli"@) by {
                if !(ns2 == ns && n2 == "Pauli"@) {
                    assert(scope.spec_get(NameKind::Ty, ns2, n2) == g4.spec_get(
                        NameKind::Ty,
                        ns2,
                        n2,
                    ));
                }
            }
        }
        let nm5: String = "Qubit".to_owned();
        proof {
            assert(nm5@ == "Qubit"@);
        }
        let ghost g5 = scope;
        scope.set(NameKind::Ty, ns, nm5, Res::PrimTy(Prim::Qubit));
        proof {
            reveal_strlit("BigInt");
            reveal_strlit("Bool");
            reveal_strlit("Double");
            reveal_strlit("Int");
            reveal_strlit("Pauli");
            reveal_strlit("Qubit");
            assert("BigInt"@ != "Qubit"@);
            assert("Bool"@ != "Qubit"@);
            assert("Double"@ != "Qubit"@);
            assert("Int"@ != "Qubit"@);
            assert("Pauli"@[0] != "Qubit"@[0]);
            assert("Pauli"@ != "Qubit"@);
            assert(scope.spec_get(NameKind::Ty, ns, "BigInt"@) == Some(Res::PrimTy(Prim::BigInt)));
            assert(scope.spec_get(NameKind::Ty, ns, "Bool"@) == Some(Res::PrimTy(Prim::Bool)));
            assert(scope.spec_get(NameKind::Ty, ns, "Double"@) == Some(Res::PrimTy(Prim::Double)));
            assert(scope.spec_get(NameKind::Ty, ns, "Int"@) == Some(Res::PrimTy(Prim::Int)));
            assert(scope.spec_get(NameKind::Ty, ns, "Pauli"@) == Some(Res::PrimTy(Prim::Pauli)));
            assert(scope.spec_get(NameKind::Ty, ns, "Qubit"@) == Some(Res::PrimTy(Prim::Qubit)));
            assert forall|ns2: NamespaceId, n2: Seq<char>|
                scope.spec_get(NameKind::Ty, ns2, n2) is Some implies ns2 == ns && (n2 == "BigInt"@ || n2 == "Bool"@ || n2 == "Double"@ || n2 == "Int"@ || n2 == "Pauli"@ || n2 == "Qubit"@) by {
                if !(ns2 == ns && n2 == "Qubit"@) {
                    assert(scope.spec_get(NameKind::Ty, ns2, n2) == g5.spec_get(
                        NameKind::Ty,
                        ns2,
                        n2,
                    ));
                }
            }
        }
        let nm6: String = "Range".to_owned();
        proof {
            assert(nm6@ == "Range"@);
        }
        let ghost g6 = scope;
        scope.set(NameKind::Ty, ns, nm6, Res::PrimTy(Prim::Range));
        proof {
            reveal_strlit("BigInt");
            reveal_strlit("Bool");
            reveal_strlit("Double");
            reveal_strlit("Int");
            reveal_strlit("Pauli");
            reveal_strlit("Qubit");
            reveal_strlit("Range");
            assert("BigInt"@ != "Range"@);
            assert("Bool"@ != "Range"@);
            assert("Double"@ != "Range"@);
            assert("Int"@ != "Range"@);
            assert("Pauli"@[0] != "Range"@[0]);
            assert("Pauli"@ != "Range"@);
            assert("Qubit"@[0] != "Range"@[0]);
            assert("Qubit"@ != "Range"@);
            assert(scope.spec_get(NameKind::Ty, ns, "BigInt"@) == Some(Res::PrimTy(Prim::BigInt)));
            assert(scope.spec_get(NameKind::Ty, ns, "Bool"@) == Some(Res::PrimTy(Prim::Bool)));
            assert(scope.spec_get(NameKind::Ty, ns, "Double"@) == Some(Res::PrimTy(Prim::Double)));
            assert(scope.spec_get(NameKind::Ty, ns, "Int"@) == Some(Res::PrimTy(Prim::Int)));
            assert(scope.spec_get(NameKind::Ty, ns, "Pauli"@) == Some(Res::PrimTy(Prim::Pauli)));
            assert(scope.spec_get(NameKind::Ty, ns, "Qubit"@) == Some(Res::PrimTy(Prim::Qubit)));
            assert(scope.spec_get(NameKind::Ty, ns, "Range"@) == Some(Res::PrimTy(Prim::Range)));
            assert forall|ns2: NamespaceId, n2: Seq<char>|
                scope.spec_get(NameKind::Ty, ns2, n2) is Some implies ns2 == ns && (n2 == "BigInt"@ || n2 == "Bool"@ || n2 == "Double"@ || n2 == "Int"@ || n2 == "Pauli"@ || n2 == "Qubit"@ || n2 == "Range"@) by {
                if !(ns2 == ns && n2 == "Range"@) {
                    assert(scope.spec_get(NameKind::Ty, ns2, n2) == g6.spec_get(
                        NameKind::Ty,
                        ns2,
                        n2,
                    ));
                }
            }
        }
        let nm7: String = "Result".to_owned();
        proof {
            assert(nm7@ == "Result"@);
        }
        let ghost g7 = scope;
        scope.set(NameKind::Ty, ns, nm7, Res::PrimTy(Prim::Result));
        proof {
            reveal_strlit("BigInt");
            reveal_strlit("Bool");
            reveal_strlit("Double");
            reveal_strlit("Int");
            reveal_strlit("Pauli");
            reveal_strlit("Qubit");
            reveal_strlit("Range");
            reveal_strlit("Result");
            assert("BigInt"@[0] != "Result"@[0]);
            assert("BigInt"@ != "Result"@);
            assert("Bool"@ != "Result"@);
            assert("Double"@[0] != "Result"@[0]);
            assert("Double"@ != "Result"@);
            assert("Int"@ != "Result"@);
            assert("Pauli"@ != "Result"@);
            assert("Qubit"@ != "Result"@);
            assert("Range"@ != "Result"@);
            assert(scope.spec_get(NameKind::Ty, ns, "BigInt"@) == Some(Res::PrimTy(Prim::BigInt)));
            assert(scope.spec_get(NameKind::Ty, ns, "Bool"@) == Some(Res::PrimTy(Prim::Bool)));
            assert(scope.spec_get(NameKind::Ty, ns, "Double"@) == Some(Res::PrimTy(Prim::Double)));
            assert(scope.spec_get(NameKind::Ty, ns, "Int"@) == Some(Res::PrimTy(Prim::Int)));
            assert(scope.spec_get(NameKind::Ty, ns, "Pauli"@) == Some(Res::PrimTy(Prim::Pauli)));
            assert(scope.spec_get(NameKind::Ty, ns, "Qubit"@) == Some(Res::PrimTy(Prim::Qubit)));
            assert(scope.spec_get(NameKind::Ty, ns, "Range"@) == Some(Res::PrimTy(Prim::Range)));
            assert(scope.spec_get(NameKind::Ty, ns, "Result"@) == Some(Res::PrimTy(Prim::Result)));
            assert forall|ns2: NamespaceId, n2: Seq<char>|
                scope.spec_get(NameKind::Ty, ns2, n2) is Some implies ns2 == ns && (n2 == "BigInt"@ || n2 == "Bool"@ || n2 == "Double"@ || n2 == "Int"@ || n2 == "Pauli"@ || n2 == "Qubit"@ || n2 == "Range"@ || n2 == "Result"@) by {
                if !(ns2 == ns && n2 == "Result"@) {
                    assert(scope.spec_get(NameKind::Ty, ns2, n2) == g7.spec_get(
                        NameKind::Ty,
                        ns2,
                        n2,
                    ));
                }
            }
        }
        let nm8: String = "String".to_owned();
        proof {
            assert(nm8@ == "String"@);
        }
        let ghost g8 = scope;
        scope.set(NameKind::Ty, ns, nm8, Res::PrimTy(Prim::String));
        proof {
            reveal_strlit("BigInt");
            reveal_strlit("Bool");
            reveal_strlit("Double");
            reveal_strlit("Int");
            reveal_strlit("Pauli");
            reveal_strlit("Qubit");
            reveal_strlit("Range");
            reveal_strlit("Result");
            reveal_strlit("String");
            assert("BigInt"@[0] != "String"@[0]);
            assert("BigInt"@ != "String"@);
            assert("Bool"@ != "String"@);
            assert("Double"@[0] != "String"@[0]);
            assert("Double"@ != "String"@);
            assert("Int"@ != "String"@);
            assert("Pauli"@ != "String"@);
            assert("Qubit"@ != "String"@);
            assert("Range"@ != "String"@);
            assert("Result"@[0] != "String"@[0]);
            assert("Result"@ != "String"@);
            assert(scope.spec_get(NameKind::Ty, ns, "BigInt"@) == Some(Res::PrimTy(Prim::BigInt)));
            assert(scope.spec_get(NameKind::Ty, ns, "Bool"@) == Some(Res::PrimTy(Prim::Bool)));
            assert(scope.spec_get(NameKind::Ty, ns, "Double"@) == Some(Res::PrimTy(Prim::Double)));
            assert(scope.spec_get(NameKind::Ty, ns, "Int"@) == Some(Res::PrimTy(Prim::Int)));
            assert(scope.spec_get(NameKind::Ty, ns, "Pauli"@) == Some(Res::PrimTy(Prim::Pauli)));
            assert(scope.spec_get(NameKind::Ty, ns, "Qubit"@) == Some(Res::PrimTy(Prim::Qubit)));
            assert(scope.spec_get(NameKind::Ty, ns, "Range"@) == Some(Res::PrimTy(Prim::Range)));
            assert(scope.spec_get(NameKind::Ty, ns, "Result"@) == Some(Res::PrimTy(Prim::Result)));
            assert(scope.spec_get(NameKind::Ty, ns, "String"@) == Some(Res::PrimTy(Prim::String)));
            assert forall|ns2: NamespaceId, n2: Seq<char>|
                scope.spec_get(NameKind::Ty, ns2, n2) is Some implies ns2 == ns && (n2 == "BigInt"@ || n2 == "Bool"@ || n2 == "Double"@ || n2 == "Int"@ || n2 == "Pauli"@ || n2 == "Qubit"@ || n2 == "Range"@ || n2 == "Result"@ || n2 == "String"@) by {
                if !(ns2 == ns && n2 == "String"@) {
                    assert(scope.spec_get(NameKind::Ty, ns2, n2) == g8.spec_get(
                        NameKind::Ty,
                        ns2,
                        n2,
                    ));
                }
            }
        }
        let nm9: String = "Unit".to_owned();
        proof {
            assert(nm9@ == "Unit"@);
        }
        let ghost g9 = scope;
        scope.set(NameKind::Ty, ns, nm9, Res::UnitTy);
        proof {
            reveal_strlit("BigInt");
            reveal_strlit("Bool");
            reveal_strlit("Double");
            reveal_strlit("Int");
            reveal_strlit("Pauli");
            reveal_strlit("Qubit");
            reveal_strlit("Range");
            reveal_strlit("Result");
            reveal_strlit("String");
            reveal_strlit("Unit");
            assert("BigInt"@ != "Unit"@);
            assert("Bool"@[0] != "Unit"@[0]);
            assert("Bool"@ != "Unit"@);
            assert("Double"@ != "Unit"@);
            assert("Int"@ != "Unit"@);
            assert("Pauli"@ != "Unit"@);
            assert("Qubit"@ != "Unit"@);
            assert("Range"@ != "Unit"@);
            assert("Result"@ != "Unit"@);
            assert("String"@ != "Unit"@);
            assert(scope.spec_get(NameKind::Ty, ns, "BigInt"@) == Some(Res::PrimTy(Prim::BigInt)));
            assert(scope.spec_get(NameKind::Ty, ns, "Bool"@) == Some(Res::PrimTy(Prim::Bool)));
            assert(scope.spec_get(NameKind::Ty, ns, "Double"@) == Some(Res::PrimTy(Prim::Double)));
            assert(scope.spec_get(NameKind::Ty, ns, "Int"@) == Some(Res::PrimTy(Prim::Int)));
            assert(scope.spec_get(NameKind::Ty, ns, "Pauli"@) == Some(Res::PrimTy(Prim::Pauli)));
            assert(scope.spec_get(NameKind::Ty, ns, "Qubit"@) == Some(Res::PrimTy(Prim::Qubit)));
            assert(scope.spec_get(NameKind::Ty, ns, "Range"@) == Some(Res::PrimTy(Prim::Range)));
            assert(scope.spec_get(NameKind::Ty, ns, "Result"@) == Some(Res::PrimTy(Prim::Result)));
            assert(scope.spec_get(NameKind::Ty, ns, "String"@) == Some(Res::PrimTy(Prim::String)));
            assert(scope.spec_get(NameKind::Ty, ns, "Unit"@) == Some(Res::UnitTy));
            assert forall|ns2: NamespaceId, n2: Seq<char>|
                scope.spec_get(NameKind::Ty, ns2, n2) is Some implies ns2 == ns && (n2 == "BigInt"@ || n2 == "Bool"@ || n2 == "Double"@ || n2 == "Int"@ || n2 == "Pauli"@ || n2 == "Qubit"@ || n2 == "Range"@ || n2 == "Result"@ || n2 == "String"@ || n2 == "Unit"@) by {
                if !(ns2 == ns && n2 == "Unit"@) {
                    assert(scope.spec_get(NameKind::Ty, ns2, n2) == g9.spec_get(
                        NameKind::Ty,
                        ns2,
                        n2,
                    ));
                }
            }
        }
        proof {
            assert(forall|n: Seq<char>, res: Res|
                builtin_prim(n, res) ==> scope.spec_get(NameKind::Ty, ns, n) == Some(res));
            assert forall|ns2: NamespaceId, n2: Seq<char>|
                scope.spec_get(NameKind::Ty, ns2, n2) is Some implies ns2 == ns && (exists|
                res: Res,
            |
                builtin_prim(n2, res)) by {
                if n2 == "BigInt"@ {
                    assert(builtin_prim(n2, Res::PrimTy(Prim::BigInt)));
                }
                if n2 == "Bool"@ {
                    assert(builtin_prim(n2, Res::PrimTy(Prim::Bool)));
                }
                if n2 == "Double"@ {
                    assert(builtin_prim(n2, Res::PrimTy(Prim::Double)));
                }
                if n2 == "Int"@ {
                    assert(builtin_prim(n2, Res::PrimTy(Prim::Int)));
                }
                if n2 == "Pauli"@ {
                    assert(builtin_prim(n2, Res::PrimTy(Prim::Pauli)));
                }
                if n2 == "Qubit"@ {
                    assert(builtin_prim(n2, Res::PrimTy(Prim::Qubit)));
                }
                if n2 == "Range"@ {
                    assert(builtin_prim(n2, Res::PrimTy(Prim::Range)));
                }
                if n2 == "Result"@ {
                    assert(builtin_prim(n2, Res::PrimTy(Prim::Result)));
                }
                if n2 == "String"@ {
                    assert(builtin_prim(n2, Res::PrimTy(Prim::String)));
                }
                if n2 == "Unit"@ {
                    assert(builtin_prim(n2, Res::UnitTy));
                }
            }
        }
        GlobalTable { names: Names::new(), scope }
    }

    /// Bind every namespace of a freshly parsed package into the
    /// table, collecting the duplication errors.
    pub fn add_local_package(
        &mut self,
        assigner: &mut Assigner,
        package: &crate::ast::Package,
    ) -> (r: Vec<Error>)
        requires
            old(self).scope.namespaces.wf(),
            old(self).scope.namespaces.assigner + spec_package_segments(package.nodes@)
                <= usize::MAX,
            forall|i: int|
                0 <= i < package.nodes@.len() ==> (#[trigger] package.nodes@[i])
                    matches crate::ast::TopLevelNode::Namespace(_),
        ensures
            final(self).scope.namespaces.wf(),
            forall|p: Seq<Seq<char>>|
                old(self).scope.namespaces.spec_find(p) is Some
                    ==> final(self).scope.namespaces.spec_find(p) == old(
                    self,
                ).scope.namespaces.spec_find(p),
    {
        let mut errors: Vec<Error> = Vec::new();
        let n = package.nodes.len();
        let mut i: usize = 0;
        let ghost ns0 = self.scope.namespaces;
        proof {
            assert(package.nodes@.skip(0) =~= package.nodes@);
        }
        while i < n
            invariant
                n == package.nodes@.len(),
                i <= n,
                forall|k: int|
                    0 <= k < n ==> (#[trigger] package.nodes@[k])
                        matches crate::ast::TopLevelNode::Namespace(_),
                self.scope.namespaces.wf(),
                self.scope.namespaces.assigner + spec_package_segments(
                    package.nodes@.skip(i as int),
                ) <= usize::MAX,
                forall|p: Seq<Seq<char>>|
                    ns0.spec_find(p) is Some ==> self.scope.namespaces.spec_find(p)
                        == ns0.spec_find(p),
                forall|k: int|
                    0 <= k < i ==> ((#[trigger] package.nodes@[k])
                        matches crate::ast::TopLevelNode::Namespace(ns)
                        ==> self.scope.namespaces.spec_find(
                        crate::ast::idents_view(ns.name@),
                    ) is Some),
                forall|m: int|
                    0 <= m < i ==> #[trigger] pkg_node_ok(
                        old(self).scope,
                        self.scope,
                        package.nodes@,
                        m,
                    ),
                forall|ns2: NamespaceId, n2: Seq<char>|
                    !pkg_term_written(self.scope, package.nodes@, i as int, ns2, n2)
                        ==> #[trigger] self.scope.spec_get(NameKind::Term, ns2, n2) == old(
                        self,
                    ).scope.spec_get(NameKind::Term, ns2, n2),
                forall|ns2: NamespaceId, n2: Seq<char>|
                    !pkg_ty_written(self.scope, package.nodes@, i as int, ns2, n2)
                        ==> #[trigger] self.scope.spec_get(NameKind::Ty, ns2, n2) == old(
                        self,
                    ).scope.spec_get(NameKind::Ty, ns2, n2),
            decreases n - i,
        {
            proof {
                lemma_skip_segments(package.nodes@, i as int);
                lemma_package_segments_nonneg(package.nodes@.skip(i as int + 1));
            }
            let ghost pre_node = *self;
            match &package.nodes[i] {
                crate::ast::TopLevelNode::Namespace(namespace) => {
                    bind_global_items(
                        &mut self.names,
                        &mut self.scope,
                        namespace,
                        assigner,
                        &mut errors,
                    );
                    proof {
                        lemma_pkg_step(
                            old(self).scope,
                            pre_node.scope,
                            self.scope,
                            package.nodes@,
                            i as int,
                        );
                    }
                },
                crate::ast::TopLevelNode::Stmt(_) => {
                    proof {
                        assert(false);
                    }
                },
            }
            i += 1;
        }
        errors
    }

    /// Import the declarations of an already-compiled package: public
    /// declarations, plus intrinsic terms whatever their visibility;
    /// the containing namespace is declared for every imported item.
    #[verifier::rlimit(100)]
    pub fn add_external_package(&mut self, globals: &Vec<Global>)
        requires
            old(self).scope.namespaces.wf(),
            old(self).scope.namespaces.assigner + spec_globals_segments(globals@) <= usize::MAX,
        ensures
            final(self).scope.namespaces.wf(),
            forall|p: Seq<Seq<char>>|
                old(self).scope.namespaces.spec_find(p) is Some
                    ==> final(self).scope.namespaces.spec_find(p) == old(
                    self,
                ).scope.namespaces.spec_find(p),
            forall|i: int|
                0 <= i < globals@.len() && global_qualifies(#[trigger] globals@[i])
                    ==> final(self).scope.namespaces.spec_find(
                    path_view(globals@[i].namespace@),
                ) is Some,
            forall|i: int|
                0 <= i < globals@.len() ==> #[trigger] ty_import_ok(
                    final(self).scope,
                    globals@,
                    i,
                    globals@.len() as int,
                ),
            forall|i: int|
                0 <= i < globals@.len() ==> #[trigger] term_import_ok(
                    final(self).scope,
                    globals@,
                    i,
                    globals@.len() as int,
                ),
            forall|i: int|
                0 <= i < globals@.len() ==> #[trigger] intrinsic_marked(
                    final(self).scope,
                    globals@,
                    i,
                ),
    {
        let n = globals.len();
        let mut i: usize = 0;
        let ghost ns0 = self.scope.namespaces;
        proof {
            assert(globals@.skip(0) =~= globals@);
        }
        while i < n
            invariant
                n == globals@.len(),
                i <= n,
                self.scope.namespaces.wf(),
                self.scope.namespaces.assigner + spec_globals_segments(globals@.skip(i as int))
                    <= usize::MAX,
                forall|p: Seq<Seq<char>>|
                    ns0.spec_find(p) is Some ==> self.scope.namespaces.spec_find(p)
                        == ns0.spec_find(p),
                forall|k: int|
                    0 <= k < i && global_qualifies(#[trigger] globals@[k])
                        ==> self.scope.namespaces.spec_find(
                        path_view(globals@[k].namespace@),
                    ) is Some,
                forall|k: int|
                    0 <= k < i ==> #[trigger] ty_import_ok(self.scope, globals@, k, i as int),
                forall|k: int|
                    0 <= k < i ==> #[trigger] term_import_ok(self.scope, globals@, k, i as int),
                forall|k: int|
                    0 <= k < i ==> #[trigger] intrinsic_marked(self.scope, globals@, k),
            decreases n - i,
        {
            proof {
                lemma_skip_globals_segments(globals@, i as int);
                lemma_globals_segments_nonneg(globals@.skip(i as int + 1));
            }
            let ghost pre_scope = self.scope;
            let g = &globals[i];
            let keep = match (g.visibility, g.kind) {
                (Visibility::Public, _) => true,
                (_, GlobalKind::Term(_, intr)) => intr,
                _ => false,
            };
            if keep {
                let gpath = clone_path(&g.namespace);
                let namespace = self.scope.insert_or_find_namespace(&gpath);
                match (g.kind, g.visibility) {
                    (GlobalKind::Ty(id), Visibility::Public) => {
                        self.scope.set(
                            NameKind::Ty,
                            namespace,
                            g.name.clone(),
                            Res::Item(id, g.status),
                        );
                    },
                    (GlobalKind::Term(id, intr), vis) => {
                        if matches!(vis, Visibility::Public) {
                            self.scope.set(
                                NameKind::Term,
                                namespace,
                                g.name.clone(),
                                Res::Item(id, g.status),
                            );
                        }
                        if intr {
                            let _ = self.scope.add_intrinsic(g.name.clone());
                        }
                    },
                    _ => {},
                }
                proof {
                    let gs = globals@;
                    let ii = i as int;
                    assert forall|k: int| 0 <= k < ii + 1 implies #[trigger] ty_import_ok(
                        self.scope,
                        gs,
                        k,
                        ii + 1,
                    ) by {
                        if writes_ty(gs[k]) && !slot_shadowed_upto(gs, k, ii + 1, true) {
                            if k == ii {
                                assert(self.scope.namespaces.spec_find(
                                    path_view(gs[ii].namespace@),
                                ) == Some(namespace));
                            } else {
                                if slot_shadowed_upto(gs, k, ii, true) {
                                    lemma_shadow_mono(gs, k, ii, ii + 1, true);
                                }
                                assert(ty_import_ok(pre_scope, gs, k, ii));
                                let p_k = path_view(gs[k].namespace@);
                                let ns_k = pre_scope.namespaces.spec_find(p_k)->0;
                                assert(self.scope.namespaces.spec_find(p_k) == Some(ns_k));
                                if writes_ty(gs[ii]) && gs[ii].name@ == gs[k].name@ {
                                    if path_view(gs[ii].namespace@) == p_k {
                                        lemma_shadow_intro(gs, k, ii, ii + 1, true);
                                        assert(false);
                                    } else {
                                        self.scope.namespaces.lemma_distinct_paths_distinct_ids(
                                            p_k,
                                            path_view(gs[ii].namespace@),
                                        );
                                        assert(namespace != ns_k);
                                        assert(self.scope.spec_get(
                                            NameKind::Ty,
                                            ns_k,
                                            gs[k].name@,
                                        ) == pre_scope.spec_get(NameKind::Ty, ns_k, gs[k].name@));
                                    }
                                } else {
                                    assert(self.scope.spec_get(NameKind::Ty, ns_k, gs[k].name@)
                                        == pre_scope.spec_get(NameKind::Ty, ns_k, gs[k].name@));
                                }
                            }
                        }
                    }
                    assert forall|k: int| 0 <= k < ii + 1 implies #[trigger] term_import_ok(
                        self.scope,
                        gs,
                        k,
                        ii + 1,
                    ) by {
                        if writes_term(gs[k]) && !slot_shadowed_upto(gs, k, ii + 1, false) {
                            if k == ii {
                                assert(self.scope.namespaces.spec_find(
                                    path_view(gs[ii].namespace@),
                                ) == Some(namespace));
                                assert(self.scope.spec_get(
                                    NameKind::Term,
                                    namespace,
                                    gs[ii].name@,
                                ) == Some(imported_res(gs[ii])));
                            } else {
                                if slot_shadowed_upto(gs, k, ii, false) {
                                    lemma_shadow_mono(gs, k, ii, ii + 1, false);
                                }
                                assert(term_import_ok(pre_scope, gs, k, ii));
                                let p_k = path_view(gs[k].namespace@);
                                let ns_k = pre_scope.namespaces.spec_find(p_k)->0;
                                assert(self.scope.namespaces.spec_find(p_k) == Some(ns_k));
                                if writes_term(gs[ii]) && gs[ii].name@ == gs[k].name@ {
                                    if path_view(gs[ii].namespace@) == p_k {
                                        lemma_shadow_intro(gs, k, ii, ii + 1, false);
                                        assert(false);
                                    } else {
                                        self.scope.namespaces.lemma_distinct_paths_distinct_ids(
                                            p_k,
                                            path_view(gs[ii].namespace@),
                                        );
                                        assert(namespace != ns_k);
                                        assert(self.scope.spec_get(
                                            NameKind::Term,
                                            ns_k,
                                            gs[k].name@,
                                        ) == pre_scope.spec_get(
                                            NameKind::Term,
                                            ns_k,
                                            gs[k].name@,
                                        ));
                                    }
                                } else {
                                    assert(self.scope.spec_get(NameKind::Term, ns_k, gs[k].name@)
                                        == pre_scope.spec_get(NameKind::Term, ns_k, gs[k].name@));
                                }
                            }
                        }
                    }
                    assert forall|k: int| 0 <= k < ii + 1 implies #[trigger] intrinsic_marked(
                        self.scope,
                        gs,
                        k,
                    ) by {
                        if gs[k].kind matches GlobalKind::Term(_, true) {
                            if k < ii {
                                assert(intrinsic_marked(pre_scope, gs, k));
                                assert(names_contain(pre_scope.intrinsics@, gs[k].name@));
                                let w = choose|w: int|
                                    0 <= w < pre_scope.intrinsics@.len() && (
                                    #[trigger] pre_scope.intrinsics@[w])@ == gs[k].name@;
                                assert(self.scope.intrinsics@[w]@ == gs[k].name@);
                            } else {
                                let nm = gs[ii].name@;
                                if names_contain(pre_scope.intrinsics@, nm) {
                                    let w = choose|w: int|
                                        0 <= w < pre_scope.intrinsics@.len() && (
                                        #[trigger] pre_scope.intrinsics@[w])@ == nm;
                                    assert(self.scope.intrinsics@[w]@ == nm);
                                } else {
                                    assert(self.scope.intrinsics@.last()@ == nm);
                                }
                            }
                        }
                    }
                }
            } else {
                proof {
                    let gs = globals@;
                    let ii = i as int;
                    assert forall|k: int| 0 <= k < ii + 1 implies #[trigger] ty_import_ok(
                        self.scope,
                        gs,
                        k,
                        ii + 1,
                    ) by {
                        if writes_ty(gs[k]) && !slot_shadowed_upto(gs, k, ii + 1, true) {
                            if slot_shadowed_upto(gs, k, ii, true) {
                                lemma_shadow_mono(gs, k, ii, ii + 1, true);
                            }
                            assert(k < ii);
                            assert(ty_import_ok(self.scope, gs, k, ii));
                        }
                    }
                    assert forall|k: int| 0 <= k < ii + 1 implies #[trigger] term_import_ok(
                        self.scope,
                        gs,
                        k,
                        ii + 1,
                    ) by {
                        if writes_term(gs[k]) && !slot_shadowed_upto(gs, k, ii + 1, false) {
                            if slot_shadowed_upto(gs, k, ii, false) {
                                lemma_shadow_mono(gs, k, ii, ii + 1, false);
                            }
                            assert(k < ii);
                            assert(term_import_ok(self.scope, gs, k, ii));
                        }
                    }
                    assert forall|k: int| 0 <= k < ii + 1 implies #[trigger] intrinsic_marked(
                        self.scope,
                        gs,
                        k,
                    ) by {
                        if gs[k].kind matches GlobalKind::Term(_, true) {
                            assert(k < ii);
                            assert(intrinsic_marked(self.scope, gs, k));
                        }
                    }
                }
            }
            i += 1;
        }
    }
}

/// Built-in primitive type names and what they resolve to.
pub open spec fn builtin_prim(n: Seq<char>, res: Res) -> bool {
    ||| (n == "BigInt"@ && res == Res::PrimTy(Prim::BigInt))
    ||| (n == "Bool"@ && res == Res::PrimTy(Prim::Bool))
    ||| (n == "Double"@ && res == Res::PrimTy(Prim::Double))
    ||| (n == "Int"@ && res == Res::PrimTy(Prim::Int))
    ||| (n == "Pauli"@ && res == Res::PrimTy(Prim::Pauli))
    ||| (n == "Qubit"@ && res == Res::PrimTy(Prim::Qubit))
    ||| (n == "Range"@ && res == Res::PrimTy(Prim::Range))
    ||| (n == "Result"@ && res == Res::PrimTy(Prim::Result))
    ||| (n == "String"@ && res == Res::PrimTy(Prim::String))
    ||| (n == "Unit"@ && res == Res::UnitTy)
}

/// Copy a dotted path.
pub fn clone_path(p: &Vec<String>) -> (r: Vec<String>)
    ensures
        r@ == p@,
{
    p.clone()
}

proof fn lemma_skip_segments(nodes: Seq<crate::ast::TopLevelNode>, i: int)
    requires
        0 <= i < nodes.len(),
    ensures
        spec_package_segments(nodes.skip(i)) == (match nodes[i] {
            crate::ast::TopLevelNode::Namespace(ns) => ns.name@.len() as int,
            crate::ast::TopLevelNode::Stmt(_) => 0,
        }) + spec_package_segments(nodes.skip(i + 1)),
    decreases nodes.len() - i,
{
    lemma_package_segments_head(nodes.skip(i));
    assert(nodes.skip(i)[0] == nodes[i]);
    assert(nodes.skip(i).skip(1) =~= nodes.skip(i + 1));
}

proof fn lemma_package_segments_head(nodes: Seq<crate::ast::TopLevelNode>)
    requires
        nodes.len() > 0,
    ensures
        spec_package_segments(nodes) == (match nodes[0] {
            crate::ast::TopLevelNode::Namespace(ns) => ns.name@.len() as int,
            crate::ast::TopLevelNode::Stmt(_) => 0,
        }) + spec_package_segments(nodes.skip(1)),
    decreases nodes.len(),
{
    if nodes.len() == 1 {
        assert(nodes.skip(1) =~= Seq::<crate::ast::TopLevelNode>::empty());
        assert(nodes.drop_last() =~= Seq::<crate::ast::TopLevelNode>::empty());
    } else {
        lemma_package_segments_head(nodes.drop_last());
        assert(nodes.drop_last()[0] == nodes[0]);
        assert(nodes.drop_last().skip(1) =~= nodes.skip(1).drop_last());
        assert(nodes.skip(1).last() == nodes.last());
    }
}

proof fn lemma_skip_globals_segments(s: Seq<Global>, i: int)
    requires
        0 <= i < s.len(),
    ensures
        spec_globals_segments(s.skip(i)) == s[i].namespace@.len() + spec_globals_segments(
            s.skip(i + 1),
        ),
    decreases s.len() - i,
{
    lemma_globals_segments_head(s.skip(i));
    assert(s.skip(i)[0] == s[i]);
    assert(s.skip(i).skip(1) =~= s.skip(i + 1));
}

proof fn lemma_globals_segments_head(s: Seq<Global>)
    requires
        s.len() > 0,
    ensures
        spec_globals_segments(s) == s[0].namespace@.len() + spec_globals_segments(s.skip(1)),
    decreases s.len(),
{
    if s.len() == 1 {
        assert(s.skip(1) =~= Seq::<Global>::empty());
        assert(s.drop_last() =~= Seq::<Global>::empty());
    } else {
        lemma_globals_segments_head(s.drop_last());
        assert(s.drop_last()[0] == s[0]);
        assert(s.drop_last().skip(1) =~= s.skip(1).drop_last());
        assert(s.skip(1).last() == s.last());
    }
}


/// Insert a variable binding into a scope's variable map, replacing
/// any earlier binding of the same name: only the most recent binding
/// per name is kept.
fn vars_insert_exec(s: &mut Vec<(String, (u32, NodeId))>, name: String, valid_at: u32, id: NodeId)
    ensures
        final(s)@ == assoc_set(old(s)@, name, (valid_at, id)),
        assoc_find(final(s)@, name@) == Some((valid_at, id)),
        forall|n2: Seq<char>|
            n2 != name@ ==> assoc_find(final(s)@, n2) == assoc_find(old(s)@, n2),
{
    match assoc_index(s, &name) {
        Some(j) => {
            let ghost s0 = s@;
            let ghost jj = j as int;
            s[j].1 = (valid_at, id);
            proof {
                assert(s@ =~= s0.update(jj, (s0[jj].0, (valid_at, id))));
                lemma_assoc_update(s0, jj, (valid_at, id));
                lemma_assoc_set_found(s0, name, (valid_at, id), jj);
            }
        },
        None => {
            let ghost s0 = s@;
            proof {
                lemma_assoc_find_none_all(s0, name@);
                lemma_assoc_push(s0, (name, (valid_at, id)));
                lemma_assoc_set_missing(s0, name, (valid_at, id));
            }
            s.push((name, (valid_at, id)));
        },
    }
}

/// Insert an item binding into a name-keyed map, replacing any
/// earlier binding of the same name.
fn items_insert_exec(s: &mut Vec<(String, ItemId)>, name: String, id: ItemId)
    ensures
        final(s)@ == assoc_set(old(s)@, name, id),
        assoc_find(final(s)@, name@) == Some(id),
        forall|n2: Seq<char>| n2 != name@ ==> assoc_find(final(s)@, n2) == assoc_find(old(s)@, n2),
{
    match assoc_index(s, &name) {
        Some(j) => {
            let ghost s0 = s@;
            let ghost jj = j as int;
            s[j].1 = id;
            proof {
                assert(s@ =~= s0.update(jj, (s0[jj].0, id)));
                lemma_assoc_update(s0, jj, id);
                lemma_assoc_set_found(s0, name, id, jj);
            }
        },
        None => {
            let ghost s0 = s@;
            proof {
                lemma_assoc_find_none_all(s0, name@);
                lemma_assoc_push(s0, (name, id));
                lemma_assoc_set_missing(s0, name, id);
            }
            s.push((name, id));
        },
    }
}

/// Insert a type-parameter binding, replacing any earlier one.
fn ty_vars_insert_exec(s: &mut Vec<(String, ParamId)>, name: String, id: ParamId)
    ensures
        final(s)@ == assoc_set(old(s)@, name, id),
        assoc_find(final(s)@, name@) == Some(id),
        forall|n2: Seq<char>| n2 != name@ ==> assoc_find(final(s)@, n2) == assoc_find(old(s)@, n2),
{
    match assoc_index(s, &name) {
        Some(j) => {
            let ghost s0 = s@;
            let ghost jj = j as int;
            s[j].1 = id;
            proof {
                assert(s@ =~= s0.update(jj, (s0[jj].0, id)));
                lemma_assoc_update(s0, jj, id);
                lemma_assoc_set_found(s0, name, id, jj);
            }
        },
        None => {
            let ghost s0 = s@;
            proof {
                lemma_assoc_find_none_all(s0, name@);
                lemma_assoc_push(s0, (name, id));
                lemma_assoc_set_missing(s0, name, id);
            }
            s.push((name, id));
        },
    }
}

/// Record a name in a plain set of names; reports whether it was new.
fn names_vec_insert(v: &mut Vec<String>, name: String) -> (r: bool)
    ensures
        r == !names_contain(old(v)@, name@),
        r ==> final(v)@ == old(v)@.push(name),
        !r ==> final(v)@ == old(v)@,
{
    let n = v.len();
    let mut j: usize = 0;
    while j < n
        invariant
            n == v@.len(),
            j <= n,
            v@ == old(v)@,
            forall|k: int| 0 <= k < j ==> (#[trigger] v@[k])@ != name@,
        decreases n - j,
    {
        if v[j] == name {
            proof {
                assert(names_contain(v@, name@));
            }
            return false;
        }
        j += 1;
    }
    proof {
        assert(!names_contain(v@, name@));
    }
    v.push(name);
    true
}

/// The span covering a whole dotted name.
pub open spec fn spec_idents_span(ids: Seq<Ident>) -> Span {
    if ids.len() > 0 {
        Span { lo: ids[0].span.lo, hi: ids[ids.len() - 1].span.hi }
    } else {
        Span { lo: 0, hi: 0 }
    }
}

/// The span covering a whole dotted name.
pub fn idents_span(ids: &Vec<Ident>) -> (r: Span)
    ensures
        r == spec_idents_span(ids@),
{
    if ids.len() == 0 {
        Span { lo: 0, hi: 0 }
    } else {
        Span { lo: ids[0].span.lo, hi: ids[ids.len() - 1].span.hi }
    }
}

/// Walks one compilation unit: binds declarations, resolves every
/// identifier occurrence against the scope chain, and collects the
/// errors. Scopes are pushed on entry to each lexical region and
/// popped on every exit path, so the chain stays consistent.
#[derive(Debug)]
pub struct Resolver {
    pub names: Names,
    pub dropped_names: Vec<TrackedName>,
    pub curr_params: Option<Vec<String>>,
    pub curr_scope_chain: Vec<ScopeId>,
    pub globals: GlobalScope,
    pub locals: Locals,
    pub errors: Vec<Error>,
}

impl Resolver {
    /// The structural well-formedness the traversal maintains: the
    /// namespace tree is well-formed, the active chain indexes real
    /// scopes, and every recorded open points into the tree.
    pub open spec fn inv(self) -> bool {
        &&& self.globals.namespaces.wf()
        &&& chain_valid(self.locals, self.curr_scope_chain@)
        &&& locals_opens_valid(self.globals, self.locals)
    }

    /// A resolver with no open scope, for whole-unit resolution.
    pub fn new(globals: GlobalTable, dropped_names: Vec<TrackedName>) -> (r: Self)
        requires
            globals.scope.namespaces.wf(),
        ensures
            r.inv(),
            r.names == globals.names,
            r.globals == globals.scope,
            r.curr_scope_chain@.len() == 0,
            r.locals.scopes@.len() == 0,
            r.errors@.len() == 0,
            r.dropped_names == dropped_names,
    {
        Resolver {
            names: globals.names,
            dropped_names,
            curr_params: None,
            globals: globals.scope,
            locals: Locals::default(),
            curr_scope_chain: Vec::new(),
            errors: Vec::new(),
        }
    }

    /// A resolver with one persistent block scope covering the whole
    /// source, for incremental fragments.
    pub fn with_persistent_local_scope(globals: GlobalTable, dropped_names: Vec<TrackedName>) -> (r:
        Self)
        requires
            globals.scope.namespaces.wf(),
        ensures
            r.inv(),
            r.curr_scope_chain@.len() == 1,
            r.curr_scope_chain@[0] == 0,
            r.locals.scopes@.len() == 1,
            r.locals.scopes@[0].kind == ScopeKind::Block,
            r.locals.scopes@[0].span == (Span { lo: 0, hi: u32::MAX }),
            r.locals.scopes@[0].opens@.len() == 0,
            r.locals.scopes@[0].tys@.len() == 0,
            r.locals.scopes@[0].terms@.len() == 0,
            r.locals.scopes@[0].vars@.len() == 0,
            r.locals.scopes@[0].ty_vars@.len() == 0,
            r.names == globals.names,
            r.globals == globals.scope,
            r.dropped_names == dropped_names,
            r.errors@.len() == 0,
    {
        let mut locals = Locals::default();
        let scope_id = locals.push_scope(
            Scope::new(ScopeKind::Block, Span { lo: 0, hi: u32::MAX }),
        );
        let mut chain: Vec<ScopeId> = Vec::new();
        chain.push(scope_id);
        Resolver {
            names: globals.names,
            dropped_names,
            curr_params: None,
            globals: globals.scope,
            locals,
            curr_scope_chain: chain,
            errors: Vec::new(),
        }
    }

    /// The resolutions recorded so far.
    pub fn names(&self) -> (r: &Names)
        ensures
            r == &self.names,
    {
        &self.names
    }

    /// The scopes created so far.
    pub fn locals(&self) -> (r: &Locals)
        ensures
            r == &self.locals,
    {
        &self.locals
    }

    /// Take the accumulated errors, leaving none behind.
    pub fn drain_errors(&mut self) -> (r: Vec<Error>)
        ensures
            r@ == old(self).errors@,
            final(self).errors@.len() == 0,
            final(self).names == old(self).names,
            final(self).globals == old(self).globals,
            final(self).locals == old(self).locals,
            final(self).curr_scope_chain == old(self).curr_scope_chain,
    {
        let mut out: Vec<Error> = Vec::new();
        core::mem::swap(&mut out, &mut self.errors);
        out
    }

    /// Dissolve the resolver into its outputs: the resolution map, the
    /// scope snapshot, the errors, and the finished namespace tree.
    pub fn into_result(self) -> (r: (Names, Locals, Vec<Error>, NamespaceTreeRoot))
        ensures
            r.0 == self.names,
            r.1 == self.locals,
            r.2 == self.errors,
            r.3 == self.globals.namespaces,
    {
        (self.names, self.locals, self.errors, self.globals.namespaces)
    }

    /// Remember more removed declarations.
    pub fn extend_dropped_names(&mut self, mut dropped_names: Vec<TrackedName>)
        ensures
            final(self).dropped_names@ == old(self).dropped_names@ + dropped_names@,
            final(self).names == old(self).names,
            final(self).globals == old(self).globals,
            final(self).locals == old(self).locals,
            final(self).curr_scope_chain == old(self).curr_scope_chain,
            final(self).errors == old(self).errors,
    {
        self.dropped_names.append(&mut dropped_names);
    }

    /// The finished namespace tree.
    pub fn namespaces(&self) -> (r: &NamespaceTreeRoot)
        ensures
            r == &self.globals.namespaces,
    {
        &self.globals.namespaces
    }

    /// Open a new innermost scope.
    pub fn push_scope(&mut self, span: Span, kind: ScopeKind)
        requires
            old(self).inv(),
        ensures
            final(self).inv(),
            final(self).locals.scopes@ == old(self).locals.scopes@.push(
                final(self).locals.scopes@.last(),
            ),
            final(self).locals.scopes@.last().kind == kind,
            final(self).locals.scopes@.last().span == span,
            final(self).locals.scopes@.last().opens@.len() == 0,
            final(self).locals.scopes@.last().vars@.len() == 0,
            final(self).curr_scope_chain@ == old(self).curr_scope_chain@.push(
                old(self).locals.scopes@.len() as ScopeId,
            ),
            final(self).globals == old(self).globals,
            final(self).names == old(self).names,
            final(self).errors == old(self).errors,
            final(self).dropped_names == old(self).dropped_names,
            final(self).curr_params == old(self).curr_params,
    {
        let scope_id = self.locals.push_scope(Scope::new(kind, span));
        self.curr_scope_chain.push(scope_id);
        proof {
            assert forall|i: int|
                0 <= i < self.locals.scopes@.len() implies scope_opens_valid(
                self.globals,
                #[trigger] self.locals.scopes@[i],
            ) by {
                if i < old(self).locals.scopes@.len() {
                    assert(self.locals.scopes@[i] == old(self).locals.scopes@[i]);
                    assert(scope_opens_valid(self.globals, old(self).locals.scopes@[i]));
                }
            }
        }
    }

    /// Close the innermost scope. The scope itself stays recorded for
    /// later offset queries; only the chain shrinks.
    pub fn pop_scope(&mut self)
        requires
            old(self).inv(),
            old(self).curr_scope_chain@.len() > 0,
        ensures
            final(self).inv(),
            final(self).curr_scope_chain@ == old(self).curr_scope_chain@.drop_last(),
            final(self).locals == old(self).locals,
            final(self).globals == old(self).globals,
            final(self).names == old(self).names,
            final(self).errors == old(self).errors,
            final(self).dropped_names == old(self).dropped_names,
            final(self).curr_params == old(self).curr_params,
    {
        let _ = self.curr_scope_chain.pop();
    }

    /// Report an unimplemented item at its point of use; resolution
    /// itself still succeeds.
    pub fn check_item_status(&mut self, res: Res, name: String, span: Span)
        ensures
            is_unimpl(res) ==> final(self).errors@.len() == old(self).errors@.len() + 1
                && final(self).errors@.drop_last() == old(self).errors@
                && (final(self).errors@.last() matches Error::Unimplemented(n, sp) && n@ == name@
                && sp == span),
            !is_unimpl(res) ==> *final(self) == *old(self),
            final(self).names == old(self).names,
            final(self).globals == old(self).globals,
            final(self).locals == old(self).locals,
            final(self).curr_scope_chain == old(self).curr_scope_chain,
            final(self).dropped_names == old(self).dropped_names,
            final(self).curr_params == old(self).curr_params,
    {
        match res {
            Res::Item(_, ItemStatus::Unimplemented) => {
                self.errors.push(Error::Unimplemented(name, span));
                proof {
                    assert(final(self).errors@.drop_last() =~= old(self).errors@);
                }
            },
            _ => {},
        }
    }
}


/// The state a pattern binding threads: the recorded resolutions, the
/// innermost scope's variables, the names bound by the pattern so
/// far, and the collected errors.
pub struct BindState {
    pub names: Seq<(NodeId, Res)>,
    pub vars: Seq<(String, (u32, NodeId))>,
    pub binds: Seq<String>,
    pub errors: Seq<Error>,
}

/// What binding one pattern does: every bound name records its
/// resolution and its variable entry (the most recent binding per
/// name wins), and a name bound twice within the same pattern reports
/// one duplicate per repetition.
pub open spec fn spec_bind_pat(st: BindState, pat: crate::ast::Pat, valid_at: u32) -> BindState
    decreases pat, 1int,
{
    match pat.kind {
        crate::ast::PatKind::Bind(name, _) => {
            let dup = names_contain(st.binds, name.name@);
            BindState {
                names: nodes_insert(st.names, name.id, Res::Local(name.id)),
                vars: assoc_set(st.vars, name.name, (valid_at, name.id)),
                binds: if dup {
                    st.binds
                } else {
                    st.binds.push(name.name)
                },
                errors: if dup {
                    st.errors.push(Error::DuplicateBinding(name.name, name.span))
                } else {
                    st.errors
                },
            }
        },
        crate::ast::PatKind::Paren(inner) => spec_bind_pat(st, *inner, valid_at),
        crate::ast::PatKind::Tuple(pats) => spec_bind_pat_list(st, pats@, 0, valid_at),
        _ => st,
    }
}

/// Binding the patterns of a tuple from index `i` onward.
pub open spec fn spec_bind_pat_list(
    st: BindState,
    pats: Seq<crate::ast::Pat>,
    i: int,
    valid_at: u32,
) -> BindState
    decreases pats, pats.len() - i,
{
    if i < 0 || i >= pats.len() {
        st
    } else {
        spec_bind_pat_list(spec_bind_pat(st, pats[i], valid_at), pats, i + 1, valid_at)
    }
}

impl Resolver {
    /// The opens of every scope stay valid when one scope changes in
    /// any field but its opens.
    proof fn lemma_opens_valid_update(self, other: Resolver, sid: int)
        requires
            locals_opens_valid(self.globals, self.locals),
            other.globals == self.globals,
            0 <= sid < self.locals.scopes@.len(),
            other.locals.scopes@.len() == self.locals.scopes@.len(),
            forall|i: int|
                0 <= i < self.locals.scopes@.len() && i != sid ==> other.locals.scopes@[i]
                    == self.locals.scopes@[i],
            other.locals.scopes@[sid].opens == self.locals.scopes@[sid].opens,
        ensures
            locals_opens_valid(other.globals, other.locals),
    {
        assert forall|i: int|
            0 <= i < other.locals.scopes@.len() implies scope_opens_valid(
            other.globals,
            #[trigger] other.locals.scopes@[i],
        ) by {
            assert(scope_opens_valid(self.globals, self.locals.scopes@[i]));
            if i == sid {
                assert(other.locals.scopes@[i].opens@ == self.locals.scopes@[i].opens@);
            }
        }
    }

    /// Bind every name introduced by a pattern in the innermost scope,
    /// visible from `valid_at` onward. A name bound twice within one
    /// pattern is reported once per repetition; the most recent
    /// binding of a name is the one kept.
    pub fn bind_pat(&mut self, pat: &crate::ast::Pat, valid_at: u32)
        requires
            old(self).inv(),
            old(self).curr_scope_chain@.len() > 0,
        ensures
            final(self).inv(),
            final(self).curr_scope_chain == old(self).curr_scope_chain,
            final(self).globals == old(self).globals,
            final(self).locals.scopes@.len() == old(self).locals.scopes@.len(),
            old(self).errors@.is_prefix_of(final(self).errors@),
            final(self).dropped_names == old(self).dropped_names,
            ({
                let sid = old(self).curr_scope_chain@.last() as int;
                let sc0 = old(self).locals.scopes@[sid];
                let sc1 = final(self).locals.scopes@[sid];
                let st = spec_bind_pat(
                    BindState {
                        names: old(self).names.entries@,
                        vars: sc0.vars@,
                        binds: Seq::empty(),
                        errors: old(self).errors@,
                    },
                    *pat,
                    valid_at,
                );
                &&& final(self).names.entries@ == st.names
                &&& sc1.vars@ == st.vars
                &&& final(self).errors@ == st.errors
                &&& (forall|i: int|
                    0 <= i < old(self).locals.scopes@.len() && i != sid
                        ==> final(self).locals.scopes@[i] == old(self).locals.scopes@[i])
                &&& sc1.span == sc0.span
                &&& sc1.kind == sc0.kind
                &&& sc1.opens == sc0.opens
                &&& sc1.tys == sc0.tys
                &&& sc1.terms == sc0.terms
                &&& sc1.ty_vars == sc0.ty_vars
            }),
    {
        let mut bindings: Vec<String> = Vec::new();
        self.bind_pat_recursive(pat, valid_at, &mut bindings);
    }

    /// The recursive worker of [`Self::bind_pat`]; `bindings` carries
    /// the names already bound by this pattern, for duplicate checks.
    pub fn bind_pat_recursive(
        &mut self,
        pat: &crate::ast::Pat,
        valid_at: u32,
        bindings: &mut Vec<String>,
    )
        requires
            old(self).inv(),
            old(self).curr_scope_chain@.len() > 0,
        ensures
            final(self).inv(),
            final(self).curr_scope_chain == old(self).curr_scope_chain,
            final(self).globals == old(self).globals,
            final(self).locals.scopes@.len() == old(self).locals.scopes@.len(),
            old(self).errors@.is_prefix_of(final(self).errors@),
            final(self).dropped_names == old(self).dropped_names,
            ({
                let sid = old(self).curr_scope_chain@.last() as int;
                let sc0 = old(self).locals.scopes@[sid];
                let sc1 = final(self).locals.scopes@[sid];
                let st = spec_bind_pat(
                    BindState {
                        names: old(self).names.entries@,
                        vars: sc0.vars@,
                        binds: old(bindings)@,
                        errors: old(self).errors@,
                    },
                    *pat,
                    valid_at,
                );
                &&& final(self).names.entries@ == st.names
                &&& sc1.vars@ == st.vars
                &&& final(bindings)@ == st.binds
                &&& final(self).errors@ == st.errors
                &&& (forall|i: int|
                    0 <= i < old(self).locals.scopes@.len() && i != sid
                        ==> final(self).locals.scopes@[i] == old(self).locals.scopes@[i])
                &&& sc1.span == sc0.span
                &&& sc1.kind == sc0.kind
                &&& sc1.opens == sc0.opens
                &&& sc1.tys == sc0.tys
                &&& sc1.terms == sc0.terms
                &&& sc1.ty_vars == sc0.ty_vars
            }),
        decreases *pat,
    {
        let ghost sid0 = old(self).curr_scope_chain@.last() as int;
        match &pat.kind {
            crate::ast::PatKind::Bind(name, _) => {
                if !names_vec_insert(bindings, name.name.clone()) {
                    self.errors.push(
                        Error::DuplicateBinding(name.name.clone(), name.span),
                    );
                    proof {
                        assert(old(self).errors@.is_prefix_of(self.errors@));
                    }
                }
                self.names.insert(name.id, Res::Local(name.id));
                let ghost pre = *self;
                let sid = self.curr_scope_chain[self.curr_scope_chain.len() - 1];
                proof {
                    assert(sid as int == sid0);
                }
                vars_insert_exec(
                    &mut self.locals.scopes[sid].vars,
                    name.name.clone(),
                    valid_at,
                    name.id,
                );
                proof {
                    pre.lemma_opens_valid_update(*self, sid as int);
                }
            },
            crate::ast::PatKind::Discard => {},
            crate::ast::PatKind::Elided => {},
            crate::ast::PatKind::Invalid => {},
            crate::ast::PatKind::Paren(inner) => {
                self.bind_pat_recursive(inner, valid_at, bindings);
            },
            crate::ast::PatKind::Tuple(pats) => {
                let ghost st0 = BindState {
                    names: self.names.entries@,
                    vars: self.locals.scopes@[sid0].vars@,
                    binds: bindings@,
                    errors: self.errors@,
                };
                let n = pats.len();
                let mut i: usize = 0;
                while i < n
                    invariant
                        pat.kind == crate::ast::PatKind::Tuple(*pats),
                        n == pats@.len(),
                        i <= n,
                        self.inv(),
                        self.curr_scope_chain == old(self).curr_scope_chain,
                        self.curr_scope_chain@.len() > 0,
                        sid0 == self.curr_scope_chain@.last() as int,
                        self.globals == old(self).globals,
                        self.locals.scopes@.len() == old(self).locals.scopes@.len(),
                        old(self).errors@.is_prefix_of(self.errors@),
                        self.dropped_names == old(self).dropped_names,
                        forall|k: int|
                            0 <= k < old(self).locals.scopes@.len() && k != sid0
                                ==> self.locals.scopes@[k] == old(self).locals.scopes@[k],
                        self.locals.scopes@[sid0].span == old(self).locals.scopes@[sid0].span,
                        self.locals.scopes@[sid0].kind == old(self).locals.scopes@[sid0].kind,
                        self.locals.scopes@[sid0].opens == old(self).locals.scopes@[sid0].opens,
                        self.locals.scopes@[sid0].tys == old(self).locals.scopes@[sid0].tys,
                        self.locals.scopes@[sid0].terms == old(self).locals.scopes@[sid0].terms,
                        self.locals.scopes@[sid0].ty_vars == old(
                            self,
                        ).locals.scopes@[sid0].ty_vars,
                        spec_bind_pat_list(st0, pats@, 0, valid_at) == spec_bind_pat_list(
                            BindState {
                                names: self.names.entries@,
                                vars: self.locals.scopes@[sid0].vars@,
                                binds: bindings@,
                                errors: self.errors@,
                            },
                            pats@,
                            i as int,
                            valid_at,
                        ),
                        st0 == (BindState {
                            names: old(self).names.entries@,
                            vars: old(self).locals.scopes@[sid0].vars@,
                            binds: old(bindings)@,
                            errors: old(self).errors@,
                        }),
                    decreases n - i,
                {
                    proof {
                        assert(decreases_to!(*pat => pat.kind));
                        assert(decreases_to!(pat.kind => pat.kind->Tuple_0));
                        assert(pat.kind->Tuple_0 == *pats);
                        assert(decreases_to!(*pats => pats@[i as int]));
                    }
                    let ghost mid = BindState {
                        names: self.names.entries@,
                        vars: self.locals.scopes@[sid0].vars@,
                        binds: bindings@,
                        errors: self.errors@,
                    };
                    let ghost errs_before = self.errors@;
                    self.bind_pat_recursive(&pats[i], valid_at, bindings);
                    proof {
                        lemma_prefix_trans(old(self).errors@, errs_before, self.errors@);
                        assert(spec_bind_pat_list(mid, pats@, i as int, valid_at)
                            == spec_bind_pat_list(
                            spec_bind_pat(mid, pats@[i as int], valid_at),
                            pats@,
                            i as int + 1,
                            valid_at,
                        ));
                    }
                    i += 1;
                }
            },
        }
    }

    /// What recording an `open` does: a failed namespace lookup
    /// reports NotFound and changes no scope; a successful one appends
    /// exactly one `Open` record to the innermost scope under the
    /// alias (or the namespace's own dotted path), keeping every
    /// earlier open, and reports nothing.
    pub open spec fn bind_open_effect(
        pre: Resolver,
        post: Resolver,
        name: Seq<Ident>,
        alias: Option<Ident>,
    ) -> bool {
        let pv = crate::ast::idents_view(name);
        let sp = spec_idents_span(name);
        match pre.globals.namespaces.spec_find(pv) {
            None => {
                &&& post.locals == pre.locals
                &&& post.errors@.len() == pre.errors@.len() + 1
                &&& post.errors@.drop_last() == pre.errors@
                &&& (post.errors@.last() matches Error::NotFound(n, sp2) && n@ == join_dot(pv)
                    && sp2 == sp)
            },
            Some(id) => {
                let sid = pre.curr_scope_chain@.last() as int;
                let key = match alias {
                    Some(a) => seq![a.name@],
                    None => pv,
                };
                let sc0 = pre.locals.scopes@[sid];
                let sc1 = post.locals.scopes@[sid];
                let prior = match opens_group_find(sc0.opens@, key) {
                    Some(g) => g,
                    None => Seq::empty(),
                };
                &&& post.errors == pre.errors
                &&& post.locals.scopes@.len() == pre.locals.scopes@.len()
                &&& (forall|i: int|
                    0 <= i < pre.locals.scopes@.len() && i != sid
                        ==> post.locals.scopes@[i] == pre.locals.scopes@[i])
                &&& sc1.span == sc0.span
                &&& sc1.kind == sc0.kind
                &&& sc1.tys == sc0.tys
                &&& sc1.terms == sc0.terms
                &&& sc1.vars == sc0.vars
                &&& sc1.ty_vars == sc0.ty_vars
                &&& opens_group_find(sc1.opens@, key) == Some(
                    prior.push(Open { namespace: id, span: sp }),
                )
                &&& (forall|k2: Seq<Seq<char>>|
                    k2 != key ==> opens_group_find(sc1.opens@, k2) == opens_group_find(
                        sc0.opens@,
                        k2,
                    ))
            },
        }
    }

    /// Record an explicit `open` in the innermost scope, under the
    /// given alias or under the namespace's own dotted name. An open
    /// of an unknown namespace reports the failure and records
    /// nothing.
    pub fn bind_open(&mut self, name: &Vec<Ident>, alias: &Option<Ident>)
        requires
            old(self).inv(),
            old(self).curr_scope_chain@.len() > 0,
        ensures
            final(self).inv(),
            final(self).curr_scope_chain == old(self).curr_scope_chain,
            final(self).globals == old(self).globals,
            final(self).names == old(self).names,
            final(self).locals.scopes@.len() == old(self).locals.scopes@.len(),
            old(self).errors@.is_prefix_of(final(self).errors@),
            final(self).dropped_names == old(self).dropped_names,
            Resolver::bind_open_effect(*old(self), *final(self), name@, *alias),
    {
        let path = idents_to_path(name);
        let span = idents_span(name);
        let id_opt = self.globals.find_namespace(&path);
        match id_opt {
            None => {
                self.errors.push(Error::NotFound(join_dot_exec(&path), span));
                proof {
                    assert(old(self).errors@.is_prefix_of(self.errors@));
                    assert(self.errors@.drop_last() =~= old(self).errors@);
                }
            },
            Some(id) => {
                proof {
                    self.globals.namespaces.tree.lemma_find_contains(path_view(path@));
                }
                let alias_key: Vec<String> = match alias {
                    Some(a) => {
                        let mut v: Vec<String> = Vec::new();
                        v.push(a.name.clone());
                        proof {
                            assert(path_view(v@) =~= seq![a.name@]);
                        }
                        v
                    },
                    None => path,
                };
                let ghost key = path_view(alias_key@);
                let new_open = Open { namespace: id, span };
                let ghost pre = *self;
                let sid = self.curr_scope_chain[self.curr_scope_chain.len() - 1];
                let gi_opt = find_opens_group(&self.locals.scopes[sid].opens, &alias_key);
                match gi_opt {
                    Some(gi) => {
                        let ghost groups0 = self.locals.scopes@[sid as int].opens@;
                        self.locals.scopes[sid].opens[gi].1.push(new_open);
                        proof {
                            self.lemma_open_recorded(pre, sid as int, gi as int, new_open);
                            let groups1 = self.locals.scopes@[sid as int].opens@;
                            assert(groups1 =~= groups0.update(
                                gi as int,
                                (groups0[gi as int].0, groups1[gi as int].1),
                            ));
                            assert(groups1[gi as int].1@ == groups0[gi as int].1@.push(new_open));
                            lemma_opens_update(groups0, gi as int, groups1[gi as int].1);
                        }
                    },
                    None => {
                        let mut group: Vec<Open> = Vec::new();
                        group.push(new_open);
                        let ghost groups0 = self.locals.scopes@[sid as int].opens@;
                        let ghost entry_g = group@;
                        self.locals.scopes[sid].opens.push((alias_key, group));
                        proof {
                            let gi = pre.locals.scopes@[sid as int].opens@.len() as int;
                            self.lemma_open_recorded(pre, sid as int, gi, new_open);
                            let groups1 = self.locals.scopes@[sid as int].opens@;
                            assert(groups1 =~= groups0.push(groups1[gi]));
                            assert(path_view(groups1[gi].0@) == key);
                            assert(groups1[gi].1@ =~= Seq::<Open>::empty().push(new_open));
                            lemma_opens_push(groups0, groups1[gi]);
                        }
                    },
                }
            },
        }
    }

    /// Adding one valid open to one scope keeps every open valid.
    proof fn lemma_open_recorded(self, pre: Resolver, sid: int, gi: int, new_open: Open)
        requires
            locals_opens_valid(pre.globals, pre.locals),
            self.globals == pre.globals,
            self.globals.namespaces.tree.contains_id(new_open.namespace.0 as int),
            0 <= sid < pre.locals.scopes@.len(),
            self.locals.scopes@.len() == pre.locals.scopes@.len(),
            forall|i: int|
                0 <= i < pre.locals.scopes@.len() && i != sid ==> self.locals.scopes@[i]
                    == pre.locals.scopes@[i],
            0 <= gi < self.locals.scopes@[sid].opens@.len(),
            // the changed scope got exactly one more open in group gi,
            // or a fresh group holding only the new open
            forall|g: int|
                0 <= g < self.locals.scopes@[sid].opens@.len() && g != gi
                    ==> #[trigger] self.locals.scopes@[sid].opens@[g]
                    == pre.locals.scopes@[sid].opens@[g],
            (gi < pre.locals.scopes@[sid].opens@.len() && self.locals.scopes@[sid].opens@.len()
                == pre.locals.scopes@[sid].opens@.len() && self.locals.scopes@[sid].opens@[gi].1@
                == pre.locals.scopes@[sid].opens@[gi].1@.push(new_open)) || (gi
                == pre.locals.scopes@[sid].opens@.len() && self.locals.scopes@[sid].opens@.len()
                == pre.locals.scopes@[sid].opens@.len() + 1 && self.locals.scopes@[
                sid
            ].opens@[gi].1@ == seq![new_open]),
        ensures
            locals_opens_valid(self.globals, self.locals),
    {
        assert forall|i: int|
            0 <= i < self.locals.scopes@.len() implies scope_opens_valid(
            self.globals,
            #[trigger] self.locals.scopes@[i],
        ) by {
            assert(scope_opens_valid(pre.globals, pre.locals.scopes@[i]));
            if i == sid {
                let sc = self.locals.scopes@[i];
                let scp = pre.locals.scopes@[i];
                assert forall|g: int, oi: int|
                    0 <= g < sc.opens@.len() && 0 <= oi < sc.opens@[g].1@.len()
                        implies self.globals.namespaces.tree.contains_id(
                    (#[trigger] sc.opens@[g].1@[oi]).namespace.0 as int,
                ) by {
                    if g == gi {
                        if gi < scp.opens@.len() {
                            if oi < scp.opens@[g].1@.len() {
                                assert(sc.opens@[g].1@[oi] == scp.opens@[g].1@[oi]);
                            } else {
                                assert(sc.opens@[g].1@[oi] == new_open);
                            }
                        } else {
                            assert(sc.opens@[g].1@[oi] == new_open);
                        }
                    } else {
                        assert(sc.opens@[g] == scp.opens@[g]);
                    }
                }
            }
        }
    }

    /// Bind an item declared inside a block: an open, a local
    /// callable, or a local newtype. Local items go into the innermost
    /// scope's item maps, shadowing any same-named outer item; a
    /// newtype occupies both the type and the term map with the same
    /// fresh item ID.
    pub fn bind_local_item(&mut self, assigner: &mut Assigner, item: &crate::ast::Item)
        requires
            old(self).inv(),
            old(self).curr_scope_chain@.len() > 0,
        ensures
            final(self).inv(),
            final(self).curr_scope_chain == old(self).curr_scope_chain,
            final(self).globals == old(self).globals,
            final(self).locals.scopes@.len() == old(self).locals.scopes@.len(),
            old(self).errors@.is_prefix_of(final(self).errors@),
            final(self).dropped_names == old(self).dropped_names,
            ({
                let sid = old(self).curr_scope_chain@.last() as int;
                let sc0 = old(self).locals.scopes@[sid];
                let sc1 = final(self).locals.scopes@[sid];
                let frame = final(self).errors == old(self).errors && (forall|i: int|
                    0 <= i < old(self).locals.scopes@.len() && i != sid
                        ==> final(self).locals.scopes@[i] == old(self).locals.scopes@[i])
                    && sc1.span == sc0.span && sc1.kind == sc0.kind && sc1.opens == sc0.opens
                    && sc1.vars == sc0.vars && sc1.ty_vars == sc0.ty_vars;
                let one_id = final(assigner).next == (if old(assigner).next < usize::MAX {
                    old(assigner).next + 1
                } else {
                    old(assigner).next as int
                });
                match item.kind {
                    crate::ast::ItemKind::Open(name, alias) => Resolver::bind_open_effect(
                        *old(self),
                        *final(self),
                        name@,
                        alias,
                    ) && *final(assigner) == *old(assigner),
                    crate::ast::ItemKind::Callable(decl) => {
                        let id = ItemId { package: None, item: old(assigner).next };
                        let res = Res::Item(id, spec_status_from_attrs(item.attrs@));
                        &&& frame
                        &&& one_id
                        &&& final(self).names.entries@ == nodes_insert(
                            old(self).names.entries@,
                            decl.name.id,
                            res,
                        )
                        &&& sc1.tys == sc0.tys
                        &&& sc1.terms@ == assoc_set(sc0.terms@, decl.name.name, id)
                    },
                    crate::ast::ItemKind::Ty(tyname, _) => {
                        let id = ItemId { package: None, item: old(assigner).next };
                        let res = Res::Item(id, spec_status_from_attrs(item.attrs@));
                        &&& frame
                        &&& one_id
                        &&& final(self).names.entries@ == nodes_insert(
                            old(self).names.entries@,
                            tyname.id,
                            res,
                        )
                        &&& sc1.tys@ == assoc_set(sc0.tys@, tyname.name, id)
                        &&& sc1.terms@ == assoc_set(sc0.terms@, tyname.name, id)
                    },
                    crate::ast::ItemKind::Invalid => final(self).names == old(self).names
                        && final(self).locals == old(self).locals && final(self).errors == old(
                        self,
                    ).errors && *final(assigner) == *old(assigner),
                }
            }),
    {
        match &item.kind {
            crate::ast::ItemKind::Open(name, alias) => {
                self.bind_open(name, alias);
            },
            crate::ast::ItemKind::Callable(decl) => {
                let id = intrapackage(assigner.next_item());
                let status = item_status_from_attrs(&item.attrs);
                self.names.insert(decl.name.id, Res::Item(id, status));
                let ghost pre = *self;
                let sid = self.curr_scope_chain[self.curr_scope_chain.len() - 1];
                items_insert_exec(
                    &mut self.locals.scopes[sid].terms,
                    decl.name.name.clone(),
                    id,
                );
                proof {
                    pre.lemma_opens_valid_update(*self, sid as int);
                }
            },
            crate::ast::ItemKind::Ty(name, _) => {
                let id = intrapackage(assigner.next_item());
                let status = item_status_from_attrs(&item.attrs);
                self.names.insert(name.id, Res::Item(id, status));
                let ghost pre = *self;
                let sid = self.curr_scope_chain[self.curr_scope_chain.len() - 1];
                items_insert_exec(&mut self.locals.scopes[sid].tys, name.name.clone(), id);
                proof {
                    pre.lemma_opens_valid_update(*self, sid as int);
                }
                let ghost pre2 = *self;
                items_insert_exec(
                    &mut self.locals.scopes[sid].terms,
                    name.name.clone(),
                    id,
                );
                proof {
                    pre2.lemma_opens_valid_update(*self, sid as int);
                }
            },
            crate::ast::ItemKind::Invalid => {},
        }
    }

    /// The type parameters and name-map entries a callable's generics
    /// contribute, bound by position from `i` onward.
    pub open spec fn spec_bind_generics(
        tyvars: Seq<(String, ParamId)>,
        names: Seq<(NodeId, Res)>,
        generics: Seq<Ident>,
        i: int,
    ) -> (Seq<(String, ParamId)>, Seq<(NodeId, Res)>)
        decreases generics.len() - i,
    {
        if i < 0 || i >= generics.len() {
            (tyvars, names)
        } else {
            Resolver::spec_bind_generics(
                assoc_set(tyvars, generics[i].name, i as usize),
                nodes_insert(names, generics[i].id, Res::Param(i as usize)),
                generics,
                i + 1,
            )
        }
    }

    /// Bring a callable's type parameters into scope, by position:
    /// each generic binds its name in the innermost scope's type
    /// parameters and records its resolution.
    pub fn bind_type_parameters(&mut self, decl: &crate::ast::CallableDecl)
        requires
            old(self).inv(),
            old(self).curr_scope_chain@.len() > 0,
        ensures
            final(self).inv(),
            final(self).curr_scope_chain == old(self).curr_scope_chain,
            final(self).globals == old(self).globals,
            final(self).locals.scopes@.len() == old(self).locals.scopes@.len(),
            final(self).errors == old(self).errors,
            final(self).dropped_names == old(self).dropped_names,
            ({
                let sid = old(self).curr_scope_chain@.last() as int;
                let sc0 = old(self).locals.scopes@[sid];
                let sc1 = final(self).locals.scopes@[sid];
                let pair = Resolver::spec_bind_generics(
                    sc0.ty_vars@,
                    old(self).names.entries@,
                    decl.generics@,
                    0,
                );
                &&& (forall|i: int|
                    0 <= i < old(self).locals.scopes@.len() && i != sid
                        ==> final(self).locals.scopes@[i] == old(self).locals.scopes@[i])
                &&& sc1.span == sc0.span
                &&& sc1.kind == sc0.kind
                &&& sc1.opens == sc0.opens
                &&& sc1.tys == sc0.tys
                &&& sc1.terms == sc0.terms
                &&& sc1.vars == sc0.vars
                &&& sc1.ty_vars@ == pair.0
                &&& final(self).names.entries@ == pair.1
            }),
    {
        let ghost sid0 = old(self).curr_scope_chain@.last() as int;
        let n = decl.generics.len();
        let mut ix: usize = 0;
        while ix < n
            invariant
                n == decl.generics@.len(),
                ix <= n,
                self.inv(),
                self.curr_scope_chain == old(self).curr_scope_chain,
                self.curr_scope_chain@.len() > 0,
                sid0 == self.curr_scope_chain@.last() as int,
                self.globals == old(self).globals,
                self.locals.scopes@.len() == old(self).locals.scopes@.len(),
                self.errors == old(self).errors,
                self.dropped_names == old(self).dropped_names,
                forall|i: int|
                    0 <= i < old(self).locals.scopes@.len() && i != sid0
                        ==> self.locals.scopes@[i] == old(self).locals.scopes@[i],
                self.locals.scopes@[sid0].span == old(self).locals.scopes@[sid0].span,
                self.locals.scopes@[sid0].kind == old(self).locals.scopes@[sid0].kind,
                self.locals.scopes@[sid0].opens == old(self).locals.scopes@[sid0].opens,
                self.locals.scopes@[sid0].tys == old(self).locals.scopes@[sid0].tys,
                self.locals.scopes@[sid0].terms == old(self).locals.scopes@[sid0].terms,
                self.locals.scopes@[sid0].vars == old(self).locals.scopes@[sid0].vars,
                Resolver::spec_bind_generics(
                    old(self).locals.scopes@[sid0].ty_vars@,
                    old(self).names.entries@,
                    decl.generics@,
                    0,
                ) == Resolver::spec_bind_generics(
                    self.locals.scopes@[sid0].ty_vars@,
                    self.names.entries@,
                    decl.generics@,
                    ix as int,
                ),
            decreases n - ix,
        {
            let ghost pre = *self;
            let sid = self.curr_scope_chain[self.curr_scope_chain.len() - 1];
            proof {
                assert(sid as int == sid0);
            }
            ty_vars_insert_exec(
                &mut self.locals.scopes[sid].ty_vars,
                decl.generics[ix].name.clone(),
                ix,
            );
            proof {
                pre.lemma_opens_valid_update(*self, sid as int);
            }
            self.names.insert(decl.generics[ix].id, Res::Param(ix));
            proof {
                assert(Resolver::spec_bind_generics(
                    pre.locals.scopes@[sid0].ty_vars@,
                    pre.names.entries@,
                    decl.generics@,
                    ix as int,
                ) == Resolver::spec_bind_generics(
                    self.locals.scopes@[sid0].ty_vars@,
                    self.names.entries@,
                    decl.generics@,
                    ix as int + 1,
                ));
            }
            ix += 1;
        }
    }

    /// Resolve a bare identifier occurrence and record the outcome:
    /// the resolution on success, the error otherwise. Using an
    /// unimplemented item additionally reports it.
    pub fn resolve_ident(&mut self, kind: NameKind, name: &Ident)
        requires
            old(self).inv(),
        ensures
            final(self).inv(),
            final(self).curr_scope_chain == old(self).curr_scope_chain,
            final(self).globals == old(self).globals,
            final(self).locals == old(self).locals,
            final(self).dropped_names == old(self).dropped_names,
            final(self).curr_params == old(self).curr_params,
            old(self).errors@.is_prefix_of(final(self).errors@),
            ident_resolution_effect(*old(self), *final(self), kind, *name),
    {
        let none_ns: Option<Vec<String>> = None;
        match resolve(
            kind,
            &self.globals,
            &self.locals,
            &self.curr_scope_chain,
            name,
            &none_ns,
        ) {
            Ok(res) => {
                self.check_item_status(res, name.name.clone(), name.span);
                self.names.insert(name.id, res);
            },
            Err(err) => {
                self.errors.push(err);
            },
        }
    }
}


impl Resolver {
    /// The index of the first tracked name matching `name`.
    fn dropped_index(&self, name: &String) -> (r: Option<usize>)
        ensures
            match r {
                Some(j) => j < self.dropped_names@.len() && dropped_find(
                    self.dropped_names@,
                    name@,
                ) == Some(self.dropped_names@[j as int]),
                None => dropped_find(self.dropped_names@, name@) is None,
            },
    {
        let n = self.dropped_names.len();
        let mut j: usize = 0;
        proof {
            assert(self.dropped_names@.skip(0) =~= self.dropped_names@);
        }
        while j < n
            invariant
                n == self.dropped_names@.len(),
                j <= n,
                dropped_find(self.dropped_names@, name@) == dropped_find(
                    self.dropped_names@.skip(j as int),
                    name@,
                ),
            decreases n - j,
        {
            proof {
                assert(self.dropped_names@.skip(j as int)[0] == self.dropped_names@[j as int]);
                assert(self.dropped_names@.skip(j as int).skip(1) =~= self.dropped_names@.skip(
                    j as int + 1,
                ));
            }
            if self.dropped_names[j].name == *name {
                return Some(j);
            }
            j += 1;
        }
        proof {
            assert(self.dropped_names@.skip(n as int) =~= Seq::<TrackedName>::empty());
        }
        None
    }

    /// Resolve a possibly qualified name occurrence and record the
    /// outcome. A plain miss that matches a declaration removed since
    /// an earlier compilation is reported as not-available, with the
    /// former location as a hint.
    pub fn resolve_path(&mut self, kind: NameKind, path: &crate::ast::Path)
        requires
            old(self).inv(),
        ensures
            final(self).inv(),
            final(self).curr_scope_chain == old(self).curr_scope_chain,
            final(self).globals == old(self).globals,
            final(self).locals == old(self).locals,
            final(self).dropped_names == old(self).dropped_names,
            final(self).curr_params == old(self).curr_params,
            old(self).errors@.is_prefix_of(final(self).errors@),
            path_resolution_effect(*old(self), *final(self), kind, *path),
    {
        let qual: Option<Vec<String>> = match &path.namespace {
            Some(ids) => Some(idents_to_path(ids)),
            None => None,
        };
        match resolve(
            kind,
            &self.globals,
            &self.locals,
            &self.curr_scope_chain,
            &path.name,
            &qual,
        ) {
            Ok(res) => {
                self.check_item_status(res, path.name.name.clone(), path.span);
                self.names.insert(path.id, res);
            },
            Err(err) => {
                match err {
                    Error::NotFound(name_str, span) => {
                        match self.dropped_index(&name_str) {
                            Some(di) => {
                                let mut hint = join_dot_exec(&self.dropped_names[di].namespace);
                                hint.append(".");
                                hint.append(name_str.as_str());
                                proof {
                                    reveal_strlit(".");
                                    assert("."@ =~= seq!['.']);
                                }
                                self.errors.push(Error::NotAvailable(name_str, hint, span));
                            },
                            None => {
                                self.errors.push(Error::NotFound(name_str, span));
                            },
                        }
                    },
                    other => {
                        self.errors.push(other);
                    },
                }
            },
        }
    }

    /// Bind the declarations of a set of freshly parsed fragments:
    /// namespaces go to the global table, top-level local items to the
    /// persistent local scope.
    pub fn bind_fragments(&mut self, ast: &crate::ast::Package, assigner: &mut Assigner)
        requires
            old(self).inv(),
            old(self).curr_scope_chain@.len() > 0,
            old(self).globals.namespaces.assigner + spec_package_segments(ast.nodes@)
                <= usize::MAX,
        ensures
            final(self).inv(),
            final(self).curr_scope_chain == old(self).curr_scope_chain,
            final(self).locals.scopes@.len() == old(self).locals.scopes@.len(),
            old(self).errors@.is_prefix_of(final(self).errors@),
            forall|m: int|
                0 <= m < ast.nodes@.len() ==> ((#[trigger] ast.nodes@[m])
                    matches crate::ast::TopLevelNode::Namespace(ns)
                    ==> final(self).globals.namespaces.spec_find(
                    crate::ast::idents_view(ns.name@),
                ) is Some),
            forall|m: int|
                0 <= m < ast.nodes@.len() ==> #[trigger] pkg_node_ok(
                    old(self).globals,
                    final(self).globals,
                    ast.nodes@,
                    m,
                ),
            forall|ns2: NamespaceId, n2: Seq<char>|
                !pkg_term_written(
                    final(self).globals,
                    ast.nodes@,
                    ast.nodes@.len() as int,
                    ns2,
                    n2,
                ) ==> #[trigger] final(self).globals.spec_get(NameKind::Term, ns2, n2) == old(
                    self,
                ).globals.spec_get(NameKind::Term, ns2, n2),
            forall|ns2: NamespaceId, n2: Seq<char>|
                !pkg_ty_written(
                    final(self).globals,
                    ast.nodes@,
                    ast.nodes@.len() as int,
                    ns2,
                    n2,
                ) ==> #[trigger] final(self).globals.spec_get(NameKind::Ty, ns2, n2) == old(
                    self,
                ).globals.spec_get(NameKind::Ty, ns2, n2),
    {
        let n = ast.nodes.len();
        let mut i: usize = 0;
        proof {
            assert(ast.nodes@.skip(0) =~= ast.nodes@);
        }
        while i < n
            invariant
                n == ast.nodes@.len(),
                i <= n,
                self.inv(),
                self.curr_scope_chain == old(self).curr_scope_chain,
                self.curr_scope_chain@.len() > 0,
                self.locals.scopes@.len() == old(self).locals.scopes@.len(),
                self.globals.namespaces.assigner + spec_package_segments(
                    ast.nodes@.skip(i as int),
                ) <= usize::MAX,
                old(self).errors@.is_prefix_of(self.errors@),
                forall|p: Seq<Seq<char>>|
                    old(self).globals.namespaces.spec_find(p) is Some
                        ==> self.globals.namespaces.spec_find(p) == old(
                        self,
                    ).globals.namespaces.spec_find(p),
                forall|k: int|
                    0 <= k < i ==> ((#[trigger] ast.nodes@[k])
                        matches crate::ast::TopLevelNode::Namespace(ns)
                        ==> self.globals.namespaces.spec_find(
                        crate::ast::idents_view(ns.name@),
                    ) is Some),
                forall|m: int|
                    0 <= m < i ==> #[trigger] pkg_node_ok(
                        old(self).globals,
                        self.globals,
                        ast.nodes@,
                        m,
                    ),
                forall|ns2: NamespaceId, n2: Seq<char>|
                    !pkg_term_written(self.globals, ast.nodes@, i as int, ns2, n2)
                        ==> #[trigger] self.globals.spec_get(NameKind::Term, ns2, n2) == old(
                        self,
                    ).globals.spec_get(NameKind::Term, ns2, n2),
                forall|ns2: NamespaceId, n2: Seq<char>|
                    !pkg_ty_written(self.globals, ast.nodes@, i as int, ns2, n2)
                        ==> #[trigger] self.globals.spec_get(NameKind::Ty, ns2, n2) == old(
                        self,
                    ).globals.spec_get(NameKind::Ty, ns2, n2),
            decreases n - i,
        {
            proof {
                lemma_skip_segments(ast.nodes@, i as int);
                lemma_package_segments_nonneg(ast.nodes@.skip(i as int + 1));
            }
            let ghost pre = *self;
            match &ast.nodes[i] {
                crate::ast::TopLevelNode::Namespace(namespace) => {
                    bind_global_items(
                        &mut self.names,
                        &mut self.globals,
                        namespace,
                        assigner,
                        &mut self.errors,
                    );
                    proof {
                        lemma_pkg_step(
                            old(self).globals,
                            pre.globals,
                            self.globals,
                            ast.nodes@,
                            i as int,
                        );
                    }
                    proof {
                        assert forall|si: int|
                            0 <= si < self.locals.scopes@.len() implies scope_opens_valid(
                            self.globals,
                            #[trigger] self.locals.scopes@[si],
                        ) by {
                            assert(scope_opens_valid(pre.globals, pre.locals.scopes@[si]));
                            let sc = self.locals.scopes@[si];
                            assert forall|gi: int, oi: int|
                                0 <= gi < sc.opens@.len() && 0 <= oi < sc.opens@[gi].1@.len()
                                    implies self.globals.namespaces.tree.contains_id(
                                (#[trigger] sc.opens@[gi].1@[oi]).namespace.0 as int,
                            ) by {
                                assert(pre.globals.namespaces.tree.contains_id(
                                    sc.opens@[gi].1@[oi].namespace.0 as int,
                                ));
                            }
                        }
                    }
                },
                crate::ast::TopLevelNode::Stmt(stmt) => {
                    match &stmt.kind {
                        crate::ast::StmtKind::Item(item) => {
                            self.bind_local_item(assigner, item);
                        },
                        _ => {},
                    }
                    proof {
                        assert(self.globals == pre.globals);
                        assert forall|ns2: NamespaceId, n2: Seq<char>|
                            !pkg_term_written(self.globals, ast.nodes@, i as int + 1, ns2, n2)
                                implies #[trigger] self.globals.spec_get(NameKind::Term, ns2, n2)
                            == old(self).globals.spec_get(NameKind::Term, ns2, n2) by {
                            if pkg_term_written(pre.globals, ast.nodes@, i as int, ns2, n2) {
                                let m2 = choose|m2: int|
                                    0 <= m2 < i && ((#[trigger] ast.nodes@[m2])
                                        matches crate::ast::TopLevelNode::Namespace(ns)
                                        && pre.globals.namespaces.spec_find(
                                        crate::ast::idents_view(ns.name@),
                                    ) == Some(ns2) && term_declared_before(
                                        ns.items@,
                                        ns.items@.len() as int,
                                        n2,
                                    ));
                                assert(pkg_term_written(
                                    self.globals,
                                    ast.nodes@,
                                    i as int + 1,
                                    ns2,
                                    n2,
                                ));
                            }
                        }
                        assert forall|ns2: NamespaceId, n2: Seq<char>|
                            !pkg_ty_written(self.globals, ast.nodes@, i as int + 1, ns2, n2)
                                implies #[trigger] self.globals.spec_get(NameKind::Ty, ns2, n2)
                            == old(self).globals.spec_get(NameKind::Ty, ns2, n2) by {
                            if pkg_ty_written(pre.globals, ast.nodes@, i as int, ns2, n2) {
                                let m2 = choose|m2: int|
                                    0 <= m2 < i && ((#[trigger] ast.nodes@[m2])
                                        matches crate::ast::TopLevelNode::Namespace(ns)
                                        && pre.globals.namespaces.spec_find(
                                        crate::ast::idents_view(ns.name@),
                                    ) == Some(ns2) && ty_declared_before(
                                        ns.items@,
                                        ns.items@.len() as int,
                                        n2,
                                    ));
                                assert(pkg_ty_written(
                                    self.globals,
                                    ast.nodes@,
                                    i as int + 1,
                                    ns2,
                                    n2,
                                ));
                            }
                        }
                    }
                },
            }
            i += 1;
        }
    }
}


/// Whether the index operand of an update expression refers to a
/// field rather than a variable: an unqualified path that does not
/// resolve to a local variable is taken as a field name.
pub open spec fn spec_is_field_update(g: GlobalScope, scopes: Seq<Scope>, index: crate::ast::Expr) -> bool {
    match index.kind {
        crate::ast::ExprKind::Path(path) => path.namespace is None && !(spec_resolve(
            g,
            scopes,
            NameKind::Term,
            path.name.name@,
            path.name.span,
            None,
        ) matches SpecResolved::Found(Res::Local(_))),
        _ => false,
    }
}

/// Disambiguate the index operand of an update expression.
pub fn is_field_update(
    globals: &GlobalScope,
    locals: &Locals,
    chain: &Vec<ScopeId>,
    index: &crate::ast::Expr,
) -> (r: bool)
    requires
        globals.namespaces.wf(),
        chain_valid(*locals, chain@),
        locals_opens_valid(*globals, *locals),
    ensures
        r == spec_is_field_update(*globals, chain_scopes(*locals, chain@), *index),
{
    match &index.kind {
        crate::ast::ExprKind::Path(path) => {
            if path.namespace.is_some() {
                return false;
            }
            let none_ns: Option<Vec<String>> = None;
            match resolve(NameKind::Term, globals, locals, chain, &path.name, &none_ns) {
                Ok(Res::Local(_)) => false,
                _ => true,
            }
        },
        _ => false,
    }
}

/// Extract a field name from an expression that is syntactically
/// ambiguous between a field name and a variable reference: an
/// unqualified path not recorded as a local variable.
pub fn extract_field_name<'a>(names: &Names, expr: &'a crate::ast::Expr) -> (r: Option<&'a String>)
    ensures
        match expr.kind {
            crate::ast::ExprKind::Path(path) => {
                if path.namespace is None && !(names.spec_get(path.id) matches Some(
                    Res::Local(_),
                )) {
                    r matches Some(n) && n@ == path.name.name@
                } else {
                    r is None
                }
            },
            _ => r is None,
        },
{
    match &expr.kind {
        crate::ast::ExprKind::Path(path) => {
            if path.namespace.is_some() {
                return None;
            }
            match names.get(path.id) {
                Some(Res::Local(_)) => None,
                _ => Some(&path.name.name),
            }
        },
        _ => None,
    }
}

/// Collect the names bound by a callable's input pattern.
pub fn collect_param_names(pat: &crate::ast::Pat, names: &mut Vec<String>)
    decreases *pat,
{
    match &pat.kind {
        crate::ast::PatKind::Bind(name, _) => {
            let _ = names_vec_insert(names, name.name.clone());
        },
        crate::ast::PatKind::Discard => {},
        crate::ast::PatKind::Elided => {},
        crate::ast::PatKind::Invalid => {},
        crate::ast::PatKind::Paren(inner) => {
            collect_param_names(inner, names);
        },
        crate::ast::PatKind::Tuple(pats) => {
            let n = pats.len();
            let mut i: usize = 0;
            while i < n
                invariant
                    pat.kind == crate::ast::PatKind::Tuple(*pats),
                    n == pats@.len(),
                    i <= n,
                decreases n - i,
            {
                proof {
                    assert(decreases_to!(*pat => pat.kind));
                    assert(decreases_to!(pat.kind => pat.kind->Tuple_0));
                    assert(pat.kind->Tuple_0 == *pats);
                    assert(decreases_to!(*pats => pats@[i as int]));
                }
                collect_param_names(&pats[i], names);
                i += 1;
            }
        },
    }
}


/// What resolving one path occurrence leaves behind: the recorded
/// resolution on success (plus the advisory diagnostic for an
/// unimplemented item), or exactly one error, with a plain miss
/// turned into a not-available hint when the name was dropped from an
/// earlier compilation.
pub open spec fn path_resolution_effect(
    pre: Resolver,
    post: Resolver,
    kind: NameKind,
    path: crate::ast::Path,
) -> bool {
    let out = spec_resolve(
        pre.globals,
        chain_scopes(pre.locals, pre.curr_scope_chain@),
        kind,
        path.name.name@,
        path.name.span,
        match path.namespace {
            Some(ids) => Some(crate::ast::idents_view(ids@)),
            None => None,
        },
    );
    match out {
        SpecResolved::Found(res) => post.names.entries@ == nodes_insert(
            pre.names.entries@,
            path.id,
            res,
        ) && (is_unimpl(res) ==> post.errors@.len() == pre.errors@.len() + 1 && (
        post.errors@.last() matches Error::Unimplemented(n, sp) && n@ == path.name.name@ && sp
            == path.span)) && (!is_unimpl(res) ==> post.errors == pre.errors),
        SpecResolved::Missing(nm, sp) => post.names == pre.names && post.errors@.len()
            == pre.errors@.len() + 1 && (match dropped_find(pre.dropped_names@, nm) {
            Some(tn) => post.errors@.last() matches Error::NotAvailable(n, h, sp2) && n@ == nm
                && h@ == join_dot(path_view(tn.namespace@)) + seq!['.'] + nm && sp2 == sp,
            None => post.errors@.last() matches Error::NotFound(n, sp2) && n@ == nm && sp2 == sp,
        }),
        _ => post.names == pre.names && post.errors@.len() == pre.errors@.len() + 1
            && resolution_matches(Err(post.errors@.last()), out),
    }
}

/// What resolving one bare identifier occurrence leaves behind.
pub open spec fn ident_resolution_effect(
    pre: Resolver,
    post: Resolver,
    kind: NameKind,
    name: Ident,
) -> bool {
    let out = spec_resolve(
        pre.globals,
        chain_scopes(pre.locals, pre.curr_scope_chain@),
        kind,
        name.name@,
        name.span,
        None,
    );
    match out {
        SpecResolved::Found(res) => post.names.entries@ == nodes_insert(
            pre.names.entries@,
            name.id,
            res,
        ) && (is_unimpl(res) ==> post.errors@.len() == pre.errors@.len() + 1 && (
        post.errors@.last() matches Error::Unimplemented(n, sp) && n@ == name.name@ && sp
            == name.span)) && (!is_unimpl(res) ==> post.errors == pre.errors),
        _ => post.names == pre.names && post.errors@.len() == pre.errors@.len() + 1
            && resolution_matches(Err(post.errors@.last()), out),
    }
}

/// What every traversal step preserves: the resolver's invariant, the
/// active chain (push/pop strictly paired on every path), the global
/// tables, and the already-collected errors.
pub open spec fn visit_frame(pre: Resolver, post: Resolver) -> bool {
    &&& post.inv()
    &&& post.curr_scope_chain@ == pre.curr_scope_chain@
    &&& post.globals == pre.globals
    &&& pre.locals.scopes@.len() <= post.locals.scopes@.len()
    &&& pre.errors@.is_prefix_of(post.errors@)
    &&& post.dropped_names == pre.dropped_names
}

proof fn lemma_prefix_trans(a: Seq<Error>, b: Seq<Error>, c: Seq<Error>)
    requires
        a.is_prefix_of(b),
        b.is_prefix_of(c),
    ensures
        a.is_prefix_of(c),
{
    assert(a =~= c.subrange(0, a.len() as int));
}

/// Walk the type annotations of a pattern.
pub fn visit_pat_tys(r: &mut Resolver, pat: &crate::ast::Pat)
    requires
        old(r).inv(),
    ensures
        visit_frame(*old(r), *final(r)),
        final(r).locals == old(r).locals,
        final(r).curr_params == old(r).curr_params,
    decreases *pat,
{
    match &pat.kind {
        crate::ast::PatKind::Bind(_, anno) => {
            match anno {
                Some(ty) => {
                    visit_ty(r, ty);
                },
                None => {},
            }
        },
        crate::ast::PatKind::Discard => {},
        crate::ast::PatKind::Elided => {},
        crate::ast::PatKind::Invalid => {},
        crate::ast::PatKind::Paren(inner) => {
            visit_pat_tys(r, inner);
        },
        crate::ast::PatKind::Tuple(pats) => {
            let n = pats.len();
            let mut i: usize = 0;
            while i < n
                invariant
                    pat.kind == crate::ast::PatKind::Tuple(*pats),
                    n == pats@.len(),
                    i <= n,
                    r.inv(),
                    visit_frame(*old(r), *r),
                    r.locals == old(r).locals,
                    r.curr_params == old(r).curr_params,
                decreases n - i,
            {
                proof {
                    assert(decreases_to!(*pat => pat.kind));
                    assert(decreases_to!(pat.kind => pat.kind->Tuple_0));
                    assert(pat.kind->Tuple_0 == *pats);
                    assert(decreases_to!(*pats => pats@[i as int]));
                }
                let ghost mid = *r;
                visit_pat_tys(r, &pats[i]);
                proof {
                    lemma_prefix_trans(old(r).errors@, mid.errors@, r.errors@);
                }
                i += 1;
            }
        },
    }
}

/// Resolve the names in a type expression.
pub fn visit_ty(r: &mut Resolver, ty: &crate::ast::Ty)
    requires
        old(r).inv(),
    ensures
        visit_frame(*old(r), *final(r)),
        final(r).locals == old(r).locals,
        final(r).curr_params == old(r).curr_params,
        ty.kind matches crate::ast::TyKind::Path(path) ==> path_resolution_effect(
            *old(r),
            *final(r),
            NameKind::Ty,
            path,
        ),
        ty.kind matches crate::ast::TyKind::Param(ident) ==> ident_resolution_effect(
            *old(r),
            *final(r),
            NameKind::Ty,
            ident,
        ),
    decreases *ty,
{
    match &ty.kind {
        crate::ast::TyKind::Path(path) => {
            r.resolve_path(NameKind::Ty, path);
        },
        crate::ast::TyKind::Param(ident) => {
            r.resolve_ident(NameKind::Ty, ident);
        },
        crate::ast::TyKind::Paren(inner) => {
            visit_ty(r, inner);
        },
        crate::ast::TyKind::Tuple(tys) => {
            let n = tys.len();
            let mut i: usize = 0;
            while i < n
                invariant
                    ty.kind == crate::ast::TyKind::Tuple(*tys),
                    n == tys@.len(),
                    i <= n,
                    r.inv(),
                    visit_frame(*old(r), *r),
                    r.locals == old(r).locals,
                    r.curr_params == old(r).curr_params,
                decreases n - i,
            {
                proof {
                    assert(decreases_to!(*ty => ty.kind));
                    assert(decreases_to!(ty.kind => ty.kind->Tuple_0));
                    assert(ty.kind->Tuple_0 == *tys);
                    assert(decreases_to!(*tys => tys@[i as int]));
                }
                let ghost mid = *r;
                visit_ty(r, &tys[i]);
                proof {
                    lemma_prefix_trans(old(r).errors@, mid.errors@, r.errors@);
                }
                i += 1;
            }
        },
        crate::ast::TyKind::Hole => {},
        crate::ast::TyKind::Invalid => {},
    }
}


/// Visit an attribute: the arguments of a `Config` attribute do not
/// go through name resolution.
pub fn visit_attr(r: &mut Resolver, a: &mut Assigner, attr: &crate::ast::Attr)
    requires
        old(r).inv(),
        old(r).curr_scope_chain@.len() > 0,
    ensures
        visit_frame(*old(r), *final(r)),
    decreases *attr,
{
    let is_config = match HirAttr::from_str(&attr.name.name) {
        Some(HirAttr::Config) => true,
        _ => false,
    };
    if !is_config {
        proof {
            assert(decreases_to!(*attr => attr.arg));
        }
        visit_expr(r, a, &attr.arg);
    }
}

/// Visit the attributes of an item.
pub fn visit_attrs(r: &mut Resolver, a: &mut Assigner, attrs: &Vec<crate::ast::Attr>)
    requires
        old(r).inv(),
        old(r).curr_scope_chain@.len() > 0,
    ensures
        visit_frame(*old(r), *final(r)),
    decreases attrs,
{
    let n = attrs.len();
    let mut i: usize = 0;
    while i < n
        invariant
            n == attrs@.len(),
            i <= n,
            r.inv(),
            r.curr_scope_chain@.len() > 0,
            visit_frame(*old(r), *r),
        decreases n - i,
    {
        proof {
            assert(decreases_to!(*attrs => attrs@[i as int]));
        }
        let ghost mid = *r;
        visit_attr(r, a, &attrs[i]);
        proof {
            lemma_prefix_trans(old(r).errors@, mid.errors@, r.errors@);
        }
        i += 1;
    }
}

/// Visit one item during the reference-resolution sub-pass.
pub fn visit_item(r: &mut Resolver, a: &mut Assigner, item: &crate::ast::Item)
    requires
        old(r).inv(),
        old(r).curr_scope_chain@.len() > 0,
    ensures
        visit_frame(*old(r), *final(r)),
    decreases *item,
{
    proof {
        assert(decreases_to!(*item => item.attrs));
    }
    visit_attrs(r, a, &item.attrs);
    let ghost mid = *r;
    match &item.kind {
        crate::ast::ItemKind::Open(_, _) => {},
        crate::ast::ItemKind::Callable(decl) => {
            proof {
                assert(decreases_to!(*item => item.kind));
                assert(decreases_to!(item.kind => item.kind->Callable_0));
            }
            visit_callable_decl(r, a, decl);
            proof {
                lemma_prefix_trans(old(r).errors@, mid.errors@, r.errors@);
            }
        },
        crate::ast::ItemKind::Ty(_, def) => {
            visit_ty_def(r, def);
            proof {
                lemma_prefix_trans(old(r).errors@, mid.errors@, r.errors@);
            }
        },
        crate::ast::ItemKind::Invalid => {},
    }
}

/// Visit a newtype definition: only its field types resolve.
pub fn visit_ty_def(r: &mut Resolver, def: &crate::ast::TyDef)
    requires
        old(r).inv(),
    ensures
        visit_frame(*old(r), *final(r)),
        final(r).locals == old(r).locals,
    decreases *def,
{
    match &def.kind {
        crate::ast::TyDefKind::Field(_, ty) => {
            visit_ty(r, ty);
        },
        crate::ast::TyDefKind::Paren(inner) => {
            proof {
                assert(decreases_to!(*def => def.kind));
                assert(decreases_to!(def.kind => def.kind->Paren_0));
            }
            visit_ty_def(r, inner);
        },
        crate::ast::TyDefKind::Tuple(defs) => {
            let n = defs.len();
            let mut i: usize = 0;
            while i < n
                invariant
                    def.kind == crate::ast::TyDefKind::Tuple(*defs),
                    n == defs@.len(),
                    i <= n,
                    r.inv(),
                    visit_frame(*old(r), *r),
                    r.locals == old(r).locals,
                decreases n - i,
            {
                proof {
                    assert(decreases_to!(*def => def.kind));
                    assert(decreases_to!(def.kind => def.kind->Tuple_0));
                    assert(def.kind->Tuple_0 == *defs);
                    assert(decreases_to!(*defs => defs@[i as int]));
                }
                let ghost mid = *r;
                visit_ty_def(r, &defs[i]);
                proof {
                    lemma_prefix_trans(old(r).errors@, mid.errors@, r.errors@);
                }
                i += 1;
            }
        },
        crate::ast::TyDefKind::Invalid => {},
    }
}

/// Visit a callable declaration: its own scope holds its type
/// parameters and input bindings, and its input pattern's names are
/// remembered for specialization patterns.
pub fn visit_callable_decl(r: &mut Resolver, a: &mut Assigner, decl: &crate::ast::CallableDecl)
    requires
        old(r).inv(),
    ensures
        visit_frame(*old(r), *final(r)),
    decreases *decl,
{
    let mut param_names: Vec<String> = Vec::new();
    collect_param_names(&decl.input, &mut param_names);
    let mut saved: Option<Vec<String>> = Some(param_names);
    core::mem::swap(&mut saved, &mut r.curr_params);
    r.push_scope(decl.span, ScopeKind::Callable);
    let ghost s1 = *r;
    r.bind_type_parameters(decl);
    let ghost s2 = *r;
    // The parameter bindings become visible after the input pattern.
    r.bind_pat(&decl.input, decl.input.span.hi);
    let ghost s3 = *r;
    visit_pat_tys(r, &decl.input);
    let ghost s4 = *r;
    visit_ty(r, &decl.output);
    let ghost s5 = *r;
    match &decl.body {
        crate::ast::CallableBody::Block(block) => {
            proof {
                assert(decreases_to!(*decl => decl.body));
                assert(decreases_to!(decl.body => decl.body->Block_0));
            }
            visit_block(r, a, block);
        },
        crate::ast::CallableBody::Specs(specs) => {
            let n = specs.len();
            let mut i: usize = 0;
            while i < n
                invariant
                    decl.body == crate::ast::CallableBody::Specs(*specs),
                    n == specs@.len(),
                    i <= n,
                    r.inv(),
                    visit_frame(s5, *r),
                    r.curr_scope_chain@.len() > 0,
                decreases n - i,
            {
                proof {
                    assert(decreases_to!(*decl => decl.body));
                    assert(decreases_to!(decl.body => decl.body->Specs_0));
                    assert(decl.body->Specs_0 == *specs);
                    assert(decreases_to!(*specs => specs@[i as int]));
                }
                let ghost mid = *r;
                visit_spec_decl(r, a, &specs[i]);
                proof {
                    lemma_prefix_trans(s5.errors@, mid.errors@, r.errors@);
                }
                i += 1;
            }
        },
    }
    r.pop_scope();
    core::mem::swap(&mut saved, &mut r.curr_params);
    proof {
        lemma_prefix_trans(old(r).errors@, s1.errors@, s3.errors@);
        lemma_prefix_trans(old(r).errors@, s3.errors@, s5.errors@);
        lemma_prefix_trans(old(r).errors@, s5.errors@, r.errors@);
        assert(r.curr_scope_chain@ =~= old(r).curr_scope_chain@);
    }
}

/// Visit one specialization: an explicit implementation opens a block
/// scope whose pattern may only repeat the callable's own parameter
/// names.
pub fn visit_spec_decl(r: &mut Resolver, a: &mut Assigner, decl: &crate::ast::SpecDecl)
    requires
        old(r).inv(),
    ensures
        visit_frame(*old(r), *final(r)),
    decreases *decl,
{
    match &decl.body {
        crate::ast::SpecBody::Gen(_) => {},
        crate::ast::SpecBody::Impl(input, block) => {
            let mut bindings: Vec<String> = match &r.curr_params {
                Some(ps) => clone_path(ps),
                None => Vec::new(),
            };
            r.push_scope(block.span, ScopeKind::Block);
            let ghost s1 = *r;
            r.bind_pat_recursive(input, block.span.lo, &mut bindings);
            let ghost s2 = *r;
            visit_pat_tys(r, input);
            let ghost s3 = *r;
            proof {
                assert(decreases_to!(*decl => decl.body));
                assert(decreases_to!(decl.body => decl.body->Impl_1));
                assert(decl.body->Impl_1 == *block);
            }
            visit_block(r, a, block);
            r.pop_scope();
            proof {
                lemma_prefix_trans(old(r).errors@, s1.errors@, s2.errors@);
                lemma_prefix_trans(old(r).errors@, s2.errors@, s3.errors@);
                lemma_prefix_trans(old(r).errors@, s3.errors@, r.errors@);
                assert(r.curr_scope_chain@ =~= old(r).curr_scope_chain@);
            }
        },
    }
}

/// Visit a block: its scope is pushed, its local items are bound
/// first (forward references within the block are legal), and then
/// every statement is visited.
pub fn visit_block(r: &mut Resolver, a: &mut Assigner, block: &crate::ast::Block)
    requires
        old(r).inv(),
    ensures
        visit_frame(*old(r), *final(r)),
    decreases *block,
{
    r.push_scope(block.span, ScopeKind::Block);
    let ghost s1 = *r;
    let n = block.stmts.len();
    let mut i: usize = 0;
    while i < n
        invariant
            n == block.stmts@.len(),
            i <= n,
            r.inv(),
            r.curr_scope_chain@.len() > 0,
            r.curr_scope_chain@ == s1.curr_scope_chain@,
            r.globals == s1.globals,
            s1.locals.scopes@.len() <= r.locals.scopes@.len(),
            s1.errors@.is_prefix_of(r.errors@),
            r.dropped_names == s1.dropped_names,
        decreases n - i,
    {
        match &block.stmts[i].kind {
            crate::ast::StmtKind::Item(item) => {
                let ghost mid = *r;
                r.bind_local_item(a, item);
                proof {
                    lemma_prefix_trans(s1.errors@, mid.errors@, r.errors@);
                }
            },
            _ => {},
        }
        i += 1;
    }
    let mut j: usize = 0;
    while j < n
        invariant
            n == block.stmts@.len(),
            j <= n,
            r.inv(),
            r.curr_scope_chain@.len() > 0,
            r.curr_scope_chain@ == s1.curr_scope_chain@,
            r.globals == s1.globals,
            s1.locals.scopes@.len() <= r.locals.scopes@.len(),
            s1.errors@.is_prefix_of(r.errors@),
            r.dropped_names == s1.dropped_names,
        decreases n - j,
    {
        proof {
            assert(decreases_to!(*block => block.stmts));
            assert(decreases_to!(block.stmts => block.stmts@[j as int]));
        }
        let ghost mid = *r;
        visit_stmt(r, a, &block.stmts[j]);
        proof {
            lemma_prefix_trans(s1.errors@, mid.errors@, r.errors@);
        }
        j += 1;
    }
    r.pop_scope();
    proof {
        lemma_prefix_trans(old(r).errors@, s1.errors@, r.errors@);
        assert(r.curr_scope_chain@ =~= old(r).curr_scope_chain@);
    }
}

/// Visit one statement. Bindings of `let` and unscoped `use` become
/// visible after the end of the statement; a scoped `use` covers only
/// its block.
pub fn visit_stmt(r: &mut Resolver, a: &mut Assigner, stmt: &crate::ast::Stmt)
    requires
        old(r).inv(),
        old(r).curr_scope_chain@.len() > 0,
    ensures
        visit_frame(*old(r), *final(r)),
        stmt.kind matches crate::ast::StmtKind::Expr(e) ==> (e.kind
            matches crate::ast::ExprKind::Path(path) ==> path_resolution_effect(
            *old(r),
            *final(r),
            NameKind::Term,
            path,
        )),
        stmt.kind matches crate::ast::StmtKind::Semi(e) ==> (e.kind
            matches crate::ast::ExprKind::Path(path) ==> path_resolution_effect(
            *old(r),
            *final(r),
            NameKind::Term,
            path,
        )),
    decreases *stmt,
{
    match &stmt.kind {
        crate::ast::StmtKind::Item(item) => {
            proof {
                assert(decreases_to!(*stmt => stmt.kind));
                assert(decreases_to!(stmt.kind => stmt.kind->Item_0));
            }
            visit_item(r, a, item);
        },
        crate::ast::StmtKind::Local(pat, value) => {
            proof {
                assert(decreases_to!(*stmt => stmt.kind));
                assert(decreases_to!(stmt.kind => stmt.kind->Local_1));
            }
            visit_pat_tys(r, pat);
            let ghost s1 = *r;
            visit_expr(r, a, value);
            let ghost s2 = *r;
            // The binding is visible after the end of the statement.
            r.bind_pat(pat, stmt.span.hi);
            proof {
                lemma_prefix_trans(old(r).errors@, s1.errors@, s2.errors@);
                lemma_prefix_trans(old(r).errors@, s2.errors@, r.errors@);
            }
        },
        crate::ast::StmtKind::Qubit(pat, init, block_opt) => {
            proof {
                assert(decreases_to!(*stmt => stmt.kind));
                assert(decreases_to!(stmt.kind => stmt.kind->Qubit_1));
            }
            visit_expr(r, a, init);
            let ghost s1 = *r;
            match block_opt {
                Some(block) => {
                    r.push_scope(block.span, ScopeKind::Block);
                    let ghost s2 = *r;
                    r.bind_pat(pat, block.span.lo);
                    let ghost s3 = *r;
                    visit_pat_tys(r, pat);
                    let ghost s4 = *r;
                    proof {
                        assert(decreases_to!(*stmt => stmt.kind));
                        assert(decreases_to!(stmt.kind => stmt.kind->Qubit_2));
                        assert(stmt.kind->Qubit_2 == *block_opt);
                        assert(decreases_to!(*block_opt => block_opt->Some_0));
                    }
                    visit_block(r, a, block);
                    r.pop_scope();
                    proof {
                        lemma_prefix_trans(old(r).errors@, s1.errors@, s2.errors@);
                        lemma_prefix_trans(old(r).errors@, s2.errors@, s3.errors@);
                        lemma_prefix_trans(old(r).errors@, s3.errors@, s4.errors@);
                        lemma_prefix_trans(old(r).errors@, s4.errors@, r.errors@);
                        assert(r.curr_scope_chain@ =~= old(r).curr_scope_chain@);
                    }
                },
                None => {
                    r.bind_pat(pat, stmt.span.hi);
                    let ghost s2 = *r;
                    visit_pat_tys(r, pat);
                    proof {
                        lemma_prefix_trans(old(r).errors@, s1.errors@, s2.errors@);
                        lemma_prefix_trans(old(r).errors@, s2.errors@, r.errors@);
                    }
                },
            }
        },
        crate::ast::StmtKind::Expr(e) => {
            proof {
                assert(decreases_to!(*stmt => stmt.kind));
                assert(decreases_to!(stmt.kind => stmt.kind->Expr_0));
            }
            visit_expr(r, a, e);
        },
        crate::ast::StmtKind::Semi(e) => {
            proof {
                assert(decreases_to!(*stmt => stmt.kind));
                assert(decreases_to!(stmt.kind => stmt.kind->Semi_0));
            }
            visit_expr(r, a, e);
        },
        crate::ast::StmtKind::Empty => {},
        crate::ast::StmtKind::Invalid => {},
    }
}

/// Visit one expression. A `for` pattern and a lambda's parameters
/// cover their bodies; the index of an update expression is visited
/// only when it resolves as a variable rather than a field name.
pub fn visit_expr(r: &mut Resolver, a: &mut Assigner, expr: &crate::ast::Expr)
    requires
        old(r).inv(),
        old(r).curr_scope_chain@.len() > 0,
    ensures
        visit_frame(*old(r), *final(r)),
        expr.kind matches crate::ast::ExprKind::Path(path) ==> path_resolution_effect(
            *old(r),
            *final(r),
            NameKind::Term,
            path,
        ),
    decreases *expr,
{
    match &expr.kind {
        crate::ast::ExprKind::Path(path) => {
            r.resolve_path(NameKind::Term, path);
        },
        crate::ast::ExprKind::For(pat, iter, block) => {
            proof {
                assert(decreases_to!(*expr => expr.kind));
                assert(decreases_to!(expr.kind => expr.kind->For_1));
                assert(decreases_to!(expr.kind => expr.kind->For_2));
            }
            visit_expr(r, a, iter);
            let ghost s1 = *r;
            r.push_scope(block.span, ScopeKind::Block);
            let ghost s2 = *r;
            r.bind_pat(pat, block.span.lo);
            let ghost s3 = *r;
            visit_pat_tys(r, pat);
            let ghost s4 = *r;
            visit_block(r, a, block);
            r.pop_scope();
            proof {
                lemma_prefix_trans(old(r).errors@, s1.errors@, s3.errors@);
                lemma_prefix_trans(old(r).errors@, s3.errors@, s4.errors@);
                lemma_prefix_trans(old(r).errors@, s4.errors@, r.errors@);
                assert(r.curr_scope_chain@ =~= old(r).curr_scope_chain@);
            }
        },
        crate::ast::ExprKind::Lambda(input, body) => {
            proof {
                assert(decreases_to!(*expr => expr.kind));
                assert(decreases_to!(expr.kind => expr.kind->Lambda_1));
            }
            r.push_scope(body.span, ScopeKind::Block);
            let ghost s1 = *r;
            r.bind_pat(input, body.span.lo);
            let ghost s2 = *r;
            visit_pat_tys(r, input);
            let ghost s3 = *r;
            visit_expr(r, a, body);
            r.pop_scope();
            proof {
                lemma_prefix_trans(old(r).errors@, s1.errors@, s2.errors@);
                lemma_prefix_trans(old(r).errors@, s2.errors@, s3.errors@);
                lemma_prefix_trans(old(r).errors@, s3.errors@, r.errors@);
                assert(r.curr_scope_chain@ =~= old(r).curr_scope_chain@);
            }
        },
        crate::ast::ExprKind::Update(container, index, replace) => {
            proof {
                assert(decreases_to!(*expr => expr.kind));
                assert(decreases_to!(expr.kind => expr.kind->Update_0));
                assert(decreases_to!(expr.kind => expr.kind->Update_1));
                assert(decreases_to!(expr.kind => expr.kind->Update_2));
            }
            visit_expr(r, a, container);
            let ghost s1 = *r;
            if !is_field_update(&r.globals, &r.locals, &r.curr_scope_chain, index) {
                visit_expr(r, a, index);
            }
            let ghost s2 = *r;
            visit_expr(r, a, replace);
            proof {
                lemma_prefix_trans(old(r).errors@, s1.errors@, s2.errors@);
                lemma_prefix_trans(old(r).errors@, s2.errors@, r.errors@);
            }
        },
        crate::ast::ExprKind::AssignUpdate(container, index, replace) => {
            proof {
                assert(decreases_to!(*expr => expr.kind));
                assert(decreases_to!(expr.kind => expr.kind->AssignUpdate_0));
                assert(decreases_to!(expr.kind => expr.kind->AssignUpdate_1));
                assert(decreases_to!(expr.kind => expr.kind->AssignUpdate_2));
            }
            visit_expr(r, a, container);
            let ghost s1 = *r;
            if !is_field_update(&r.globals, &r.locals, &r.curr_scope_chain, index) {
                visit_expr(r, a, index);
            }
            let ghost s2 = *r;
            visit_expr(r, a, replace);
            proof {
                lemma_prefix_trans(old(r).errors@, s1.errors@, s2.errors@);
                lemma_prefix_trans(old(r).errors@, s2.errors@, r.errors@);
            }
        },
        crate::ast::ExprKind::Block(block) => {
            proof {
                assert(decreases_to!(*expr => expr.kind));
                assert(decreases_to!(expr.kind => expr.kind->Block_0));
            }
            visit_block(r, a, block);
        },
        crate::ast::ExprKind::Call(callee, arg) => {
            proof {
                assert(decreases_to!(*expr => expr.kind));
                assert(decreases_to!(expr.kind => expr.kind->Call_0));
                assert(decreases_to!(expr.kind => expr.kind->Call_1));
            }
            visit_expr(r, a, callee);
            let ghost s1 = *r;
            visit_expr(r, a, arg);
            proof {
                lemma_prefix_trans(old(r).errors@, s1.errors@, r.errors@);
            }
        },
        crate::ast::ExprKind::Paren(inner) => {
            proof {
                assert(decreases_to!(*expr => expr.kind));
                assert(decreases_to!(expr.kind => expr.kind->Paren_0));
            }
            visit_expr(r, a, inner);
        },
        crate::ast::ExprKind::Tuple(exprs) => {
            let n = exprs.len();
            let mut i: usize = 0;
            while i < n
                invariant
                    expr.kind == crate::ast::ExprKind::Tuple(*exprs),
                    n == exprs@.len(),
                    i <= n,
                    r.inv(),
                    r.curr_scope_chain@.len() > 0,
                    visit_frame(*old(r), *r),
                decreases n - i,
            {
                proof {
                    assert(decreases_to!(*expr => expr.kind));
                    assert(decreases_to!(expr.kind => expr.kind->Tuple_0));
                    assert(expr.kind->Tuple_0 == *exprs);
                    assert(decreases_to!(*exprs => exprs@[i as int]));
                }
                let ghost mid = *r;
                visit_expr(r, a, &exprs[i]);
                proof {
                    lemma_prefix_trans(old(r).errors@, mid.errors@, r.errors@);
                }
                i += 1;
            }
        },
        crate::ast::ExprKind::Lit => {},
        crate::ast::ExprKind::Invalid => {},
    }
}

/// Visit a namespace declaration: its scope opens the namespace
/// itself (so a re-opened namespace sees its whole contents) and
/// every explicit open, before its items are walked.
pub fn visit_namespace(r: &mut Resolver, a: &mut Assigner, namespace: &crate::ast::Namespace)
    requires
        old(r).inv(),
        old(r).globals.namespaces.spec_find(
            crate::ast::idents_view(namespace.name@),
        ) is Some,
    ensures
        visit_frame(*old(r), *final(r)),
{
    let path = idents_to_path(&namespace.name);
    let ns_opt = r.globals.find_namespace(&path);
    let ns = match ns_opt {
        Some(ns) => ns,
        None => {
            proof {
                assert(false);
            }
            NamespaceId(0)
        },
    };
    r.push_scope(namespace.span, ScopeKind::Namespace(ns));
    let ghost s1 = *r;
    let no_alias: Option<Ident> = None;
    r.bind_open(&namespace.name, &no_alias);
    let ghost s2 = *r;
    let n = namespace.items.len();
    let mut i: usize = 0;
    while i < n
        invariant
            n == namespace.items@.len(),
            i <= n,
            r.inv(),
            r.curr_scope_chain@.len() > 0,
            r.curr_scope_chain@ == s2.curr_scope_chain@,
            r.globals == s2.globals,
            s2.locals.scopes@.len() <= r.locals.scopes@.len(),
            s2.errors@.is_prefix_of(r.errors@),
            r.dropped_names == s2.dropped_names,
        decreases n - i,
    {
        match &namespace.items[i].kind {
            crate::ast::ItemKind::Open(name, alias) => {
                let ghost mid = *r;
                r.bind_open(name, alias);
                proof {
                    lemma_prefix_trans(s2.errors@, mid.errors@, r.errors@);
                }
            },
            _ => {},
        }
        i += 1;
    }
    let mut j: usize = 0;
    while j < n
        invariant
            n == namespace.items@.len(),
            j <= n,
            r.inv(),
            r.curr_scope_chain@.len() > 0,
            r.curr_scope_chain@ == s2.curr_scope_chain@,
            r.globals == s2.globals,
            s2.locals.scopes@.len() <= r.locals.scopes@.len(),
            s2.errors@.is_prefix_of(r.errors@),
            r.dropped_names == s2.dropped_names,
        decreases n - j,
    {
        let ghost mid = *r;
        visit_item(r, a, &namespace.items[j]);
        proof {
            lemma_prefix_trans(s2.errors@, mid.errors@, r.errors@);
        }
        j += 1;
    }
    r.pop_scope();
    proof {
        lemma_prefix_trans(old(r).errors@, s1.errors@, s2.errors@);
        lemma_prefix_trans(old(r).errors@, s2.errors@, r.errors@);
        assert(r.curr_scope_chain@ =~= old(r).curr_scope_chain@);
    }
}

/// The reference-resolution sub-pass: walk a whole compilation unit,
/// resolving every identifier occurrence. The declarations must have
/// been bound first, so that every declared namespace exists.
pub fn visit_package(r: &mut Resolver, a: &mut Assigner, package: &crate::ast::Package)
    requires
        old(r).inv(),
        old(r).curr_scope_chain@.len() > 0,
        forall|i: int|
            0 <= i < package.nodes@.len() ==> ((#[trigger] package.nodes@[i])
                matches crate::ast::TopLevelNode::Namespace(ns) ==> old(
                r,
            ).globals.namespaces.spec_find(crate::ast::idents_view(ns.name@)) is Some),
    ensures
        visit_frame(*old(r), *final(r)),
{
    let n = package.nodes.len();
    let mut i: usize = 0;
    while i < n
        invariant
            n == package.nodes@.len(),
            i <= n,
            r.inv(),
            r.curr_scope_chain@.len() > 0,
            visit_frame(*old(r), *r),
            forall|k: int|
                0 <= k < package.nodes@.len() ==> ((#[trigger] package.nodes@[k])
                    matches crate::ast::TopLevelNode::Namespace(ns) ==> old(
                    r,
                ).globals.namespaces.spec_find(crate::ast::idents_view(ns.name@)) is Some),
        decreases n - i,
    {
        let ghost mid = *r;
        match &package.nodes[i] {
            crate::ast::TopLevelNode::Namespace(namespace) => {
                visit_namespace(r, a, namespace);
            },
            crate::ast::TopLevelNode::Stmt(stmt) => {
                visit_stmt(r, a, stmt);
            },
        }
        proof {
            lemma_prefix_trans(old(r).errors@, mid.errors@, r.errors@);
        }
        i += 1;
    }
}


/// Law: a local variable shadows everything. If the innermost scope
/// binds the name as a variable, resolving it as a term yields that
/// local, whatever items, opens or globals also carry the name, and
/// regardless of declaration order.
pub proof fn lemma_local_shadows_item(
    g: GlobalScope,
    scopes: Seq<Scope>,
    name: Seq<char>,
    name_span: Span,
    v: (u32, NodeId),
)
    requires
        scopes.len() > 0,
        assoc_find(scopes[0].vars@, name) == Some(v),
    ensures
        spec_resolve(g, scopes, NameKind::Term, name, name_span, None) == SpecResolved::Found(
            Res::Local(v.1),
        ),
{
    assert(spec_resolve_scope_locals(g, scopes[0], true, NameKind::Term, name) == Some(
        Res::Local(v.1),
    ));
    assert(spec_scope_outcome(g, scopes[0], true, NameKind::Term, name, name_span, None)
        == Some(SpecResolved::Found(Res::Local(v.1))));
}

/// Law: a callable boundary hides outer local variables. A name bound
/// only as a variable in the scope outside a callable scope does not
/// resolve, when neither scope declares it otherwise, no opens are
/// recorded, the prelude does not carry it, and the root does not
/// carry it.
pub proof fn lemma_callable_hides_outer_vars(
    g: GlobalScope,
    inner: Scope,
    outer: Scope,
    name: Seq<char>,
    name_span: Span,
)
    requires
        inner.kind is Callable,
        inner.vars@.len() == 0,
        inner.ty_vars@.len() == 0,
        inner.tys@.len() == 0,
        inner.terms@.len() == 0,
        inner.opens@.len() == 0,
        outer.kind is Block,
        outer.tys@.len() == 0,
        outer.terms@.len() == 0,
        outer.opens@.len() == 0,
        spec_prelude_candidates(g, NameKind::Term, name).len() == 0,
        g.spec_get(NameKind::Term, g.namespaces.tree.id, name) is None,
    ensures
        spec_resolve(g, seq![inner, outer], NameKind::Term, name, name_span, None)
            == SpecResolved::Missing(name, name_span),
{
    let scopes = seq![inner, outer];
    assert(assoc_find(inner.vars@, name) is None);
    assert(assoc_find(inner.terms@, name) is None);
    assert(spec_all_opens(inner.opens@) =~= Seq::<Open>::empty());
    assert(spec_open_candidates(g, spec_all_opens(inner.opens@), NameKind::Term, name, None)
        =~= Seq::<(Res, Open)>::empty());
    assert(spec_scope_outcome(g, inner, true, NameKind::Term, name, name_span, None) is None);
    // Past the callable boundary, the outer variable is invisible.
    assert(spec_resolve_scope_locals(g, outer, false, NameKind::Term, name) is None);
    assert(spec_all_opens(outer.opens@) =~= Seq::<Open>::empty());
    assert(spec_open_candidates(g, spec_all_opens(outer.opens@), NameKind::Term, name, None)
        =~= Seq::<(Res, Open)>::empty());
    assert(spec_scope_outcome(g, outer, false, NameKind::Term, name, name_span, None) is None);
    assert(scopes.skip(1) =~= seq![outer]);
    assert(seq![outer].skip(1) =~= Seq::<Scope>::empty());
    assert(spec_check_scopes(
        g,
        Seq::<Scope>::empty(),
        NameKind::Term,
        name,
        name_span,
        None,
        false,
    ) is None);
    assert(spec_check_scopes(g, seq![outer], NameKind::Term, name, name_span, None, false)
        is None);
    assert(spec_check_scopes(g, scopes, NameKind::Term, name, name_span, None, true) is None);
}

/// Law: a callable boundary does not hide outer items. A name the
/// enclosing namespace declares still resolves from inside a callable
/// scope, although local variables of intervening scopes are hidden.
pub proof fn lemma_callable_keeps_outer_items(
    g: GlobalScope,
    inner: Scope,
    outer: Scope,
    ns: NamespaceId,
    name: Seq<char>,
    name_span: Span,
    res: Res,
)
    requires
        inner.kind is Callable,
        inner.vars@.len() == 0,
        inner.ty_vars@.len() == 0,
        inner.tys@.len() == 0,
        inner.terms@.len() == 0,
        inner.opens@.len() == 0,
        outer.kind == ScopeKind::Namespace(ns),
        outer.vars@.len() == 0,
        outer.tys@.len() == 0,
        outer.terms@.len() == 0,
        g.spec_get(NameKind::Term, ns, name) == Some(res),
    ensures
        spec_resolve(g, seq![inner, outer], NameKind::Term, name, name_span, None)
            == SpecResolved::Found(res),
{
    let scopes = seq![inner, outer];
    assert(assoc_find(inner.vars@, name) is None);
    assert(assoc_find(inner.terms@, name) is None);
    assert(spec_all_opens(inner.opens@) =~= Seq::<Open>::empty());
    assert(spec_open_candidates(g, spec_all_opens(inner.opens@), NameKind::Term, name, None)
        =~= Seq::<(Res, Open)>::empty());
    assert(spec_scope_outcome(g, inner, true, NameKind::Term, name, name_span, None) is None);
    assert(assoc_find(outer.vars@, name) is None);
    assert(assoc_find(outer.terms@, name) is None);
    // The namespace's own declaration is found even with variables
    // hidden.
    assert(spec_resolve_scope_locals(g, outer, false, NameKind::Term, name) == Some(res));
    assert(spec_scope_outcome(g, outer, false, NameKind::Term, name, name_span, None) == Some(
        SpecResolved::Found(res),
    ));
    assert(scopes.skip(1) =~= seq![outer]);
    assert(spec_check_scopes(g, seq![outer], NameKind::Term, name, name_span, None, false)
        == Some(SpecResolved::Found(res)));
    assert(spec_check_scopes(g, scopes, NameKind::Term, name, name_span, None, true) == Some(
        SpecResolved::Found(res),
    ));
}

/// Law: a name undeclared locally that exactly one prelude namespace
/// declares resolves to that declaration; here the namespace is
/// `Microsoft.Quantum.Core` and the other prelude namespaces do not
/// exist in the tree.
pub proof fn lemma_prelude_fallback_single(
    g: GlobalScope,
    kind: NameKind,
    name: Seq<char>,
    name_span: Span,
    core: NamespaceId,
    res: Res,
)
    requires
        g.namespaces.spec_find(spec_prelude()[0]) is None,
        g.namespaces.spec_find(spec_prelude()[1]) == Some(core),
        g.namespaces.spec_find(spec_prelude()[2]) is None,
        g.namespaces.spec_find(spec_prelude()[3]) is None,
        g.spec_get(kind, core, name) == Some(res),
    ensures
        spec_resolve(g, Seq::empty(), kind, name, name_span, None) == SpecResolved::Found(res),
{
    assert(spec_check_scopes(g, Seq::empty(), kind, name, name_span, None, true) is None);
    let pns = spec_prelude_namespaces(g);
    assert(prelude_ns_upto(g, 0) =~= Seq::<(Seq<char>, NamespaceId)>::empty());
    assert(prelude_ns_upto(g, 1) =~= Seq::<(Seq<char>, NamespaceId)>::empty());
    assert(prelude_ns_upto(g, 2) =~= seq![(join_dot(spec_prelude()[1]), core)]);
    assert(prelude_ns_upto(g, 3) =~= prelude_ns_upto(g, 2));
    assert(pns =~= seq![(join_dot(spec_prelude()[1]), core)]);
    assert(pns.drop_last() =~= Seq::<(Seq<char>, NamespaceId)>::empty());
    assert(prelude_cands_from(g, kind, name, pns.drop_last()) =~= Seq::<(Res, Seq<char>)>::empty());
    assert(cand_insert(Seq::<(Res, Seq<char>)>::empty(), res, join_dot(spec_prelude()[1]))
        =~= seq![(res, join_dot(spec_prelude()[1]))]);
    assert(spec_prelude_candidates(g, kind, name) =~= seq![(res, join_dot(spec_prelude()[1]))]);
}

/// Law: a name two prelude namespaces declare differently is
/// ambiguous, and the error names the two namespaces in prelude
/// order, which is lexicographic.
pub proof fn lemma_prelude_fallback_ambiguous(
    g: GlobalScope,
    kind: NameKind,
    name: Seq<char>,
    name_span: Span,
    canon: NamespaceId,
    core: NamespaceId,
    r1: Res,
    r2: Res,
)
    requires
        g.namespaces.spec_find(spec_prelude()[0]) == Some(canon),
        g.namespaces.spec_find(spec_prelude()[1]) == Some(core),
        g.namespaces.spec_find(spec_prelude()[2]) is None,
        g.namespaces.spec_find(spec_prelude()[3]) is None,
        g.spec_get(kind, canon, name) == Some(r1),
        g.spec_get(kind, core, name) == Some(r2),
        r1 != r2,
        !is_unimpl(r1),
        !is_unimpl(r2),
    ensures
        spec_resolve(g, Seq::empty(), kind, name, name_span, None) == (
        SpecResolved::AmbigPrelude {
            name,
            candidate_a: join_dot(spec_prelude()[0]),
            candidate_b: join_dot(spec_prelude()[1]),
            span: name_span,
        }),
{
    assert(spec_check_scopes(g, Seq::empty(), kind, name, name_span, None, true) is None);
    let pns = spec_prelude_namespaces(g);
    let e1 = (r1, join_dot(spec_prelude()[0]));
    let e2 = (r2, join_dot(spec_prelude()[1]));
    assert(prelude_ns_upto(g, 0) =~= Seq::<(Seq<char>, NamespaceId)>::empty());
    assert(prelude_ns_upto(g, 1) =~= seq![(join_dot(spec_prelude()[0]), canon)]);
    assert(prelude_ns_upto(g, 2) =~= seq![
        (join_dot(spec_prelude()[0]), canon),
        (join_dot(spec_prelude()[1]), core),
    ]);
    assert(prelude_ns_upto(g, 3) =~= prelude_ns_upto(g, 2));
    assert(pns =~= seq![(join_dot(spec_prelude()[0]), canon), (join_dot(spec_prelude()[1]), core)]);
    assert(pns.drop_last() =~= seq![(join_dot(spec_prelude()[0]), canon)]);
    assert(pns.drop_last().drop_last() =~= Seq::<(Seq<char>, NamespaceId)>::empty());
    assert(prelude_cands_from(g, kind, name, pns.drop_last().drop_last()) =~= Seq::<(
        Res,
        Seq<char>,
    )>::empty());
    assert(cand_insert(Seq::<(Res, Seq<char>)>::empty(), r1, join_dot(spec_prelude()[0]))
        =~= seq![e1]);
    assert(prelude_cands_from(g, kind, name, pns.drop_last()) =~= seq![e1]);
    assert(seq![e1].skip(1) =~= Seq::<(Res, Seq<char>)>::empty());
    assert(cand_insert(Seq::<(Res, Seq<char>)>::empty(), r2, join_dot(spec_prelude()[1]))
        =~= seq![e2]);
    assert(cand_insert(seq![e1], r2, join_dot(spec_prelude()[1])) =~= seq![e1] + cand_insert(
        seq![e1].skip(1),
        r2,
        join_dot(spec_prelude()[1]),
    ));
    assert(cand_insert(seq![e1], r2, join_dot(spec_prelude()[1])) =~= seq![e1, e2]);
    let pc = spec_prelude_candidates(g, kind, name);
    assert(pc =~= seq![e1, e2]);
    assert(pc.drop_last() =~= seq![e1]);
    assert(seq![e1].drop_last() =~= Seq::<(Res, Seq<char>)>::empty());
    assert(filter_unimpl(Seq::<(Res, Seq<char>)>::empty()) =~= Seq::<(Res, Seq<char>)>::empty());
    assert(filter_unimpl(seq![e1]) =~= seq![e1]);
    assert(filter_unimpl(pc) =~= seq![e1, e2]);
    assert(finalize_candidates(pc) =~= seq![e1, e2]);
}

/// Law: a name declared directly in the root (global) namespace
/// resolves when no scope and no prelude namespace carries it.
pub proof fn lemma_root_fallback(
    g: GlobalScope,
    kind: NameKind,
    name: Seq<char>,
    name_span: Span,
    res: Res,
)
    requires
        spec_prelude_candidates(g, kind, name).len() == 0,
        g.spec_get(kind, g.namespaces.tree.id, name) == Some(res),
    ensures
        spec_resolve(g, Seq::empty(), kind, name, name_span, None) == SpecResolved::Found(res),
{
    assert(spec_check_scopes(g, Seq::empty(), kind, name, name_span, None, true) is None);
}


/// Whether a visible-name list carries an entry with the given name.
pub open spec fn list_contains_name(s: Seq<(Seq<char>, LocalKind)>, name: Seq<char>) -> bool {
    exists|i: int| 0 <= i < s.len() && (#[trigger] s[i]).0 == name
}

proof fn lemma_concat_contains(a: Seq<(Seq<char>, LocalKind)>, b: Seq<(Seq<char>, LocalKind)>, name: Seq<char>)
    ensures
        list_contains_name(a + b, name) <==> (list_contains_name(a, name) || list_contains_name(
            b,
            name,
        )),
{
    if list_contains_name(a, name) {
        let i = choose|i: int| 0 <= i < a.len() && (#[trigger] a[i]).0 == name;
        assert((a + b)[i] == a[i]);
    }
    if list_contains_name(b, name) {
        let i = choose|i: int| 0 <= i < b.len() && (#[trigger] b[i]).0 == name;
        assert((a + b)[a.len() + i] == b[i]);
    }
    if list_contains_name(a + b, name) {
        let i = choose|i: int| 0 <= i < (a + b).len() && (#[trigger] (a + b)[i]).0 == name;
        if i < a.len() {
            assert(a[i] == (a + b)[i]);
        } else {
            assert(b[i - a.len()] == (a + b)[i]);
        }
    }
}

proof fn lemma_scope_vars_contains(
    vs: Seq<(String, (u32, NodeId))>,
    offset: u32,
    name: Seq<char>,
)
    ensures
        list_contains_name(spec_scope_vars(vs, offset), name) <==> (exists|j: int|
            0 <= j < vs.len() && (#[trigger] vs[j]).0@ == name && vs[j].1.0 <= offset),
    decreases vs.len(),
{
    if vs.len() > 0 {
        lemma_scope_vars_contains(vs.drop_last(), offset, name);
        let front = spec_scope_vars(vs.drop_last(), offset);
        let e = vs.last();
        if e.1.0 <= offset {
            assert(spec_scope_vars(vs, offset) == front.push((e.0@, LocalKind::Var(e.1.1))));
            if list_contains_name(spec_scope_vars(vs, offset), name) {
                let i = choose|i: int|
                    0 <= i < spec_scope_vars(vs, offset).len() && (#[trigger] spec_scope_vars(
                        vs,
                        offset,
                    )[i]).0 == name;
                if i < front.len() {
                    assert(front[i] == spec_scope_vars(vs, offset)[i]);
                    let j = choose|j: int|
                        0 <= j < vs.drop_last().len() && (#[trigger] vs.drop_last()[j]).0@ == name
                            && vs.drop_last()[j].1.0 <= offset;
                    assert(vs[j] == vs.drop_last()[j]);
                } else {
                    assert(vs[vs.len() - 1].0@ == name);
                }
            }
            if exists|j: int|
                0 <= j < vs.len() && (#[trigger] vs[j]).0@ == name && vs[j].1.0 <= offset {
                let j = choose|j: int|
                    0 <= j < vs.len() && (#[trigger] vs[j]).0@ == name && vs[j].1.0 <= offset;
                if j < vs.len() - 1 {
                    assert(vs.drop_last()[j] == vs[j]);
                    let i = choose|i: int|
                        0 <= i < front.len() && (#[trigger] front[i]).0 == name;
                    assert(spec_scope_vars(vs, offset)[i] == front[i]);
                } else {
                    assert(spec_scope_vars(vs, offset).last().0 == name);
                }
            }
        } else {
            assert(spec_scope_vars(vs, offset) == front);
            if exists|j: int|
                0 <= j < vs.len() && (#[trigger] vs[j]).0@ == name && vs[j].1.0 <= offset {
                let j = choose|j: int|
                    0 <= j < vs.len() && (#[trigger] vs[j]).0@ == name && vs[j].1.0 <= offset;
                assert(j < vs.len() - 1);
                assert(vs.drop_last()[j] == vs[j]);
            }
            if exists|j: int|
                0 <= j < vs.drop_last().len() && (#[trigger] vs.drop_last()[j]).0@ == name
                    && vs.drop_last()[j].1.0 <= offset {
                let j = choose|j: int|
                    0 <= j < vs.drop_last().len() && (#[trigger] vs.drop_last()[j]).0@ == name
                        && vs.drop_last()[j].1.0 <= offset;
                assert(vs[j] == vs.drop_last()[j]);
            }
        }
    }
}

proof fn lemma_scope_ty_vars_names(s: Seq<(String, ParamId)>, name: Seq<char>)
    requires
        forall|j: int| 0 <= j < s.len() ==> (#[trigger] s[j]).0@ != name,
    ensures
        !list_contains_name(spec_scope_ty_vars(s), name),
    decreases s.len(),
{
    if s.len() > 0 {
        assert(forall|j: int|
            0 <= j < s.drop_last().len() ==> (#[trigger] s.drop_last()[j]).0@ != name);
        lemma_scope_ty_vars_names(s.drop_last(), name);
        if list_contains_name(spec_scope_ty_vars(s), name) {
            let i = choose|i: int|
                0 <= i < spec_scope_ty_vars(s).len() && (#[trigger] spec_scope_ty_vars(s)[i]).0
                    == name;
            let front = spec_scope_ty_vars(s.drop_last());
            if i < front.len() {
                assert(front[i] == spec_scope_ty_vars(s)[i]);
            } else {
                assert(s[s.len() - 1].0@ == name);
            }
        }
    }
}

proof fn lemma_scope_terms_names(s: Seq<(String, ItemId)>, name: Seq<char>)
    requires
        forall|j: int| 0 <= j < s.len() ==> (#[trigger] s[j]).0@ != name,
    ensures
        !list_contains_name(spec_scope_terms(s), name),
    decreases s.len(),
{
    if s.len() > 0 {
        assert(forall|j: int|
            0 <= j < s.drop_last().len() ==> (#[trigger] s.drop_last()[j]).0@ != name);
        lemma_scope_terms_names(s.drop_last(), name);
        if list_contains_name(spec_scope_terms(s), name) {
            let i = choose|i: int|
                0 <= i < spec_scope_terms(s).len() && (#[trigger] spec_scope_terms(s)[i]).0
                    == name;
            let front = spec_scope_terms(s.drop_last());
            if i < front.len() {
                assert(front[i] == spec_scope_terms(s)[i]);
            } else {
                assert(s[s.len() - 1].0@ == name);
            }
        }
    }
}

proof fn lemma_dedup_contains(s: Seq<(Seq<char>, LocalKind)>, name: Seq<char>)
    ensures
        list_contains_name(spec_dedup_names(s), name) <==> list_contains_name(s, name),
    decreases s.len(),
{
    if s.len() == 0 {
    } else {
        lemma_dedup_contains(s.drop_last(), name);
        let d = spec_dedup_names(s);
        let front = spec_dedup_names(s.drop_last());
        if exists|j: int| 0 <= j < s.len() - 1 && (#[trigger] s[j]).0 == s.last().0 {
            assert(d == front);
            if list_contains_name(s, name) {
                let i = choose|i: int| 0 <= i < s.len() && (#[trigger] s[i]).0 == name;
                if i < s.len() - 1 {
                    assert(s.drop_last()[i] == s[i]);
                } else {
                    // The last entry's name already occurs earlier.
                    let j = choose|j: int|
                        0 <= j < s.len() - 1 && (#[trigger] s[j]).0 == s.last().0;
                    assert(s.drop_last()[j] == s[j]);
                    assert(s.drop_last()[j].0 == name);
                }
            }
            if list_contains_name(s.drop_last(), name) {
                let i = choose|i: int|
                    0 <= i < s.drop_last().len() && (#[trigger] s.drop_last()[i]).0 == name;
                assert(s[i] == s.drop_last()[i]);
            }
        } else {
            assert(d == front.push(s.last()));
            if list_contains_name(s, name) {
                let i = choose|i: int| 0 <= i < s.len() && (#[trigger] s[i]).0 == name;
                if i < s.len() - 1 {
                    assert(s.drop_last()[i] == s[i]);
                    let w = choose|w: int| 0 <= w < front.len() && (#[trigger] front[w]).0 == name;
                    assert(d[w] == front[w]);
                } else {
                    assert(d.last().0 == name);
                }
            }
            if list_contains_name(d, name) {
                let i = choose|i: int| 0 <= i < d.len() && (#[trigger] d[i]).0 == name;
                if i < front.len() {
                    assert(front[i] == d[i]);
                    let w = choose|w: int|
                        0 <= w < s.drop_last().len() && (#[trigger] s.drop_last()[w]).0 == name;
                    assert(s[w] == s.drop_last()[w]);
                } else {
                    assert(s.last().0 == name);
                }
            }
        }
    }
}

/// Law: offset-gated visibility. In a single scope spanning the
/// offset, a local bound with first-visible offset `k` and not
/// otherwise declared is listed by the offset query exactly when the
/// offset has reached `k`.
pub proof fn lemma_offset_gated_visibility(
    locals: Locals,
    offset: u32,
    name: Seq<char>,
    k: u32,
)
    requires
        locals.scopes@.len() == 1,
        locals.scopes@[0].span.lo < offset,
        locals.scopes@[0].span.hi > offset,
        exists|j: int|
            0 <= j < locals.scopes@[0].vars@.len() && (#[trigger] locals.scopes@[0].vars@[j]).0@
                == name,
        forall|j: int|
            0 <= j < locals.scopes@[0].vars@.len() && (#[trigger] locals.scopes@[0].vars@[j]).0@
                == name ==> locals.scopes@[0].vars@[j].1.0 == k,
        forall|j: int|
            0 <= j < locals.scopes@[0].ty_vars@.len() ==> (
            #[trigger] locals.scopes@[0].ty_vars@[j]).0@ != name,
        forall|j: int|
            0 <= j < locals.scopes@[0].terms@.len() ==> (#[trigger] locals.scopes@[0].terms@[j]).0@
                != name,
    ensures
        list_contains_name(
            spec_dedup_names(spec_all_locals(locals.scopes@, offset, true)),
            name,
        ) <==> offset >= k,
{
    let sc = locals.scopes@[0];
    assert(locals.scopes@.last() == sc);
    assert(locals.scopes@.drop_last() =~= Seq::<Scope>::empty());
    assert(spec_all_locals(Seq::<Scope>::empty(), offset, true) =~= Seq::<(
        Seq<char>,
        LocalKind,
    )>::empty());
    assert(spec_all_locals(Seq::<Scope>::empty(), offset, false) =~= Seq::<(
        Seq<char>,
        LocalKind,
    )>::empty());
    let all = spec_all_locals(locals.scopes@, offset, true);
    let inner = spec_scope_vars(sc.vars@, offset) + spec_scope_ty_vars(sc.ty_vars@);
    assert(all =~= (inner + spec_scope_terms(sc.terms@)) + Seq::<(Seq<char>, LocalKind)>::empty());
    assert(all =~= inner + spec_scope_terms(sc.terms@));
    lemma_dedup_contains(all, name);
    lemma_concat_contains(inner, spec_scope_terms(sc.terms@), name);
    lemma_concat_contains(spec_scope_vars(sc.vars@, offset), spec_scope_ty_vars(sc.ty_vars@), name);
    lemma_scope_vars_contains(sc.vars@, offset, name);
    lemma_scope_ty_vars_names(sc.ty_vars@, name);
    lemma_scope_terms_names(sc.terms@, name);
    if offset >= k {
        let j = choose|j: int|
            0 <= j < sc.vars@.len() && (#[trigger] sc.vars@[j]).0@ == name;
        assert(sc.vars@[j].1.0 <= offset);
    }
}


/// Law: a name reachable through two opens of one scope, with
/// distinct implemented resolutions, is ambiguous, and the error
/// names the two opens' namespaces in span order.
pub proof fn lemma_dual_open_ambiguous(
    g: GlobalScope,
    sc: Scope,
    o1: Open,
    o2: Open,
    name: Seq<char>,
    name_span: Span,
    r1: Res,
    r2: Res,
)
    requires
        sc.vars@.len() == 0,
        sc.ty_vars@.len() == 0,
        sc.tys@.len() == 0,
        sc.terms@.len() == 0,
        !(sc.kind matches ScopeKind::Namespace(_)),
        sc.opens@.len() == 2,
        sc.opens@[0].1@ == seq![o1],
        sc.opens@[1].1@ == seq![o2],
        g.spec_get(NameKind::Term, o1.namespace, name) == Some(r1),
        g.spec_get(NameKind::Term, o2.namespace, name) == Some(r2),
        r1 != r2,
        !is_unimpl(r1),
        !is_unimpl(r2),
        span_le(o1.span, o2.span),
        !span_le(o2.span, o1.span),
    ensures
        spec_resolve(g, seq![sc], NameKind::Term, name, name_span, None) == (SpecResolved::Ambig {
            name,
            first_open: join_dot(g.namespaces.spec_path_of_id(o1.namespace)),
            second_open: join_dot(g.namespaces.spec_path_of_id(o2.namespace)),
            name_span,
            first_open_span: o1.span,
            second_open_span: o2.span,
        }),
{
    assert(assoc_find(sc.vars@, name) is None);
    assert(assoc_find(sc.terms@, name) is None);
    assert(spec_resolve_scope_locals(g, sc, true, NameKind::Term, name) is None);
    // The two opens flatten in order.
    let all = spec_all_opens(sc.opens@);
    assert(sc.opens@.drop_last() =~= seq![sc.opens@[0]]);
    assert(seq![sc.opens@[0]].drop_last() =~= Seq::<(Vec<String>, Vec<Open>)>::empty());
    assert(spec_all_opens(Seq::<(Vec<String>, Vec<Open>)>::empty()) =~= Seq::<Open>::empty());
    assert(spec_all_opens(seq![sc.opens@[0]]) =~= seq![o1]);
    assert(all =~= seq![o1, o2]);
    // Probing them collects both candidates, in order.
    let c0: Seq<(Res, Open)> = Seq::empty();
    assert(seq![o1, o2].drop_last() =~= seq![o1]);
    assert(seq![o1].drop_last() =~= Seq::<Open>::empty());
    assert(spec_open_candidates(g, Seq::<Open>::empty(), NameKind::Term, name, None) =~= c0);
    assert(cand_insert(c0, r1, o1) =~= seq![(r1, o1)]);
    assert(spec_open_candidates(g, seq![o1], NameKind::Term, name, None) =~= seq![(r1, o1)]);
    assert(seq![(r1, o1)].skip(1) =~= Seq::<(Res, Open)>::empty());
    assert(cand_insert(Seq::<(Res, Open)>::empty(), r2, o2) =~= seq![(r2, o2)]);
    assert(cand_insert(seq![(r1, o1)], r2, o2) =~= seq![(r1, o1)] + cand_insert(
        seq![(r1, o1)].skip(1),
        r2,
        o2,
    ));
    let cands = seq![(r1, o1), (r2, o2)];
    assert(spec_open_candidates(g, all, NameKind::Term, name, None) =~= cands);
    // Neither candidate is unimplemented, so both survive.
    assert(cands.drop_last() =~= seq![(r1, o1)]);
    assert(seq![(r1, o1)].drop_last() =~= Seq::<(Res, Open)>::empty());
    assert(filter_unimpl(Seq::<(Res, Open)>::empty()) =~= Seq::<(Res, Open)>::empty());
    assert(filter_unimpl(seq![(r1, o1)]) =~= seq![(r1, o1)]);
    assert(filter_unimpl(cands) =~= cands);
    assert(finalize_candidates(cands) == cands);
    // The earliest open comes first, the other second.
    assert(idx_min_span(cands.drop_last()) == 0);
    assert(idx_min_span(cands) == 0);
    assert(cands.remove(0) =~= seq![(r2, o2)]);
    assert(idx_min_span(seq![(r2, o2)]) == 0);
    assert(spec_two_earliest(cands) == (o1, o2));
    assert(spec_scope_outcome(g, sc, true, NameKind::Term, name, name_span, None) == Some(
        spec_ambig(g, name, name_span, cands),
    ));
    assert(seq![sc].skip(1) =~= Seq::<Scope>::empty());
}

} // verus!


















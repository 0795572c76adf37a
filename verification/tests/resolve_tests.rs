use nameres::ast::{Block, CallableBody, CallableDecl, Ident, Item, ItemKind, Pat, PatKind, Path, Span, Ty, TyKind};
use nameres::namespaces::NamespaceId;
use nameres::resolve::{
    bind_global_item, resolve, Assigner, Error, GlobalEntry, GlobalScope, GlobalTable, ItemId,
    ItemStatus, Local, LocalKind, Locals, NameKind, Names, Open, Prim, Res, Scope, ScopeKind,
    TrackedName,
};

fn ident(id: u32, lo: u32, hi: u32, name: &str) -> Ident {
    Ident { id, span: Span { lo, hi }, name: name.to_string() }
}

fn item(n: usize) -> Res {
    Res::Item(ItemId { package: None, item: n }, ItemStatus::Available)
}

fn path(segments: &[&str]) -> Vec<String> {
    segments.iter().map(|s| s.to_string()).collect()
}

fn empty_globals() -> GlobalScope {
    GlobalScope {
        tys: Vec::new(),
        terms: Vec::new(),
        namespaces: nameres::namespaces::NamespaceTreeRoot::default(),
        intrinsics: Vec::new(),
    }
}

fn scope(kind: ScopeKind, lo: u32, hi: u32) -> Scope {
    Scope::new(kind, Span { lo, hi })
}

#[test]
fn local_shadows_item_of_same_name() {
    // A scope binding `foo` both as a variable and as an item: the
    // variable wins when resolving a term.
    let globals = empty_globals();
    let mut locals = Locals::default();
    let mut s = scope(ScopeKind::Block, 0, 100);
    s.terms.push(("foo".to_string(), ItemId { package: None, item: 7 }));
    s.vars.push(("foo".to_string(), (10, 42)));
    locals.push_scope(s);
    let chain = vec![0];
    let name = ident(1, 50, 53, "foo");
    let r = resolve(NameKind::Term, &globals, &locals, &chain, &name, &None);
    assert_eq!(r, Ok(Res::Local(42)));
}

#[test]
fn item_found_when_no_var() {
    let globals = empty_globals();
    let mut locals = Locals::default();
    let mut s = scope(ScopeKind::Block, 0, 100);
    s.terms.push(("foo".to_string(), ItemId { package: None, item: 7 }));
    locals.push_scope(s);
    let chain = vec![0];
    let name = ident(1, 50, 53, "foo");
    let r = resolve(NameKind::Term, &globals, &locals, &chain, &name, &None);
    assert_eq!(r, Ok(item(7)));
}

#[test]
fn offset_gates_variable_visibility() {
    // A variable first visible at offset 40 is absent before it and
    // present from it onward.
    let mut locals = Locals::default();
    let mut s = scope(ScopeKind::Block, 0, 100);
    s.vars.push(("x".to_string(), (40, 5)));
    locals.push_scope(s);
    let before: Vec<Local> = locals.get_all_at_offset(39);
    assert!(before.iter().all(|l| l.name != "x"));
    let at: Vec<Local> = locals.get_all_at_offset(40);
    assert!(at.iter().any(|l| l.name == "x" && l.kind == LocalKind::Var(5)));
    let after: Vec<Local> = locals.get_all_at_offset(77);
    assert!(after.iter().any(|l| l.name == "x" && l.kind == LocalKind::Var(5)));
}

#[test]
fn callable_boundary_hides_vars_not_items() {
    // A callable scope nested in a block: the outer variable is not
    // listed inside the callable, the outer item is.
    let mut locals = Locals::default();
    let mut outer = scope(ScopeKind::Block, 0, 100);
    outer.vars.push(("y".to_string(), (5, 9)));
    outer.terms.push(("f".to_string(), ItemId { package: None, item: 3 }));
    locals.push_scope(outer);
    locals.push_scope(scope(ScopeKind::Callable, 10, 90));
    let inside = locals.get_all_at_offset(50);
    assert!(inside.iter().all(|l| l.name != "y"));
    assert!(inside.iter().any(|l| l.name == "f" && l.kind == LocalKind::Item(ItemId {
        package: None,
        item: 3,
    })));
}

#[test]
fn callable_boundary_blocks_var_resolution() {
    let globals = empty_globals();
    let mut locals = Locals::default();
    let mut outer = scope(ScopeKind::Block, 0, 100);
    outer.vars.push(("y".to_string(), (5, 9)));
    locals.push_scope(outer);
    locals.push_scope(scope(ScopeKind::Callable, 10, 90));
    let chain = vec![0, 1];
    let name = ident(1, 50, 51, "y");
    let r = resolve(NameKind::Term, &globals, &locals, &chain, &name, &None);
    assert_eq!(r, Err(Error::NotFound("y".to_string(), Span { lo: 50, hi: 51 })));
}

#[test]
fn single_open_resolves() {
    let mut globals = empty_globals();
    let a = globals.insert_or_find_namespace(&path(&["A"]));
    globals.terms.push(GlobalEntry { namespace: a, name: "Foo".to_string(), res: item(1) });
    let mut locals = Locals::default();
    let mut s = scope(ScopeKind::Block, 0, 100);
    s.opens.push((path(&["A"]), vec![Open { namespace: a, span: Span { lo: 2, hi: 9 } }]));
    locals.push_scope(s);
    let chain = vec![0];
    let name = ident(1, 50, 53, "Foo");
    let r = resolve(NameKind::Term, &globals, &locals, &chain, &name, &None);
    assert_eq!(r, Ok(item(1)));
}

#[test]
fn dual_open_is_ambiguous_naming_earliest_two() {
    // Namespace C opens A and B, both declaring Foo: ambiguous, with
    // the two opens named in span order.
    let mut globals = empty_globals();
    let a = globals.insert_or_find_namespace(&path(&["A"]));
    let b = globals.insert_or_find_namespace(&path(&["B"]));
    globals.terms.push(GlobalEntry { namespace: a, name: "Foo".to_string(), res: item(1) });
    globals.terms.push(GlobalEntry { namespace: b, name: "Foo".to_string(), res: item(2) });
    let mut locals = Locals::default();
    let mut s = scope(ScopeKind::Block, 0, 100);
    s.opens.push((path(&["A"]), vec![Open { namespace: a, span: Span { lo: 2, hi: 9 } }]));
    s.opens.push((path(&["B"]), vec![Open { namespace: b, span: Span { lo: 12, hi: 19 } }]));
    locals.push_scope(s);
    let chain = vec![0];
    let name = ident(1, 50, 53, "Foo");
    let r = resolve(NameKind::Term, &globals, &locals, &chain, &name, &None);
    assert_eq!(
        r,
        Err(Error::Ambiguous {
            name: "Foo".to_string(),
            first_open: "A".to_string(),
            second_open: "B".to_string(),
            name_span: Span { lo: 50, hi: 53 },
            first_open_span: Span { lo: 2, hi: 9 },
            second_open_span: Span { lo: 12, hi: 19 },
        })
    );
}

#[test]
fn qualified_name_resolves_through_open_alias() {
    // `open A.B as C;` makes `C.Foo` resolve to A.B's Foo.
    let mut globals = empty_globals();
    let ab = globals.insert_or_find_namespace(&path(&["A", "B"]));
    globals.terms.push(GlobalEntry { namespace: ab, name: "Foo".to_string(), res: item(4) });
    let mut locals = Locals::default();
    let mut s = scope(ScopeKind::Block, 0, 100);
    s.opens.push((path(&["C"]), vec![Open { namespace: ab, span: Span { lo: 2, hi: 9 } }]));
    locals.push_scope(s);
    let chain = vec![0];
    let name = ident(1, 50, 53, "Foo");
    let qual = Some(path(&["C"]));
    let r = resolve(NameKind::Term, &globals, &locals, &chain, &name, &qual);
    assert_eq!(r, Ok(item(4)));
}

#[test]
fn prelude_single_candidate_resolves() {
    let mut globals = empty_globals();
    let core = globals.insert_or_find_namespace(&path(&["Microsoft", "Quantum", "Core"]));
    globals.terms.push(GlobalEntry { namespace: core, name: "Length".to_string(), res: item(9) });
    let locals = Locals::default();
    let chain: Vec<usize> = Vec::new();
    let name = ident(1, 50, 56, "Length");
    let r = resolve(NameKind::Term, &globals, &locals, &chain, &name, &None);
    assert_eq!(r, Ok(item(9)));
}

#[test]
fn prelude_two_candidates_are_ambiguous_sorted() {
    let mut globals = empty_globals();
    let canon = globals.insert_or_find_namespace(&path(&["Microsoft", "Quantum", "Canon"]));
    let core = globals.insert_or_find_namespace(&path(&["Microsoft", "Quantum", "Core"]));
    globals.terms.push(GlobalEntry { namespace: canon, name: "Length".to_string(), res: item(8) });
    globals.terms.push(GlobalEntry { namespace: core, name: "Length".to_string(), res: item(9) });
    let locals = Locals::default();
    let chain: Vec<usize> = Vec::new();
    let name = ident(1, 50, 56, "Length");
    let r = resolve(NameKind::Term, &globals, &locals, &chain, &name, &None);
    assert_eq!(
        r,
        Err(Error::AmbiguousPrelude {
            name: "Length".to_string(),
            candidate_a: "Microsoft.Quantum.Canon".to_string(),
            candidate_b: "Microsoft.Quantum.Core".to_string(),
            span: Span { lo: 50, hi: 56 },
        })
    );
}

#[test]
fn unimplemented_superseded_among_candidates() {
    // With two open candidates, an unimplemented item is discarded so
    // that the implemented one wins without qualification.
    let mut globals = empty_globals();
    let a = globals.insert_or_find_namespace(&path(&["A"]));
    let b = globals.insert_or_find_namespace(&path(&["B"]));
    let stale = Res::Item(ItemId { package: None, item: 1 }, ItemStatus::Unimplemented);
    globals.terms.push(GlobalEntry { namespace: a, name: "Foo".to_string(), res: stale });
    globals.terms.push(GlobalEntry { namespace: b, name: "Foo".to_string(), res: item(2) });
    let mut locals = Locals::default();
    let mut s = scope(ScopeKind::Block, 0, 100);
    s.opens.push((path(&["A"]), vec![Open { namespace: a, span: Span { lo: 2, hi: 9 } }]));
    s.opens.push((path(&["B"]), vec![Open { namespace: b, span: Span { lo: 12, hi: 19 } }]));
    locals.push_scope(s);
    let chain = vec![0];
    let name = ident(1, 50, 53, "Foo");
    let r = resolve(NameKind::Term, &globals, &locals, &chain, &name, &None);
    assert_eq!(r, Ok(item(2)));
}

#[test]
fn root_fallback_resolves() {
    let mut globals = empty_globals();
    let root = globals.namespaces.root_id();
    globals.terms.push(GlobalEntry { namespace: root, name: "Bare".to_string(), res: item(5) });
    let locals = Locals::default();
    let chain: Vec<usize> = Vec::new();
    let name = ident(1, 50, 54, "Bare");
    let r = resolve(NameKind::Term, &globals, &locals, &chain, &name, &None);
    assert_eq!(r, Ok(item(5)));
}

#[test]
fn missing_name_not_found() {
    let globals = empty_globals();
    let locals = Locals::default();
    let chain: Vec<usize> = Vec::new();
    let name = ident(1, 5, 9, "Nope");
    let r = resolve(NameKind::Term, &globals, &locals, &chain, &name, &None);
    assert_eq!(r, Err(Error::NotFound("Nope".to_string(), Span { lo: 5, hi: 9 })));
}

#[test]
fn global_table_has_builtin_types() {
    let table = GlobalTable::new();
    let core = table
        .scope
        .find_namespace(&path(&["Microsoft", "Quantum", "Core"]))
        .expect("core namespace should exist");
    assert_eq!(
        table.scope.get(NameKind::Ty, core, &"Bool".to_string()),
        Some(Res::PrimTy(Prim::Bool))
    );
    assert_eq!(table.scope.get(NameKind::Ty, core, &"Unit".to_string()), Some(Res::UnitTy));
    assert_eq!(table.scope.get(NameKind::Term, core, &"Bool".to_string()), None);
}

#[test]
fn duplicate_declaration_is_non_destructive() {
    // Declaring `function Foo` twice in one namespace: one Duplicate
    // error, and the table still holds the first binding.
    let mut table = GlobalTable::new();
    let mut assigner = Assigner::new();
    let ns = table.scope.insert_or_find_namespace(&path(&["NS"]));
    let decl = |node: u32| {
        Item {
            id: node,
            span: Span { lo: 0, hi: 10 },
            attrs: Vec::new(),
            kind: ItemKind::Callable(CallableDecl {
                id: node + 1,
                span: Span { lo: 0, hi: 10 },
                name: ident(node + 2, 1, 4, "Foo"),
                generics: Vec::new(),
                input: Pat { id: node + 3, span: Span { lo: 4, hi: 6 }, kind: PatKind::Discard },
                output: Ty { id: node + 4, span: Span { lo: 6, hi: 8 }, kind: TyKind::Hole },
                body: CallableBody::Block(nameres::ast::Block {
                    id: node + 5,
                    span: Span { lo: 8, hi: 10 },
                    stmts: Vec::new(),
                }),
            }),
        }
    };
    let first = decl(100);
    let second = decl(200);
    let r1 = bind_global_item(&mut table.names, &mut table.scope, ns, &mut assigner, &first);
    assert!(r1.is_ok());
    let first_res = table.scope.get(NameKind::Term, ns, &"Foo".to_string());
    let r2 = bind_global_item(&mut table.names, &mut table.scope, ns, &mut assigner, &second);
    let errs = r2.expect_err("second binding should fail");
    assert_eq!(errs.len(), 1);
    assert_eq!(
        errs[0],
        Error::Duplicate("Foo".to_string(), "NS".to_string(), Span { lo: 1, hi: 4 })
    );
    // The first binding is untouched.
    assert_eq!(table.scope.get(NameKind::Term, ns, &"Foo".to_string()), first_res);
}

#[test]
fn not_available_hints_at_dropped_name() {
    let table = GlobalTable::new();
    let dropped = vec![TrackedName {
        name: "OldOp".to_string(),
        namespace: path(&["Legacy", "Ops"]),
    }];
    let mut resolver = nameres::resolve::Resolver::new(table, dropped);
    let p = Path {
        id: 30,
        span: Span { lo: 5, hi: 10 },
        namespace: None,
        name: ident(31, 5, 10, "OldOp"),
    };
    resolver.resolve_path(NameKind::Term, &p);
    let errors = resolver.drain_errors();
    assert_eq!(errors.len(), 1);
    assert_eq!(
        errors[0],
        Error::NotAvailable(
            "OldOp".to_string(),
            "Legacy.Ops.OldOp".to_string(),
            Span { lo: 5, hi: 10 }
        )
    );
}

#[test]
fn names_map_insert_replaces() {
    let mut names = Names::new();
    names.insert(4, Res::Local(1));
    names.insert(4, Res::Local(2));
    names.insert(5, Res::UnitTy);
    assert_eq!(names.get(4), Some(Res::Local(2)));
    assert_eq!(names.get(5), Some(Res::UnitTy));
    assert_eq!(names.get(6), None);
}

#[test]
fn one_alias_can_merge_two_namespaces() {
    // `open A as C; open B as C;` merges both under the alias: a name
    // only one of them declares resolves, a name both declare is
    // ambiguous.
    let mut globals = empty_globals();
    let a = globals.insert_or_find_namespace(&path(&["A"]));
    let b = globals.insert_or_find_namespace(&path(&["B"]));
    globals.terms.push(GlobalEntry { namespace: a, name: "OnlyA".to_string(), res: item(1) });
    globals.terms.push(GlobalEntry { namespace: a, name: "Both".to_string(), res: item(2) });
    globals.terms.push(GlobalEntry { namespace: b, name: "Both".to_string(), res: item(3) });
    let mut locals = Locals::default();
    let mut s = scope(ScopeKind::Block, 0, 100);
    s.opens.push((
        path(&["C"]),
        vec![
            Open { namespace: a, span: Span { lo: 2, hi: 9 } },
            Open { namespace: b, span: Span { lo: 12, hi: 19 } },
        ],
    ));
    locals.push_scope(s);
    let chain = vec![0];
    let qual = Some(path(&["C"]));
    let only = ident(1, 50, 55, "OnlyA");
    assert_eq!(resolve(NameKind::Term, &globals, &locals, &chain, &only, &qual), Ok(item(1)));
    let both = ident(2, 60, 64, "Both");
    let r = resolve(NameKind::Term, &globals, &locals, &chain, &both, &qual);
    assert!(matches!(r, Err(Error::Ambiguous { .. })), "got {r:?}");
}

#[test]
fn single_takes_exactly_one() {
    assert_eq!(nameres::resolve::single::<u32>(vec![7]), Some(7));
    assert_eq!(nameres::resolve::single::<u32>(vec![]), None);
    assert_eq!(nameres::resolve::single::<u32>(vec![1, 2]), None);
}

#[test]
fn inner_binding_shadows_outer_in_listing() {
    // Two scopes bind `x`: the offset query lists the inner one only,
    // and a later rebinding in one scope replaces the earlier one.
    let mut locals = Locals::default();
    let mut outer = scope(ScopeKind::Block, 0, 100);
    outer.vars.push(("x".to_string(), (5, 1)));
    locals.push_scope(outer);
    let mut inner = scope(ScopeKind::Block, 10, 90);
    inner.vars.push(("x".to_string(), (15, 2)));
    locals.push_scope(inner);
    let listed = locals.get_all_at_offset(50);
    let xs: Vec<_> = listed.iter().filter(|l| l.name == "x").collect();
    assert_eq!(xs.len(), 1);
    assert_eq!(xs[0].kind, LocalKind::Var(2));
}

#[test]
fn type_parameters_are_listed_and_resolved() {
    let globals = empty_globals();
    let mut locals = Locals::default();
    let mut s = scope(ScopeKind::Callable, 0, 100);
    s.ty_vars.push(("T".to_string(), 0));
    locals.push_scope(s);
    let chain = vec![0];
    let name = ident(1, 50, 51, "T");
    let r = resolve(NameKind::Ty, &globals, &locals, &chain, &name, &None);
    assert_eq!(r, Ok(Res::Param(0)));
    let listed = locals.get_all_at_offset(50);
    assert!(listed.iter().any(|l| l.name == "T" && l.kind == LocalKind::TyParam(0)));
}

#[test]
fn shadowed_outer_binding_stays_hidden_across_other_names() {
    // An inner `x`, then an outer scope binding `y` and `x`: the
    // outer `x` must not reappear just because `y` stands between
    // the two in the collected list.
    let mut locals = Locals::default();
    let mut outer = scope(ScopeKind::Block, 0, 100);
    outer.vars.push(("y".to_string(), (5, 8)));
    outer.vars.push(("x".to_string(), (5, 9)));
    locals.push_scope(outer);
    let mut inner = scope(ScopeKind::Block, 10, 90);
    inner.vars.push(("x".to_string(), (15, 2)));
    locals.push_scope(inner);
    let listed = locals.get_all_at_offset(50);
    let xs: Vec<_> = listed.iter().filter(|l| l.name == "x").collect();
    assert_eq!(xs.len(), 1);
    assert_eq!(xs[0].kind, LocalKind::Var(2));
    assert!(listed.iter().any(|l| l.name == "y"));
}

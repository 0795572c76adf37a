use nameres::ast::{
    Block, CallableBody, CallableDecl, Expr, ExprKind, Ident, Item, ItemKind, Namespace, Package,
    Pat, PatKind, Path, Span, Stmt, StmtKind, TopLevelNode, Ty, TyKind,
};
use nameres::ast::{Attr, SpecBody, SpecDecl, SpecGen};
use nameres::resolve::{
    extract_field_name, is_field_update, visit_package, Assigner, Error, GlobalTable, NameKind,
    Res, Resolver,
};

fn sp(lo: u32, hi: u32) -> Span {
    Span { lo, hi }
}

fn ident(id: u32, lo: u32, hi: u32, name: &str) -> Ident {
    Ident { id, span: sp(lo, hi), name: name.to_string() }
}

fn upath(id: u32, lo: u32, hi: u32, name: &str) -> Path {
    Path { id, span: sp(lo, hi), namespace: None, name: ident(id + 1, lo, hi, name) }
}

/// namespace NS { function Main() : Unit { f-body } }
fn package_with_body(stmts: Vec<Stmt>) -> Package {
    let decl = CallableDecl {
        id: 2,
        span: sp(10, 90),
        name: ident(3, 20, 24, "Main"),
        generics: Vec::new(),
        input: Pat { id: 4, span: sp(24, 26), kind: PatKind::Discard },
        output: Ty { id: 5, span: sp(26, 30), kind: TyKind::Hole },
        body: CallableBody::Block(Block { id: 6, span: sp(30, 90), stmts }),
    };
    let item = Item { id: 7, span: sp(10, 90), attrs: Vec::new(), kind: ItemKind::Callable(decl) };
    let ns = Namespace {
        id: 8,
        span: sp(0, 100),
        name: vec![ident(9, 10, 12, "NS")],
        items: vec![item],
    };
    Package { id: 1, nodes: vec![TopLevelNode::Namespace(ns)] }
}

#[test]
fn whole_pass_resolves_a_reference() {
    // The body of Main refers to Main itself: the two-pass driver
    // records the resolution for the path node.
    let reference = Stmt {
        id: 40,
        span: sp(40, 50),
        kind: StmtKind::Semi(Expr {
            id: 41,
            span: sp(40, 49),
            kind: ExprKind::Path(upath(42, 40, 44, "Main")),
        }),
    };
    let package = package_with_body(vec![reference]);
    let mut table = GlobalTable::new();
    let mut assigner = Assigner::new();
    let errors = table.add_local_package(&mut assigner, &package);
    assert!(errors.is_empty());
    let mut resolver = Resolver::new(table, Vec::new());
    visit_package(&mut resolver, &mut assigner, &package);
    let (names, _locals, errors, _tree) = resolver.into_result();
    assert!(errors.is_empty(), "unexpected errors: {errors:?}");
    let res = names.get(42).expect("the reference should be resolved");
    assert!(matches!(res, Res::Item(_, _)));
}

#[test]
fn field_update_index_never_enters_the_map() {
    // In `set r w/= fld <- 1`, `fld` does not resolve as a local, so
    // it is treated as a field name: it gets no entry in the
    // resolution map and reports no error.
    let bind_r = Stmt {
        id: 50,
        span: sp(31, 39),
        kind: StmtKind::Local(
            Pat { id: 51, span: sp(35, 36), kind: PatKind::Bind(ident(52, 35, 36, "r"), None) },
            Expr { id: 53, span: sp(37, 38), kind: ExprKind::Lit },
        ),
    };
    let update = Stmt {
        id: 60,
        span: sp(40, 60),
        kind: StmtKind::Semi(Expr {
            id: 61,
            span: sp(40, 59),
            kind: ExprKind::AssignUpdate(
                Box::new(Expr {
                    id: 62,
                    span: sp(44, 45),
                    kind: ExprKind::Path(upath(63, 44, 45, "r")),
                }),
                Box::new(Expr {
                    id: 65,
                    span: sp(47, 50),
                    kind: ExprKind::Path(upath(66, 47, 50, "fld")),
                }),
                Box::new(Expr { id: 68, span: sp(54, 55), kind: ExprKind::Lit }),
            ),
        }),
    };
    let package = package_with_body(vec![bind_r, update]);
    let mut table = GlobalTable::new();
    let mut assigner = Assigner::new();
    let errors = table.add_local_package(&mut assigner, &package);
    assert!(errors.is_empty());
    let mut resolver = Resolver::new(table, Vec::new());
    visit_package(&mut resolver, &mut assigner, &package);
    let (names, _locals, errors, _tree) = resolver.into_result();
    // The container resolved to the local, the index stayed out of
    // the map, and nothing was reported.
    assert!(matches!(names.get(63), Some(Res::Local(_))));
    assert_eq!(names.get(66), None);
    assert!(errors.is_empty(), "unexpected errors: {errors:?}");
}

#[test]
fn variable_index_is_resolved_not_a_field() {
    // In `set r w/= i <- 1` where `i` is a local, the index is a real
    // reference and is resolved.
    let bind_r = Stmt {
        id: 50,
        span: sp(31, 35),
        kind: StmtKind::Local(
            Pat { id: 51, span: sp(32, 33), kind: PatKind::Bind(ident(52, 32, 33, "r"), None) },
            Expr { id: 53, span: sp(34, 35), kind: ExprKind::Lit },
        ),
    };
    let bind_i = Stmt {
        id: 55,
        span: sp(36, 39),
        kind: StmtKind::Local(
            Pat { id: 56, span: sp(37, 38), kind: PatKind::Bind(ident(57, 37, 38, "i"), None) },
            Expr { id: 58, span: sp(38, 39), kind: ExprKind::Lit },
        ),
    };
    let update = Stmt {
        id: 60,
        span: sp(40, 60),
        kind: StmtKind::Semi(Expr {
            id: 61,
            span: sp(40, 59),
            kind: ExprKind::Update(
                Box::new(Expr {
                    id: 62,
                    span: sp(44, 45),
                    kind: ExprKind::Path(upath(63, 44, 45, "r")),
                }),
                Box::new(Expr {
                    id: 65,
                    span: sp(47, 48),
                    kind: ExprKind::Path(upath(66, 47, 48, "i")),
                }),
                Box::new(Expr { id: 68, span: sp(54, 55), kind: ExprKind::Lit }),
            ),
        }),
    };
    let package = package_with_body(vec![bind_r, bind_i, update]);
    let mut table = GlobalTable::new();
    let mut assigner = Assigner::new();
    table.add_local_package(&mut assigner, &package);
    let mut resolver = Resolver::new(table, Vec::new());
    visit_package(&mut resolver, &mut assigner, &package);
    let (names, _locals, errors, _tree) = resolver.into_result();
    assert_eq!(names.get(66), Some(Res::Local(57)));
    assert!(errors.is_empty(), "unexpected errors: {errors:?}");
}

#[test]
fn is_field_update_checks_resolution() {
    let table = GlobalTable::new();
    let mut locals = nameres::resolve::Locals::default();
    let mut s = nameres::resolve::Scope::new(nameres::resolve::ScopeKind::Block, sp(0, 100));
    s.vars.push(("i".to_string(), (0, 9)));
    locals.push_scope(s);
    let chain = vec![0];
    let var_index =
        Expr { id: 1, span: sp(10, 11), kind: ExprKind::Path(upath(2, 10, 11, "i")) };
    let field_index =
        Expr { id: 4, span: sp(10, 13), kind: ExprKind::Path(upath(5, 10, 13, "fld")) };
    let lit_index = Expr { id: 7, span: sp(10, 11), kind: ExprKind::Lit };
    assert!(!is_field_update(&table.scope, &locals, &chain, &var_index));
    assert!(is_field_update(&table.scope, &locals, &chain, &field_index));
    assert!(!is_field_update(&table.scope, &locals, &chain, &lit_index));
}

#[test]
fn extract_field_name_takes_unresolved_paths() {
    let mut names = nameres::resolve::Names::new();
    names.insert(2, Res::Local(9));
    let local_expr =
        Expr { id: 1, span: sp(0, 1), kind: ExprKind::Path(upath(2, 0, 1, "x")) };
    let field_expr =
        Expr { id: 4, span: sp(0, 3), kind: ExprKind::Path(upath(5, 0, 3, "fld")) };
    assert!(extract_field_name(&names, &local_expr).is_none());
    assert_eq!(extract_field_name(&names, &field_expr).map(|s| s.as_str()), Some("fld"));
}

#[test]
fn duplicate_binding_in_one_pattern_is_reported() {
    let table = GlobalTable::new();
    let mut resolver = Resolver::with_persistent_local_scope(table, Vec::new());
    let pat = Pat {
        id: 10,
        span: sp(0, 10),
        kind: PatKind::Tuple(vec![
            Pat { id: 11, span: sp(1, 2), kind: PatKind::Bind(ident(12, 1, 2, "a"), None) },
            Pat { id: 13, span: sp(4, 5), kind: PatKind::Bind(ident(14, 4, 5, "a"), None) },
        ]),
    };
    resolver.bind_pat(&pat, 10);
    let errors = resolver.drain_errors();
    assert_eq!(errors, vec![Error::DuplicateBinding("a".to_string(), sp(4, 5))]);
}

#[test]
fn duplicate_intrinsic_is_program_wide() {
    let mut table = GlobalTable::new();
    let mut assigner = Assigner::new();
    let intrinsic_decl = |node: u32, lo: u32| {
        Item {
            id: node,
            span: sp(lo, lo + 10),
            attrs: Vec::new(),
            kind: ItemKind::Callable(CallableDecl {
                id: node + 1,
                span: sp(lo, lo + 10),
                name: ident(node + 2, lo + 1, lo + 4, "Gate"),
                generics: Vec::new(),
                input: Pat { id: node + 3, span: sp(lo + 4, lo + 6), kind: PatKind::Discard },
                output: Ty { id: node + 4, span: sp(lo + 6, lo + 8), kind: TyKind::Hole },
                body: CallableBody::Specs(vec![SpecDecl {
                    id: node + 5,
                    span: sp(lo + 8, lo + 10),
                    body: SpecBody::Gen(SpecGen::Intrinsic),
                }]),
            }),
        }
    };
    // The same intrinsic name in two different namespaces: the second
    // is a duplicate even though the namespaces differ.
    let ns_a = Namespace {
        id: 1,
        span: sp(0, 50),
        name: vec![ident(2, 0, 1, "A")],
        items: vec![intrinsic_decl(100, 10)],
    };
    let ns_b = Namespace {
        id: 3,
        span: sp(50, 100),
        name: vec![ident(4, 50, 51, "B")],
        items: vec![intrinsic_decl(200, 60)],
    };
    let package =
        Package { id: 5, nodes: vec![TopLevelNode::Namespace(ns_a), TopLevelNode::Namespace(ns_b)] };
    let errors = table.add_local_package(&mut assigner, &package);
    assert_eq!(errors, vec![Error::DuplicateIntrinsic("Gate".to_string(), sp(61, 64))]);
}

#[test]
fn unimplemented_item_reports_at_use() {
    // An item marked @Unimplemented still resolves, with an advisory
    // diagnostic at the point of use.
    let attr = Attr {
        id: 70,
        span: sp(5, 9),
        name: ident(71, 5, 9, "Unimplemented"),
        arg: Expr { id: 72, span: sp(9, 9), kind: ExprKind::Lit },
    };
    let decl = CallableDecl {
        id: 2,
        span: sp(10, 40),
        name: ident(3, 20, 24, "Stub"),
        generics: Vec::new(),
        input: Pat { id: 4, span: sp(24, 26), kind: PatKind::Discard },
        output: Ty { id: 5, span: sp(26, 30), kind: TyKind::Hole },
        body: CallableBody::Block(Block { id: 6, span: sp(30, 40), stmts: Vec::new() }),
    };
    let stub = Item { id: 7, span: sp(10, 40), attrs: vec![attr], kind: ItemKind::Callable(decl) };
    let user = CallableDecl {
        id: 12,
        span: sp(41, 90),
        name: ident(13, 45, 49, "Main"),
        generics: Vec::new(),
        input: Pat { id: 14, span: sp(49, 51), kind: PatKind::Discard },
        output: Ty { id: 15, span: sp(51, 55), kind: TyKind::Hole },
        body: CallableBody::Block(Block {
            id: 16,
            span: sp(55, 90),
            stmts: vec![Stmt {
                id: 80,
                span: sp(60, 70),
                kind: StmtKind::Semi(Expr {
                    id: 81,
                    span: sp(60, 69),
                    kind: ExprKind::Path(upath(82, 60, 64, "Stub")),
                }),
            }],
        }),
    };
    let user_item =
        Item { id: 17, span: sp(41, 90), attrs: Vec::new(), kind: ItemKind::Callable(user) };
    let ns = Namespace {
        id: 8,
        span: sp(0, 100),
        name: vec![ident(9, 1, 3, "NS")],
        items: vec![stub, user_item],
    };
    let package = Package { id: 1, nodes: vec![TopLevelNode::Namespace(ns)] };
    let mut table = GlobalTable::new();
    let mut assigner = Assigner::new();
    let errors = table.add_local_package(&mut assigner, &package);
    assert!(errors.is_empty());
    let mut resolver = Resolver::new(table, Vec::new());
    visit_package(&mut resolver, &mut assigner, &package);
    let (names, _locals, errors, _tree) = resolver.into_result();
    assert!(matches!(
        names.get(82),
        Some(Res::Item(_, nameres::resolve::ItemStatus::Unimplemented))
    ));
    assert_eq!(
        errors,
        vec![Error::Unimplemented("Stub".to_string(), sp(60, 64))]
    );
}

#[test]
fn bind_fragments_handles_top_level_items() {
    let table = GlobalTable::new();
    let mut assigner = Assigner::new();
    let mut resolver = Resolver::with_persistent_local_scope(table, Vec::new());
    let decl = CallableDecl {
        id: 2,
        span: sp(10, 40),
        name: ident(3, 20, 24, "Frag"),
        generics: Vec::new(),
        input: Pat { id: 4, span: sp(24, 26), kind: PatKind::Discard },
        output: Ty { id: 5, span: sp(26, 30), kind: TyKind::Hole },
        body: CallableBody::Block(Block { id: 6, span: sp(30, 40), stmts: Vec::new() }),
    };
    let stmt = Stmt {
        id: 7,
        span: sp(10, 40),
        kind: StmtKind::Item(Box::new(Item {
            id: 8,
            span: sp(10, 40),
            attrs: Vec::new(),
            kind: ItemKind::Callable(decl),
        })),
    };
    let package = Package { id: 1, nodes: vec![TopLevelNode::Stmt(stmt)] };
    resolver.bind_fragments(&package, &mut assigner);
    // The fragment's callable is now resolvable from the persistent
    // scope.
    let name = ident(90, 50, 54, "Frag");
    resolver.resolve_ident(NameKind::Term, &name);
    let (names, _locals, errors, _tree) = resolver.into_result();
    assert!(errors.is_empty());
    assert!(matches!(names.get(90), Some(Res::Item(_, _))));
}

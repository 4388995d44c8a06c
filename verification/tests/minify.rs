use washi::minifier::Minifier;
use washi::syntax::{
    CaseSelector, Block, VarDecl, Expr, FormalParameter, FnDecl,
    Call, Item, IfClause, Stmt, Struct, SwitchArm, Module,
    TypeAlias, TypeName,
};

// Builders for small WGSL modules.

fn ty(name: &str) -> TypeName {
    TypeName { ident: name.to_string(), template_args: None }
}

fn templated(name: &str, args: Vec<Expr>) -> TypeName {
    TypeName { ident: name.to_string(), template_args: Some(args) }
}

fn val(name: &str) -> Expr {
    Expr::TypeOrIdentifier(ty(name))
}

fn bin(left: Expr, right: Expr) -> Expr {
    Expr::Binary { left: Box::new(left), right: Box::new(right) }
}

fn call(name: &str, arguments: Vec<Expr>) -> Expr {
    Expr::Call(Call { ty: ty(name), arguments })
}

fn member(base: Expr, component: &str) -> Expr {
    Expr::NamedComponent { base: Box::new(base), component: component.to_string() }
}

fn global_var(name: &str, t: &str) -> Item {
    Item::VarDecl(VarDecl {
        ident: name.to_string(),
        ty: Some(ty(t)),
        initializer: None,
    })
}

fn let_stmt(name: &str, init: Expr) -> Stmt {
    Stmt::VarDecl(VarDecl {
        ident: name.to_string(),
        ty: None,
        initializer: Some(init),
    })
}

fn ret(e: Expr) -> Stmt {
    Stmt::Return(Some(e))
}

fn param(name: &str, t: &str) -> FormalParameter {
    FormalParameter { ident: name.to_string(), ty: ty(t) }
}

fn block(statements: Vec<Stmt>) -> Block {
    Block { statements }
}

fn func(
    entry_point: bool,
    name: &str,
    parameters: Vec<FormalParameter>,
    return_type: Option<&str>,
    statements: Vec<Stmt>,
) -> Item {
    Item::FnDecl(FnDecl {
        has_attributes: entry_point,
        ident: name.to_string(),
        parameters,
        return_type: return_type.map(ty),
        body: block(statements),
    })
}

fn module(global_declarations: Vec<Item>) -> Module {
    Module { global_declarations }
}

fn minified(m: &mut Minifier, mut unit: Module) -> Module {
    m.minify(&mut unit).expect("renaming succeeds");
    unit
}

fn entries(m: &Minifier) -> Vec<(String, String)> {
    m.map_entries()
}

fn pair(a: &str, b: &str) -> (String, String) {
    (a.to_string(), b.to_string())
}

#[test]
fn reuses_local_names_across_functions() {
    // fn foo(p: f32) -> f32 { let q = p; return q; }
    // fn qux(p: f32) -> f32 { let q = p * p; return q; }
    let input = module(vec![
        func(false, "foo", vec![param("p", "f32")], Some("f32"), vec![
            let_stmt("q", val("p")),
            ret(val("q")),
        ]),
        func(false, "qux", vec![param("p", "f32")], Some("f32"), vec![
            let_stmt("q", bin(val("p"), val("p"))),
            ret(val("q")),
        ]),
    ]);
    let mut m = Minifier::default();
    let out = minified(&mut m, input);
    // `a` and `b` are swizzle letters; the functions take `c` and `d`, and the locals of
    // each function start again from the first name no global has taken.
    let expected = module(vec![
        func(false, "c", vec![param("e", "f32")], Some("f32"), vec![
            let_stmt("f", val("e")),
            ret(val("f")),
        ]),
        func(false, "d", vec![param("e", "f32")], Some("f32"), vec![
            let_stmt("f", bin(val("e"), val("e"))),
            ret(val("f")),
        ]),
    ]);
    assert_eq!(out, expected);
}

#[test]
fn write_map_excludes_locals_and_keeps_globals() {
    // var<private> counter: f32;
    // fn helper(v: f32) -> f32 { let t = v + counter; return t; }
    // @fragment fn main() -> f32 { return helper(counter); }
    let input = module(vec![
        global_var("counter", "f32"),
        func(false, "helper", vec![param("v", "f32")], Some("f32"), vec![
            let_stmt("t", bin(val("v"), val("counter"))),
            ret(val("t")),
        ]),
        func(true, "main", vec![], Some("f32"), vec![ret(call("helper", vec![val("counter")]))]),
    ]);
    let mut m = Minifier::default();
    let out = minified(&mut m, input);
    let expected = module(vec![
        global_var("c", "f32"),
        func(false, "d", vec![param("e", "f32")], Some("f32"), vec![
            let_stmt("f", bin(val("e"), val("c"))),
            ret(val("f")),
        ]),
        func(true, "main", vec![], Some("f32"), vec![ret(call("d", vec![val("c")]))]),
    ]);
    assert_eq!(out, expected);
    assert_eq!(m.write_map(), "counter,c\r\nhelper,d\r\n");
}

#[test]
fn resolves_local_before_global_in_value_context() {
    // var<private> value: f32;
    // fn fetch(value: f32) -> f32 { return value; }
    // fn other() -> f32 { return value; }
    let input = module(vec![
        global_var("value", "f32"),
        func(false, "fetch", vec![param("value", "f32")], Some("f32"), vec![ret(val("value"))]),
        func(false, "other", vec![], Some("f32"), vec![ret(val("value"))]),
    ]);
    let mut m = Minifier::default();
    let out = minified(&mut m, input);
    let expected = module(vec![
        global_var("c", "f32"),
        func(false, "d", vec![param("f", "f32")], Some("f32"), vec![ret(val("f"))]),
        func(false, "e", vec![], Some("f32"), vec![ret(val("c"))]),
    ]);
    assert_eq!(out, expected);
}

#[test]
fn underscore_prefixed_idents_are_preserved() {
    // var<private> _keep: f32;
    // var<private> drop_me: f32;
    // fn _helper(_x: f32, amount: f32) -> f32 { let _t = _x + amount; return _t + _keep + drop_me; }
    let input = module(vec![
        global_var("_keep", "f32"),
        global_var("drop_me", "f32"),
        func(false, "_helper", vec![param("_x", "f32"), param("amount", "f32")], Some("f32"), vec![
            let_stmt("_t", bin(val("_x"), val("amount"))),
            ret(bin(bin(val("_t"), val("_keep")), val("drop_me"))),
        ]),
    ]);
    let mut m = Minifier::default();
    let out = minified(&mut m, input);
    let expected = module(vec![
        global_var("_keep", "f32"),
        global_var("c", "f32"),
        func(false, "_helper", vec![param("_x", "f32"), param("d", "f32")], Some("f32"), vec![
            let_stmt("_t", bin(val("_x"), val("d"))),
            ret(bin(bin(val("_t"), val("_keep")), val("c"))),
        ]),
    ]);
    assert_eq!(out, expected);
    for (old, _) in &entries(&m) {
        assert!(!old.starts_with('_'));
    }
    assert_eq!(entries(&m), vec![pair("drop_me", "c")]);
}

#[test]
fn function_params_do_not_shadow_module_scope_globals() {
    // var<private> a_tex: f32;
    // var<private> b_tex: f32;
    // fn blur(p: f32, q: f32) -> f32 { return p * a_tex + q * b_tex; }
    // @compute fn main() { blur(a_tex, b_tex); }
    let input = module(vec![
        global_var("a_tex", "f32"),
        global_var("b_tex", "f32"),
        func(false, "blur", vec![param("p", "f32"), param("q", "f32")], Some("f32"), vec![ret(
            bin(bin(val("p"), val("a_tex")), bin(val("q"), val("b_tex"))),
        )]),
        func(true, "main", vec![], None, vec![Stmt::Call(Call {
            ty: ty("blur"),
            arguments: vec![val("a_tex"), val("b_tex")],
        })]),
    ]);
    let mut m = Minifier::default();
    let out = minified(&mut m, input);

    let mut global_names = Vec::new();
    let mut blur_param_names = Vec::new();
    for decl in &out.global_declarations {
        match decl {
            Item::VarDecl(d) => global_names.push(d.ident.clone()),
            Item::FnDecl(f) => {
                if !f.has_attributes {
                    for p in &f.parameters {
                        blur_param_names.push(p.ident.clone());
                    }
                }
            },
            _ => {},
        }
    }
    assert_eq!(global_names.len(), 2);
    for global in &global_names {
        assert!(
            !blur_param_names.contains(global),
            "function parameter {blur_param_names:?} collided with module-scope global {global}"
        );
    }
    assert_eq!(global_names, vec!["c".to_string(), "d".to_string()]);
    // `g` is a swizzle letter, so the second parameter skips it
    assert_eq!(blur_param_names, vec!["f".to_string(), "h".to_string()]);
}

#[test]
fn modules_share_one_renaming() {
    // first module declares `light`; the second one uses it and declares `shade`
    let first = module(vec![global_var("light", "f32")]);
    let second = module(vec![
        global_var("shade", "f32"),
        func(true, "main", vec![], Some("f32"), vec![ret(bin(val("light"), val("shade")))]),
    ]);
    let mut m = Minifier::default();
    let out1 = minified(&mut m, first);
    let out2 = minified(&mut m, second);
    assert_eq!(out1, module(vec![global_var("c", "f32")]));
    assert_eq!(
        out2,
        module(vec![
            global_var("d", "f32"),
            func(true, "main", vec![], Some("f32"), vec![ret(bin(val("c"), val("d")))]),
        ])
    );
    assert_eq!(entries(&m), vec![pair("light", "c"), pair("shade", "d")]);
    assert_eq!(m.write_map(), "light,c\r\nshade,d\r\n");
}

#[test]
fn struct_members_and_components_renamed_alike() {
    // struct Light { color: vec3f, power: f32 }
    // alias Power = f32;
    // fn shine(l: Light) -> Power { return l.power * length(l.color); }
    let input = module(vec![
        Item::Struct(Struct {
            ident: "Light".to_string(),
            members: vec!["color".to_string(), "power".to_string()],
        }),
        Item::TypeAlias(TypeAlias { ident: "Power".to_string(), ty: ty("f32") }),
        func(false, "shine", vec![param("l", "Light")], Some("Power"), vec![ret(bin(
            member(val("l"), "power"),
            call("length", vec![member(val("l"), "color")]),
        ))]),
    ]);
    let mut m = Minifier::default();
    let out = minified(&mut m, input);
    // Light, color, power, Power, shine get c, d, e, f, h; `length` is a builtin
    let expected = module(vec![
        Item::Struct(Struct {
            ident: "c".to_string(),
            members: vec!["d".to_string(), "e".to_string()],
        }),
        Item::TypeAlias(TypeAlias { ident: "f".to_string(), ty: ty("f32") }),
        func(false, "h", vec![param("i", "c")], Some("f"), vec![ret(bin(
            member(val("i"), "e"),
            call("length", vec![member(val("i"), "d")]),
        ))]),
    ]);
    assert_eq!(out, expected);
    assert_eq!(
        entries(&m),
        vec![
            pair("Light", "c"),
            pair("color", "d"),
            pair("power", "e"),
            pair("Power", "f"),
            pair("shine", "h"),
        ]
    );
}

#[test]
fn nested_scopes_for_loops_and_switches() {
    // @compute fn main() {
    //   var total: u32 = 0u;
    //   for (var i: u32 = 0u; i < 4u; i++) { let k = i; total += k; }
    //   if (total > 2u) { let k = total; } else { let m = total; }
    //   switch total { case 1u: { let n = total; } default: {} }
    //   loop { break; }
    //   while (total < 1u) { total++; }
    // }
    let var_total = Stmt::VarDecl(VarDecl {
        ident: "total".to_string(),
        ty: Some(ty("u32")),
        initializer: Some(Expr::Literal),
    });
    let for_loop = Stmt::For {
        initializer: Some(Box::new(Stmt::VarDecl(VarDecl {
            ident: "i".to_string(),
            ty: Some(ty("u32")),
            initializer: Some(Expr::Literal),
        }))),
        condition: Some(bin(val("i"), Expr::Literal)),
        update: Some(Box::new(Stmt::Increment(val("i")))),
        body: block(vec![
            let_stmt("k", val("i")),
            Stmt::Assignment { lhs: val("total"), rhs: bin(val("total"), val("k")) },
        ]),
    };
    let if_stmt = Stmt::If {
        if_clause: IfClause {
            expression: bin(val("total"), Expr::Literal),
            body: block(vec![let_stmt("k", val("total"))]),
        },
        else_if_clauses: vec![],
        else_clause: Some(block(vec![let_stmt("m", val("total"))])),
    };
    let switch_stmt = Stmt::Switch {
        expression: val("total"),
        clauses: vec![
            SwitchArm {
                case_selectors: vec![CaseSelector::Expr(Expr::Literal)],
                body: block(vec![let_stmt("n", val("total"))]),
            },
            SwitchArm { case_selectors: vec![CaseSelector::Default], body: block(vec![]) },
        ],
    };
    let input = module(vec![func(true, "main", vec![], None, vec![
        var_total,
        for_loop,
        if_stmt,
        switch_stmt,
        Stmt::Loop(block(vec![Stmt::Break])),
        Stmt::While {
            condition: bin(val("total"), Expr::Literal),
            body: block(vec![Stmt::Increment(val("total"))]),
        },
    ])]);
    let mut m = Minifier::default();
    let out = minified(&mut m, input);
    // locals: total -> c, i -> d, k -> e (for body), k -> f (if), m -> h, n -> i
    let expected_body = vec![
        Stmt::VarDecl(VarDecl {
            ident: "c".to_string(),
            ty: Some(ty("u32")),
            initializer: Some(Expr::Literal),
        }),
        Stmt::For {
            initializer: Some(Box::new(Stmt::VarDecl(VarDecl {
                ident: "d".to_string(),
                ty: Some(ty("u32")),
                initializer: Some(Expr::Literal),
            }))),
            condition: Some(bin(val("d"), Expr::Literal)),
            update: Some(Box::new(Stmt::Increment(val("d")))),
            body: block(vec![
                let_stmt("e", val("d")),
                Stmt::Assignment { lhs: val("c"), rhs: bin(val("c"), val("e")) },
            ]),
        },
        Stmt::If {
            if_clause: IfClause {
                expression: bin(val("c"), Expr::Literal),
                body: block(vec![let_stmt("f", val("c"))]),
            },
            else_if_clauses: vec![],
            else_clause: Some(block(vec![let_stmt("h", val("c"))])),
        },
        Stmt::Switch {
            expression: val("c"),
            clauses: vec![
                SwitchArm {
                    case_selectors: vec![CaseSelector::Expr(Expr::Literal)],
                    body: block(vec![let_stmt("i", val("c"))]),
                },
                SwitchArm { case_selectors: vec![CaseSelector::Default], body: block(vec![]) },
            ],
        },
        Stmt::Loop(block(vec![Stmt::Break])),
        Stmt::While {
            condition: bin(val("c"), Expr::Literal),
            body: block(vec![Stmt::Increment(val("c"))]),
        },
    ];
    assert_eq!(out, module(vec![func(true, "main", vec![], None, expected_body)]));
    assert!(entries(&m).is_empty());
    assert_eq!(m.write_map(), "");
}

#[test]
fn template_arguments_are_renamed_inside() {
    // const N: u32 = 4u;
    // var<private> cells: array<f32, N>;
    let input = module(vec![
        Item::VarDecl(VarDecl {
            ident: "N".to_string(),
            ty: Some(ty("u32")),
            initializer: Some(Expr::Literal),
        }),
        Item::VarDecl(VarDecl {
            ident: "cells".to_string(),
            ty: Some(templated("array", vec![val("f32"), val("N")])),
            initializer: None,
        }),
    ]);
    let mut m = Minifier::default();
    let out = minified(&mut m, input);
    let expected = module(vec![
        Item::VarDecl(VarDecl {
            ident: "c".to_string(),
            ty: Some(ty("u32")),
            initializer: Some(Expr::Literal),
        }),
        Item::VarDecl(VarDecl {
            ident: "d".to_string(),
            ty: Some(templated("array", vec![val("f32"), val("c")])),
            initializer: None,
        }),
    ]);
    assert_eq!(out, expected);
}

#[test]
fn unchanged_names_stay_out_of_the_map_file() {
    // a global named like the name it is given: listed as a renaming, not in the map
    let input = module(vec![global_var("c", "f32"), global_var("big", "f32")]);
    let mut m = Minifier::default();
    let out = minified(&mut m, input);
    assert_eq!(out, module(vec![global_var("c", "f32"), global_var("d", "f32")]));
    assert_eq!(entries(&m), vec![pair("c", "c"), pair("big", "d")]);
    assert_eq!(m.write_map(), "big,d\r\n");
}

#[test]
fn entry_point_names_are_kept() {
    let input = module(vec![
        func(true, "vs_main", vec![], None, vec![]),
        func(true, "fs_main", vec![], None, vec![]),
    ]);
    let mut m = Minifier::default();
    let out = minified(&mut m, input);
    assert_eq!(
        out,
        module(vec![
            func(true, "vs_main", vec![], None, vec![]),
            func(true, "fs_main", vec![], None, vec![]),
        ])
    );
    assert!(entries(&m).is_empty());
}

#[test]
fn other_declarations_are_left_alone() {
    let input = module(vec![Item::Other, global_var("x_pos", "f32")]);
    let mut m = Minifier::default();
    let out = minified(&mut m, input);
    assert_eq!(out, module(vec![Item::Other, global_var("c", "f32")]));
}

#[test]
fn swizzle_and_predeclared_names_are_kept() {
    // fn xy(x: f32) -> f32 { let read = x; return read; }
    let input = module(vec![func(false, "xy", vec![param("x", "f32")], Some("f32"), vec![
        let_stmt("read", val("x")),
        ret(val("read")),
    ])]);
    let mut m = Minifier::default();
    let out = minified(&mut m, input);
    assert_eq!(
        out,
        module(vec![func(false, "xy", vec![param("x", "f32")], Some("f32"), vec![
            let_stmt("read", val("x")),
            ret(val("read")),
        ])])
    );
    assert!(entries(&m).is_empty());
}


#[test]
fn renamed_globals_never_take_an_entry_point_name() {
    // @compute fn c() {}  const foo = 1;
    let input = module(vec![
        func(true, "c", vec![], None, vec![]),
        Item::VarDecl(VarDecl {
            ident: "foo".to_string(),
            ty: None,
            initializer: Some(Expr::Literal),
        }),
    ]);
    let mut m = Minifier::default();
    let out = minified(&mut m, input);
    assert_eq!(
        out,
        module(vec![
            func(true, "c", vec![], None, vec![]),
            Item::VarDecl(VarDecl {
                ident: "d".to_string(),
                ty: None,
                initializer: Some(Expr::Literal),
            }),
        ])
    );
    // the same with the entry point declared last
    let input = module(vec![global_var("bar2", "f32"), func(true, "e", vec![], None, vec![])]);
    let out = minified(&mut m, input);
    assert_eq!(out, module(vec![global_var("f", "f32"), func(true, "e", vec![], None, vec![])]));
    assert_eq!(entries(&m), vec![pair("foo", "d"), pair("bar2", "f")]);
}

#[test]
fn member_named_like_an_entry_point_is_renamed() {
    // struct S { main: f32 }  @compute fn main() {}
    let input = module(vec![
        Item::Struct(Struct { ident: "S".to_string(), members: vec!["main".to_string()] }),
        func(true, "main", vec![], None, vec![]),
    ]);
    let mut m = Minifier::default();
    let out = minified(&mut m, input);
    assert_eq!(
        out,
        module(vec![
            Item::Struct(Struct { ident: "c".to_string(), members: vec!["d".to_string()] }),
            func(true, "main", vec![], None, vec![]),
        ])
    );
    assert_eq!(m.write_map(), "S,c\r\nmain,d\r\n");
}

#[test]
fn shadowing_locals_keep_their_declarations() {
    // var<private> foo: f32;
    // fn run(p: f32) -> f32 { let foo = p; { let foo = foo; p = foo; } return foo; }
    let input = module(vec![
        global_var("foo", "f32"),
        func(false, "run", vec![param("p", "f32")], Some("f32"), vec![
            let_stmt("foo", val("p")),
            Stmt::Compound(block(vec![
                let_stmt("foo", val("foo")),
                Stmt::Assignment { lhs: val("p"), rhs: val("foo") },
            ])),
            ret(val("foo")),
        ]),
    ]);
    let mut m = Minifier::default();
    let out = minified(&mut m, input);
    // foo -> c, run -> d; p -> e, outer local foo -> f, inner local foo -> h
    let expected = module(vec![
        global_var("c", "f32"),
        func(false, "d", vec![param("e", "f32")], Some("f32"), vec![
            let_stmt("f", val("e")),
            Stmt::Compound(block(vec![
                let_stmt("h", val("f")),
                Stmt::Assignment { lhs: val("e"), rhs: val("h") },
            ])),
            ret(val("f")),
        ]),
    ]);
    assert_eq!(out, expected);
}

#[test]
fn later_entry_point_may_share_an_earlier_new_name() {
    // module one: var foo: f32;   module two: @compute fn c() { return foo; }
    // `foo` was given `c` before `c` was known to be an entry point; both keep `c`
    let mut m = Minifier::default();
    let out1 = minified(&mut m, module(vec![global_var("foo", "f32")]));
    assert_eq!(out1, module(vec![global_var("c", "f32")]));
    let out2 = minified(&mut m, module(vec![func(true, "c", vec![], None, vec![ret(val("foo"))])]));
    assert_eq!(out2, module(vec![func(true, "c", vec![], None, vec![ret(val("c"))])]));
    assert_eq!(entries(&m), vec![pair("foo", "c")]);
}

use vstd::prelude::*;

use crate::renaming::{Event, Role};
use crate::syntax::{
    CaseSelector, Block, Expr, FormalParameter, Item, IfClause,
    Stmt, Struct, SwitchArm, Module, TypeName,
};

verus! {

// The order in which renaming visits a module: each identifier occurrence with its role,
// and the scope changes around blocks and functions. `*_shape` says that two trees
// differ at most in the spelling of their identifiers.

/// The events of a type or value name: its template arguments when it has some, the
/// name itself otherwise (as a value name when `value`, else as a module-scope name).
pub open spec fn type_events(t: TypeName, value: bool) -> Seq<Event>
    decreases t, 0nat,
{
    match t.template_args {
        Some(args) => exprs_events(args@),
        None => seq![Event::Ident(if value { Role::Value } else { Role::Global }, t.ident@)],
    }
}

/// The events of an expression.
pub open spec fn expr_events(e: Expr) -> Seq<Event>
    decreases e, 0nat,
{
    match e {
        Expr::Literal => Seq::empty(),
        Expr::Parenthesized(inner) => expr_events(*inner),
        Expr::NamedComponent { base, component } => expr_events(*base) + seq![
            Event::Ident(Role::Global, component@),
        ],
        Expr::Indexing { base, index } => expr_events(*base) + expr_events(*index),
        Expr::Unary(operand) => expr_events(*operand),
        Expr::Binary { left, right } => expr_events(*left) + expr_events(*right),
        Expr::Call(call) => exprs_events(call.arguments@) + type_events(
            call.ty,
            true,
        ),
        Expr::TypeOrIdentifier(t) => type_events(t, true),
    }
}

/// The events of a list of expressions, one after the other.
pub open spec fn exprs_events(es: Seq<Expr>) -> Seq<Event>
    decreases es, 0nat,
{
    if es.len() == 0 {
        Seq::empty()
    } else {
        exprs_events(es.drop_last()) + expr_events(es.last())
    }
}

/// The events of an optional expression.
pub open spec fn opt_expr_events(e: Option<Expr>) -> Seq<Event> {
    match e {
        Some(e) => expr_events(e),
        None => Seq::empty(),
    }
}

/// The events of an optional type.
pub open spec fn opt_type_events(t: Option<TypeName>, value: bool) -> Seq<Event> {
    match t {
        Some(t) => type_events(t, value),
        None => Seq::empty(),
    }
}

/// The events of a case selector.
pub open spec fn selector_events(c: CaseSelector) -> Seq<Event> {
    match c {
        CaseSelector::Default => Seq::empty(),
        CaseSelector::Expr(e) => expr_events(e),
    }
}

/// The events of a list of case selectors.
pub open spec fn selectors_events(cs: Seq<CaseSelector>) -> Seq<Event>
    decreases cs.len(),
{
    if cs.len() == 0 {
        Seq::empty()
    } else {
        selectors_events(cs.drop_last()) + selector_events(cs.last())
    }
}

/// The events of a block: a scope around its statements.
pub open spec fn compound_events(c: Block) -> Seq<Event>
    decreases c, 0nat,
{
    seq![Event::PushScope] + stmts_events(c.statements@) + seq![Event::PopScope]
}

/// The events of a list of statements.
pub open spec fn stmts_events(ss: Seq<Stmt>) -> Seq<Event>
    decreases ss, 0nat,
{
    if ss.len() == 0 {
        Seq::empty()
    } else {
        stmts_events(ss.drop_last()) + stmt_events(ss.last())
    }
}

/// The events of the `else if` clauses: each body, then its condition.
pub open spec fn if_clauses_events(cs: Seq<IfClause>) -> Seq<Event>
    decreases cs, 0nat,
{
    if cs.len() == 0 {
        Seq::empty()
    } else {
        if_clauses_events(cs.drop_last()) + compound_events(cs.last().body) + expr_events(
            cs.last().expression,
        )
    }
}

/// The events of the clauses of a `switch`: each body, then its selectors.
pub open spec fn switch_clauses_events(cs: Seq<SwitchArm>) -> Seq<Event>
    decreases cs, 0nat,
{
    if cs.len() == 0 {
        Seq::empty()
    } else {
        switch_clauses_events(cs.drop_last()) + compound_events(cs.last().body)
            + selectors_events(cs.last().case_selectors@)
    }
}

/// The events of an optional block.
pub open spec fn opt_compound_events(c: Option<Block>) -> Seq<Event>
    decreases c, 0nat,
{
    match c {
        Some(c) => compound_events(c),
        None => Seq::empty(),
    }
}

/// The events of an optional statement.
pub open spec fn opt_stmt_events(s: Option<Box<Stmt>>) -> Seq<Event>
    decreases s, 0nat,
{
    match s {
        Some(s) => stmt_events(*s),
        None => Seq::empty(),
    }
}

/// The events of a statement.
pub open spec fn stmt_events(s: Stmt) -> Seq<Event>
    decreases s, 0nat,
{
    match s {
        Stmt::Void => Seq::empty(),
        Stmt::Compound(c) => compound_events(c),
        Stmt::Assignment { lhs, rhs } => expr_events(lhs) + expr_events(rhs),
        Stmt::Increment(e) => expr_events(e),
        Stmt::Decrement(e) => expr_events(e),
        Stmt::If { if_clause, else_if_clauses, else_clause } => compound_events(
            if_clause.body,
        ) + expr_events(if_clause.expression) + opt_compound_events(else_clause)
            + if_clauses_events(else_if_clauses@),
        Stmt::Switch { expression, clauses } => expr_events(expression)
            + switch_clauses_events(clauses@),
        Stmt::Loop(c) => compound_events(c),
        Stmt::For { initializer, condition, update, body } => seq![Event::PushScope]
            + opt_stmt_events(initializer) + opt_expr_events(condition) + compound_events(body)
            + opt_stmt_events(update) + seq![Event::PopScope],
        Stmt::While { condition, body } => expr_events(condition) + compound_events(body),
        Stmt::Break => Seq::empty(),
        Stmt::Continue => Seq::empty(),
        Stmt::Return(e) => opt_expr_events(e),
        Stmt::Discard => Seq::empty(),
        Stmt::Call(call) => type_events(call.ty, true) + exprs_events(
            call.arguments@,
        ),
        Stmt::ConstAssert(e) => expr_events(e),
        Stmt::VarDecl(d) => opt_expr_events(d.initializer) + opt_type_events(d.ty, false)
            + seq![Event::Ident(Role::LocalDecl, d.ident@)],
    }
}

/// The events of the parameters of a function: each name, then its type.
pub open spec fn params_events(ps: Seq<FormalParameter>) -> Seq<Event>
    decreases ps.len(),
{
    if ps.len() == 0 {
        Seq::empty()
    } else {
        params_events(ps.drop_last()) + seq![Event::Ident(Role::LocalDecl, ps.last().ident@)]
            + type_events(ps.last().ty, false)
    }
}

/// The events of the names of struct members.
pub open spec fn members_events(ms: Seq<String>) -> Seq<Event>
    decreases ms.len(),
{
    if ms.len() == 0 {
        Seq::empty()
    } else {
        members_events(ms.drop_last()) + seq![Event::Ident(Role::Global, ms.last()@)]
    }
}

/// The events of the name a module-scope declaration declares (first pass).
pub open spec fn decl_name_events(g: Item) -> Seq<Event> {
    match g {
        Item::Other => Seq::empty(),
        Item::VarDecl(d) => seq![Event::Ident(Role::Global, d.ident@)],
        Item::TypeAlias(a) => seq![Event::Ident(Role::Global, a.ident@)],
        Item::Struct(s) => seq![Event::Ident(Role::Global, s.ident@)]
            + members_events(s.members@),
        Item::FnDecl(f) => seq![
            Event::Ident(
                if f.has_attributes {
                    Role::KeepGlobal
                } else {
                    Role::Global
                },
                f.ident@,
            ),
        ],
    }
}

/// The events of the inside of a module-scope declaration (second pass): types,
/// initializers, and function parameters and bodies within a function scope.
pub open spec fn decl_body_events(g: Item) -> Seq<Event> {
    match g {
        Item::Other => Seq::empty(),
        Item::VarDecl(d) => opt_type_events(d.ty, false) + opt_expr_events(
            d.initializer,
        ),
        Item::TypeAlias(a) => type_events(a.ty, false),
        Item::Struct(_) => Seq::empty(),
        Item::FnDecl(f) => seq![Event::BeginFunction] + params_events(
            f.parameters@,
        ) + compound_events(f.body) + opt_type_events(f.return_type, false) + seq![
            Event::EndFunction,
        ],
    }
}

/// The first-pass events of a list of declarations.
pub open spec fn decl_names_events(gs: Seq<Item>) -> Seq<Event>
    decreases gs.len(),
{
    if gs.len() == 0 {
        Seq::empty()
    } else {
        decl_names_events(gs.drop_last()) + decl_name_events(gs.last())
    }
}

/// The second-pass events of a list of declarations.
pub open spec fn decl_bodies_events(gs: Seq<Item>) -> Seq<Event>
    decreases gs.len(),
{
    if gs.len() == 0 {
        Seq::empty()
    } else {
        decl_bodies_events(gs.drop_last()) + decl_body_events(gs.last())
    }
}

/// The name of an entry point (an attributed function), which is kept; nothing for any
/// other declaration.
pub open spec fn entry_event(g: Item) -> Seq<Event> {
    match g {
        Item::FnDecl(f) => if f.has_attributes {
            seq![Event::Ident(Role::Reserve, f.ident@)]
        } else {
            Seq::empty()
        },
        _ => Seq::empty(),
    }
}

/// The names of the entry points of a list of declarations, in order.
pub open spec fn entry_events(gs: Seq<Item>) -> Seq<Event>
    decreases gs.len(),
{
    if gs.len() == 0 {
        Seq::empty()
    } else {
        entry_events(gs.drop_last()) + entry_event(gs.last())
    }
}

/// The events of a module: the entry points' names first (so that no other name takes
/// them), then every declared name, then every inside.
pub open spec fn module_events(m: Module) -> Seq<Event> {
    entry_events(m.global_declarations@) + decl_names_events(m.global_declarations@)
        + decl_bodies_events(m.global_declarations@)
}

/// Declarations that declare the same names have the same entry point names.
pub proof fn lemma_entry_event_of_names(a: Item, b: Item)
    requires
        decl_name_events(a) == decl_name_events(b),
    ensures
        entry_event(a) == entry_event(b),
{
    let ea = decl_name_events(a);
    let eb = decl_name_events(b);
    if ea.len() > 0 {
        assert(ea[0] == eb[0]);
        if let Item::Struct(x) = a {
            assert(ea[0] == Event::Ident(Role::Global, x.ident@));
        }
        if let Item::Struct(y) = b {
            assert(eb[0] == Event::Ident(Role::Global, y.ident@));
        }
    }
}

/// Declarations with the same entry point names, pairwise, have the same entry points.
pub proof fn lemma_entries_same(a: Seq<Item>, b: Seq<Item>)
    requires
        a.len() == b.len(),
        forall|j: int| 0 <= j < a.len() ==> #[trigger] entry_event(a[j]) == entry_event(b[j]),
    ensures
        entry_events(a) == entry_events(b),
    decreases a.len(),
{
    if a.len() > 0 {
        assert forall|j: int| 0 <= j < a.drop_last().len() implies #[trigger] entry_event(
            a.drop_last()[j],
        ) == entry_event(b.drop_last()[j]) by {
            assert(entry_event(a[j]) == entry_event(b[j]));
        }
        lemma_entries_same(a.drop_last(), b.drop_last());
        assert(entry_event(a.last()) == entry_event(b.last()));
    }
}

/// Same type expression up to identifier spelling. The name of a type with template
/// arguments is not renamed, so it stays as it is.
pub open spec fn type_shape(a: TypeName, b: TypeName) -> bool
    decreases a, 0nat,
{
    match (a.template_args, b.template_args) {
        (None, None) => true,
        (Some(x), Some(y)) => a.ident == b.ident && exprs_shape(x@, y@),
        _ => false,
    }
}

/// Same expression up to identifier spelling.
pub open spec fn expr_shape(a: Expr, b: Expr) -> bool
    decreases a, 0nat,
{
    match (a, b) {
        (Expr::Literal, Expr::Literal) => true,
        (Expr::Parenthesized(x), Expr::Parenthesized(y)) => expr_shape(*x, *y),
        (
            Expr::NamedComponent { base: x, .. },
            Expr::NamedComponent { base: y, .. },
        ) => expr_shape(*x, *y),
        (
            Expr::Indexing { base: x1, index: x2 },
            Expr::Indexing { base: y1, index: y2 },
        ) => expr_shape(*x1, *y1) && expr_shape(*x2, *y2),
        (Expr::Unary(x), Expr::Unary(y)) => expr_shape(*x, *y),
        (
            Expr::Binary { left: x1, right: x2 },
            Expr::Binary { left: y1, right: y2 },
        ) => expr_shape(*x1, *y1) && expr_shape(*x2, *y2),
        (Expr::Call(x), Expr::Call(y)) => type_shape(x.ty, y.ty)
            && exprs_shape(x.arguments@, y.arguments@),
        (Expr::TypeOrIdentifier(x), Expr::TypeOrIdentifier(y)) => type_shape(x, y),
        _ => false,
    }
}

/// Same expressions, pairwise, up to identifier spelling.
pub open spec fn exprs_shape(a: Seq<Expr>, b: Seq<Expr>) -> bool
    decreases a, 0nat,
{
    a.len() == b.len() && (a.len() == 0 || (exprs_shape(a.drop_last(), b.drop_last())
        && expr_shape(a.last(), b.last())))
}

/// Same optional expression up to identifier spelling.
pub open spec fn opt_expr_shape(a: Option<Expr>, b: Option<Expr>) -> bool {
    match (a, b) {
        (None, None) => true,
        (Some(x), Some(y)) => expr_shape(x, y),
        _ => false,
    }
}

/// Same optional type up to identifier spelling.
pub open spec fn opt_type_shape(a: Option<TypeName>, b: Option<TypeName>) -> bool {
    match (a, b) {
        (None, None) => true,
        (Some(x), Some(y)) => type_shape(x, y),
        _ => false,
    }
}

/// Same case selector up to identifier spelling.
pub open spec fn selector_shape(a: CaseSelector, b: CaseSelector) -> bool {
    match (a, b) {
        (CaseSelector::Default, CaseSelector::Default) => true,
        (CaseSelector::Expr(x), CaseSelector::Expr(y)) => expr_shape(x, y),
        _ => false,
    }
}

/// Same case selectors, pairwise, up to identifier spelling.
pub open spec fn selectors_shape(a: Seq<CaseSelector>, b: Seq<CaseSelector>) -> bool
    decreases a.len(),
{
    a.len() == b.len() && (a.len() == 0 || (selectors_shape(a.drop_last(), b.drop_last())
        && selector_shape(a.last(), b.last())))
}

/// Same block up to identifier spelling.
pub open spec fn compound_shape(a: Block, b: Block) -> bool
    decreases a, 0nat,
{
    stmts_shape(a.statements@, b.statements@)
}

/// Same statements, pairwise, up to identifier spelling.
pub open spec fn stmts_shape(a: Seq<Stmt>, b: Seq<Stmt>) -> bool
    decreases a, 0nat,
{
    a.len() == b.len() && (a.len() == 0 || (stmts_shape(a.drop_last(), b.drop_last())
        && stmt_shape(a.last(), b.last())))
}

/// Same `else if` clauses, pairwise, up to identifier spelling.
pub open spec fn if_clauses_shape(a: Seq<IfClause>, b: Seq<IfClause>) -> bool
    decreases a, 0nat,
{
    a.len() == b.len() && (a.len() == 0 || (if_clauses_shape(a.drop_last(), b.drop_last())
        && compound_shape(a.last().body, b.last().body) && expr_shape(
        a.last().expression,
        b.last().expression,
    )))
}

/// Same `switch` clauses, pairwise, up to identifier spelling.
pub open spec fn switch_clauses_shape(a: Seq<SwitchArm>, b: Seq<SwitchArm>) -> bool
    decreases a, 0nat,
{
    a.len() == b.len() && (a.len() == 0 || (switch_clauses_shape(a.drop_last(), b.drop_last())
        && compound_shape(a.last().body, b.last().body) && selectors_shape(
        a.last().case_selectors@,
        b.last().case_selectors@,
    )))
}

/// Same optional block up to identifier spelling.
pub open spec fn opt_compound_shape(a: Option<Block>, b: Option<Block>) -> bool
    decreases a, 0nat,
{
    match (a, b) {
        (None, None) => true,
        (Some(x), Some(y)) => compound_shape(x, y),
        _ => false,
    }
}

/// Same optional statement up to identifier spelling.
pub open spec fn opt_stmt_shape(a: Option<Box<Stmt>>, b: Option<Box<Stmt>>) -> bool
    decreases a, 0nat,
{
    match (a, b) {
        (None, None) => true,
        (Some(x), Some(y)) => stmt_shape(*x, *y),
        _ => false,
    }
}

/// Same statement up to identifier spelling.
pub open spec fn stmt_shape(a: Stmt, b: Stmt) -> bool
    decreases a, 0nat,
{
    match (a, b) {
        (Stmt::Void, Stmt::Void) => true,
        (Stmt::Compound(x), Stmt::Compound(y)) => compound_shape(x, y),
        (Stmt::Assignment { lhs: x1, rhs: x2 }, Stmt::Assignment { lhs: y1, rhs: y2 }) =>
            expr_shape(x1, y1) && expr_shape(x2, y2),
        (Stmt::Increment(x), Stmt::Increment(y)) => expr_shape(x, y),
        (Stmt::Decrement(x), Stmt::Decrement(y)) => expr_shape(x, y),
        (
            Stmt::If { if_clause: x1, else_if_clauses: x2, else_clause: x3 },
            Stmt::If { if_clause: y1, else_if_clauses: y2, else_clause: y3 },
        ) => compound_shape(x1.body, y1.body) && expr_shape(x1.expression, y1.expression)
            && if_clauses_shape(x2@, y2@) && opt_compound_shape(x3, y3),
        (
            Stmt::Switch { expression: x1, clauses: x2 },
            Stmt::Switch { expression: y1, clauses: y2 },
        ) => expr_shape(x1, y1) && switch_clauses_shape(x2@, y2@),
        (Stmt::Loop(x), Stmt::Loop(y)) => compound_shape(x, y),
        (
            Stmt::For { initializer: x1, condition: x2, update: x3, body: x4 },
            Stmt::For { initializer: y1, condition: y2, update: y3, body: y4 },
        ) => opt_stmt_shape(x1, y1) && opt_expr_shape(x2, y2) && opt_stmt_shape(x3, y3)
            && compound_shape(x4, y4),
        (
            Stmt::While { condition: x1, body: x2 },
            Stmt::While { condition: y1, body: y2 },
        ) => expr_shape(x1, y1) && compound_shape(x2, y2),
        (Stmt::Break, Stmt::Break) => true,
        (Stmt::Continue, Stmt::Continue) => true,
        (Stmt::Return(x), Stmt::Return(y)) => opt_expr_shape(x, y),
        (Stmt::Discard, Stmt::Discard) => true,
        (Stmt::Call(x), Stmt::Call(y)) => type_shape(x.ty, y.ty)
            && exprs_shape(x.arguments@, y.arguments@),
        (Stmt::ConstAssert(x), Stmt::ConstAssert(y)) => expr_shape(x, y),
        (Stmt::VarDecl(x), Stmt::VarDecl(y)) => opt_type_shape(x.ty, y.ty)
            && opt_expr_shape(x.initializer, y.initializer),
        _ => false,
    }
}

/// Same parameters, pairwise, up to identifier spelling.
pub open spec fn params_shape(a: Seq<FormalParameter>, b: Seq<FormalParameter>) -> bool
    decreases a.len(),
{
    a.len() == b.len() && (a.len() == 0 || (params_shape(a.drop_last(), b.drop_last())
        && type_shape(a.last().ty, b.last().ty)))
}

/// Same module-scope declaration up to identifier spelling.
pub open spec fn decl_shape(a: Item, b: Item) -> bool {
    match (a, b) {
        (Item::Other, Item::Other) => true,
        (Item::VarDecl(x), Item::VarDecl(y)) => opt_type_shape(
            x.ty,
            y.ty,
        ) && opt_expr_shape(x.initializer, y.initializer),
        (Item::TypeAlias(x), Item::TypeAlias(y)) => type_shape(
            x.ty,
            y.ty,
        ),
        (Item::Struct(x), Item::Struct(y)) => x.members@.len()
            == y.members@.len(),
        (Item::FnDecl(x), Item::FnDecl(y)) => x.has_attributes
            == y.has_attributes && params_shape(x.parameters@, y.parameters@) && compound_shape(
            x.body,
            y.body,
        ) && opt_type_shape(x.return_type, y.return_type),
        _ => false,
    }
}

/// Same declarations, pairwise, up to identifier spelling.
pub open spec fn decls_shape(a: Seq<Item>, b: Seq<Item>) -> bool
    decreases a.len(),
{
    a.len() == b.len() && (a.len() == 0 || (decls_shape(a.drop_last(), b.drop_last())
        && decl_shape(a.last(), b.last())))
}

/// Same module up to identifier spelling.
pub open spec fn module_shape(a: Module, b: Module) -> bool {
    decls_shape(a.global_declarations@, b.global_declarations@)
}

/// The events of the first `j` expressions begin the events of all of them.
pub proof fn lemma_exprs_events_prefix(s: Seq<Expr>, j: int)
    requires
        0 <= j <= s.len(),
    ensures
        exists|t: Seq<Event>| exprs_events(s) == exprs_events(s.take(j)) + t,
    decreases s.len(),
{
    if j == s.len() {
        assert(s.take(j) == s);
        assert(exprs_events(s) == exprs_events(s.take(j)) + Seq::<Event>::empty());
    } else {
        lemma_exprs_events_prefix(s.drop_last(), j);
        assert(s.drop_last().take(j) == s.take(j));
        let t = choose|t: Seq<Event>| exprs_events(s.drop_last()) == exprs_events(s.drop_last().take(j)) + t;
        assert(exprs_events(s) == exprs_events(s.take(j)) + (t + expr_events(s.last())));
    }
}

/// Taking one more expression adds its events and its shape.
pub proof fn lemma_exprs_take_succ(s: Seq<Expr>, out: Seq<Expr>, x: Expr, i: int)
    requires
        0 <= i < s.len(),
        out.len() == i,
        exprs_shape(s.take(i), out),
        expr_shape(s[i], x),
    ensures
        exprs_events(s.take(i + 1)) == exprs_events(s.take(i)) + expr_events(s[i]),
        exprs_events(out.push(x)) == exprs_events(out) + expr_events(x),
        exprs_shape(s.take(i + 1), out.push(x)),
{
    assert(s.take(i + 1).drop_last() == s.take(i));
    assert(s.take(i + 1).last() == s[i]);
    assert(out.push(x).drop_last() == out);
    assert(out.push(x).last() == x);
}

/// The events of the first `j` statements begin the events of all of them.
pub proof fn lemma_stmts_events_prefix(s: Seq<Stmt>, j: int)
    requires
        0 <= j <= s.len(),
    ensures
        exists|t: Seq<Event>| stmts_events(s) == stmts_events(s.take(j)) + t,
    decreases s.len(),
{
    if j == s.len() {
        assert(s.take(j) == s);
        assert(stmts_events(s) == stmts_events(s.take(j)) + Seq::<Event>::empty());
    } else {
        lemma_stmts_events_prefix(s.drop_last(), j);
        assert(s.drop_last().take(j) == s.take(j));
        let t = choose|t: Seq<Event>| stmts_events(s.drop_last()) == stmts_events(s.drop_last().take(j)) + t;
        assert(stmts_events(s) == stmts_events(s.take(j)) + (t + stmt_events(s.last())));
    }
}

/// The events of the first `j` `else if` clauses begin the events of all of them.
pub proof fn lemma_if_clauses_events_prefix(s: Seq<IfClause>, j: int)
    requires
        0 <= j <= s.len(),
    ensures
        exists|t: Seq<Event>| if_clauses_events(s) == if_clauses_events(s.take(j)) + t,
    decreases s.len(),
{
    if j == s.len() {
        assert(s.take(j) == s);
        assert(if_clauses_events(s) == if_clauses_events(s.take(j)) + Seq::<Event>::empty());
    } else {
        lemma_if_clauses_events_prefix(s.drop_last(), j);
        assert(s.drop_last().take(j) == s.take(j));
        let t = choose|t: Seq<Event>|
            if_clauses_events(s.drop_last()) == if_clauses_events(s.drop_last().take(j)) + t;
        let u = compound_events(s.last().body) + expr_events(s.last().expression);
        assert(if_clauses_events(s) == if_clauses_events(s.drop_last()) + u);
        assert(if_clauses_events(s) == if_clauses_events(s.take(j)) + (t + u));
    }
}

/// The events of the first `j` `switch` clauses begin the events of all of them.
pub proof fn lemma_switch_clauses_events_prefix(s: Seq<SwitchArm>, j: int)
    requires
        0 <= j <= s.len(),
    ensures
        exists|t: Seq<Event>| switch_clauses_events(s) == switch_clauses_events(s.take(j)) + t,
    decreases s.len(),
{
    if j == s.len() {
        assert(s.take(j) == s);
        assert(switch_clauses_events(s) == switch_clauses_events(s.take(j)) + Seq::<Event>::empty());
    } else {
        lemma_switch_clauses_events_prefix(s.drop_last(), j);
        assert(s.drop_last().take(j) == s.take(j));
        let t = choose|t: Seq<Event>|
            switch_clauses_events(s.drop_last()) == switch_clauses_events(s.drop_last().take(j)) + t;
        let u = compound_events(s.last().body) + selectors_events(s.last().case_selectors@);
        assert(switch_clauses_events(s) == switch_clauses_events(s.drop_last()) + u);
        assert(switch_clauses_events(s) == switch_clauses_events(s.take(j)) + (t + u));
    }
}

/// The events of the first `j` case selectors begin the events of all of them.
pub proof fn lemma_selectors_events_prefix(s: Seq<CaseSelector>, j: int)
    requires
        0 <= j <= s.len(),
    ensures
        exists|t: Seq<Event>| selectors_events(s) == selectors_events(s.take(j)) + t,
    decreases s.len(),
{
    if j == s.len() {
        assert(s.take(j) == s);
        assert(selectors_events(s) == selectors_events(s.take(j)) + Seq::<Event>::empty());
    } else {
        lemma_selectors_events_prefix(s.drop_last(), j);
        assert(s.drop_last().take(j) == s.take(j));
        let t = choose|t: Seq<Event>| selectors_events(s.drop_last()) == selectors_events(s.drop_last().take(j)) + t;
        assert(selectors_events(s) == selectors_events(s.take(j)) + (t + selector_events(s.last())));
    }
}

/// Two declarations of the same kind whose insides (everything but the declared names)
/// are equal; of structs, only the number of members counts.
pub open spec fn same_inside(a: Item, b: Item) -> bool {
    match (a, b) {
        (Item::Other, Item::Other) => true,
        (Item::VarDecl(x), Item::VarDecl(y)) => x.ty == y.ty
            && x.initializer == y.initializer,
        (Item::TypeAlias(x), Item::TypeAlias(y)) => x.ty == y.ty,
        (Item::Struct(x), Item::Struct(y)) => x.members@.len()
            == y.members@.len(),
        (Item::FnDecl(x), Item::FnDecl(y)) => x.has_attributes
            == y.has_attributes && x.parameters == y.parameters && x.return_type == y.return_type
            && x.body == y.body,
        _ => false,
    }
}

/// Declarations with equal insides have the same second-pass events.
pub proof fn lemma_bodies_same_inside(a: Seq<Item>, b: Seq<Item>)
    requires
        a.len() == b.len(),
        forall|j: int| 0 <= j < a.len() ==> #[trigger] same_inside(a[j], b[j]),
    ensures
        decl_bodies_events(a) == decl_bodies_events(b),
    decreases a.len(),
{
    if a.len() > 0 {
        assert forall|j: int| 0 <= j < a.drop_last().len() implies #[trigger] same_inside(
            a.drop_last()[j],
            b.drop_last()[j],
        ) by {
            assert(same_inside(a[j], b[j]));
        }
        lemma_bodies_same_inside(a.drop_last(), b.drop_last());
        assert(same_inside(a.last(), b.last()));
    }
}

/// A shape that holds against declarations holds against any with equal insides.
pub proof fn lemma_shape_same_inside(
    a: Seq<Item>,
    b: Seq<Item>,
    c: Seq<Item>,
)
    requires
        a.len() == b.len(),
        forall|j: int| 0 <= j < a.len() ==> #[trigger] same_inside(a[j], b[j]),
        decls_shape(b, c),
    ensures
        decls_shape(a, c),
    decreases a.len(),
{
    if a.len() > 0 {
        assert forall|j: int| 0 <= j < a.drop_last().len() implies #[trigger] same_inside(
            a.drop_last()[j],
            b.drop_last()[j],
        ) by {
            assert(same_inside(a[j], b[j]));
        }
        lemma_shape_same_inside(a.drop_last(), b.drop_last(), c.drop_last());
        assert(same_inside(a.last(), b.last()));
    }
}

/// Declarations declaring the same names have the same first-pass events.
pub proof fn lemma_names_same(a: Seq<Item>, b: Seq<Item>)
    requires
        a.len() == b.len(),
        forall|j: int| 0 <= j < a.len() ==> #[trigger] decl_name_events(a[j]) == decl_name_events(b[j]),
    ensures
        decl_names_events(a) == decl_names_events(b),
    decreases a.len(),
{
    if a.len() > 0 {
        assert forall|j: int| 0 <= j < a.drop_last().len() implies #[trigger] decl_name_events(
            a.drop_last()[j],
        ) == decl_name_events(b.drop_last()[j]) by {
            assert(decl_name_events(a[j]) == decl_name_events(b[j]));
        }
        lemma_names_same(a.drop_last(), b.drop_last());
    }
}

/// The first-pass events of the first `j` declarations begin those of all of them.
pub proof fn lemma_decl_names_events_prefix(s: Seq<Item>, j: int)
    requires
        0 <= j <= s.len(),
    ensures
        exists|t: Seq<Event>| decl_names_events(s) == decl_names_events(s.take(j)) + t,
    decreases s.len(),
{
    if j == s.len() {
        assert(s.take(j) == s);
        assert(decl_names_events(s) == decl_names_events(s.take(j)) + Seq::<Event>::empty());
    } else {
        lemma_decl_names_events_prefix(s.drop_last(), j);
        assert(s.drop_last().take(j) == s.take(j));
        let t = choose|t: Seq<Event>|
            decl_names_events(s.drop_last()) == decl_names_events(s.drop_last().take(j)) + t;
        assert(decl_names_events(s) == decl_names_events(s.take(j)) + (t + decl_name_events(
            s.last(),
        )));
    }
}

/// The second-pass events of the first `j` declarations begin those of all of them.
pub proof fn lemma_decl_bodies_events_prefix(s: Seq<Item>, j: int)
    requires
        0 <= j <= s.len(),
    ensures
        exists|t: Seq<Event>| decl_bodies_events(s) == decl_bodies_events(s.take(j)) + t,
    decreases s.len(),
{
    if j == s.len() {
        assert(s.take(j) == s);
        assert(decl_bodies_events(s) == decl_bodies_events(s.take(j)) + Seq::<Event>::empty());
    } else {
        lemma_decl_bodies_events_prefix(s.drop_last(), j);
        assert(s.drop_last().take(j) == s.take(j));
        let t = choose|t: Seq<Event>|
            decl_bodies_events(s.drop_last()) == decl_bodies_events(s.drop_last().take(j)) + t;
        assert(decl_bodies_events(s) == decl_bodies_events(s.take(j)) + (t + decl_body_events(
            s.last(),
        )));
    }
}

/// The events of the first `j` parameters begin those of all of them.
pub proof fn lemma_params_events_prefix(s: Seq<FormalParameter>, j: int)
    requires
        0 <= j <= s.len(),
    ensures
        exists|t: Seq<Event>| params_events(s) == params_events(s.take(j)) + t,
    decreases s.len(),
{
    if j == s.len() {
        assert(s.take(j) == s);
        assert(params_events(s) == params_events(s.take(j)) + Seq::<Event>::empty());
    } else {
        lemma_params_events_prefix(s.drop_last(), j);
        assert(s.drop_last().take(j) == s.take(j));
        let t = choose|t: Seq<Event>| params_events(s.drop_last()) == params_events(s.drop_last().take(j)) + t;
        let u = seq![Event::Ident(Role::LocalDecl, s.last().ident@)] + type_events(s.last().ty, false);
        assert(params_events(s) == params_events(s.drop_last()) + u);
        assert(params_events(s) == params_events(s.take(j)) + (t + u));
    }
}

/// The events of the first `j` struct members begin those of all of them.
pub proof fn lemma_members_events_prefix(s: Seq<String>, j: int)
    requires
        0 <= j <= s.len(),
    ensures
        exists|t: Seq<Event>| members_events(s) == members_events(s.take(j)) + t,
    decreases s.len(),
{
    if j == s.len() {
        assert(s.take(j) == s);
        assert(members_events(s) == members_events(s.take(j)) + Seq::<Event>::empty());
    } else {
        lemma_members_events_prefix(s.drop_last(), j);
        assert(s.drop_last().take(j) == s.take(j));
        let t = choose|t: Seq<Event>| members_events(s.drop_last()) == members_events(s.drop_last().take(j)) + t;
        assert(members_events(s) == members_events(s.take(j)) + (t + seq![
            Event::Ident(Role::Global, s.last()@),
        ]));
    }
}

/// An event that opens or closes a function.
pub open spec fn fn_boundary(e: Event) -> bool {
    e is BeginFunction || e is EndFunction
}

/// An event that declares a local.
pub open spec fn local_decl(e: Event) -> bool {
    e is Ident && e->Ident_0 is LocalDecl
}

/// An event that only module scope holds: keeping the name of an attributed function,
/// or reserving the name of an entry point.
pub open spec fn module_only(e: Event) -> bool {
    e is Ident && (e->Ident_0 is KeepGlobal || e->Ident_0 is Reserve)
}

/// No event of `evs` opens or closes a function or belongs to module scope alone.
pub open spec fn no_boundary(evs: Seq<Event>) -> bool {
    forall|i: int| 0 <= i < evs.len() ==> !fn_boundary(#[trigger] evs[i]) && !module_only(evs[i])
}

/// An event that opens or closes a lexical scope.
pub open spec fn scope_event(e: Event) -> bool {
    e is PushScope || e is PopScope
}

/// No event of `evs` opens or closes a function or a scope, declares a local or belongs
/// to module scope alone.
pub open spec fn no_boundary_or_local(evs: Seq<Event>) -> bool {
    forall|i: int|
        0 <= i < evs.len() ==> !fn_boundary(#[trigger] evs[i]) && !local_decl(evs[i])
            && !module_only(evs[i]) && !scope_event(evs[i])
}

/// No event of `evs` opens or closes a function or declares a local.
pub open spec fn no_fn_or_local(evs: Seq<Event>) -> bool {
    forall|i: int| 0 <= i < evs.len() ==> !fn_boundary(#[trigger] evs[i]) && !local_decl(evs[i])
}

pub proof fn lemma_no_fn_or_local_add(a: Seq<Event>, b: Seq<Event>)
    requires
        no_fn_or_local(a),
        no_fn_or_local(b),
    ensures
        no_fn_or_local(a + b),
{
    assert forall|i: int| 0 <= i < (a + b).len() implies !fn_boundary(#[trigger] (a + b)[i])
        && !local_decl((a + b)[i]) by {
        if i < a.len() {
            assert((a + b)[i] == a[i]);
        } else {
            assert((a + b)[i] == b[i - a.len()]);
        }
    }
}

proof fn lemma_no_boundary_add(a: Seq<Event>, b: Seq<Event>)
    requires
        no_boundary(a),
        no_boundary(b),
    ensures
        no_boundary(a + b),
{
    assert forall|i: int| 0 <= i < (a + b).len() implies !fn_boundary(#[trigger] (a + b)[i])
        && !module_only((a + b)[i]) by {
        if i < a.len() {
            assert((a + b)[i] == a[i]);
        } else {
            assert((a + b)[i] == b[i - a.len()]);
        }
    }
}

pub proof fn lemma_no_local_add(a: Seq<Event>, b: Seq<Event>)
    requires
        no_boundary_or_local(a),
        no_boundary_or_local(b),
    ensures
        no_boundary_or_local(a + b),
{
    assert forall|i: int| 0 <= i < (a + b).len() implies !fn_boundary(#[trigger] (a + b)[i])
        && !local_decl((a + b)[i]) && !module_only((a + b)[i]) && !scope_event((a + b)[i]) by {
        if i < a.len() {
            assert((a + b)[i] == a[i]);
        } else {
            assert((a + b)[i] == b[i - a.len()]);
        }
    }
}

/// Types declare no local and open no function.
pub proof fn lemma_type_no_local(t: TypeName, value: bool)
    ensures
        no_boundary_or_local(type_events(t, value)),
    decreases t, 0nat,
{
    match t.template_args {
        Some(args) => lemma_exprs_no_local(args@),
        None => {},
    }
}

/// Expressions declare no local and open no function.
pub proof fn lemma_expr_no_local(e: Expr)
    ensures
        no_boundary_or_local(expr_events(e)),
    decreases e, 0nat,
{
    match e {
        Expr::Literal => {},
        Expr::Parenthesized(inner) => lemma_expr_no_local(*inner),
        Expr::NamedComponent { base, component } => {
            lemma_expr_no_local(*base);
            lemma_no_local_add(expr_events(*base), seq![Event::Ident(Role::Global, component@)]);
        },
        Expr::Indexing { base, index } => {
            lemma_expr_no_local(*base);
            lemma_expr_no_local(*index);
            lemma_no_local_add(expr_events(*base), expr_events(*index));
        },
        Expr::Unary(operand) => lemma_expr_no_local(*operand),
        Expr::Binary { left, right } => {
            lemma_expr_no_local(*left);
            lemma_expr_no_local(*right);
            lemma_no_local_add(expr_events(*left), expr_events(*right));
        },
        Expr::Call(call) => {
            lemma_exprs_no_local(call.arguments@);
            lemma_type_no_local(call.ty, true);
            lemma_no_local_add(exprs_events(call.arguments@), type_events(call.ty, true));
        },
        Expr::TypeOrIdentifier(t) => lemma_type_no_local(t, true),
    }
}

/// Lists of expressions declare no local and open no function.
pub proof fn lemma_exprs_no_local(es: Seq<Expr>)
    ensures
        no_boundary_or_local(exprs_events(es)),
    decreases es, 0nat,
{
    if es.len() > 0 {
        lemma_exprs_no_local(es.drop_last());
        lemma_expr_no_local(es.last());
        lemma_no_local_add(exprs_events(es.drop_last()), expr_events(es.last()));
    }
}

pub proof fn lemma_opt_expr_no_local(e: Option<Expr>)
    ensures
        no_boundary_or_local(opt_expr_events(e)),
{
    if let Some(x) = e {
        lemma_expr_no_local(x);
    }
}

pub proof fn lemma_opt_type_no_local(t: Option<TypeName>, value: bool)
    ensures
        no_boundary_or_local(opt_type_events(t, value)),
{
    if let Some(x) = t {
        lemma_type_no_local(x, value);
    }
}

pub proof fn lemma_selectors_no_local(cs: Seq<CaseSelector>)
    ensures
        no_boundary_or_local(selectors_events(cs)),
    decreases cs.len(),
{
    if cs.len() > 0 {
        lemma_selectors_no_local(cs.drop_last());
        if let CaseSelector::Expr(e) = cs.last() {
            lemma_expr_no_local(e);
        }
        lemma_no_local_add(selectors_events(cs.drop_last()), selector_events(cs.last()));
    }
}

/// Blocks open no function.
pub proof fn lemma_compound_no_boundary(c: Block)
    ensures
        no_boundary(compound_events(c)),
    decreases c, 0nat,
{
    lemma_stmts_no_boundary(c.statements@);
    lemma_no_boundary_add(seq![Event::PushScope], stmts_events(c.statements@));
    lemma_no_boundary_add(seq![Event::PushScope] + stmts_events(c.statements@), seq![Event::PopScope]);
}

/// Statements open no function.
pub proof fn lemma_stmts_no_boundary(ss: Seq<Stmt>)
    ensures
        no_boundary(stmts_events(ss)),
    decreases ss, 0nat,
{
    if ss.len() > 0 {
        lemma_stmts_no_boundary(ss.drop_last());
        lemma_stmt_no_boundary(ss.last());
        lemma_no_boundary_add(stmts_events(ss.drop_last()), stmt_events(ss.last()));
    }
}

proof fn lemma_if_clauses_no_boundary(cs: Seq<IfClause>)
    ensures
        no_boundary(if_clauses_events(cs)),
    decreases cs, 0nat,
{
    if cs.len() > 0 {
        lemma_if_clauses_no_boundary(cs.drop_last());
        lemma_compound_no_boundary(cs.last().body);
        lemma_expr_no_local(cs.last().expression);
        lemma_no_boundary_add(if_clauses_events(cs.drop_last()), compound_events(cs.last().body));
        lemma_no_boundary_add(
            if_clauses_events(cs.drop_last()) + compound_events(cs.last().body),
            expr_events(cs.last().expression),
        );
    }
}

proof fn lemma_switch_clauses_no_boundary(cs: Seq<SwitchArm>)
    ensures
        no_boundary(switch_clauses_events(cs)),
    decreases cs, 0nat,
{
    if cs.len() > 0 {
        lemma_switch_clauses_no_boundary(cs.drop_last());
        lemma_compound_no_boundary(cs.last().body);
        lemma_selectors_no_local(cs.last().case_selectors@);
        lemma_no_boundary_add(switch_clauses_events(cs.drop_last()), compound_events(cs.last().body));
        lemma_no_boundary_add(
            switch_clauses_events(cs.drop_last()) + compound_events(cs.last().body),
            selectors_events(cs.last().case_selectors@),
        );
    }
}

proof fn lemma_opt_compound_no_boundary(c: Option<Block>)
    ensures
        no_boundary(opt_compound_events(c)),
    decreases c, 0nat,
{
    if let Some(x) = c {
        lemma_compound_no_boundary(x);
    }
}

proof fn lemma_opt_stmt_no_boundary(s: Option<Box<Stmt>>)
    ensures
        no_boundary(opt_stmt_events(s)),
    decreases s, 0nat,
{
    if let Some(x) = s {
        lemma_stmt_no_boundary(*x);
    }
}

/// A statement opens no function.
pub proof fn lemma_stmt_no_boundary(s: Stmt)
    ensures
        no_boundary(stmt_events(s)),
    decreases s, 0nat,
{
    match s {
        Stmt::Void => {},
        Stmt::Compound(c) => lemma_compound_no_boundary(c),
        Stmt::Assignment { lhs, rhs } => {
            lemma_expr_no_local(lhs);
            lemma_expr_no_local(rhs);
            lemma_no_boundary_add(expr_events(lhs), expr_events(rhs));
        },
        Stmt::Increment(e) => lemma_expr_no_local(e),
        Stmt::Decrement(e) => lemma_expr_no_local(e),
        Stmt::If { if_clause, else_if_clauses, else_clause } => {
            lemma_compound_no_boundary(if_clause.body);
            lemma_expr_no_local(if_clause.expression);
            lemma_opt_compound_no_boundary(else_clause);
            lemma_if_clauses_no_boundary(else_if_clauses@);
            let a = compound_events(if_clause.body);
            let b = expr_events(if_clause.expression);
            let c = opt_compound_events(else_clause);
            lemma_no_boundary_add(a, b);
            lemma_no_boundary_add(a + b, c);
            lemma_no_boundary_add(a + b + c, if_clauses_events(else_if_clauses@));
        },
        Stmt::Switch { expression, clauses } => {
            lemma_expr_no_local(expression);
            lemma_switch_clauses_no_boundary(clauses@);
            lemma_no_boundary_add(expr_events(expression), switch_clauses_events(clauses@));
        },
        Stmt::Loop(c) => lemma_compound_no_boundary(c),
        Stmt::For { initializer, condition, update, body } => {
            lemma_opt_stmt_no_boundary(initializer);
            lemma_opt_expr_no_local(condition);
            lemma_compound_no_boundary(body);
            lemma_opt_stmt_no_boundary(update);
            let a = seq![Event::PushScope];
            let b = opt_stmt_events(initializer);
            let c = opt_expr_events(condition);
            let d = compound_events(body);
            let e = opt_stmt_events(update);
            lemma_no_boundary_add(a, b);
            lemma_no_boundary_add(a + b, c);
            lemma_no_boundary_add(a + b + c, d);
            lemma_no_boundary_add(a + b + c + d, e);
            lemma_no_boundary_add(a + b + c + d + e, seq![Event::PopScope]);
        },
        Stmt::While { condition, body } => {
            lemma_expr_no_local(condition);
            lemma_compound_no_boundary(body);
            lemma_no_boundary_add(expr_events(condition), compound_events(body));
        },
        Stmt::Break => {},
        Stmt::Continue => {},
        Stmt::Return(e) => lemma_opt_expr_no_local(e),
        Stmt::Discard => {},
        Stmt::Call(call) => {
            lemma_type_no_local(call.ty, true);
            lemma_exprs_no_local(call.arguments@);
            lemma_no_boundary_add(type_events(call.ty, true), exprs_events(call.arguments@));
        },
        Stmt::ConstAssert(e) => lemma_expr_no_local(e),
        Stmt::VarDecl(d) => {
            lemma_opt_expr_no_local(d.initializer);
            lemma_opt_type_no_local(d.ty, false);
            let a = opt_expr_events(d.initializer);
            let b = opt_type_events(d.ty, false);
            lemma_no_boundary_add(a, b);
            lemma_no_boundary_add(a + b, seq![Event::Ident(Role::LocalDecl, d.ident@)]);
        },
    }
}

/// Parameters open no function.
pub proof fn lemma_params_no_boundary(ps: Seq<FormalParameter>)
    ensures
        no_boundary(params_events(ps)),
    decreases ps.len(),
{
    if ps.len() > 0 {
        lemma_params_no_boundary(ps.drop_last());
        lemma_type_no_local(ps.last().ty, false);
        let a = params_events(ps.drop_last());
        let b = seq![Event::Ident(Role::LocalDecl, ps.last().ident@)];
        lemma_no_boundary_add(a, b);
        lemma_no_boundary_add(a + b, type_events(ps.last().ty, false));
    }
}

/// The names of struct members declare no local and open no function.
pub proof fn lemma_members_no_local(ms: Seq<String>)
    ensures
        no_boundary_or_local(members_events(ms)),
    decreases ms.len(),
{
    if ms.len() > 0 {
        lemma_members_no_local(ms.drop_last());
        lemma_no_local_add(members_events(ms.drop_last()), seq![Event::Ident(Role::Global, ms.last()@)]);
    }
}

/// The declared names of a module declare no local and open no function.
pub proof fn lemma_names_no_local(gs: Seq<Item>)
    ensures
        no_fn_or_local(decl_names_events(gs)),
        no_fn_or_local(entry_events(gs)),
    decreases gs.len(),
{
    if gs.len() > 0 {
        lemma_names_no_local(gs.drop_last());
        let g = gs.last();
        if let Item::Struct(st) = g {
            lemma_members_no_local(st.members@);
            lemma_no_local_add(seq![Event::Ident(Role::Global, st.ident@)], members_events(st.members@));
        }
        lemma_no_fn_or_local_add(decl_names_events(gs.drop_last()), decl_name_events(g));
        lemma_no_fn_or_local_add(entry_events(gs.drop_last()), entry_event(g));
    }
}

/// No event of `evs` belongs to module scope alone.
pub open spec fn no_module_only(evs: Seq<Event>) -> bool {
    forall|i: int| 0 <= i < evs.len() ==> !module_only(#[trigger] evs[i])
}

proof fn lemma_no_module_only_add(a: Seq<Event>, b: Seq<Event>)
    requires
        no_module_only(a),
        no_module_only(b),
    ensures
        no_module_only(a + b),
{
    assert forall|i: int| 0 <= i < (a + b).len() implies !module_only(#[trigger] (a + b)[i]) by {
        if i < a.len() {
            assert((a + b)[i] == a[i]);
        } else {
            assert((a + b)[i] == b[i - a.len()]);
        }
    }
}

/// The insides of declarations keep no name and reserve none: those events belong to
/// the declared names and the entry points alone.
pub proof fn lemma_bodies_no_module_only(gs: Seq<Item>)
    ensures
        no_module_only(decl_bodies_events(gs)),
    decreases gs.len(),
{
    if gs.len() > 0 {
        lemma_bodies_no_module_only(gs.drop_last());
        let g = gs.last();
        match g {
            Item::VarDecl(d) => {
                lemma_opt_type_no_local(d.ty, false);
                lemma_opt_expr_no_local(d.initializer);
                lemma_no_local_add(opt_type_events(d.ty, false), opt_expr_events(d.initializer));
            },
            Item::TypeAlias(a) => {
                lemma_type_no_local(a.ty, false);
            },
            Item::FnDecl(f) => {
                lemma_params_no_boundary(f.parameters@);
                lemma_compound_no_boundary(f.body);
                lemma_opt_type_no_local(f.return_type, false);
                let a = seq![Event::BeginFunction];
                let p = params_events(f.parameters@);
                let c = compound_events(f.body);
                let t = opt_type_events(f.return_type, false);
                lemma_no_module_only_add(a, p);
                lemma_no_module_only_add(a + p, c);
                lemma_no_module_only_add(a + p + c, t);
                lemma_no_module_only_add(a + p + c + t, seq![Event::EndFunction]);
            },
            _ => {},
        }
        assert(no_module_only(decl_body_events(g)));
        lemma_no_module_only_add(decl_bodies_events(gs.drop_last()), decl_body_events(g));
    }
}

} // verus!

use vstd::prelude::*;

use crate::renaming::{bind_innermost, run, step, Event, RenameState, Role};
use crate::syntax::{Block, IfClause, Stmt, SwitchArm};
use crate::walk::{
    compound_events, expr_events, exprs_events, fn_boundary, if_clauses_events, lemma_expr_no_local,
    lemma_exprs_no_local, lemma_no_local_add, lemma_opt_expr_no_local, lemma_opt_type_no_local,
    lemma_selectors_no_local, lemma_stmt_no_boundary, lemma_type_no_local, local_decl,
    module_only, no_boundary, no_boundary_or_local, opt_compound_events, opt_expr_events,
    opt_stmt_events, opt_type_events, scope_event, selectors_events, stmt_events, stmts_events,
    switch_clauses_events, type_events,
};

verus! {

// How the events of statements open and close lexical scopes, and what that means for the
// scopes of the blocks around a statement while it is renamed.

/// How an event moves the number of open scopes.
pub open spec fn scope_delta(e: Event) -> int {
    match e {
        Event::PushScope => 1,
        Event::PopScope => -1,
        _ => 0,
    }
}

/// Scopes opened minus scopes closed by `evs`.
pub open spec fn scope_net(evs: Seq<Event>) -> int
    decreases evs.len(),
{
    if evs.len() == 0 {
        0
    } else {
        scope_net(evs.drop_last()) + scope_delta(evs.last())
    }
}

/// `evs` never closes a scope it did not open, and closes every scope it opens.
pub open spec fn scopes_nest(evs: Seq<Event>) -> bool {
    &&& forall|k: int| 0 <= k <= evs.len() ==> #[trigger] scope_net(evs.take(k)) >= 0
    &&& scope_net(evs) == 0
}

/// Every local that `evs` declares is declared in a scope that `evs` itself opened.
pub open spec fn declares_inside_only(evs: Seq<Event>) -> bool {
    forall|k: int|
        0 <= k < evs.len() && #[trigger] local_decl(evs[k]) ==> scope_net(evs.take(k)) > 0
}

proof fn lemma_net_append(a: Seq<Event>, b: Seq<Event>)
    ensures
        scope_net(a + b) == scope_net(a) + scope_net(b),
    decreases b.len(),
{
    if b.len() == 0 {
        assert(a + b == a);
    } else {
        lemma_net_append(a, b.drop_last());
        assert((a + b).drop_last() == a + b.drop_last());
        assert((a + b).last() == b.last());
    }
}

proof fn lemma_net_one(e: Event)
    ensures
        scope_net(seq![e]) == scope_delta(e),
        scope_net(Seq::<Event>::empty()) == 0,
{
    let o = seq![e];
    assert(o.drop_last() =~= Seq::<Event>::empty());
    assert(o.last() == e);
    assert(scope_net(o) == scope_net(o.drop_last()) + scope_delta(o.last()));
}

proof fn lemma_nest_append(a: Seq<Event>, b: Seq<Event>)
    requires
        scopes_nest(a),
        scopes_nest(b),
    ensures
        scopes_nest(a + b),
        declares_inside_only(a) && declares_inside_only(b) ==> declares_inside_only(a + b),
{
    lemma_net_append(a, b);
    assert forall|k: int| 0 <= k <= (a + b).len() implies #[trigger] scope_net((a + b).take(k))
        >= 0 by {
        if k <= a.len() {
            assert((a + b).take(k) == a.take(k));
        } else {
            assert((a + b).take(k) == a + b.take(k - a.len()));
            assert(a.take(a.len() as int) == a);
            lemma_net_append(a, b.take(k - a.len()));
        }
    }
    if declares_inside_only(a) && declares_inside_only(b) {
        assert forall|k: int| 0 <= k < (a + b).len() && #[trigger] local_decl((a + b)[k]) implies scope_net(
            (a + b).take(k),
        ) > 0 by {
            if k < a.len() {
                assert((a + b)[k] == a[k]);
                assert((a + b).take(k) == a.take(k));
            } else {
                assert((a + b)[k] == b[k - a.len()]);
                assert((a + b).take(k) == a + b.take(k - a.len()));
                assert(a.take(a.len() as int) == a);
                lemma_net_append(a, b.take(k - a.len()));
            }
        }
    }
}

/// A block's events: a scope opened around events that nest.
proof fn lemma_nest_wrap(b: Seq<Event>)
    requires
        scopes_nest(b),
    ensures
        scopes_nest(seq![Event::PushScope] + b + seq![Event::PopScope]),
        declares_inside_only(seq![Event::PushScope] + b + seq![Event::PopScope]),
{
    let o = seq![Event::PushScope];
    let w = o + b + seq![Event::PopScope];
    lemma_net_append(o, b);
    lemma_net_append(o + b, seq![Event::PopScope]);
    lemma_net_one(Event::PushScope);
    lemma_net_one(Event::PopScope);
    assert forall|k: int| 0 <= k <= w.len() implies #[trigger] scope_net(w.take(k)) >= 0 by {
        if k == 0 {
            assert(w.take(0) =~= Seq::<Event>::empty());
        } else if k <= b.len() + 1 {
            assert(w.take(k) == o + b.take(k - 1));
            lemma_net_append(o, b.take(k - 1));
        } else {
            assert(w.take(k) == w);
        }
    }
    assert forall|k: int| 0 <= k < w.len() && #[trigger] local_decl(w[k]) implies scope_net(
        w.take(k),
    ) > 0 by {
        assert(k != 0);
        assert(k != w.len() - 1);
        assert(w.take(k) == o + b.take(k - 1));
        lemma_net_append(o, b.take(k - 1));
    }
}

/// Events that touch no scope and declare nothing.
proof fn lemma_flat_net(evs: Seq<Event>)
    requires
        no_boundary_or_local(evs),
    ensures
        scope_net(evs) == 0,
    decreases evs.len(),
{
    if evs.len() > 0 {
        assert(no_boundary_or_local(evs.drop_last())) by {
            assert forall|i: int| 0 <= i < evs.drop_last().len() implies !fn_boundary(
                #[trigger] evs.drop_last()[i],
            ) && !local_decl(evs.drop_last()[i]) && !module_only(evs.drop_last()[i])
                && !scope_event(evs.drop_last()[i]) by {
                assert(evs.drop_last()[i] == evs[i]);
            }
        }
        lemma_flat_net(evs.drop_last());
        assert(!scope_event(evs[evs.len() - 1]));
    }
}

proof fn lemma_flat_nest(evs: Seq<Event>)
    requires
        no_boundary_or_local(evs),
    ensures
        scopes_nest(evs),
        declares_inside_only(evs),
{
    lemma_flat_net(evs);
    assert forall|k: int| 0 <= k <= evs.len() implies #[trigger] scope_net(evs.take(k)) >= 0 by {
        assert(no_boundary_or_local(evs.take(k))) by {
            assert forall|i: int| 0 <= i < evs.take(k).len() implies !fn_boundary(
                #[trigger] evs.take(k)[i],
            ) && !local_decl(evs.take(k)[i]) && !module_only(evs.take(k)[i])
                && !scope_event(evs.take(k)[i]) by {
                assert(evs.take(k)[i] == evs[i]);
            }
        }
        lemma_flat_net(evs.take(k));
    }
}

proof fn lemma_empty_nest()
    ensures
        scopes_nest(Seq::<Event>::empty()),
        declares_inside_only(Seq::<Event>::empty()),
{
    assert forall|k: int| 0 <= k <= 0 implies #[trigger] scope_net(Seq::<Event>::empty().take(k))
        >= 0 by {
        assert(Seq::<Event>::empty().take(k) =~= Seq::<Event>::empty());
    }
}

proof fn lemma_one_nest(e: Event)
    requires
        !scope_event(e),
    ensures
        scopes_nest(seq![e]),
{
    lemma_net_one(e);
    assert forall|k: int| 0 <= k <= 1 implies #[trigger] scope_net(seq![e].take(k)) >= 0 by {
        if k == 0 {
            assert(seq![e].take(0) =~= Seq::<Event>::empty());
        } else {
            assert(seq![e].take(1) == seq![e]);
        }
    }
}

/// A block's events nest, and declare nothing outside the block's own scope.
pub proof fn lemma_compound_nest(c: Block)
    ensures
        scopes_nest(compound_events(c)),
        declares_inside_only(compound_events(c)),
    decreases c, 0nat,
{
    lemma_stmts_nest(c.statements@);
    lemma_nest_wrap(stmts_events(c.statements@));
}

/// The events of a list of statements nest.
pub proof fn lemma_stmts_nest(ss: Seq<Stmt>)
    ensures
        scopes_nest(stmts_events(ss)),
    decreases ss, 0nat,
{
    if ss.len() > 0 {
        lemma_stmts_nest(ss.drop_last());
        lemma_stmt_nest(ss.last());
        lemma_nest_append(stmts_events(ss.drop_last()), stmt_events(ss.last()));
    } else {
        lemma_empty_nest();
    }
}

proof fn lemma_if_clauses_nest(cs: Seq<IfClause>)
    ensures
        scopes_nest(if_clauses_events(cs)),
        declares_inside_only(if_clauses_events(cs)),
    decreases cs, 0nat,
{
    if cs.len() > 0 {
        let a = if_clauses_events(cs.drop_last());
        let c = compound_events(cs.last().body);
        let e = expr_events(cs.last().expression);
        lemma_if_clauses_nest(cs.drop_last());
        lemma_compound_nest(cs.last().body);
        lemma_expr_no_local(cs.last().expression);
        lemma_flat_nest(e);
        lemma_nest_append(a, c);
        lemma_nest_append(a + c, e);
    } else {
        lemma_empty_nest();
    }
}

proof fn lemma_switch_clauses_nest(cs: Seq<SwitchArm>)
    ensures
        scopes_nest(switch_clauses_events(cs)),
        declares_inside_only(switch_clauses_events(cs)),
    decreases cs, 0nat,
{
    if cs.len() > 0 {
        let a = switch_clauses_events(cs.drop_last());
        let c = compound_events(cs.last().body);
        let e = selectors_events(cs.last().case_selectors@);
        lemma_switch_clauses_nest(cs.drop_last());
        lemma_compound_nest(cs.last().body);
        lemma_selectors_no_local(cs.last().case_selectors@);
        lemma_flat_nest(e);
        lemma_nest_append(a, c);
        lemma_nest_append(a + c, e);
    } else {
        lemma_empty_nest();
    }
}

proof fn lemma_opt_compound_nest(c: Option<Block>)
    ensures
        scopes_nest(opt_compound_events(c)),
        declares_inside_only(opt_compound_events(c)),
    decreases c, 0nat,
{
    match c {
        Some(x) => lemma_compound_nest(x),
        None => lemma_empty_nest(),
    }
}

proof fn lemma_opt_stmt_nest(s: Option<Box<Stmt>>)
    ensures
        scopes_nest(opt_stmt_events(s)),
    decreases s, 0nat,
{
    match s {
        Some(x) => lemma_stmt_nest(*x),
        None => lemma_empty_nest(),
    }
}

/// The events of a statement nest; a statement other than a declaration declares its
/// locals only inside scopes it opens itself.
pub proof fn lemma_stmt_nest(s: Stmt)
    ensures
        scopes_nest(stmt_events(s)),
        !(s is VarDecl) ==> declares_inside_only(stmt_events(s)),
    decreases s, 0nat,
{
    match s {
        Stmt::Void => lemma_empty_nest(),
        Stmt::Compound(c) => lemma_compound_nest(c),
        Stmt::Assignment { lhs, rhs } => {
            lemma_expr_no_local(lhs);
            lemma_expr_no_local(rhs);
            lemma_no_local_add(expr_events(lhs), expr_events(rhs));
            lemma_flat_nest(expr_events(lhs) + expr_events(rhs));
        },
        Stmt::Increment(e) => {
            lemma_expr_no_local(e);
            lemma_flat_nest(expr_events(e));
        },
        Stmt::Decrement(e) => {
            lemma_expr_no_local(e);
            lemma_flat_nest(expr_events(e));
        },
        Stmt::If { if_clause, else_if_clauses, else_clause } => {
            let a = compound_events(if_clause.body);
            let b = expr_events(if_clause.expression);
            let c = opt_compound_events(else_clause);
            let d = if_clauses_events(else_if_clauses@);
            lemma_compound_nest(if_clause.body);
            lemma_expr_no_local(if_clause.expression);
            lemma_flat_nest(b);
            lemma_opt_compound_nest(else_clause);
            lemma_if_clauses_nest(else_if_clauses@);
            lemma_nest_append(a, b);
            lemma_nest_append(a + b, c);
            lemma_nest_append(a + b + c, d);
        },
        Stmt::Switch { expression, clauses } => {
            lemma_expr_no_local(expression);
            lemma_flat_nest(expr_events(expression));
            lemma_switch_clauses_nest(clauses@);
            lemma_nest_append(expr_events(expression), switch_clauses_events(clauses@));
        },
        Stmt::Loop(c) => lemma_compound_nest(c),
        Stmt::For { initializer, condition, update, body } => {
            let b = opt_stmt_events(initializer);
            let c = opt_expr_events(condition);
            let d = compound_events(body);
            let e = opt_stmt_events(update);
            lemma_opt_stmt_nest(initializer);
            lemma_opt_expr_no_local(condition);
            lemma_flat_nest(c);
            lemma_compound_nest(body);
            lemma_opt_stmt_nest(update);
            lemma_nest_append(b, c);
            lemma_nest_append(b + c, d);
            lemma_nest_append(b + c + d, e);
            lemma_nest_wrap(b + c + d + e);
            assert(stmt_events(s) == seq![Event::PushScope] + (b + c + d + e) + seq![
                Event::PopScope,
            ]);
        },
        Stmt::While { condition, body } => {
            lemma_expr_no_local(condition);
            lemma_flat_nest(expr_events(condition));
            lemma_compound_nest(body);
            lemma_nest_append(expr_events(condition), compound_events(body));
        },
        Stmt::Break => lemma_empty_nest(),
        Stmt::Continue => lemma_empty_nest(),
        Stmt::Return(e) => {
            lemma_opt_expr_no_local(e);
            lemma_flat_nest(opt_expr_events(e));
        },
        Stmt::Discard => lemma_empty_nest(),
        Stmt::Call(call) => {
            lemma_type_no_local(call.ty, true);
            lemma_exprs_no_local(call.arguments@);
            lemma_no_local_add(type_events(call.ty, true), exprs_events(call.arguments@));
            lemma_flat_nest(type_events(call.ty, true) + exprs_events(call.arguments@));
        },
        Stmt::ConstAssert(e) => {
            lemma_expr_no_local(e);
            lemma_flat_nest(expr_events(e));
        },
        Stmt::VarDecl(d) => {
            let a = opt_expr_events(d.initializer);
            let b = opt_type_events(d.ty, false);
            lemma_opt_expr_no_local(d.initializer);
            lemma_opt_type_no_local(d.ty, false);
            lemma_no_local_add(a, b);
            lemma_flat_nest(a + b);
            lemma_one_nest(Event::Ident(Role::LocalDecl, d.ident@));
            lemma_nest_append(a + b, seq![Event::Ident(Role::LocalDecl, d.ident@)]);
        },
    }
}

/// Renaming events that open no function and never close a scope they did not open: the
/// scopes below the innermost one at the start stay as they were, and so does the
/// innermost one where every local is declared in a scope the events opened; inside a
/// function the number of scopes moves by the scopes opened minus closed.
proof fn lemma_run_scopes(st: RenameState, evs: Seq<Event>)
    requires
        no_boundary(evs),
        forall|k: int| 0 <= k <= evs.len() ==> #[trigger] scope_net(evs.take(k)) >= 0,
    ensures
        (run(st, evs).0.local_next is Some) == (st.local_next is Some),
        st.local_next is None ==> run(st, evs).0.scopes == st.scopes,
        st.local_next is Some ==> run(st, evs).0.scopes.len() == st.scopes.len() + scope_net(evs),
        forall|j: int|
            0 <= j < st.scopes.len() - 1 ==> #[trigger] run(st, evs).0.scopes[j] == st.scopes[j],
        declares_inside_only(evs) && st.scopes.len() > 0 ==> run(st, evs).0.scopes[st.scopes.len()
            - 1] == st.scopes[st.scopes.len() - 1],
    decreases evs.len(),
{
    if evs.len() == 0 {
        assert(evs.take(0) =~= evs);
    } else {
        let p = evs.drop_last();
        let e = evs.last();
        let n = st.scopes.len();
        assert(no_boundary(p)) by {
            assert forall|i: int| 0 <= i < p.len() implies !fn_boundary(#[trigger] p[i])
                && !module_only(p[i]) by {
                assert(p[i] == evs[i]);
            }
        }
        assert forall|k: int| 0 <= k <= p.len() implies #[trigger] scope_net(p.take(k)) >= 0 by {
            assert(p.take(k) == evs.take(k));
        }
        if declares_inside_only(evs) {
            assert forall|k: int| 0 <= k < p.len() && #[trigger] local_decl(p[k]) implies scope_net(
                p.take(k),
            ) > 0 by {
                assert(p[k] == evs[k]);
                assert(p.take(k) == evs.take(k));
            }
        }
        lemma_run_scopes(st, p);
        let s1 = run(st, p).0;
        let s2 = run(st, evs).0;
        assert(s2 == step(s1, e).0);
        assert(evs.take(evs.len() as int) == evs);
        assert(evs.take(p.len() as int) == p);
        let d = scope_net(p);
        assert(d >= 0);
        assert(scope_net(evs) == d + scope_delta(e));
        assert(!fn_boundary(evs[evs.len() - 1]));
        match e {
            Event::Ident(role, x) => {
                if role is LocalDecl && s1.local_next is Some {
                    assert(s2.scopes == s1.scopes || exists|v: Seq<char>|
                        s2.scopes == bind_innermost(s1.scopes, x, v));
                    if declares_inside_only(evs) {
                        assert(local_decl(evs[evs.len() - 1]));
                        assert(d > 0);
                    }
                } else {
                    assert(s2.scopes == s1.scopes);
                }
            },
            _ => {},
        }
    }
}

/// Renaming a statement leaves the scopes of the blocks around it as they were: after an
/// `if` (with its `else if` and `else` clauses), a loop, a block or any other statement
/// that is not a declaration, the local scopes are those from before it; a declaration
/// changes the innermost scope only. (`Minifier::minify_stmt` ends in the state this run
/// ends in.)
pub proof fn law_statement_keeps_scopes(st: RenameState, s: Stmt)
    ensures
        run(st, stmt_events(s)).0.scopes.len() == st.scopes.len(),
        forall|j: int|
            0 <= j < st.scopes.len() - 1 ==> #[trigger] run(st, stmt_events(s)).0.scopes[j]
                == st.scopes[j],
        !(s is VarDecl) ==> run(st, stmt_events(s)).0.scopes == st.scopes,
{
    let evs = stmt_events(s);
    lemma_stmt_no_boundary(s);
    lemma_stmt_nest(s);
    lemma_run_scopes(st, evs);
    if !(s is VarDecl) {
        assert(run(st, evs).0.scopes =~= st.scopes);
    }
}

/// While a statement other than a declaration is renamed, every scope of the blocks
/// around it stays in place, unchanged, below the scopes the statement opens: at every
/// point of its events, a name bound only around the statement resolves as it did just
/// before the statement.
pub proof fn law_enclosing_scopes_stay_visible(st: RenameState, s: Stmt, k: int)
    requires
        !(s is VarDecl),
        0 <= k <= stmt_events(s).len(),
    ensures
        run(st, stmt_events(s).take(k)).0.scopes.len() >= st.scopes.len(),
        run(st, stmt_events(s).take(k)).0.scopes.take(st.scopes.len() as int) == st.scopes,
{
    let evs = stmt_events(s);
    let t = evs.take(k);
    lemma_stmt_no_boundary(s);
    lemma_stmt_nest(s);
    assert(no_boundary(t)) by {
        assert forall|i: int| 0 <= i < t.len() implies !fn_boundary(#[trigger] t[i])
            && !module_only(t[i]) by {
            assert(t[i] == evs[i]);
        }
    }
    assert forall|m: int| 0 <= m <= t.len() implies #[trigger] scope_net(t.take(m)) >= 0 by {
        assert(t.take(m) == evs.take(m));
    }
    assert forall|m: int| 0 <= m < t.len() && #[trigger] local_decl(t[m]) implies scope_net(
        t.take(m),
    ) > 0 by {
        assert(t[m] == evs[m]);
        assert(t.take(m) == evs.take(m));
    }
    lemma_run_scopes(st, t);
    assert(scope_net(t) >= 0) by {
        assert(t.take(t.len() as int) == t);
    }
    assert(run(st, t).0.scopes.take(st.scopes.len() as int) =~= st.scopes);
}

} // verus!

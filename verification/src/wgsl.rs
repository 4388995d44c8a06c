use vstd::prelude::*;

use std::str::FromStr;
use wgsl_parse::syntax as w;

use crate::ident::new_ident;
use crate::format::{minified_source, minify_wgsl_source, parens_are_balanced, parens_balanced};
use crate::minifier::Minifier;
use crate::renaming::{fails, renamed};
use crate::syntax::{
    CaseSelector, Block, VarDecl, Expr, FormalParameter, FnDecl,
    Call, Item, IfClause, Stmt, Struct, SwitchArm, Module,
    TypeAlias, TypeName,
};
use crate::walk::{module_events, module_shape};

verus! {

// `wgsl_parse` syntax nodes, carried as opaque values between the calls that read a tree
// out of one and write renamed identifiers back into one.
#[verifier::external_type_specification]
#[verifier::external_body]
pub struct ExWgslTranslationUnit(w::TranslationUnit);

#[verifier::external_type_specification]
#[verifier::external_body]
pub struct ExWgslGlobalDeclaration(w::GlobalDeclaration);

#[verifier::external_type_specification]
#[verifier::external_body]
pub struct ExWgslDeclaration(w::Declaration);

#[verifier::external_type_specification]
#[verifier::external_body]
pub struct ExWgslFunction(w::Function);

#[verifier::external_type_specification]
#[verifier::external_body]
pub struct ExWgslTypeExpression(w::TypeExpression);

#[verifier::external_type_specification]
#[verifier::external_body]
pub struct ExWgslFunctionCall(w::FunctionCall);

#[verifier::external_type_specification]
#[verifier::external_body]
pub struct ExWgslExpression(w::Expression);

#[verifier::external_type_specification]
#[verifier::external_body]
pub struct ExWgslCompoundStatement(w::CompoundStatement);

#[verifier::external_type_specification]
#[verifier::external_body]
pub struct ExWgslStatement(w::Statement);

#[verifier::external_type_specification]
#[verifier::external_body]
pub struct ExWgslSwitchClause(w::SwitchClause);

#[verifier::external_type_specification]
#[verifier::external_body]
pub struct ExWgslForStatement(w::ForStatement);

/// The syntax tree that `wgsl_parse` reads from `text` (as far as renaming sees it), or
/// none where `text` is not a WGSL module.
pub uninterp spec fn parsed_module(text: Seq<char>) -> Option<Module>;

/// The WGSL text that `wgsl_parse` prints for the module it reads from `text`, with its
/// identifiers spelled as in `renamed`.
pub uninterp spec fn printed_module(text: Seq<char>, renamed: Module) -> Seq<char>;

/// Calls `wgsl_parse::syntax::TranslationUnit::from_str` on `text` and reads the tree
/// out. Claimed: the result is `parsed_module(text@)`, a function of the text alone.
#[verifier::external_body]
fn parse_module(text: &str) -> (r: Option<Module>)
    ensures
        r == parsed_module(text@),
{
    match w::TranslationUnit::from_str(text) {
        Ok(m) => Some(read_module(&m)),
        Err(_) => None,
    }
}

/// Parses `text` again with `wgsl_parse::syntax::TranslationUnit::from_str`, writes the
/// identifiers of `renamed` into the tree, and prints it with its `Display`. Claimed: the
/// result is `printed_module(text@, *renamed)`, a function of the two arguments alone.
#[verifier::external_body]
fn print_renamed(text: &str, renamed: &Module) -> (r: String)
    ensures
        r@ == printed_module(text@, *renamed),
{
    match w::TranslationUnit::from_str(text) {
        Ok(mut m) => {
            write_module(renamed, &mut m);
            m.to_string()
        },
        Err(_) => String::new(),
    }
}

// Reading a `wgsl_parse` tree: each node becomes the node of the same kind, with its
// identifiers as strings.
/// Reads a `wgsl_parse` node into the node of the same kind, with identifiers as
/// strings (part of `parse_module`); claims nothing by itself.
#[verifier::external_body]
fn read_module(m: &w::TranslationUnit) -> Module {
    Module {
        global_declarations: m.global_declarations.iter().map(|d| read_global(d)).collect(),
    }
}

/// Reads a `wgsl_parse` node into the node of the same kind, with identifiers as
/// strings (part of `parse_module`); claims nothing by itself.
#[verifier::external_body]
fn read_global(g: &w::GlobalDeclaration) -> Item {
    match g {
        w::GlobalDeclaration::Declaration(d) => Item::VarDecl(read_declaration(d)),
        w::GlobalDeclaration::TypeAlias(a) => Item::TypeAlias(
            TypeAlias { ident: a.ident.to_string(), ty: read_type(&a.ty) },
        ),
        w::GlobalDeclaration::Struct(s) => Item::Struct(Struct {
            ident: s.ident.to_string(),
            members: s.members.iter().map(|m| m.ident.to_string()).collect(),
        }),
        w::GlobalDeclaration::Function(f) => Item::FnDecl(read_function(f)),
        w::GlobalDeclaration::Void | w::GlobalDeclaration::ConstAssert(_) => Item::Other,
    }
}

/// Reads a `wgsl_parse` node into the node of the same kind, with identifiers as
/// strings (part of `parse_module`); claims nothing by itself.
#[verifier::external_body]
fn read_function(f: &w::Function) -> FnDecl {
    FnDecl {
        has_attributes: !f.attributes.is_empty(),
        ident: f.ident.to_string(),
        parameters: f.parameters.iter().map(
            |p| FormalParameter { ident: p.ident.to_string(), ty: read_type(&p.ty) },
        ).collect(),
        return_type: f.return_type.as_ref().map(|t| read_type(t)),
        body: read_compound(&f.body),
    }
}

/// Reads a `wgsl_parse` node into the node of the same kind, with identifiers as
/// strings (part of `parse_module`); claims nothing by itself.
#[verifier::external_body]
fn read_declaration(d: &w::Declaration) -> VarDecl {
    VarDecl {
        ident: d.ident.to_string(),
        ty: d.ty.as_ref().map(|t| read_type(t)),
        initializer: d.initializer.as_ref().map(|e| read_expr(e)),
    }
}

/// Reads a `wgsl_parse` node into the node of the same kind, with identifiers as
/// strings (part of `parse_module`); claims nothing by itself.
#[verifier::external_body]
fn read_type(t: &w::TypeExpression) -> TypeName {
    TypeName {
        ident: t.ident.to_string(),
        template_args: t.template_args.as_ref().map(
            |args| args.iter().map(|a| read_expr(&a.expression)).collect(),
        ),
    }
}

/// Reads a `wgsl_parse` node into the node of the same kind, with identifiers as
/// strings (part of `parse_module`); claims nothing by itself.
#[verifier::external_body]
fn read_call(c: &w::FunctionCall) -> Call {
    Call {
        ty: read_type(&c.ty),
        arguments: c.arguments.iter().map(|a| read_expr(a)).collect(),
    }
}

/// Reads a `wgsl_parse` node into the node of the same kind, with identifiers as
/// strings (part of `parse_module`); claims nothing by itself.
#[verifier::external_body]
fn read_expr(e: &w::Expression) -> Expr {
    match e {
        w::Expression::Literal(_) => Expr::Literal,
        w::Expression::Parenthesized(p) => Expr::Parenthesized(Box::new(read_expr(&p.expression))),
        w::Expression::Unary(u) => Expr::Unary(Box::new(read_expr(&u.operand))),
        w::Expression::FunctionCall(c) => Expr::Call(read_call(c)),
        w::Expression::TypeOrIdentifier(t) => Expr::TypeOrIdentifier(read_type(t)),
        _ => read_compound_expr(e),
    }
}

/// Reads a `wgsl_parse` node into the node of the same kind, with identifiers as
/// strings (part of `parse_module`); claims nothing by itself.
#[verifier::external_body]
fn read_compound_expr(e: &w::Expression) -> Expr {
    match e {
        w::Expression::NamedComponent(n) => Expr::NamedComponent {
            base: Box::new(read_expr(&n.base)),
            component: n.component.to_string(),
        },
        w::Expression::Indexing(i) => Expr::Indexing {
            base: Box::new(read_expr(&i.base)),
            index: Box::new(read_expr(&i.index)),
        },
        w::Expression::Binary(b) => Expr::Binary {
            left: Box::new(read_expr(&b.left)),
            right: Box::new(read_expr(&b.right)),
        },
        _ => Expr::Literal,
    }
}

/// Reads a `wgsl_parse` node into the node of the same kind, with identifiers as
/// strings (part of `parse_module`); claims nothing by itself.
#[verifier::external_body]
fn read_compound(c: &w::CompoundStatement) -> Block {
    Block { statements: c.statements.iter().map(|s| read_stmt(s)).collect() }
}

/// Reads a `wgsl_parse` node into the node of the same kind, with identifiers as
/// strings (part of `parse_module`); claims nothing by itself.
#[verifier::external_body]
fn read_stmt(s: &w::Statement) -> Stmt {
    match s {
        w::Statement::Compound(c) => Stmt::Compound(read_compound(c)),
        w::Statement::Assignment(a) => Stmt::Assignment { lhs: read_expr(&a.lhs), rhs: read_expr(&a.rhs) },
        w::Statement::Increment(i) => Stmt::Increment(read_expr(&i.expression)),
        w::Statement::Decrement(d) => Stmt::Decrement(read_expr(&d.expression)),
        w::Statement::Declaration(d) => Stmt::VarDecl(read_declaration(d)),
        _ => read_simple_stmt(s),
    }
}

/// Reads a `wgsl_parse` node into the node of the same kind, with identifiers as
/// strings (part of `parse_module`); claims nothing by itself.
#[verifier::external_body]
fn read_simple_stmt(s: &w::Statement) -> Stmt {
    match s {
        w::Statement::Return(r) => Stmt::Return(r.expression.as_ref().map(|e| read_expr(e))),
        w::Statement::FunctionCall(c) => Stmt::Call(read_call(&c.call)),
        w::Statement::ConstAssert(c) => Stmt::ConstAssert(read_expr(&c.expression)),
        _ => read_control_stmt(s),
    }
}

/// Reads a `wgsl_parse` node into the node of the same kind, with identifiers as
/// strings (part of `parse_module`); claims nothing by itself.
#[verifier::external_body]
fn read_control_stmt(s: &w::Statement) -> Stmt {
    match s {
        w::Statement::If(i) => Stmt::If {
            if_clause: IfClause { expression: read_expr(&i.if_clause.expression), body: read_compound(&i.if_clause.body) },
            else_if_clauses: i.else_if_clauses.iter().map(
                |c| IfClause { expression: read_expr(&c.expression), body: read_compound(&c.body) },
            ).collect(),
            else_clause: i.else_clause.as_ref().map(|c| read_compound(&c.body)),
        },
        w::Statement::Switch(sw) => Stmt::Switch {
            expression: read_expr(&sw.expression),
            clauses: sw.clauses.iter().map(|c| read_switch_clause(c)).collect(),
        },
        _ => read_loop_stmt(s),
    }
}

/// Reads a `wgsl_parse` node into the node of the same kind, with identifiers as
/// strings (part of `parse_module`); claims nothing by itself.
#[verifier::external_body]
fn read_switch_clause(c: &w::SwitchClause) -> SwitchArm {
    SwitchArm {
        case_selectors: c.case_selectors.iter().map(|sel| match sel {
            w::CaseSelector::Default => CaseSelector::Default,
            w::CaseSelector::Expression(e) => CaseSelector::Expr(read_expr(e)),
        }).collect(),
        body: read_compound(&c.body),
    }
}

/// Reads a `wgsl_parse` node into the node of the same kind, with identifiers as
/// strings (part of `parse_module`); claims nothing by itself.
#[verifier::external_body]
fn read_loop_stmt(s: &w::Statement) -> Stmt {
    match s {
        w::Statement::Loop(l) => Stmt::Loop(read_compound(&l.body)),
        w::Statement::For(f) => Stmt::For {
            initializer: f.initializer.as_ref().map(|i| Box::new(read_stmt(i))),
            condition: f.condition.as_ref().map(|c| read_expr(c)),
            update: f.update.as_ref().map(|u| Box::new(read_stmt(u))),
            body: read_compound(&f.body),
        },
        w::Statement::While(wh) => Stmt::While { condition: read_expr(&wh.condition), body: read_compound(&wh.body) },
        _ => read_jump_stmt(s),
    }
}

/// Reads a `wgsl_parse` node into the node of the same kind, with identifiers as
/// strings (part of `parse_module`); claims nothing by itself.
#[verifier::external_body]
fn read_jump_stmt(s: &w::Statement) -> Stmt {
    match s {
        w::Statement::Break(_) => Stmt::Break,
        w::Statement::Continue(_) => Stmt::Continue,
        w::Statement::Discard(_) => Stmt::Discard,
        _ => Stmt::Void,
    }
}

// Writing identifiers back: each node of the tree takes the spelling of the identifiers
// of the node of the same kind at the same place in `renamed`.
/// Gives the identifiers of a `wgsl_parse` node the spelling of those of the node of the
/// same kind in the renamed tree (part of `print_renamed`); claims nothing by itself.
#[verifier::external_body]
fn write_module(renamed: &Module, m: &mut w::TranslationUnit) {
    for (r, d) in renamed.global_declarations.iter().zip(m.global_declarations.iter_mut()) {
        write_global(r, d);
    }
}

/// Gives the identifiers of a `wgsl_parse` node the spelling of those of the node of the
/// same kind in the renamed tree (part of `print_renamed`); claims nothing by itself.
#[verifier::external_body]
fn write_global(r: &Item, g: &mut w::GlobalDeclaration) {
    match (r, g) {
        (Item::VarDecl(rd), w::GlobalDeclaration::Declaration(d)) => write_declaration(rd, d),
        (Item::TypeAlias(ra), w::GlobalDeclaration::TypeAlias(a)) => {
            a.ident = new_ident(ra.ident.clone());
            write_type(&ra.ty, &mut a.ty);
        },
        (Item::Struct(rs), w::GlobalDeclaration::Struct(s)) => {
            s.ident = new_ident(rs.ident.clone());
            for (name, m) in rs.members.iter().zip(s.members.iter_mut()) {
                m.ident = new_ident(name.clone());
            }
        },
        (Item::FnDecl(rf), w::GlobalDeclaration::Function(f)) => write_function(rf, f),
        _ => {},
    }
}

/// Gives the identifiers of a `wgsl_parse` node the spelling of those of the node of the
/// same kind in the renamed tree (part of `print_renamed`); claims nothing by itself.
#[verifier::external_body]
fn write_function(r: &FnDecl, f: &mut w::Function) {
    f.ident = new_ident(r.ident.clone());
    for (rp, p) in r.parameters.iter().zip(f.parameters.iter_mut()) {
        p.ident = new_ident(rp.ident.clone());
        write_type(&rp.ty, &mut p.ty);
    }
    if let (Some(rt), Some(t)) = (&r.return_type, &mut f.return_type) {
        write_type(rt, t);
    }
    write_compound(&r.body, &mut f.body);
}

/// Gives the identifiers of a `wgsl_parse` node the spelling of those of the node of the
/// same kind in the renamed tree (part of `print_renamed`); claims nothing by itself.
#[verifier::external_body]
fn write_declaration(r: &VarDecl, d: &mut w::Declaration) {
    d.ident = new_ident(r.ident.clone());
    if let (Some(rt), Some(t)) = (&r.ty, &mut d.ty) {
        write_type(rt, t);
    }
    if let (Some(re), Some(e)) = (&r.initializer, &mut d.initializer) {
        write_expr(re, e);
    }
}

/// Gives the identifiers of a `wgsl_parse` node the spelling of those of the node of the
/// same kind in the renamed tree (part of `print_renamed`); claims nothing by itself.
#[verifier::external_body]
fn write_type(r: &TypeName, t: &mut w::TypeExpression) {
    t.ident = new_ident(r.ident.clone());
    if let (Some(rargs), Some(args)) = (&r.template_args, &mut t.template_args) {
        for (ra, a) in rargs.iter().zip(args.iter_mut()) {
            write_expr(ra, &mut a.expression);
        }
    }
}

/// Gives the identifiers of a `wgsl_parse` node the spelling of those of the node of the
/// same kind in the renamed tree (part of `print_renamed`); claims nothing by itself.
#[verifier::external_body]
fn write_call(r: &Call, c: &mut w::FunctionCall) {
    write_type(&r.ty, &mut c.ty);
    for (ra, a) in r.arguments.iter().zip(c.arguments.iter_mut()) {
        write_expr(ra, a);
    }
}

/// Gives the identifiers of a `wgsl_parse` node the spelling of those of the node of the
/// same kind in the renamed tree (part of `print_renamed`); claims nothing by itself.
#[verifier::external_body]
fn write_expr(r: &Expr, e: &mut w::Expression) {
    match (r, e) {
        (Expr::Parenthesized(ri), w::Expression::Parenthesized(p)) => write_expr(ri, &mut p.expression),
        (Expr::NamedComponent { base, component }, w::Expression::NamedComponent(n)) => {
            write_expr(base, &mut n.base);
            n.component = new_ident(component.clone());
        },
        (Expr::Indexing { base, index }, w::Expression::Indexing(i)) => {
            write_expr(base, &mut i.base);
            write_expr(index, &mut i.index);
        },
        (Expr::Unary(ro), w::Expression::Unary(u)) => write_expr(ro, &mut u.operand),
        (r, e) => write_other_expr(r, e),
    }
}

/// Gives the identifiers of a `wgsl_parse` node the spelling of those of the node of the
/// same kind in the renamed tree (part of `print_renamed`); claims nothing by itself.
#[verifier::external_body]
fn write_other_expr(r: &Expr, e: &mut w::Expression) {
    match (r, e) {
        (Expr::Binary { left, right }, w::Expression::Binary(b)) => {
            write_expr(left, &mut b.left);
            write_expr(right, &mut b.right);
        },
        (Expr::Call(rc), w::Expression::FunctionCall(c)) => write_call(rc, c),
        (Expr::TypeOrIdentifier(rt), w::Expression::TypeOrIdentifier(t)) => write_type(rt, t),
        _ => {},
    }
}

/// Gives the identifiers of a `wgsl_parse` node the spelling of those of the node of the
/// same kind in the renamed tree (part of `print_renamed`); claims nothing by itself.
#[verifier::external_body]
fn write_compound(r: &Block, c: &mut w::CompoundStatement) {
    for (rs, s) in r.statements.iter().zip(c.statements.iter_mut()) {
        write_stmt(rs, s);
    }
}

/// Gives the identifiers of a `wgsl_parse` node the spelling of those of the node of the
/// same kind in the renamed tree (part of `print_renamed`); claims nothing by itself.
#[verifier::external_body]
fn write_stmt(r: &Stmt, s: &mut w::Statement) {
    match (r, s) {
        (Stmt::Compound(rc), w::Statement::Compound(c)) => write_compound(rc, c),
        (Stmt::Assignment { lhs, rhs }, w::Statement::Assignment(a)) => {
            write_expr(lhs, &mut a.lhs);
            write_expr(rhs, &mut a.rhs);
        },
        (Stmt::Increment(re), w::Statement::Increment(i)) => write_expr(re, &mut i.expression),
        (Stmt::Decrement(re), w::Statement::Decrement(d)) => write_expr(re, &mut d.expression),
        (r, s) => write_simple_stmt(r, s),
    }
}

/// Gives the identifiers of a `wgsl_parse` node the spelling of those of the node of the
/// same kind in the renamed tree (part of `print_renamed`); claims nothing by itself.
#[verifier::external_body]
fn write_simple_stmt(r: &Stmt, s: &mut w::Statement) {
    match (r, s) {
        (Stmt::Call(rc), w::Statement::FunctionCall(c)) => write_call(rc, &mut c.call),
        (Stmt::ConstAssert(re), w::Statement::ConstAssert(c)) => write_expr(re, &mut c.expression),
        (Stmt::VarDecl(rd), w::Statement::Declaration(d)) => write_declaration(rd, d),
        (r, s) => write_control_stmt(r, s),
    }
}

/// Gives the identifiers of a `wgsl_parse` node the spelling of those of the node of the
/// same kind in the renamed tree (part of `print_renamed`); claims nothing by itself.
#[verifier::external_body]
fn write_control_stmt(r: &Stmt, s: &mut w::Statement) {
    match (r, s) {
        (Stmt::If { if_clause, else_if_clauses, else_clause }, w::Statement::If(i)) => {
            write_expr(&if_clause.expression, &mut i.if_clause.expression);
            write_compound(&if_clause.body, &mut i.if_clause.body);
            for (rc, c) in else_if_clauses.iter().zip(i.else_if_clauses.iter_mut()) {
                write_expr(&rc.expression, &mut c.expression);
                write_compound(&rc.body, &mut c.body);
            }
            if let (Some(rb), Some(e)) = (else_clause, &mut i.else_clause) {
                write_compound(rb, &mut e.body);
            }
        },
        (r, s) => write_branch_stmt(r, s),
    }
}

/// Gives the identifiers of a `wgsl_parse` node the spelling of those of the node of the
/// same kind in the renamed tree (part of `print_renamed`); claims nothing by itself.
#[verifier::external_body]
fn write_branch_stmt(r: &Stmt, s: &mut w::Statement) {
    match (r, s) {
        (Stmt::Switch { expression, clauses }, w::Statement::Switch(sw)) => {
            write_expr(expression, &mut sw.expression);
            for (rc, c) in clauses.iter().zip(sw.clauses.iter_mut()) {
                for (rsel, sel) in rc.case_selectors.iter().zip(c.case_selectors.iter_mut()) {
                    if let (CaseSelector::Expr(re), w::CaseSelector::Expression(e)) = (rsel, sel) {
                        write_expr(re, e);
                    }
                }
                write_compound(&rc.body, &mut c.body);
            }
        },
        (r, s) => write_loop_stmt(r, s),
    }
}

/// Gives the identifiers of a `wgsl_parse` node the spelling of those of the node of the
/// same kind in the renamed tree (part of `print_renamed`); claims nothing by itself.
#[verifier::external_body]
fn write_loop_stmt(r: &Stmt, s: &mut w::Statement) {
    match (r, s) {
        (Stmt::Loop(rb), w::Statement::Loop(l)) => write_compound(rb, &mut l.body),
        (Stmt::While { condition, body }, w::Statement::While(wh)) => {
            write_expr(condition, &mut wh.condition);
            write_compound(body, &mut wh.body);
        },
        (Stmt::Return(Some(re)), w::Statement::Return(ret)) => {
            if let Some(e) = &mut ret.expression {
                write_expr(re, e);
            }
        },
        (r, w::Statement::For(f)) => write_for_stmt(r, f),
        _ => {},
    }
}

/// Gives the identifiers of a `wgsl_parse` node the spelling of those of the node of the
/// same kind in the renamed tree (part of `print_renamed`); claims nothing by itself.
#[verifier::external_body]
fn write_for_stmt(r: &Stmt, f: &mut w::ForStatement) {
    if let Stmt::For { initializer, condition, update, body } = r {
        if let (Some(ri), Some(i)) = (initializer, &mut f.initializer) {
            write_stmt(ri, i);
        }
        if let (Some(rc), Some(c)) = (condition, &mut f.condition) {
            write_expr(rc, c);
        }
        if let (Some(ru), Some(u)) = (update, &mut f.update) {
            write_stmt(ru, u);
        }
        write_compound(body, &mut f.body);
    }
}

/// Why a WGSL source could not be minified.
#[derive(Debug, Clone, Copy, PartialEq, Eq)]
pub enum MinifyTextError {
    /// The text is not a WGSL module.
    Unparsable,
    /// No unused short name was left in the index range.
    NamesExhausted,
    /// The printed module has a `)` without its `(` or a `(` without its `)`.
    UnbalancedParentheses,
}

/// Minifies the WGSL source `text`: parses it, renames its identifiers with `m` (so that
/// names agree with the modules `m` renamed before), prints it, and minifies the printed
/// text. Where the text does not parse, or the names run out, `m` is left as it was.
pub fn minify_text(m: &mut Minifier, text: &str) -> (r: Result<String, MinifyTextError>)
    requires
        old(m).wf(),
    ensures
        final(m).wf(),
        (r == Err::<String, MinifyTextError>(MinifyTextError::Unparsable)) <==> parsed_module(
            text@,
        ) is None,
        r == Err::<String, MinifyTextError>(MinifyTextError::Unparsable) || r
            == Err::<String, MinifyTextError>(MinifyTextError::NamesExhausted) ==> final(m)@ == old(
            m,
        )@,
        parsed_module(text@) matches Some(t) ==> {
            &&& (r == Err::<String, MinifyTextError>(MinifyTextError::NamesExhausted)) <==> fails(
                old(m)@,
                module_events(t),
            )
            &&& r == Err::<String, MinifyTextError>(MinifyTextError::UnbalancedParentheses)
                ==> exists|t2: Module|
                module_shape(t, t2) && renamed(
                    old(m)@,
                    module_events(t),
                    final(m)@,
                    module_events(t2),
                ) && !parens_balanced(printed_module(text@, t2))
            &&& r matches Ok(out) ==> exists|t2: Module|
                module_shape(t, t2) && renamed(
                    old(m)@,
                    module_events(t),
                    final(m)@,
                    module_events(t2),
                ) && parens_balanced(printed_module(text@, t2)) && out@ == minified_source(
                    printed_module(text@, t2),
                )
        },
{
    match parse_module(text) {
        None => Err(MinifyTextError::Unparsable),
        Some(mut t) => {
            let ghost t0 = t;
            match m.minify(&mut t) {
                Err(_) => Err(MinifyTextError::NamesExhausted),
                Ok(()) => {
                    let printed = print_renamed(text, &t);
                    if parens_are_balanced(printed.as_str()) {
                        let out = minify_wgsl_source(printed.as_str());
                        assert(module_shape(t0, t) && renamed(
                            old(m)@,
                            module_events(t0),
                            m@,
                            module_events(t),
                        ));
                        Ok(out)
                    } else {
                        assert(module_shape(t0, t));
                        Err(MinifyTextError::UnbalancedParentheses)
                    }
                },
            }
        },
    }
}

} // verus!

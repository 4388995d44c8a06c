use vstd::prelude::*;

verus! {

// The part of a WGSL syntax tree that identifier renaming reads and writes. Literals,
// operators, attributes and directives are left out: renaming never looks at them.

/// A type or a value named by an identifier, possibly with template arguments
/// (`array<f32, 4>`, `my_var`, `vec3f`).
#[derive(Debug, PartialEq, Eq)]
pub struct TypeName {
    pub ident: String,
    pub template_args: Option<Vec<Expr>>,
}

/// A call `ty(arguments...)`.
#[derive(Debug, PartialEq, Eq)]
pub struct Call {
    pub ty: TypeName,
    pub arguments: Vec<Expr>,
}

/// An expression.
#[derive(Debug, PartialEq, Eq)]
pub enum Expr {
    Literal,
    Parenthesized(Box<Expr>),
    NamedComponent { base: Box<Expr>, component: String },
    Indexing { base: Box<Expr>, index: Box<Expr> },
    Unary(Box<Expr>),
    Binary { left: Box<Expr>, right: Box<Expr> },
    Call(Call),
    TypeOrIdentifier(TypeName),
}

/// A braced list of statements.
#[derive(Debug, PartialEq, Eq)]
pub struct Block {
    pub statements: Vec<Stmt>,
}

/// A condition with the block it guards (`if` and `else if`).
#[derive(Debug, PartialEq, Eq)]
pub struct IfClause {
    pub expression: Expr,
    pub body: Block,
}

/// A `case` or `default` label.
#[derive(Debug, PartialEq, Eq)]
pub enum CaseSelector {
    Default,
    Expr(Expr),
}

/// One clause of a `switch`.
#[derive(Debug, PartialEq, Eq)]
pub struct SwitchArm {
    pub case_selectors: Vec<CaseSelector>,
    pub body: Block,
}

/// A `const`, `override`, `let` or `var` declaration.
#[derive(Debug, PartialEq, Eq)]
pub struct VarDecl {
    pub ident: String,
    pub ty: Option<TypeName>,
    pub initializer: Option<Expr>,
}

/// A statement. Of a `loop`, only its body is kept.
#[allow(inconsistent_fields)]
#[derive(Debug, PartialEq, Eq)]
pub enum Stmt {
    Void,
    Compound(Block),
    Assignment { lhs: Expr, rhs: Expr },
    Increment(Expr),
    Decrement(Expr),
    If {
        if_clause: IfClause,
        else_if_clauses: Vec<IfClause>,
        else_clause: Option<Block>,
    },
    Switch { expression: Expr, clauses: Vec<SwitchArm> },
    Loop(Block),
    For {
        initializer: Option<Box<Stmt>>,
        condition: Option<Expr>,
        update: Option<Box<Stmt>>,
        body: Block,
    },
    While { condition: Expr, body: Block },
    Break,
    Continue,
    Return(Option<Expr>),
    Discard,
    Call(Call),
    ConstAssert(Expr),
    VarDecl(VarDecl),
}

/// A function parameter.
#[derive(Debug, PartialEq, Eq)]
pub struct FormalParameter {
    pub ident: String,
    pub ty: TypeName,
}

/// A function; `has_attributes` tells entry points (and other attributed functions)
/// apart, since their names must be kept.
#[derive(Debug, PartialEq, Eq)]
pub struct FnDecl {
    pub has_attributes: bool,
    pub ident: String,
    pub parameters: Vec<FormalParameter>,
    pub return_type: Option<TypeName>,
    pub body: Block,
}

/// A structure; only the names of its members are kept.
#[derive(Debug, PartialEq, Eq)]
pub struct Struct {
    pub ident: String,
    pub members: Vec<String>,
}

/// A type alias.
#[derive(Debug, PartialEq, Eq)]
pub struct TypeAlias {
    pub ident: String,
    pub ty: TypeName,
}

/// A module-scope declaration; `Other` stands for those renaming leaves alone.
#[derive(Debug, PartialEq, Eq)]
pub enum Item {
    Other,
    VarDecl(VarDecl),
    TypeAlias(TypeAlias),
    Struct(Struct),
    FnDecl(FnDecl),
}

/// A WGSL module.
#[derive(Debug, PartialEq, Eq)]
pub struct Module {
    pub global_declarations: Vec<Item>,
}

} // verus!

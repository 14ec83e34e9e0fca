//! The output statement/expression tree.
//!
//! A passive data contract: the pipeline's terminal output, immutable once
//! constructed, carrying no back-references.  A pretty-printer or other
//! consumer walks these values; nothing in the decompiler reads them back.

use vstd::prelude::*;

verus! {

/// An ordered sequence of statements: one resolved (part of a) function
/// body.
#[derive(Debug)]
pub struct Block(pub Vec<Statement>);

/// A single statement.
#[derive(Debug)]
pub enum Statement {
    Empty,
    Block(Block),
    Enum { name: String, variants: Vec<(String, Option<Expr>)> },
    Function { name: String, is_constructor: bool, inherit: Option<Call>, params: Vec<Param> },
    Var(Vec<(String, Option<Expr>)>),
    Static(Vec<(String, Option<Expr>)>),
    GlobalVar(String),
    Assignment { target: MutableExpr, op: AssignmentOp, value: Box<Expr> },
    Return(Option<Box<Expr>>),
    If { cond: Box<Expr>, then: Box<Statement>, otherwise: Option<Box<Statement>> },
    For {
        initializer: Box<Statement>,
        condition: Box<Expr>,
        iterator: Box<Statement>,
        body: Box<Statement>,
    },
    While(LoopStmt),
    Repeat(LoopStmt),
    Switch { target: Box<Expr>, cases: Vec<SwitchCase>, default: Option<Block> },
    With(LoopStmt),
    TryCatch { try_block: Box<Statement>, err: String, catch_block: Box<Statement> },
    Throw(Box<Expr>),
    Call(Call),
    Prefix(Mutation),
    Postfix(Mutation),
    Break,
    Continue,
}

/// A function or method call.
#[derive(Debug)]
pub struct Call {
    pub base: Box<Expr>,
    pub arguments: Vec<Expr>,
    pub has_new: bool,
}

/// A declared parameter with its default value.
#[derive(Debug)]
pub struct Param {
    pub name: String,
    pub default: Expr,
}

/// A loop statement: the loop's target expression and its body.
#[derive(Debug)]
pub struct LoopStmt {
    pub target: Box<Expr>,
    pub body: Box<Statement>,
}

/// One arm of a switch statement.
#[derive(Debug)]
pub struct SwitchCase {
    pub compare: Expr,
    pub body: Block,
}

/// An increment or decrement applied to a mutable place.
#[derive(Debug)]
pub struct Mutation {
    pub op: MutationOp,
    pub target: Box<MutableExpr>,
}

/// Which mutation a [`Mutation`] applies.
#[derive(Debug, Copy, Clone, Eq, PartialEq, Hash)]
pub enum MutationOp {
    Increment,
    Decrement,
}

/// A place that can be assigned to.
#[derive(Debug)]
pub enum MutableExpr {
    Ident(String),
    Field { base: Box<Expr>, field: String },
    Index { base: Box<Expr>, accessor_type: Option<AccessorType>, indexes: Vec<Expr> },
}

/// The data-structure accessor used by an index expression.
#[derive(Debug, Copy, Clone, Eq, PartialEq, Hash)]
pub enum AccessorType {
    List,
    KeyValueMap,
    Grid,
    Array,
    Struct,
}

/// The operator of an assignment statement.
#[derive(Debug, Copy, Clone, Eq, PartialEq, Hash)]
pub enum AssignmentOp {
    Equal,
    PlusEqual,
    MinusEqual,
    MultEqual,
    DivEqual,
    RemEqual,
    BitAndEqual,
    BitOrEqual,
    BitXorEqual,
    NullCoalesce,
}

/// An expression.
#[derive(Debug)]
pub enum Expr {
    Global,
    This,
    Other,
    Constant(Constant),
    Ident(String),
    Group(Box<Expr>),
    Object(Vec<Field>),
    Array(Vec<Expr>),
    Unary { op: UnaryOp, target: Box<Expr> },
    Prefix(Mutation),
    Postfix(Mutation),
    Binary { lhs: Box<Expr>, op: BinaryOp, rhs: Box<Expr> },
    Ternary { cond: Box<Expr>, if_true: Box<Expr>, if_false: Box<Expr> },
    Call(Call),
    Field { base: Box<Expr>, field: String },
    Index { base: Box<Expr>, accessor_type: Option<AccessorType>, indexes: Vec<Expr> },
    Argument { arg_index: Box<Expr> },
    ArgumentCount,
}

/// A binary operator.
#[derive(Debug, Copy, Clone, Eq, PartialEq, Hash)]
pub enum BinaryOp {
    Add,
    Sub,
    Mult,
    Div,
    Rem,
    IDiv,
    Equal,
    NotEqual,
    LessThan,
    LessEqual,
    GreaterThan,
    GreaterEqual,
    And,
    Or,
    Xor,
    BitAnd,
    BitOr,
    BitXor,
    BitShiftLeft,
    BitShiftRight,
    NullCoalesce,
}

/// A unary operator.
#[derive(Debug, Copy, Clone, Eq, PartialEq, Hash)]
pub enum UnaryOp {
    Not,
    Minus,
    BitNegate,
}

/// One field of an object literal.
#[derive(Debug)]
pub enum Field {
    Value(String, Expr),
    Init(String),
}

/// A literal constant.
///
/// A floating-point constant is carried as its IEEE 754 double-precision
/// bit pattern.
#[derive(Debug, Clone, PartialEq, Eq)]
pub enum Constant {
    Undefined,
    Boolean(bool),
    Integer(i64),
    Float(u64),
    String(String),
}

} // verus!

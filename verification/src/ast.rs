//! Syntax tree of MCFC programs.
use vstd::prelude::*;

use crate::diagnostics::Span;
use crate::text::{push_str, string_of};

verus! {

broadcast use vstd::string::group_string_axioms;

#[derive(Debug, PartialEq, Eq)]
pub struct Program {
    pub structs: Vec<StructDef>,
    pub player_states: Vec<PlayerStateDef>,
    pub functions: Vec<Function>,
}

#[derive(Debug, Clone, PartialEq, Eq)]
pub struct StructDef {
    pub name: String,
    pub fields: Vec<StructField>,
    pub span: Span,
}

#[derive(Debug, Clone, PartialEq, Eq)]
pub struct StructField {
    pub name: String,
    pub ty: Type,
    pub span: Span,
}

#[derive(Debug, Clone, PartialEq, Eq)]
pub struct PlayerStateDef {
    pub path: Vec<String>,
    pub ty: Type,
    pub display_name: String,
    pub span: Span,
}

#[derive(Debug, PartialEq, Eq)]
pub struct Function {
    pub name: String,
    pub params: Vec<Param>,
    pub return_type: Type,
    pub body: Vec<Stmt>,
    pub span: Span,
}

#[derive(Debug, Clone, PartialEq, Eq)]
pub struct Param {
    pub name: String,
    pub ty: Type,
    pub span: Span,
}

#[derive(Debug, PartialEq, Eq, PartialOrd, Ord)]
pub enum Type {
    Int,
    Bool,
    String,
    Array(Box<Type>),
    Dict(Box<Type>),
    Struct(String),
    Bossbar,
    EntitySet,
    EntityRef,
    PlayerRef,
    BlockRef,
    EntityDef,
    BlockDef,
    ItemDef,
    TextDef,
    ItemSlot,
    Nbt,
    Void,
}

impl Clone for Type {
    fn clone(&self) -> (r: Self)
        ensures
            r == *self,
        decreases self,
    {
        match self {
            Type::Int => Type::Int,
            Type::Bool => Type::Bool,
            Type::String => Type::String,
            Type::Array(element) => Type::Array(Box::new(Type::clone(element))),
            Type::Dict(value) => Type::Dict(Box::new(Type::clone(value))),
            Type::Struct(name) => Type::Struct(name.clone()),
            Type::Bossbar => Type::Bossbar,
            Type::EntitySet => Type::EntitySet,
            Type::EntityRef => Type::EntityRef,
            Type::PlayerRef => Type::PlayerRef,
            Type::BlockRef => Type::BlockRef,
            Type::EntityDef => Type::EntityDef,
            Type::BlockDef => Type::BlockDef,
            Type::ItemDef => Type::ItemDef,
            Type::TextDef => Type::TextDef,
            Type::ItemSlot => Type::ItemSlot,
            Type::Nbt => Type::Nbt,
            Type::Void => Type::Void,
        }
    }
}

/// The name a type is written with in MCFC source.
pub open spec fn type_spelling(t: Type) -> Seq<char>
    decreases t,
{
    match t {
        Type::Int => "int"@,
        Type::Bool => "bool"@,
        Type::String => "string"@,
        Type::Array(element) => "array<"@ + type_spelling(*element) + ">"@,
        Type::Dict(value) => "dict<"@ + type_spelling(*value) + ">"@,
        Type::Struct(name) => name@,
        Type::Bossbar => "bossbar"@,
        Type::EntitySet => "entity_set"@,
        Type::EntityRef => "entity_ref"@,
        Type::PlayerRef => "player_ref"@,
        Type::BlockRef => "block_ref"@,
        Type::EntityDef => "entity_def"@,
        Type::BlockDef => "block_def"@,
        Type::ItemDef => "item_def"@,
        Type::TextDef => "text_def"@,
        Type::ItemSlot => "item_slot"@,
        Type::Nbt => "nbt"@,
        Type::Void => "void"@,
    }
}

impl Type {
    /// The source spelling of the type.
    pub fn as_str(&self) -> (r: String)
        ensures
            r@ == type_spelling(*self),
        decreases self,
    {
        match self {
            Type::Int => string_of("int"),
            Type::Bool => string_of("bool"),
            Type::String => string_of("string"),
            Type::Array(element) => {
                let mut r = string_of("array<");
                let inner = element.as_str();
                push_str(&mut r, inner.as_str());
                push_str(&mut r, ">");
                r
            },
            Type::Dict(value) => {
                let mut r = string_of("dict<");
                let inner = value.as_str();
                push_str(&mut r, inner.as_str());
                push_str(&mut r, ">");
                r
            },
            Type::Struct(name) => string_of(name.as_str()),
            Type::Bossbar => string_of("bossbar"),
            Type::EntitySet => string_of("entity_set"),
            Type::EntityRef => string_of("entity_ref"),
            Type::PlayerRef => string_of("player_ref"),
            Type::BlockRef => string_of("block_ref"),
            Type::EntityDef => string_of("entity_def"),
            Type::BlockDef => string_of("block_def"),
            Type::ItemDef => string_of("item_def"),
            Type::TextDef => string_of("text_def"),
            Type::ItemSlot => string_of("item_slot"),
            Type::Nbt => string_of("nbt"),
            Type::Void => string_of("void"),
        }
    }
}

#[derive(Debug, PartialEq, Eq)]
pub struct Stmt {
    pub kind: StmtKind,
    pub span: Span,
}

#[derive(Debug, PartialEq, Eq)]
pub enum StmtKind {
    Let { name: String, value: Expr },
    Assign { target: AssignTarget, value: Expr },
    If { condition: Expr, then_body: Vec<Stmt>, else_body: Vec<Stmt> },
    While { condition: Expr, body: Vec<Stmt> },
    For { name: String, kind: ForKind, body: Vec<Stmt> },
    Match { value: Expr, arms: Vec<MatchArm>, else_body: Vec<Stmt> },
    Context { kind: ContextKind, anchor: Expr, body: Vec<Stmt> },
    Async { body: Vec<Stmt> },
    Break,
    Continue,
    Return(Option<Expr>),
    RawCommand(String),
    MacroCommand(String),
    Expr(Expr),
}

#[derive(Debug, Clone, Copy, PartialEq, Eq, Structural)]
pub enum ContextKind {
    As,
    At,
}

#[derive(Debug, Clone, Copy, PartialEq, Eq, Structural)]
pub enum SleepUnit {
    Seconds,
    Ticks,
}

#[derive(Debug, PartialEq, Eq)]
pub enum AssignTarget {
    Variable(String),
    Path(PathExpr),
}

#[derive(Debug, PartialEq, Eq)]
pub enum ForKind {
    Range { start: Expr, end: Expr, inclusive: bool },
    Each { iterable: Expr },
}

#[derive(Debug, PartialEq, Eq)]
pub struct MatchArm {
    pub pattern: String,
    pub body: Vec<Stmt>,
}

#[derive(Debug, PartialEq, Eq)]
pub struct Expr {
    pub kind: ExprKind,
    pub span: Span,
}

#[derive(Debug, PartialEq, Eq)]
pub struct PathExpr {
    pub base: Box<Expr>,
    pub segments: Vec<PathSegment>,
}

#[derive(Debug, PartialEq, Eq)]
pub enum PathSegment {
    Field(String),
    Index(Box<Expr>),
}

#[derive(Debug, PartialEq, Eq)]
pub enum ExprKind {
    Int(i64),
    Bool(bool),
    String(String),
    ArrayLiteral(Vec<Expr>),
    DictLiteral(Vec<(String, Expr)>),
    StructLiteral { name: String, fields: Vec<(String, Expr)> },
    Variable(String),
    Unary { op: UnaryOp, expr: Box<Expr> },
    Binary { op: BinaryOp, left: Box<Expr>, right: Box<Expr> },
    Call { function: String, args: Vec<Expr> },
    MethodCall { receiver: Box<Expr>, method: String, args: Vec<Expr> },
    Path(PathExpr),
}

#[derive(Debug, Clone, Copy, PartialEq, Eq, Structural)]
pub enum UnaryOp {
    Not,
    Neg,
}

#[derive(Debug, Clone, Copy, PartialEq, Eq, Structural)]
pub enum BinaryOp {
    Add,
    Sub,
    Mul,
    Div,
    Eq,
    NotEq,
    Lt,
    Lte,
    Gt,
    Gte,
    And,
    Or,
}

} // verus!

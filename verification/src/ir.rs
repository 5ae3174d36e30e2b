//! The intermediate representation handed to the datapack generator:
//! lowered functions, statements and expressions with their types.
use vstd::prelude::*;

use crate::ast::{BinaryOp, Type, UnaryOp};

verus! {

/// A lowered program: its functions, the call depth each function runs at,
/// and the functions that books expose as commands, each keyed by function
/// name (see [`IrProgram::wf`]).
#[derive(Debug)]
pub struct IrProgram {
    pub functions: Vec<IrFunction>,
    pub call_depths: Vec<(String, usize)>,
    pub book_commands: Vec<(String, IrBookCommand)>,
}

/// A lowered function with the types of all its locals.
#[derive(Debug)]
pub struct IrFunction {
    pub name: String,
    pub params: Vec<IrParam>,
    pub return_type: Type,
    pub body: Vec<IrStmt>,
    pub locals: Vec<(String, Type)>,
    pub book_exposed: bool,
}

/// A function that a book exposes, with the number of its arguments.
#[derive(Debug, Clone)]
pub struct IrBookCommand {
    pub function_name: String,
    pub arg_count: usize,
}

/// A parameter.
#[derive(Debug, Clone)]
pub struct IrParam {
    pub name: String,
    pub ty: Type,
}

/// A lowered statement.
#[derive(Debug)]
pub enum IrStmt {
    Let { name: String, ty: Type, value: IrExpr },
    Assign { name: String, value: IrExpr },
    If { condition: IrExpr, then_body: Vec<IrStmt>, else_body: Vec<IrStmt> },
    While { condition: IrExpr, body: Vec<IrStmt> },
    For { name: String, start: IrExpr, end: IrExpr, inclusive: bool, body: Vec<IrStmt> },
    Break,
    Continue,
    Return(Option<IrExpr>),
    RawCommand(String),
    MacroCommand { template: String, placeholders: Vec<IrMacroPlaceholder> },
    Expr(IrExpr),
}

/// A `$(...)` placeholder of a macro command: the value it names and its type.
#[derive(Debug, Clone)]
pub struct IrMacroPlaceholder {
    pub name: String,
    pub ty: Type,
}

/// A lowered expression with its type.
#[derive(Debug)]
pub struct IrExpr {
    pub ty: Type,
    pub kind: IrExprKind,
}

/// The forms of a lowered expression.
#[derive(Debug)]
pub enum IrExprKind {
    Int(i64),
    Bool(bool),
    String(String),
    Variable(String),
    Unary { op: UnaryOp, expr: Box<IrExpr> },
    Binary { op: BinaryOp, left: Box<IrExpr>, right: Box<IrExpr> },
    Call { function: String, args: Vec<IrExpr> },
}

/// Entries whose names occur once each.
pub open spec fn distinct_names<V>(entries: Seq<(String, V)>) -> bool {
    forall|i: int, j: int| 0 <= i < j < entries.len() ==> entries[i].0@ != entries[j].0@
}

/// The value under `name`: that of its first entry.
pub open spec fn lookup<V>(entries: Seq<(String, V)>, name: Seq<char>) -> Option<V>
    decreases entries.len(),
{
    if entries.len() == 0 {
        None
    } else if entries[0].0@ == name {
        Some(entries[0].1)
    } else {
        lookup(entries.drop_first(), name)
    }
}

impl IrFunction {
    /// Each local is listed once.
    pub open spec fn wf(&self) -> bool {
        distinct_names(self.locals@)
    }

    /// The type of the local `name`, where the function has one.
    pub fn local_type(&self, name: &str) -> (r: Option<Type>)
        ensures
            r == lookup(self.locals@, name@),
    {
        let mut i: usize = 0;
        assert(self.locals@.skip(0) =~= self.locals@);
        while i < self.locals.len()
            invariant
                i <= self.locals@.len(),
                lookup(self.locals@, name@) == lookup(self.locals@.skip(i as int), name@),
            decreases self.locals@.len() - i,
        {
            assert(self.locals@.skip(i as int).drop_first() =~= self.locals@.skip(i + 1));
            if crate::text::str_eq(self.locals[i].0.as_str(), name) {
                return Some(self.locals[i].1.clone());
            }
            i = i + 1;
        }
        None
    }
}

impl IrProgram {
    /// Each function name has one call depth and at most one book command,
    /// and every function lists its locals once.
    pub open spec fn wf(&self) -> bool {
        &&& distinct_names(self.call_depths@)
        &&& distinct_names(self.book_commands@)
        &&& forall|i: int| 0 <= i < self.functions@.len() ==> #[trigger] self.functions@[i].wf()
    }
}

} // verus!

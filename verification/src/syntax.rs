//! The part of a Rust source file that the source front door reads, as plain
//! values: items, function signatures, statements and expressions.
//!
//! A parser builds these from source text; everything the extractor decides
//! is decided on them. Float literal values arrive as binary64 bit patterns
//! (the literal read as `f64`, and read as `f32` and widened back), integer
//! literals as their decimal digits.
use vstd::prelude::*;

verus! {

#[derive(Debug, Clone, Copy, PartialEq, Eq, Structural)]
pub enum BinOp {
    Add,
    Sub,
    Mul,
    Div,
    Lt,
    Gt,
    Le,
    Ge,
    Eq,
    Ne,
    AddAssign,
    SubAssign,
    MulAssign,
    DivAssign,
    /// any other binary operator (`%`, `&&`, `<<`, `%=`, ...)
    Other,
}

#[derive(Debug, Clone, Copy, PartialEq, Eq, Structural)]
pub enum UnOp {
    Neg,
    /// `!` or `*`
    Other,
}

#[derive(Debug, Clone)]
pub enum Lit {
    /// a float literal: the bits of its value as `f64`, and of its value
    /// rounded to `f32` and widened back to `f64`
    Float { bits: u64, bits32: u64 },
    /// a float literal whose value could not be read, with the reason
    BadFloat(String),
    /// an integer literal: its value's decimal digits
    Int(Vec<char>),
    /// a string, byte, char or bool literal
    Other,
}

/// A type, as far as the extractor looks into it.
#[derive(Debug)]
pub enum Ty {
    /// a path type; the identifier when the path is a single bare one
    Path(Option<Vec<char>>),
    /// `&T` / `&mut T`
    Ref(Box<Ty>),
    /// `[T; N]`; the decimal digits of `N` when it is an integer literal
    Array(Option<Vec<char>>),
    /// `[T]`
    Slice,
    Other,
}

#[derive(Debug)]
pub enum Pat {
    /// `x`, `mut x`, `ref x`
    Ident(Vec<char>),
    /// `p: T`
    Typed(Box<Pat>),
    /// `_`
    Wild,
    Other,
}

#[derive(Debug)]
pub enum Expr {
    /// `base.member`; the member's name when it is a named field
    Field(Box<Expr>, Option<Vec<char>>),
    Lit(Lit),
    /// a path: its identifier when it is a single bare one, and the
    /// identifier of its last segment
    Path(Option<Vec<char>>, Vec<char>),
    Index(Box<Expr>, Box<Expr>),
    Paren(Box<Expr>),
    /// an invisible group (from macro expansion)
    Group(Box<Expr>),
    Cast(Box<Expr>, Ty),
    Unary(UnOp, Box<Expr>),
    Binary(BinOp, Box<Expr>, Box<Expr>),
    /// `receiver.method(args)`
    MethodCall(Box<Expr>, Vec<char>, Vec<Expr>),
    /// `func(args)`
    Call(Box<Expr>, Vec<Expr>),
    /// `if cond { then } else else_`
    If(Box<Expr>, Block, Option<Box<Expr>>),
    Block(Block),
    Return(Option<Box<Expr>>),
    While,
    Loop,
    /// `for pat in expr { body }`
    ForLoop(Pat, Box<Expr>, Block),
    /// `left = right`; the last field names the expression form
    Assign(Box<Expr>, Box<Expr>, Vec<char>),
    /// `start..end` / `start..=end` (`true` when closed); the last field
    /// names the expression form
    Range(Option<Box<Expr>>, Option<Box<Expr>>, bool, Vec<char>),
    /// any other expression form, by name
    Other(Vec<char>),
}

#[derive(Debug)]
pub struct Block {
    pub stmts: Vec<Stmt>,
}

#[derive(Debug)]
pub enum Stmt {
    /// `let pat = init;`
    Local(Pat, Option<Expr>),
    /// an expression statement; `true` when it ends in `;`
    Expr(Expr, bool),
    /// an item or a macro statement
    Other,
}

#[derive(Debug)]
pub enum FnArg {
    /// `self`, `&self`, `&mut self`: `true` when mutable
    Receiver(bool),
    Typed(Pat, Ty),
}

#[derive(Debug)]
pub struct FnDef {
    pub name: Vec<char>,
    pub inputs: Vec<FnArg>,
    pub output: Option<Ty>,
    pub body: Block,
}

#[derive(Debug)]
pub enum Item {
    Fn(FnDef),
    /// an inline module and its items
    Mod(Vec<Item>),
    /// an `impl` block: the last segment of its self type when that is a
    /// path, and its methods
    Impl(Option<Vec<char>>, Vec<FnDef>),
    /// a struct: its name, and its named fields (name, type text without
    /// spaces) when it has named fields
    Struct(Vec<char>, Option<Vec<(Vec<char>, String)>>),
    Other,
}

#[derive(Debug)]
pub struct SourceFile {
    pub items: Vec<Item>,
}


/// The truth of a Rust comparison `a op b` on f64 operands that compare as
/// given (`lt`, `eq`, `gt`; none of them when a NaN is involved): IEEE-754
/// ordered comparisons, except `!=`, which holds on an unordered pair.
pub open spec fn rust_relation_holds(op: BinOp, lt: bool, eq: bool, gt: bool) -> bool {
    match op {
        BinOp::Lt => lt,
        BinOp::Gt => gt,
        BinOp::Le => lt || eq,
        BinOp::Ge => gt || eq,
        BinOp::Eq => eq,
        BinOp::Ne => lt || gt || !(lt || eq || gt),
        _ => false,
    }
}


/// The Rust comparison operator a token spells.
pub open spec fn comparison_token(tok: Seq<char>) -> Option<BinOp> {
    if tok == seq!['<'] {
        Some(BinOp::Lt)
    } else if tok == seq!['>'] {
        Some(BinOp::Gt)
    } else if tok == seq!['<', '='] {
        Some(BinOp::Le)
    } else if tok == seq!['>', '='] {
        Some(BinOp::Ge)
    } else if tok == seq!['=', '='] {
        Some(BinOp::Eq)
    } else if tok == seq!['!', '='] {
        Some(BinOp::Ne)
    } else {
        None
    }
}


/// The Rust arithmetic operator a token spells.
pub open spec fn arithmetic_token(tok: Seq<char>) -> Option<BinOp> {
    if tok == seq!['+'] {
        Some(BinOp::Add)
    } else if tok == seq!['-'] {
        Some(BinOp::Sub)
    } else if tok == seq!['*'] {
        Some(BinOp::Mul)
    } else if tok == seq!['/'] {
        Some(BinOp::Div)
    } else {
        None
    }
}

} // verus!

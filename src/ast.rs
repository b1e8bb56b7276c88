//! The syntax tree of Interop programs.
use vstd::prelude::*;

verus! {

// *** Identifiers ***

#[derive(Clone, Debug, PartialEq)]
pub struct Ident {
    pub name: String,
}

impl AsRef<str> for Ident {
    fn as_ref(&self) -> &str {
        self.name.as_str()
    }
}

impl Ident {
    /// An identifier with the text `ident`.
    pub fn from_str(ident: &str) -> (r: Self)
        ensures
            r.name@ == ident@,
    {
        Ident { name: ident.to_owned() }
    }

    /// An identifier that owns the text `ident`, such as one made by a
    /// transformation.
    pub fn from_string(ident: String) -> (r: Self)
        ensures
            r.name@ == ident@,
    {
        Ident { name: ident }
    }

    pub fn as_str(&self) -> (r: &str)
        ensures
            r@ == self.name@,
    {
        self.name.as_str()
    }
}

// *** Literals ***

#[derive(Clone, Debug, PartialEq)]
pub struct IntLit {
    pub value: i32,
}

#[derive(Clone, Debug, PartialEq)]
pub struct BoolLit(pub bool);

/// A string literal as written, quotes included. `parsed` holds the text
/// when no escape needs processing to obtain it.
#[derive(Clone, Debug, PartialEq)]
pub struct StringLit {
    pub unparsed: String,
    pub parsed: Option<String>,
}

impl StringLit {
    pub open spec fn parsed_view(&self) -> Option<Seq<char>> {
        match self.parsed {
            Some(p) => Some(p@),
            None => None,
        }
    }

    pub fn from_str(s: &str, has_escapes: bool) -> (r: Self)
        ensures
            r.unparsed@ == s@,
            r.parsed_view() == if has_escapes {
                None::<Seq<char>>
            } else {
                Some(s@)
            },
    {
        Self::from_string(s.to_owned(), has_escapes)
    }

    pub fn from_string(s: String, has_escapes: bool) -> (r: Self)
        ensures
            r.unparsed@ == s@,
            r.parsed_view() == if has_escapes {
                None::<Seq<char>>
            } else {
                Some(s@)
            },
    {
        // without escapes the text needs no processing
        let parsed = if has_escapes {
            None
        } else {
            Some(s.clone())
        };
        StringLit { unparsed: s, parsed }
    }

    pub fn parsed(&self) -> (r: Option<&str>)
        ensures
            match r {
                Some(p) => self.parsed_view() == Some(p@),
                None => self.parsed_view() is None,
            },
    {
        match &self.parsed {
            Some(p) => Some(p.as_str()),
            None => None,
        }
    }
}

/// A character literal as written, quotes included. `parsed` holds the
/// character when no escape needs processing to obtain it.
#[derive(Clone, Debug, PartialEq)]
pub struct CharLit {
    pub unparsed: String,
    pub parsed: Option<char>,
}

impl CharLit {
    pub open spec fn parsed_view(&self) -> Option<char> {
        self.parsed
    }

    pub fn from_str(s: &str, has_escapes: bool) -> (r: Self)
        requires
            has_escapes || s@.len() >= 2,
        ensures
            r.unparsed@ == s@,
            r.parsed_view() == if has_escapes {
                None::<char>
            } else {
                Some(s@[1])
            },
    {
        Self::from_string(s.to_owned(), has_escapes)
    }

    pub fn from_string(s: String, has_escapes: bool) -> (r: Self)
        requires
            has_escapes || s@.len() >= 2,
        ensures
            r.unparsed@ == s@,
            r.parsed_view() == if has_escapes {
                None::<char>
            } else {
                Some(s@[1])
            },
    {
        // without escapes the character follows the opening quote
        let parsed = if has_escapes {
            None
        } else {
            Some(s.as_str().get_char(1))
        };
        CharLit { unparsed: s, parsed }
    }

    pub fn parsed(&self) -> (r: Option<char>)
        ensures
            r == self.parsed_view(),
    {
        self.parsed
    }
}

// *** Type ***

#[derive(Clone, Debug, PartialEq)]
pub enum Type {
    Simple(Ident),
}

impl AsRef<str> for Type {
    fn as_ref(&self) -> &str {
        self.as_str()
    }
}

impl Type {
    pub open spec fn name(&self) -> Seq<char> {
        match self {
            Type::Simple(ident) => ident.name@,
        }
    }

    pub fn as_str(&self) -> (r: &str)
        ensures
            r@ == self.name(),
    {
        match self {
            Type::Simple(ident) => ident.as_str(),
        }
    }
}

// *** Expressions ***

#[derive(Debug, PartialEq)]
pub enum Expr {
    If(If),
    Simple(SimpleExpr),
}

#[derive(Debug, PartialEq)]
pub enum SimpleExpr {
    Ident(Ident),
    IntLit(IntLit),
    StringLit(StringLit),
    CharLit(CharLit),
    BoolLit(BoolLit),
    Field(Box<Field>),
    Call(Box<Call>),
    IfThenElse(Box<IfThenElse>),
    BoolCond(Box<BoolCond>),
    /// An expression in parentheses
    Expr(Box<Expr>),
}

#[derive(Debug, PartialEq)]
pub enum BoolCond {
    Not(SimpleExpr),
    And(SimpleExpr, SimpleExpr),
    Or(SimpleExpr, SimpleExpr),
}

/// The value form of `if`: both branches are simple expressions.
#[derive(Debug, PartialEq)]
pub struct IfThenElse {
    pub cond: SimpleExpr,
    pub then_: SimpleExpr,
    pub else_: SimpleExpr,
}

#[derive(Debug, PartialEq)]
pub struct Field {
    pub target: SimpleExpr,
    pub field: Ident,
}

#[derive(Debug, PartialEq)]
pub struct Call {
    pub target: SimpleExpr,
    pub args: Vec<CallArg>,
}

#[derive(Debug, PartialEq)]
pub struct CallArg {
    pub name: Option<Ident>,
    pub expr: SimpleExpr,
}

// *** Block ***

#[derive(Debug, PartialEq)]
pub struct Block {
    pub stmt_or_exprs: Vec<StmtOrExpr>,
}

#[derive(Debug, PartialEq)]
pub enum StmtOrExpr {
    Func(Func),
    Expr(Expr),
}

// *** Function ***

#[derive(Debug, PartialEq)]
pub struct Func {
    pub name: Ident,
    pub args: Vec<FuncArg>,
    pub body: FuncBody,
}

#[derive(Debug, PartialEq)]
pub struct FuncArg {
    pub name: Ident,
    pub arg_type: Type,
    pub default_val: Option<SimpleExpr>,
}

#[derive(Debug, PartialEq)]
pub enum FuncBody {
    Expr(SimpleExpr),
    Block(Option<Type>, Block),
}

// *** If ***

/// The statement form of `if`, with block branches.
#[derive(Debug, PartialEq)]
pub struct If {
    pub cond: SimpleExpr,
    pub then_body: Block,
    pub else_body: Option<ElseBody>,
}

#[derive(Debug, PartialEq)]
pub enum ElseBody {
    /// `else if`, since the statement form is no simple expression
    If(Box<If>),
    Block(Block),
}

// *** Top level ***

#[derive(Debug, PartialEq)]
pub enum Decl {
    Func(Func),
}

#[derive(Debug, PartialEq)]
pub struct File {
    pub path: String,
    pub decls: Vec<Decl>,
}

} // verus!

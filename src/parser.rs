//! The parser: recursive descent over the token stream.
//!
//! The grammar is stated by the `p_*` spec functions over a ghost syntax
//! tree (`S*` types); the `view_*` functions map the syntax tree onto it,
//! and each parsing method is proved to give what its spec function gives.
use vstd::prelude::*;
use vstd::string::StringSliceAdditionalSpecFns;
use crate::ast::{
    Block, BoolCond, BoolLit, Call, CallArg, CharLit, Decl, ElseBody, Expr, Field, Func, FuncArg,
    FuncBody, Ident, If, IfThenElse, IntLit, SimpleExpr, StmtOrExpr, StringLit, Type,
};
use crate::lexer::{lemma_lex_from_bounds, lex_from, lex_toks, tok_of, tokenize, Tok};
use crate::text::{byte_len, lemma_encode_len_ge};
use vstd::utf8::encode_utf8;
use crate::token::TokenType;

verus! {

// ---------------------------------------------------------------------
// The ghost syntax tree
// ---------------------------------------------------------------------

pub enum SExpr {
    If(SIf),
    Simple(SSimple),
}

pub enum SSimple {
    Ident(Seq<char>),
    Int(i32),
    /// Written text, and the text when it needs no processing
    Str(Seq<char>, Option<Seq<char>>),
    /// Written text, and the character when it needs no processing
    Char(Seq<char>, Option<char>),
    Bool(bool),
    Field(Box<SSimple>, Seq<char>),
    Call(Box<SSimple>, Seq<SArg>),
    IfThenElse(Box<SSimple>, Box<SSimple>, Box<SSimple>),
    Not(Box<SSimple>),
    And(Box<SSimple>, Box<SSimple>),
    Or(Box<SSimple>, Box<SSimple>),
    Paren(Box<SExpr>),
}

pub struct SArg {
    pub name: Option<Seq<char>>,
    pub expr: SSimple,
}

pub struct SIf {
    pub cond: SSimple,
    pub then_body: Seq<SItem>,
    pub else_body: Option<SElse>,
}

pub enum SElse {
    If(Box<SIf>),
    Block(Seq<SItem>),
}

pub enum SItem {
    Func(SFunc),
    Expr(SExpr),
}

pub struct SFunc {
    pub name: Seq<char>,
    pub args: Seq<SParam>,
    pub body: SBody,
}

pub struct SParam {
    pub name: Seq<char>,
    pub ty: Seq<char>,
    pub default: Option<SSimple>,
}

pub enum SBody {
    Expr(SSimple),
    Block(Option<Seq<char>>, Seq<SItem>),
}

// ---------------------------------------------------------------------
// Views of the syntax tree
// ---------------------------------------------------------------------

pub open spec fn view_ident(id: Option<Ident>) -> Option<Seq<char>> {
    match id {
        Some(n) => Some(n.name@),
        None => None,
    }
}

pub open spec fn view_simple(e: SimpleExpr) -> SSimple
    decreases e,
{
    match e {
        SimpleExpr::Ident(id) => SSimple::Ident(id.name@),
        SimpleExpr::IntLit(l) => SSimple::Int(l.value),
        SimpleExpr::StringLit(l) => SSimple::Str(l.unparsed@, l.parsed_view()),
        SimpleExpr::CharLit(l) => SSimple::Char(l.unparsed@, l.parsed),
        SimpleExpr::BoolLit(b) => SSimple::Bool(b.0),
        SimpleExpr::Field(f) => SSimple::Field(Box::new(view_simple(f.target)), f.field.name@),
        SimpleExpr::Call(c) => SSimple::Call(Box::new(view_simple(c.target)), view_args(c.args@)),
        SimpleExpr::IfThenElse(x) => SSimple::IfThenElse(
            Box::new(view_simple(x.cond)),
            Box::new(view_simple(x.then_)),
            Box::new(view_simple(x.else_)),
        ),
        SimpleExpr::BoolCond(b) => match *b {
            BoolCond::Not(x) => SSimple::Not(Box::new(view_simple(x))),
            BoolCond::And(l, r) => SSimple::And(Box::new(view_simple(l)), Box::new(view_simple(r))),
            BoolCond::Or(l, r) => SSimple::Or(Box::new(view_simple(l)), Box::new(view_simple(r))),
        },
        SimpleExpr::Expr(x) => SSimple::Paren(Box::new(view_expr(*x))),
    }
}

pub open spec fn view_args(args: Seq<CallArg>) -> Seq<SArg>
    decreases args,
{
    if args.len() == 0 {
        Seq::empty()
    } else {
        view_args(args.drop_last()).push(
            SArg { name: view_ident(args.last().name), expr: view_simple(args.last().expr) },
        )
    }
}

pub open spec fn view_expr(e: Expr) -> SExpr
    decreases e,
{
    match e {
        Expr::If(i) => SExpr::If(view_if(i)),
        Expr::Simple(x) => SExpr::Simple(view_simple(x)),
    }
}

pub open spec fn view_if(i: If) -> SIf
    decreases i,
{
    SIf {
        cond: view_simple(i.cond),
        then_body: view_block(i.then_body),
        else_body: match i.else_body {
            None => None,
            Some(ElseBody::If(x)) => Some(SElse::If(Box::new(view_if(*x)))),
            Some(ElseBody::Block(b)) => Some(SElse::Block(view_block(b))),
        },
    }
}

pub open spec fn view_block(b: Block) -> Seq<SItem>
    decreases b,
{
    view_items(b.stmt_or_exprs@)
}

pub open spec fn view_items(items: Seq<StmtOrExpr>) -> Seq<SItem>
    decreases items,
{
    if items.len() == 0 {
        Seq::empty()
    } else {
        view_items(items.drop_last()).push(view_item(items.last()))
    }
}

pub open spec fn view_item(x: StmtOrExpr) -> SItem
    decreases x,
{
    match x {
        StmtOrExpr::Func(f) => SItem::Func(view_func(f)),
        StmtOrExpr::Expr(e) => SItem::Expr(view_expr(e)),
    }
}

pub open spec fn view_func(f: Func) -> SFunc
    decreases f,
{
    SFunc { name: f.name.name@, args: view_params(f.args@), body: view_body(f.body) }
}

pub open spec fn view_params(ps: Seq<FuncArg>) -> Seq<SParam>
    decreases ps,
{
    if ps.len() == 0 {
        Seq::empty()
    } else {
        view_params(ps.drop_last()).push(view_param(ps.last()))
    }
}

pub open spec fn view_param(p: FuncArg) -> SParam
    decreases p,
{
    SParam {
        name: p.name.name@,
        ty: p.arg_type.name(),
        default: match p.default_val {
            Some(d) => Some(view_simple(d)),
            None => None,
        },
    }
}

pub open spec fn view_body(b: FuncBody) -> SBody
    decreases b,
{
    match b {
        FuncBody::Expr(e) => SBody::Expr(view_simple(e)),
        FuncBody::Block(t, blk) => SBody::Block(
            match t {
                Some(ty) => Some(ty.name()),
                None => None,
            },
            view_block(blk),
        ),
    }
}

pub open spec fn view_decls(ds: Seq<Decl>) -> Seq<SFunc>
    decreases ds.len(),
{
    if ds.len() == 0 {
        Seq::empty()
    } else {
        view_decls(ds.drop_last()).push(
            match ds.last() {
                Decl::Func(f) => view_func(f),
            },
        )
    }
}

// ---------------------------------------------------------------------
// Errors
// ---------------------------------------------------------------------

#[derive(Clone, Copy, Debug, PartialEq, Eq, Structural)]
pub enum ParseError {
    /// A token that no rule takes at its place, lexer errors included
    UnrecognizedToken { start: u32, token: TokenType, end: u32 },
    /// The input ended where more was needed
    UnrecognizedEof { location: u32 },
    /// A number literal beyond the 32-bit signed range
    IntegerOverflow { start: u32, end: u32 },
}

// ---------------------------------------------------------------------
// The grammar
// ---------------------------------------------------------------------

/// A parse result: the value and the index of the first token after it.
///
/// The rules read tokens by index. A rule that goes on from the index where
/// a sub-rule stopped first checks that this index lies further on (the
/// `i < j <= ts.len()` tests); that is what bounds the recursion.
pub type PR<T> = Result<(T, int), ParseError>;

pub open spec fn kind_at(ts: Seq<Tok>, i: int) -> Option<TokenType> {
    if 0 <= i < ts.len() {
        Some(ts[i].kind)
    } else {
        None
    }
}

pub open spec fn is_kind(ts: Seq<Tok>, i: int, k: TokenType) -> bool {
    kind_at(ts, i) == Some(k)
}

pub open spec fn text(ts: Seq<Tok>, s: Seq<char>, i: int) -> Seq<char> {
    s.subrange(ts[i].start as int, ts[i].end as int)
}

/// The error for the token at `i`, or for the end of input.
pub open spec fn fail(ts: Seq<Tok>, i: int) -> ParseError {
    if 0 <= i < ts.len() {
        ParseError::UnrecognizedToken { start: ts[i].bstart, token: ts[i].kind, end: ts[i].bend }
    } else {
        ParseError::UnrecognizedEof { location: if ts.len() > 0 { ts.last().bend } else { 0 } }
    }
}

pub open spec fn digit_value(c: char) -> int {
    if '0' <= c <= '9' {
        (c as u32 - '0' as u32) as int
    } else {
        0
    }
}

/// The value of a run of decimal digits.
pub open spec fn digits_value(t: Seq<char>) -> int
    decreases t.len(),
{
    if t.len() == 0 {
        0
    } else {
        digits_value(t.drop_last()) * 10 + digit_value(t.last())
    }
}

/// Tokens whose spans lie within the text.
pub open spec fn toks_wf(ts: Seq<Tok>, s: Seq<char>) -> bool {
    forall|k: int| 0 <= k < ts.len() ==> #[trigger] ts[k].start <= ts[k].end <= s.len()
}

/// `Atom`: a name, a literal, or an expression in parentheses.
pub open spec fn p_primary(ts: Seq<Tok>, s: Seq<char>, i: int) -> PR<SSimple>
    decreases ts.len() - i, 1nat,
{
    if !(0 <= i < ts.len()) {
        Err(fail(ts, i))
    } else {
        let t = ts[i];
        let w = text(ts, s, i);
        match t.kind {
            TokenType::Ident => Ok((SSimple::Ident(w), i + 1)),
            TokenType::NumberLit => if digits_value(w) <= i32::MAX {
                Ok((SSimple::Int(digits_value(w) as i32), i + 1))
            } else {
                Err(ParseError::IntegerOverflow { start: t.bstart, end: t.bend })
            },
            TokenType::StringLit(esc) => Ok(
                (
                    SSimple::Str(
                        w,
                        if esc {
                            None
                        } else {
                            Some(w)
                        },
                    ),
                    i + 1,
                ),
            ),
            TokenType::CharLit(esc) => Ok(
                (
                    SSimple::Char(
                        w,
                        if esc || w.len() < 2 {
                            None
                        } else {
                            Some(w[1])
                        },
                    ),
                    i + 1,
                ),
            ),
            TokenType::True => Ok((SSimple::Bool(true), i + 1)),
            TokenType::False => Ok((SSimple::Bool(false), i + 1)),
            TokenType::LeftParen => match p_expr(ts, s, i + 1) {
                Ok((e, j)) => if is_kind(ts, j, TokenType::RightParen) {
                    Ok((SSimple::Paren(Box::new(e)), j + 1))
                } else {
                    Err(fail(ts, j))
                },
                Err(er) => Err(er),
            },
            _ => Err(fail(ts, i)),
        }
    }
}

/// `Postfix`: an atom followed by fields and calls.
pub open spec fn p_postfix(ts: Seq<Tok>, s: Seq<char>, i: int) -> PR<SSimple>
    decreases ts.len() - i, 2nat,
{
    match p_primary(ts, s, i) {
        Ok((e, j)) => if i < j <= ts.len() {
            postfix_tail(ts, s, j, e)
        } else {
            Err(fail(ts, j))
        },
        Err(er) => Err(er),
    }
}

pub open spec fn postfix_tail(ts: Seq<Tok>, s: Seq<char>, j: int, acc: SSimple) -> PR<SSimple>
    decreases ts.len() - j, 0nat,
{
    if is_kind(ts, j, TokenType::Dot) {
        if is_kind(ts, j + 1, TokenType::Ident) {
            postfix_tail(ts, s, j + 2, SSimple::Field(Box::new(acc), text(ts, s, j + 1)))
        } else {
            Err(fail(ts, j + 1))
        }
    } else if is_kind(ts, j, TokenType::LeftParen) {
        match call_args(ts, s, j + 1) {
            Ok((args, k)) => if j < k <= ts.len() {
                postfix_tail(ts, s, k, SSimple::Call(Box::new(acc), args))
            } else {
                Err(fail(ts, k))
            },
            Err(er) => Err(er),
        }
    } else {
        Ok((acc, j))
    }
}

/// The arguments after `(`, up to and with the closing `)`.
pub open spec fn call_args(ts: Seq<Tok>, s: Seq<char>, i: int) -> PR<Seq<SArg>>
    decreases ts.len() - i, 10nat,
{
    if is_kind(ts, i, TokenType::RightParen) {
        Ok((Seq::empty(), i + 1))
    } else {
        args_from(ts, s, i, Seq::empty(), false)
    }
}

/// Arguments from `i`; after a named argument every one must be named.
pub open spec fn args_from(ts: Seq<Tok>, s: Seq<char>, i: int, acc: Seq<SArg>, named_seen: bool) -> PR<
    Seq<SArg>,
>
    decreases ts.len() - i, 9nat,
{
    let named = is_kind(ts, i, TokenType::Ident) && is_kind(ts, i + 1, TokenType::Assign);
    if named_seen && !named {
        Err(fail(ts, i))
    } else {
        match p_simple(
            ts,
            s,
            if named {
                i + 2
            } else {
                i
            },
        ) {
            Ok((e, j)) => {
                let arg = SArg {
                    name: if named {
                        Some(text(ts, s, i))
                    } else {
                        None
                    },
                    expr: e,
                };
                if is_kind(ts, j, TokenType::Comma) {
                    if i <= j {
                        args_from(ts, s, j + 1, acc.push(arg), named)
                    } else {
                        Err(fail(ts, j))
                    }
                } else if is_kind(ts, j, TokenType::RightParen) {
                    Ok((acc.push(arg), j + 1))
                } else {
                    Err(fail(ts, j))
                }
            },
            Err(er) => Err(er),
        }
    }
}

/// `not` binds tighter than `and`.
pub open spec fn p_not(ts: Seq<Tok>, s: Seq<char>, i: int) -> PR<SSimple>
    decreases ts.len() - i, 3nat,
{
    if is_kind(ts, i, TokenType::Not) {
        match p_not(ts, s, i + 1) {
            Ok((e, j)) => Ok((SSimple::Not(Box::new(e)), j)),
            Err(er) => Err(er),
        }
    } else {
        p_postfix(ts, s, i)
    }
}

/// Left-associative `and` chains.
pub open spec fn p_and(ts: Seq<Tok>, s: Seq<char>, i: int) -> PR<SSimple>
    decreases ts.len() - i, 4nat,
{
    match p_not(ts, s, i) {
        Ok((e, j)) => if i < j <= ts.len() {
            and_tail(ts, s, j, e)
        } else {
            Err(fail(ts, j))
        },
        Err(er) => Err(er),
    }
}

pub open spec fn and_tail(ts: Seq<Tok>, s: Seq<char>, j: int, acc: SSimple) -> PR<SSimple>
    decreases ts.len() - j, 0nat,
{
    if is_kind(ts, j, TokenType::And) {
        match p_not(ts, s, j + 1) {
            Ok((r, k)) => if j < k <= ts.len() {
                and_tail(ts, s, k, SSimple::And(Box::new(acc), Box::new(r)))
            } else {
                Err(fail(ts, k))
            },
            Err(er) => Err(er),
        }
    } else {
        Ok((acc, j))
    }
}

/// Left-associative `or` chains, the loosest binding operator.
pub open spec fn p_or(ts: Seq<Tok>, s: Seq<char>, i: int) -> PR<SSimple>
    decreases ts.len() - i, 5nat,
{
    match p_and(ts, s, i) {
        Ok((e, j)) => if i < j <= ts.len() {
            or_tail(ts, s, j, e)
        } else {
            Err(fail(ts, j))
        },
        Err(er) => Err(er),
    }
}

pub open spec fn or_tail(ts: Seq<Tok>, s: Seq<char>, j: int, acc: SSimple) -> PR<SSimple>
    decreases ts.len() - j, 0nat,
{
    if is_kind(ts, j, TokenType::Or) {
        match p_and(ts, s, j + 1) {
            Ok((r, k)) => if j < k <= ts.len() {
                or_tail(ts, s, k, SSimple::Or(Box::new(acc), Box::new(r)))
            } else {
                Err(fail(ts, k))
            },
            Err(er) => Err(er),
        }
    } else {
        Ok((acc, j))
    }
}

/// `if COND then`: the condition admits no bare `if`.
pub open spec fn if_head(ts: Seq<Tok>, s: Seq<char>, i: int) -> PR<SSimple>
    decreases ts.len() - i, 6nat,
{
    if !is_kind(ts, i, TokenType::If) {
        Err(fail(ts, i))
    } else {
        match p_or(ts, s, i + 1) {
            Ok((c, j)) => if is_kind(ts, j, TokenType::Then) {
                Ok((c, j + 1))
            } else {
                Err(fail(ts, j))
            },
            Err(er) => Err(er),
        }
    }
}

/// The branches of the value form after `then`: `SIMPLE else SIMPLE`.
pub open spec fn ite_rest(ts: Seq<Tok>, s: Seq<char>, cond: SSimple, j: int) -> PR<SSimple>
    decreases ts.len() - j, 9nat,
{
    match p_simple(ts, s, j) {
        Ok((t, k)) => if is_kind(ts, k, TokenType::Else) && j <= k {
            match p_simple(ts, s, k + 1) {
                Ok((e, m)) => Ok((SSimple::IfThenElse(Box::new(cond), Box::new(t), Box::new(e)), m)),
                Err(er) => Err(er),
            }
        } else {
            Err(fail(ts, k))
        },
        Err(er) => Err(er),
    }
}

/// The value form of `if`.
pub open spec fn p_ite(ts: Seq<Tok>, s: Seq<char>, i: int) -> PR<SSimple>
    decreases ts.len() - i, 7nat,
{
    match if_head(ts, s, i) {
        Ok((c, j)) => if i < j <= ts.len() {
            ite_rest(ts, s, c, j)
        } else {
            Err(fail(ts, j))
        },
        Err(er) => Err(er),
    }
}

/// `SimpleExpr`: the value form of `if`, or an `or` chain.
pub open spec fn p_simple(ts: Seq<Tok>, s: Seq<char>, i: int) -> PR<SSimple>
    decreases ts.len() - i, 8nat,
{
    if is_kind(ts, i, TokenType::If) {
        p_ite(ts, s, i)
    } else {
        p_or(ts, s, i)
    }
}

/// The statement form from the `:` after `then`, up to its `end`: the
/// then-block and an optional `else if` chain or `else:` block.
pub open spec fn if_stmt_from(ts: Seq<Tok>, s: Seq<char>, cond: SSimple, j: int) -> PR<SIf>
    decreases ts.len() - j, 0nat,
{
    if !is_kind(ts, j, TokenType::Colon) {
        Err(fail(ts, j))
    } else {
        match p_block(ts, s, j + 1) {
            Ok((b, k)) => if !(j < k <= ts.len()) {
                Err(fail(ts, k))
            } else if is_kind(ts, k, TokenType::Else) {
                if is_kind(ts, k + 1, TokenType::If) {
                    match if_head(ts, s, k + 1) {
                        Ok((c2, j2)) => if !(k + 1 < j2 <= ts.len()) {
                            Err(fail(ts, j2))
                        } else {
                            match if_stmt_from(ts, s, c2, j2) {
                                Ok((x, m)) => Ok(
                                    (
                                        SIf {
                                            cond,
                                            then_body: b,
                                            else_body: Some(SElse::If(Box::new(x))),
                                        },
                                        m,
                                    ),
                                ),
                                Err(er) => Err(er),
                            }
                        },
                        Err(er) => Err(er),
                    }
                } else if is_kind(ts, k + 1, TokenType::Colon) {
                    match p_block(ts, s, k + 2) {
                        Ok((b2, m)) => Ok(
                            (SIf { cond, then_body: b, else_body: Some(SElse::Block(b2)) }, m),
                        ),
                        Err(er) => Err(er),
                    }
                } else {
                    Err(fail(ts, k + 1))
                }
            } else {
                Ok((SIf { cond, then_body: b, else_body: None }, k))
            },
            Err(er) => Err(er),
        }
    }
}

/// An `if` where an `Expr` may stand: the statement form when `then` is
/// followed by `:`, else the value form.
pub open spec fn p_if_any(ts: Seq<Tok>, s: Seq<char>, i: int) -> PR<SExpr>
    decreases ts.len() - i, 7nat,
{
    match if_head(ts, s, i) {
        Ok((c, j)) => if !(i < j <= ts.len()) {
            Err(fail(ts, j))
        } else if is_kind(ts, j, TokenType::Colon) {
            match if_stmt_from(ts, s, c, j) {
                Ok((x, k)) => if is_kind(ts, k, TokenType::End) {
                    Ok((SExpr::If(x), k + 1))
                } else {
                    Err(fail(ts, k))
                },
                Err(er) => Err(er),
            }
        } else {
            match ite_rest(ts, s, c, j) {
                Ok((v, k)) => Ok((SExpr::Simple(v), k)),
                Err(er) => Err(er),
            }
        },
        Err(er) => Err(er),
    }
}

/// `Expr`: the statement form of `if`, or a simple expression.
pub open spec fn p_expr(ts: Seq<Tok>, s: Seq<char>, i: int) -> PR<SExpr>
    decreases ts.len() - i, 9nat,
{
    if is_kind(ts, i, TokenType::If) {
        p_if_any(ts, s, i)
    } else {
        match p_simple(ts, s, i) {
            Ok((v, j)) => Ok((SExpr::Simple(v), j)),
            Err(er) => Err(er),
        }
    }
}

/// `Block`: items separated by `;`, ended (not consumed) by `end` or `else`.
pub open spec fn p_block(ts: Seq<Tok>, s: Seq<char>, i: int) -> PR<Seq<SItem>>
    decreases ts.len() - i, 12nat,
{
    items_from(ts, s, i, Seq::empty())
}

pub open spec fn ends_block(ts: Seq<Tok>, i: int) -> bool {
    is_kind(ts, i, TokenType::End) || is_kind(ts, i, TokenType::Else)
}

pub open spec fn items_from(ts: Seq<Tok>, s: Seq<char>, i: int, acc: Seq<SItem>) -> PR<Seq<SItem>>
    decreases ts.len() - i, 11nat,
{
    if ends_block(ts, i) {
        Ok((acc, i))
    } else {
        match p_item(ts, s, i) {
            Ok((x, j)) => if !(i < j <= ts.len()) {
                Err(fail(ts, j))
            } else if is_kind(ts, j, TokenType::Semi) {
                items_from(ts, s, j + 1, acc.push(x))
            } else if ends_block(ts, j) {
                Ok((acc.push(x), j))
            } else {
                Err(fail(ts, j))
            },
            Err(er) => Err(er),
        }
    }
}

/// `StmtOrExpr`: a nested function or an expression.
pub open spec fn p_item(ts: Seq<Tok>, s: Seq<char>, i: int) -> PR<SItem>
    decreases ts.len() - i, 10nat,
{
    if is_kind(ts, i, TokenType::Func) {
        match p_func(ts, s, i) {
            Ok((f, j)) => Ok((SItem::Func(f), j)),
            Err(er) => Err(er),
        }
    } else {
        match p_expr(ts, s, i) {
            Ok((e, j)) => Ok((SItem::Expr(e), j)),
            Err(er) => Err(er),
        }
    }
}

/// `Func := func NAME ( ARGS? ) BODY`.
pub open spec fn p_func(ts: Seq<Tok>, s: Seq<char>, i: int) -> PR<SFunc>
    decreases ts.len() - i, 0nat,
{
    if !is_kind(ts, i, TokenType::Func) {
        Err(fail(ts, i))
    } else if !is_kind(ts, i + 1, TokenType::Ident) {
        Err(fail(ts, i + 1))
    } else if !is_kind(ts, i + 2, TokenType::LeftParen) {
        Err(fail(ts, i + 2))
    } else {
        let params: PR<Seq<SParam>> = if is_kind(ts, i + 3, TokenType::RightParen) {
            Ok((Seq::empty(), i + 4))
        } else {
            match p_params(ts, s, i + 3) {
                Ok((ps, k)) => if is_kind(ts, k, TokenType::RightParen) {
                    Ok((ps, k + 1))
                } else {
                    Err(fail(ts, k))
                },
                Err(er) => Err(er),
            }
        };
        match params {
            Ok((ps, j)) => if !(i < j <= ts.len()) {
                Err(fail(ts, j))
            } else {
                match p_body(ts, s, j) {
                    Ok((b, k)) => Ok((SFunc { name: text(ts, s, i + 1), args: ps, body: b }, k)),
                    Err(er) => Err(er),
                }
            },
            Err(er) => Err(er),
        }
    }
}

/// `FuncArgs`: one or more, separated by `,`; defaults come last.
pub open spec fn p_params(ts: Seq<Tok>, s: Seq<char>, i: int) -> PR<Seq<SParam>>
    decreases ts.len() - i, 2nat,
{
    params_from(ts, s, i, Seq::empty(), false)
}

pub open spec fn params_from(
    ts: Seq<Tok>,
    s: Seq<char>,
    i: int,
    acc: Seq<SParam>,
    default_seen: bool,
) -> PR<Seq<SParam>>
    decreases ts.len() - i, 1nat,
{
    match p_param(ts, s, i) {
        Ok((p, j)) => if default_seen && p.default is None {
            Err(fail(ts, i))
        } else if !(i < j <= ts.len()) {
            Err(fail(ts, j))
        } else if is_kind(ts, j, TokenType::Comma) {
            params_from(ts, s, j + 1, acc.push(p), default_seen || p.default is Some)
        } else {
            Ok((acc.push(p), j))
        },
        Err(er) => Err(er),
    }
}

/// `FuncArg := NAME : TYPE (= SIMPLE)?`.
pub open spec fn p_param(ts: Seq<Tok>, s: Seq<char>, i: int) -> PR<SParam>
    decreases ts.len() - i, 0nat,
{
    if !is_kind(ts, i, TokenType::Ident) {
        Err(fail(ts, i))
    } else if !is_kind(ts, i + 1, TokenType::Colon) {
        Err(fail(ts, i + 1))
    } else if !is_kind(ts, i + 2, TokenType::Ident) {
        Err(fail(ts, i + 2))
    } else if is_kind(ts, i + 3, TokenType::Assign) {
        match p_simple(ts, s, i + 4) {
            Ok((d, j)) => Ok(
                (SParam { name: text(ts, s, i), ty: text(ts, s, i + 2), default: Some(d) }, j),
            ),
            Err(er) => Err(er),
        }
    } else {
        Ok((SParam { name: text(ts, s, i), ty: text(ts, s, i + 2), default: None }, i + 3))
    }
}

/// `FuncBody`: `: BLOCK end`, `-> TYPE : BLOCK end`, or `-> SIMPLE`; the
/// arrow of the expression form may be left out.
pub open spec fn p_body(ts: Seq<Tok>, s: Seq<char>, j: int) -> PR<SBody>
    decreases ts.len() - j, 9nat,
{
    if is_kind(ts, j, TokenType::Colon) {
        match p_block(ts, s, j + 1) {
            Ok((b, k)) => if is_kind(ts, k, TokenType::End) {
                Ok((SBody::Block(None, b), k + 1))
            } else {
                Err(fail(ts, k))
            },
            Err(er) => Err(er),
        }
    } else if is_kind(ts, j, TokenType::RArrow) {
        if is_kind(ts, j + 1, TokenType::Ident) && is_kind(ts, j + 2, TokenType::Colon) {
            match p_block(ts, s, j + 3) {
                Ok((b, k)) => if is_kind(ts, k, TokenType::End) {
                    Ok((SBody::Block(Some(text(ts, s, j + 1)), b), k + 1))
                } else {
                    Err(fail(ts, k))
                },
                Err(er) => Err(er),
            }
        } else {
            match p_simple(ts, s, j + 1) {
                Ok((e, k)) => Ok((SBody::Expr(e), k)),
                Err(er) => Err(er),
            }
        }
    } else {
        match p_simple(ts, s, j) {
            Ok((e, k)) => Ok((SBody::Expr(e), k)),
            Err(er) => Err(er),
        }
    }
}

/// Declarations from `i` up to the end marker; the last one needs no `;`.
pub open spec fn decls_from(ts: Seq<Tok>, s: Seq<char>, i: int, acc: Seq<SFunc>) -> Result<
    Seq<SFunc>,
    ParseError,
>
    decreases ts.len() - i, 1nat,
{
    if is_kind(ts, i, TokenType::EndOfInput) {
        if i + 1 == ts.len() {
            Ok(acc)
        } else {
            Err(fail(ts, i + 1))
        }
    } else {
        match p_func(ts, s, i) {
            Ok((f, j)) => if !(i < j <= ts.len()) {
                Err(fail(ts, j))
            } else if is_kind(ts, j, TokenType::Semi) {
                decls_from(ts, s, j + 1, acc.push(f))
            } else if is_kind(ts, j, TokenType::EndOfInput) {
                decls_from(ts, s, j, acc.push(f))
            } else {
                Err(fail(ts, j))
            },
            Err(er) => Err(er),
        }
    }
}

/// `File := StartOfInput (Decl ;)* EndOfInput`.
pub open spec fn p_file(ts: Seq<Tok>, s: Seq<char>) -> Result<Seq<SFunc>, ParseError> {
    if !is_kind(ts, 0, TokenType::StartOfInput) {
        Err(fail(ts, 0))
    } else {
        decls_from(ts, s, 1, Seq::empty())
    }
}

/// A whole token sequence as one item of the grammar: what `p` gives, when
/// it stops at the end.
pub open spec fn whole<T>(ts: Seq<Tok>, r: PR<T>) -> Result<T, ParseError> {
    match r {
        Ok((v, j)) => if j == ts.len() {
            Ok(v)
        } else {
            Err(fail(ts, j))
        },
        Err(er) => Err(er),
    }
}

// ---------------------------------------------------------------------
// The parser
// ---------------------------------------------------------------------

/// An executable result against a spec result: the same error, or a value
/// whose view is the spec's value, with the same next index.
pub open spec fn agrees<T, V>(r: Result<(T, usize), ParseError>, p: PR<V>, view: spec_fn(T) -> V) -> bool {
    match p {
        Ok((v, j)) => match r {
            Ok((x, k)) => view(x) == v && k as int == j,
            Err(_) => false,
        },
        Err(e) => r == Err::<(T, usize), ParseError>(e),
    }
}

/// The tokens of one text, with the text for identifier and literal spans.
struct Parser<'a> {
    input: &'a str,
    chars: Vec<char>,
    toks: Vec<Tok>,
}

impl<'a> Parser<'a> {
    spec fn wf(&self) -> bool {
        &&& self.input@ == self.chars@
        &&& toks_wf(self.toks@, self.chars@)
        &&& self.toks@.len() <= usize::MAX
    }

    fn is_kind(&self, i: usize, k: TokenType) -> (r: bool)
        ensures
            r == is_kind(self.toks@, i as int, k),
    {
        i < self.toks.len() && self.toks[i].kind == k
    }

    fn ends_block(&self, i: usize) -> (r: bool)
        ensures
            r == ends_block(self.toks@, i as int),
    {
        self.is_kind(i, TokenType::End) || self.is_kind(i, TokenType::Else)
    }

    fn fail(&self, i: usize) -> (r: ParseError)
        ensures
            r == fail(self.toks@, i as int),
    {
        if i < self.toks.len() {
            let t = self.toks[i];
            ParseError::UnrecognizedToken { start: t.bstart, token: t.kind, end: t.bend }
        } else if self.toks.len() > 0 {
            ParseError::UnrecognizedEof { location: self.toks[self.toks.len() - 1].bend }
        } else {
            ParseError::UnrecognizedEof { location: 0 }
        }
    }

    fn text(&self, i: usize) -> (r: &'a str)
        requires
            self.wf(),
            i < self.toks@.len(),
        ensures
            r@ == text(self.toks@, self.chars@, i as int),
    {
        let t = self.toks[i];
        self.input.substring_char(t.start, t.end)
    }

    fn ident(&self, i: usize) -> (r: Ident)
        requires
            self.wf(),
            i < self.toks@.len(),
        ensures
            r.name@ == text(self.toks@, self.chars@, i as int),
    {
        Ident::from_str(self.text(i))
    }

    /// The value of the number literal at `i`, if it fits an `i32`.
    fn number(&self, i: usize) -> (r: Result<i32, ParseError>)
        requires
            self.wf(),
            i < self.toks@.len(),
        ensures
            ({
                let w = text(self.toks@, self.chars@, i as int);
                if digits_value(w) <= i32::MAX {
                    r == Ok::<i32, ParseError>(digits_value(w) as i32)
                } else {
                    r == Err::<i32, ParseError>(
                        ParseError::IntegerOverflow { start: self.toks@[i as int].bstart, end: self.toks@[i as int].bend },
                    )
                }
            }),
    {
        let t = self.toks[i];
        let ghost w = text(self.toks@, self.chars@, i as int);
        let mut k = t.start;
        let mut acc: u64 = 0;
        while k < t.end
            invariant
                self.wf(),
                t == self.toks@[i as int],
                w == self.chars@.subrange(t.start as int, t.end as int),
                t.start <= k <= t.end <= self.chars@.len(),
                acc == digits_value(w.take(k - t.start)),
                acc <= i32::MAX,
            decreases t.end - k,
        {
            let c = self.chars[k];
            let d: u64 = if '0' <= c && c <= '9' {
                (c as u32 - '0' as u32) as u64
            } else {
                0
            };
            proof {
                assert(w.take(k + 1 - t.start).drop_last() =~= w.take(k - t.start));
            }
            acc = acc * 10 + d;
            k = k + 1;
            if acc > i32::MAX as u64 {
                proof {
                    lemma_digits_value_grows(w, k - t.start);
                }
                return Err(ParseError::IntegerOverflow { start: t.bstart, end: t.bend });
            }
        }
        proof {
            assert(w.take(k - t.start) =~= w);
        }
        Ok(acc as i32)
    }

    fn primary(&self, i: usize) -> (r: Result<(SimpleExpr, usize), ParseError>)
        requires
            self.wf(),
        ensures
            agrees(r, p_primary(self.toks@, self.chars@, i as int), |x: SimpleExpr| view_simple(x)),
        decreases self.toks@.len() - i, 1nat,
    {
        if i >= self.toks.len() {
            return Err(self.fail(i));
        }
        let t = self.toks[i];
        match t.kind {
            TokenType::Ident => Ok((SimpleExpr::Ident(self.ident(i)), i + 1)),
            TokenType::NumberLit => match self.number(i) {
                Ok(v) => Ok((SimpleExpr::IntLit(IntLit { value: v }), i + 1)),
                Err(e) => Err(e),
            },
            TokenType::StringLit(esc) => Ok(
                (SimpleExpr::StringLit(StringLit::from_str(self.text(i), esc)), i + 1),
            ),
            TokenType::CharLit(esc) => {
                let w = self.text(i);
                let short = t.end - t.start < 2;
                Ok((SimpleExpr::CharLit(CharLit::from_str(w, esc || short)), i + 1))
            },
            TokenType::True => Ok((SimpleExpr::BoolLit(BoolLit(true)), i + 1)),
            TokenType::False => Ok((SimpleExpr::BoolLit(BoolLit(false)), i + 1)),
            TokenType::LeftParen => match self.expr(i + 1) {
                Ok((e, j)) => if self.is_kind(j, TokenType::RightParen) {
                    Ok((SimpleExpr::Expr(Box::new(e)), j + 1))
                } else {
                    Err(self.fail(j))
                },
                Err(er) => Err(er),
            },
            _ => Err(self.fail(i)),
        }
    }

    fn postfix(&self, i: usize) -> (r: Result<(SimpleExpr, usize), ParseError>)
        requires
            self.wf(),
        ensures
            agrees(r, p_postfix(self.toks@, self.chars@, i as int), |x: SimpleExpr| view_simple(x)),
        decreases self.toks@.len() - i, 2nat,
    {
        match self.primary(i) {
            Ok((e, j)) => if i < j && j <= self.toks.len() {
                self.postfix_tail(j, e)
            } else {
                Err(self.fail(j))
            },
            Err(er) => Err(er),
        }
    }

    fn postfix_tail(&self, j0: usize, acc0: SimpleExpr) -> (r: Result<(SimpleExpr, usize), ParseError>)
        requires
            self.wf(),
            j0 <= self.toks@.len(),
        ensures
            agrees(
                r,
                postfix_tail(self.toks@, self.chars@, j0 as int, view_simple(acc0)),
                |x: SimpleExpr| view_simple(x),
            ),
        decreases self.toks@.len() - j0, 0nat,
    {
        let ghost goal = postfix_tail(self.toks@, self.chars@, j0 as int, view_simple(acc0));
        let mut j = j0;
        let mut acc = acc0;
        loop
            invariant
                self.wf(),
                goal == postfix_tail(self.toks@, self.chars@, j0 as int, view_simple(acc0)),
                j0 <= j <= self.toks@.len(),
                goal == postfix_tail(self.toks@, self.chars@, j as int, view_simple(acc)),
            decreases self.toks@.len() - j,
        {
            if self.is_kind(j, TokenType::Dot) {
                if self.is_kind(j + 1, TokenType::Ident) {
                    let field = self.ident(j + 1);
                    acc = SimpleExpr::Field(Box::new(Field { target: acc, field }));
                    j = j + 2;
                } else {
                    return Err(self.fail(j + 1));
                }
            } else if self.is_kind(j, TokenType::LeftParen) {
                match self.call_args(j + 1) {
                    Ok((args, k)) => if j < k && k <= self.toks.len() {
                        acc = SimpleExpr::Call(Box::new(Call { target: acc, args }));
                        j = k;
                    } else {
                        return Err(self.fail(k));
                    },
                    Err(er) => {
                        return Err(er);
                    },
                }
            } else {
                return Ok((acc, j));
            }
        }
    }

    fn call_args(&self, i: usize) -> (r: Result<(Vec<CallArg>, usize), ParseError>)
        requires
            self.wf(),
            i <= self.toks@.len(),
        ensures
            agrees(r, call_args(self.toks@, self.chars@, i as int), |x: Vec<CallArg>| view_args(x@)),
        decreases self.toks@.len() - i, 10nat,
    {
        if self.is_kind(i, TokenType::RightParen) {
            let none: Vec<CallArg> = Vec::new();
            assert(view_args(none@) =~= Seq::<SArg>::empty());
            return Ok((none, i + 1));
        }
        self.args_from(i)
    }

    fn args_from(&self, i0: usize) -> (r: Result<(Vec<CallArg>, usize), ParseError>)
        requires
            self.wf(),
            i0 <= self.toks@.len(),
        ensures
            agrees(
                r,
                args_from(self.toks@, self.chars@, i0 as int, Seq::empty(), false),
                |x: Vec<CallArg>| view_args(x@),
            ),
        decreases self.toks@.len() - i0, 9nat,
    {
        let ghost goal = args_from(self.toks@, self.chars@, i0 as int, Seq::empty(), false);
        let mut i = i0;
        let mut acc: Vec<CallArg> = Vec::new();
        let mut named_seen = false;
        assert(view_args(acc@) =~= Seq::<SArg>::empty());
        loop
            invariant
                self.wf(),
                goal == args_from(self.toks@, self.chars@, i0 as int, Seq::empty(), false),
                i0 <= i <= self.toks@.len(),
                goal == args_from(self.toks@, self.chars@, i as int, view_args(acc@), named_seen),
            decreases self.toks@.len() - i,
        {
            let named = self.is_kind(i, TokenType::Ident) && self.is_kind(i + 1, TokenType::Assign);
            if named_seen && !named {
                return Err(self.fail(i));
            }
            let start = if named {
                i + 2
            } else {
                i
            };
            match self.simple(start) {
                Ok((e, j)) => {
                    let name = if named {
                        Some(self.ident(i))
                    } else {
                        None
                    };
                    let arg = CallArg { name, expr: e };
                    let ghost before = acc@;
                    if self.is_kind(j, TokenType::Comma) {
                        if i <= j {
                            acc.push(arg);
                            proof {
                                assert(acc@.drop_last() =~= before);
                            }
                            named_seen = named;
                            i = j + 1;
                        } else {
                            return Err(self.fail(j));
                        }
                    } else if self.is_kind(j, TokenType::RightParen) {
                        acc.push(arg);
                        proof {
                            assert(acc@.drop_last() =~= before);
                        }
                        return Ok((acc, j + 1));
                    } else {
                        return Err(self.fail(j));
                    }
                },
                Err(er) => {
                    return Err(er);
                },
            }
        }
    }

    fn not(&self, i: usize) -> (r: Result<(SimpleExpr, usize), ParseError>)
        requires
            self.wf(),
        ensures
            agrees(r, p_not(self.toks@, self.chars@, i as int), |x: SimpleExpr| view_simple(x)),
        decreases self.toks@.len() - i, 3nat,
    {
        if self.is_kind(i, TokenType::Not) {
            match self.not(i + 1) {
                Ok((e, j)) => Ok((SimpleExpr::BoolCond(Box::new(BoolCond::Not(e))), j)),
                Err(er) => Err(er),
            }
        } else {
            self.postfix(i)
        }
    }

    fn and(&self, i: usize) -> (r: Result<(SimpleExpr, usize), ParseError>)
        requires
            self.wf(),
        ensures
            agrees(r, p_and(self.toks@, self.chars@, i as int), |x: SimpleExpr| view_simple(x)),
        decreases self.toks@.len() - i, 4nat,
    {
        match self.not(i) {
            Ok((e, j)) => if i < j && j <= self.toks.len() {
                self.and_tail(j, e)
            } else {
                Err(self.fail(j))
            },
            Err(er) => Err(er),
        }
    }

    fn and_tail(&self, j0: usize, acc0: SimpleExpr) -> (r: Result<(SimpleExpr, usize), ParseError>)
        requires
            self.wf(),
            j0 <= self.toks@.len(),
        ensures
            agrees(
                r,
                and_tail(self.toks@, self.chars@, j0 as int, view_simple(acc0)),
                |x: SimpleExpr| view_simple(x),
            ),
        decreases self.toks@.len() - j0, 0nat,
    {
        let ghost goal = and_tail(self.toks@, self.chars@, j0 as int, view_simple(acc0));
        let mut j = j0;
        let mut acc = acc0;
        loop
            invariant
                self.wf(),
                goal == and_tail(self.toks@, self.chars@, j0 as int, view_simple(acc0)),
                j0 <= j <= self.toks@.len(),
                goal == and_tail(self.toks@, self.chars@, j as int, view_simple(acc)),
            decreases self.toks@.len() - j,
        {
            if !self.is_kind(j, TokenType::And) {
                return Ok((acc, j));
            }
            match self.not(j + 1) {
                Ok((rhs, k)) => if j < k && k <= self.toks.len() {
                    acc = SimpleExpr::BoolCond(Box::new(BoolCond::And(acc, rhs)));
                    j = k;
                } else {
                    return Err(self.fail(k));
                },
                Err(er) => {
                    return Err(er);
                },
            }
        }
    }

    fn or(&self, i: usize) -> (r: Result<(SimpleExpr, usize), ParseError>)
        requires
            self.wf(),
        ensures
            agrees(r, p_or(self.toks@, self.chars@, i as int), |x: SimpleExpr| view_simple(x)),
        decreases self.toks@.len() - i, 5nat,
    {
        match self.and(i) {
            Ok((e, j)) => if i < j && j <= self.toks.len() {
                self.or_tail(j, e)
            } else {
                Err(self.fail(j))
            },
            Err(er) => Err(er),
        }
    }

    fn or_tail(&self, j0: usize, acc0: SimpleExpr) -> (r: Result<(SimpleExpr, usize), ParseError>)
        requires
            self.wf(),
            j0 <= self.toks@.len(),
        ensures
            agrees(
                r,
                or_tail(self.toks@, self.chars@, j0 as int, view_simple(acc0)),
                |x: SimpleExpr| view_simple(x),
            ),
        decreases self.toks@.len() - j0, 0nat,
    {
        let ghost goal = or_tail(self.toks@, self.chars@, j0 as int, view_simple(acc0));
        let mut j = j0;
        let mut acc = acc0;
        loop
            invariant
                self.wf(),
                goal == or_tail(self.toks@, self.chars@, j0 as int, view_simple(acc0)),
                j0 <= j <= self.toks@.len(),
                goal == or_tail(self.toks@, self.chars@, j as int, view_simple(acc)),
            decreases self.toks@.len() - j,
        {
            if !self.is_kind(j, TokenType::Or) {
                return Ok((acc, j));
            }
            match self.and(j + 1) {
                Ok((rhs, k)) => if j < k && k <= self.toks.len() {
                    acc = SimpleExpr::BoolCond(Box::new(BoolCond::Or(acc, rhs)));
                    j = k;
                } else {
                    return Err(self.fail(k));
                },
                Err(er) => {
                    return Err(er);
                },
            }
        }
    }

    fn if_head(&self, i: usize) -> (r: Result<(SimpleExpr, usize), ParseError>)
        requires
            self.wf(),
        ensures
            agrees(r, if_head(self.toks@, self.chars@, i as int), |x: SimpleExpr| view_simple(x)),
        decreases self.toks@.len() - i, 6nat,
    {
        if !self.is_kind(i, TokenType::If) {
            return Err(self.fail(i));
        }
        match self.or(i + 1) {
            Ok((c, j)) => if self.is_kind(j, TokenType::Then) {
                Ok((c, j + 1))
            } else {
                Err(self.fail(j))
            },
            Err(er) => Err(er),
        }
    }

    fn ite_rest(&self, cond: SimpleExpr, j: usize) -> (r: Result<(SimpleExpr, usize), ParseError>)
        requires
            self.wf(),
        ensures
            agrees(
                r,
                ite_rest(self.toks@, self.chars@, view_simple(cond), j as int),
                |x: SimpleExpr| view_simple(x),
            ),
        decreases self.toks@.len() - j, 9nat,
    {
        match self.simple(j) {
            Ok((t, k)) => if self.is_kind(k, TokenType::Else) && j <= k {
                match self.simple(k + 1) {
                    Ok((e, m)) => Ok(
                        (
                            SimpleExpr::IfThenElse(
                                Box::new(IfThenElse { cond, then_: t, else_: e }),
                            ),
                            m,
                        ),
                    ),
                    Err(er) => Err(er),
                }
            } else {
                Err(self.fail(k))
            },
            Err(er) => Err(er),
        }
    }

    fn ite(&self, i: usize) -> (r: Result<(SimpleExpr, usize), ParseError>)
        requires
            self.wf(),
        ensures
            agrees(r, p_ite(self.toks@, self.chars@, i as int), |x: SimpleExpr| view_simple(x)),
        decreases self.toks@.len() - i, 7nat,
    {
        match self.if_head(i) {
            Ok((c, j)) => if i < j && j <= self.toks.len() {
                self.ite_rest(c, j)
            } else {
                Err(self.fail(j))
            },
            Err(er) => Err(er),
        }
    }

    fn simple(&self, i: usize) -> (r: Result<(SimpleExpr, usize), ParseError>)
        requires
            self.wf(),
        ensures
            agrees(r, p_simple(self.toks@, self.chars@, i as int), |x: SimpleExpr| view_simple(x)),
        decreases self.toks@.len() - i, 8nat,
    {
        if self.is_kind(i, TokenType::If) {
            self.ite(i)
        } else {
            self.or(i)
        }
    }

    fn if_stmt_from(&self, cond: SimpleExpr, j: usize) -> (r: Result<(If, usize), ParseError>)
        requires
            self.wf(),
        ensures
            agrees(
                r,
                if_stmt_from(self.toks@, self.chars@, view_simple(cond), j as int),
                |x: If| view_if(x),
            ),
        decreases self.toks@.len() - j, 0nat,
    {
        if !self.is_kind(j, TokenType::Colon) {
            return Err(self.fail(j));
        }
        match self.block(j + 1) {
            Ok((b, k)) => if !(j < k && k <= self.toks.len()) {
                Err(self.fail(k))
            } else if self.is_kind(k, TokenType::Else) {
                if self.is_kind(k + 1, TokenType::If) {
                    match self.if_head(k + 1) {
                        Ok((c2, j2)) => if !(k + 1 < j2 && j2 <= self.toks.len()) {
                            Err(self.fail(j2))
                        } else {
                            match self.if_stmt_from(c2, j2) {
                                Ok((x, m)) => Ok(
                                    (
                                        If {
                                            cond,
                                            then_body: b,
                                            else_body: Some(ElseBody::If(Box::new(x))),
                                        },
                                        m,
                                    ),
                                ),
                                Err(er) => Err(er),
                            }
                        },
                        Err(er) => Err(er),
                    }
                } else if self.is_kind(k + 1, TokenType::Colon) {
                    match self.block(k + 2) {
                        Ok((b2, m)) => Ok(
                            (If { cond, then_body: b, else_body: Some(ElseBody::Block(b2)) }, m),
                        ),
                        Err(er) => Err(er),
                    }
                } else {
                    Err(self.fail(k + 1))
                }
            } else {
                Ok((If { cond, then_body: b, else_body: None }, k))
            },
            Err(er) => Err(er),
        }
    }

    fn if_any(&self, i: usize) -> (r: Result<(Expr, usize), ParseError>)
        requires
            self.wf(),
        ensures
            agrees(r, p_if_any(self.toks@, self.chars@, i as int), |x: Expr| view_expr(x)),
        decreases self.toks@.len() - i, 7nat,
    {
        match self.if_head(i) {
            Ok((c, j)) => if !(i < j && j <= self.toks.len()) {
                Err(self.fail(j))
            } else if self.is_kind(j, TokenType::Colon) {
                match self.if_stmt_from(c, j) {
                    Ok((x, k)) => if self.is_kind(k, TokenType::End) {
                        Ok((Expr::If(x), k + 1))
                    } else {
                        Err(self.fail(k))
                    },
                    Err(er) => Err(er),
                }
            } else {
                match self.ite_rest(c, j) {
                    Ok((v, k)) => Ok((Expr::Simple(v), k)),
                    Err(er) => Err(er),
                }
            },
            Err(er) => Err(er),
        }
    }

    fn expr(&self, i: usize) -> (r: Result<(Expr, usize), ParseError>)
        requires
            self.wf(),
        ensures
            agrees(r, p_expr(self.toks@, self.chars@, i as int), |x: Expr| view_expr(x)),
        decreases self.toks@.len() - i, 9nat,
    {
        if self.is_kind(i, TokenType::If) {
            self.if_any(i)
        } else {
            match self.simple(i) {
                Ok((v, j)) => Ok((Expr::Simple(v), j)),
                Err(er) => Err(er),
            }
        }
    }

    fn block(&self, i0: usize) -> (r: Result<(Block, usize), ParseError>)
        requires
            self.wf(),
            i0 <= self.toks@.len(),
        ensures
            agrees(r, p_block(self.toks@, self.chars@, i0 as int), |x: Block| view_block(x)),
        decreases self.toks@.len() - i0, 12nat,
    {
        let ghost goal = p_block(self.toks@, self.chars@, i0 as int);
        let mut i = i0;
        let mut acc: Vec<StmtOrExpr> = Vec::new();
        assert(view_items(acc@) =~= Seq::<SItem>::empty());
        loop
            invariant
                self.wf(),
                goal == p_block(self.toks@, self.chars@, i0 as int),
                i0 <= i <= self.toks@.len(),
                goal == items_from(self.toks@, self.chars@, i as int, view_items(acc@)),
            decreases self.toks@.len() - i,
        {
            if self.ends_block(i) {
                return Ok((Block { stmt_or_exprs: acc }, i));
            }
            match self.item(i) {
                Ok((x, j)) => {
                    if !(i < j && j <= self.toks.len()) {
                        return Err(self.fail(j));
                    }
                    let ghost before = acc@;
                    if self.is_kind(j, TokenType::Semi) {
                        acc.push(x);
                        proof {
                            assert(acc@.drop_last() =~= before);
                        }
                        i = j + 1;
                    } else if self.ends_block(j) {
                        acc.push(x);
                        proof {
                            assert(acc@.drop_last() =~= before);
                        }
                        return Ok((Block { stmt_or_exprs: acc }, j));
                    } else {
                        return Err(self.fail(j));
                    }
                },
                Err(er) => {
                    return Err(er);
                },
            }
        }
    }

    fn item(&self, i: usize) -> (r: Result<(StmtOrExpr, usize), ParseError>)
        requires
            self.wf(),
        ensures
            agrees(r, p_item(self.toks@, self.chars@, i as int), |x: StmtOrExpr| view_item(x)),
        decreases self.toks@.len() - i, 10nat,
    {
        if self.is_kind(i, TokenType::Func) {
            match self.func(i) {
                Ok((f, j)) => Ok((StmtOrExpr::Func(f), j)),
                Err(er) => Err(er),
            }
        } else {
            match self.expr(i) {
                Ok((e, j)) => Ok((StmtOrExpr::Expr(e), j)),
                Err(er) => Err(er),
            }
        }
    }

    fn func(&self, i: usize) -> (r: Result<(Func, usize), ParseError>)
        requires
            self.wf(),
        ensures
            agrees(r, p_func(self.toks@, self.chars@, i as int), |x: Func| view_func(x)),
        decreases self.toks@.len() - i, 0nat,
    {
        if !self.is_kind(i, TokenType::Func) {
            return Err(self.fail(i));
        }
        if !self.is_kind(i + 1, TokenType::Ident) {
            return Err(self.fail(i + 1));
        }
        if !self.is_kind(i + 2, TokenType::LeftParen) {
            return Err(self.fail(i + 2));
        }
        let name = self.ident(i + 1);
        let (args, j) = if self.is_kind(i + 3, TokenType::RightParen) {
            let none: Vec<FuncArg> = Vec::new();
            assert(view_params(none@) =~= Seq::<SParam>::empty());
            (none, i + 4)
        } else {
            match self.params(i + 3) {
                Ok((ps, k)) => if self.is_kind(k, TokenType::RightParen) {
                    (ps, k + 1)
                } else {
                    return Err(self.fail(k));
                },
                Err(er) => {
                    return Err(er);
                },
            }
        };
        if !(i < j && j <= self.toks.len()) {
            return Err(self.fail(j));
        }
        match self.body(j) {
            Ok((body, k)) => Ok((Func { name, args, body }, k)),
            Err(er) => Err(er),
        }
    }

    fn params(&self, i0: usize) -> (r: Result<(Vec<FuncArg>, usize), ParseError>)
        requires
            self.wf(),
            i0 <= self.toks@.len(),
        ensures
            agrees(r, p_params(self.toks@, self.chars@, i0 as int), |x: Vec<FuncArg>| view_params(x@)),
        decreases self.toks@.len() - i0, 2nat,
    {
        let ghost goal = p_params(self.toks@, self.chars@, i0 as int);
        let mut i = i0;
        let mut acc: Vec<FuncArg> = Vec::new();
        let mut default_seen = false;
        assert(view_params(acc@) =~= Seq::<SParam>::empty());
        loop
            invariant
                self.wf(),
                goal == p_params(self.toks@, self.chars@, i0 as int),
                i0 <= i <= self.toks@.len(),
                goal == params_from(self.toks@, self.chars@, i as int, view_params(acc@), default_seen),
            decreases self.toks@.len() - i,
        {
            match self.param(i) {
                Ok((p, j)) => {
                    let has_default = p.default_val.is_some();
                    if default_seen && !has_default {
                        return Err(self.fail(i));
                    }
                    if !(i < j && j <= self.toks.len()) {
                        return Err(self.fail(j));
                    }
                    let ghost before = acc@;
                    acc.push(p);
                    proof {
                        assert(acc@.drop_last() =~= before);
                    }
                    if self.is_kind(j, TokenType::Comma) {
                        default_seen = default_seen || has_default;
                        i = j + 1;
                    } else {
                        return Ok((acc, j));
                    }
                },
                Err(er) => {
                    return Err(er);
                },
            }
        }
    }

    fn param(&self, i: usize) -> (r: Result<(FuncArg, usize), ParseError>)
        requires
            self.wf(),
        ensures
            agrees(r, p_param(self.toks@, self.chars@, i as int), |x: FuncArg| view_param(x)),
        decreases self.toks@.len() - i, 0nat,
    {
        if !self.is_kind(i, TokenType::Ident) {
            return Err(self.fail(i));
        }
        if !self.is_kind(i + 1, TokenType::Colon) {
            return Err(self.fail(i + 1));
        }
        if !self.is_kind(i + 2, TokenType::Ident) {
            return Err(self.fail(i + 2));
        }
        let name = self.ident(i);
        let arg_type = Type::Simple(self.ident(i + 2));
        if self.is_kind(i + 3, TokenType::Assign) {
            match self.simple(i + 4) {
                Ok((d, j)) => Ok((FuncArg { name, arg_type, default_val: Some(d) }, j)),
                Err(er) => Err(er),
            }
        } else {
            Ok((FuncArg { name, arg_type, default_val: None }, i + 3))
        }
    }

    fn body(&self, j: usize) -> (r: Result<(FuncBody, usize), ParseError>)
        requires
            self.wf(),
        ensures
            agrees(r, p_body(self.toks@, self.chars@, j as int), |x: FuncBody| view_body(x)),
        decreases self.toks@.len() - j, 9nat,
    {
        if self.is_kind(j, TokenType::Colon) {
            match self.block(j + 1) {
                Ok((b, k)) => if self.is_kind(k, TokenType::End) {
                    Ok((FuncBody::Block(None, b), k + 1))
                } else {
                    Err(self.fail(k))
                },
                Err(er) => Err(er),
            }
        } else if self.is_kind(j, TokenType::RArrow) {
            if self.is_kind(j + 1, TokenType::Ident) && self.is_kind(j + 2, TokenType::Colon) {
                let ret = Type::Simple(self.ident(j + 1));
                match self.block(j + 3) {
                    Ok((b, k)) => if self.is_kind(k, TokenType::End) {
                        Ok((FuncBody::Block(Some(ret), b), k + 1))
                    } else {
                        Err(self.fail(k))
                    },
                    Err(er) => Err(er),
                }
            } else {
                match self.simple(j + 1) {
                    Ok((e, k)) => Ok((FuncBody::Expr(e), k)),
                    Err(er) => Err(er),
                }
            }
        } else {
            match self.simple(j) {
                Ok((e, k)) => Ok((FuncBody::Expr(e), k)),
                Err(er) => Err(er),
            }
        }
    }

    fn file(&self) -> (r: Result<Vec<Decl>, ParseError>)
        requires
            self.wf(),
        ensures
            match p_file(self.toks@, self.chars@) {
                Ok(v) => r matches Ok(ds) && view_decls(ds@) == v,
                Err(e) => r == Err::<Vec<Decl>, ParseError>(e),
            },
    {
        if !self.is_kind(0, TokenType::StartOfInput) {
            return Err(self.fail(0));
        }
        let ghost goal = p_file(self.toks@, self.chars@);
        let mut i: usize = 1;
        let mut acc: Vec<Decl> = Vec::new();
        assert(view_decls(acc@) =~= Seq::<SFunc>::empty());
        loop
            invariant
                self.wf(),
                goal == p_file(self.toks@, self.chars@),
                1 <= i <= self.toks@.len(),
                goal == decls_from(self.toks@, self.chars@, i as int, view_decls(acc@)),
            decreases self.toks@.len() - i,
        {
            if self.is_kind(i, TokenType::EndOfInput) {
                if i + 1 == self.toks.len() {
                    return Ok(acc);
                } else {
                    return Err(self.fail(i + 1));
                }
            }
            match self.func(i) {
                Ok((f, j)) => {
                    if !(i < j && j <= self.toks.len()) {
                        return Err(self.fail(j));
                    }
                    let ghost before = acc@;
                    if self.is_kind(j, TokenType::Semi) {
                        acc.push(Decl::Func(f));
                        proof {
                            assert(acc@.drop_last() =~= before);
                        }
                        i = j + 1;
                    } else if self.is_kind(j, TokenType::EndOfInput) {
                        acc.push(Decl::Func(f));
                        proof {
                            assert(acc@.drop_last() =~= before);
                        }
                        i = j;
                    } else {
                        return Err(self.fail(j));
                    }
                },
                Err(er) => {
                    return Err(er);
                },
            }
        }
    }
}

pub proof fn lemma_digits_value_grows(w: Seq<char>, k: int)
    requires
        0 <= k <= w.len(),
    ensures
        digits_value(w.take(k)) <= digits_value(w),
    decreases w.len() - k,
{
    if k < w.len() {
        lemma_digits_value_grows(w, k + 1);
        assert(w.take(k + 1).drop_last() =~= w.take(k));
        assert(digits_value(w.take(k)) >= 0) by {
            lemma_digits_value_nonneg(w.take(k));
        }
    } else {
        assert(w.take(k) =~= w);
    }
}

pub proof fn lemma_digits_value_nonneg(w: Seq<char>)
    ensures
        digits_value(w) >= 0,
    decreases w.len(),
{
    if w.len() > 0 {
        lemma_digits_value_nonneg(w.drop_last());
    }
}

/// The token spans of a lexed text lie within it.
pub proof fn lemma_lex_toks_wf(s: Seq<char>, incl: bool, markers: bool)
    requires
        encode_utf8(s).len() <= u32::MAX,
    ensures
        toks_wf(lex_toks(s, incl, markers), s),
{
    lemma_encode_len_ge(s);
    let last = if markers {
        Some(TokenType::StartOfInput)
    } else {
        None
    };
    let body = lex_from(s, 0, last, incl);
    lemma_lex_from_bounds(s, 0, last, incl);
    let ts = lex_toks(s, incl, markers);
    assert forall|k: int| 0 <= k < ts.len() implies #[trigger] ts[k].start <= ts[k].end <= s.len() by {
        if markers {
            if 1 <= k <= body.len() {
                assert(ts[k] == tok_of(s, body[k - 1]));
            }
        } else {
            assert(ts[k] == tok_of(s, body[k]));
        }
    }
}

pub type ParseResult<T> = Result<T, ParseError>;

/// What `src` gives as one expression.
pub open spec fn expr_of(src: Seq<char>) -> Result<SExpr, ParseError> {
    let ts = lex_toks(src, false, false);
    whole(ts, p_expr(ts, src, 0))
}

/// What `src` gives as one function.
pub open spec fn func_of(src: Seq<char>) -> Result<SFunc, ParseError> {
    let ts = lex_toks(src, false, false);
    whole(ts, p_func(ts, src, 0))
}

/// What `src` gives as a list of function arguments.
pub open spec fn func_args_of(src: Seq<char>) -> Result<Seq<SParam>, ParseError> {
    let ts = lex_toks(src, false, false);
    whole(ts, p_params(ts, src, 0))
}

/// What `src` gives as a whole file of declarations.
pub open spec fn file_of(src: Seq<char>) -> Result<Seq<SFunc>, ParseError> {
    let ts = lex_toks(src, false, true);
    p_file(ts, src)
}

fn parser_for<'a>(src: &'a str, markers: bool) -> (p: Parser<'a>)
    requires
        src.len() <= u32::MAX,
    ensures
        p.wf(),
        p.chars@ == src@,
        p.toks@ == lex_toks(src@, false, markers),
{
    // the byte length fits a usize, so the bound on `src.len()` bounds it exactly
    let _ = byte_len(src);
    let (chars, toks) = tokenize(src, false, markers);
    proof {
        lemma_lex_toks_wf(src@, false, markers);
    }
    // the length of a vector fits its index type
    let count = toks.len();
    assert(count == toks@.len());
    Parser { input: src, chars, toks }
}

/// Parses `src` as one expression, without input markers.
pub fn parse_expr(src: &str) -> (r: ParseResult<Expr>)
    requires
        src.len() <= u32::MAX,
    ensures
        match expr_of(src@) {
            Ok(v) => r matches Ok(e) && view_expr(e) == v,
            Err(er) => r == Err::<Expr, ParseError>(er),
        },
{
    let p = parser_for(src, false);
    match p.expr(0) {
        Ok((e, j)) => if j == p.toks.len() {
            Ok(e)
        } else {
            Err(p.fail(j))
        },
        Err(er) => Err(er),
    }
}

/// Parses `src` as one function declaration, without input markers.
pub fn parse_func(src: &str) -> (r: ParseResult<Func>)
    requires
        src.len() <= u32::MAX,
    ensures
        match func_of(src@) {
            Ok(v) => r matches Ok(f) && view_func(f) == v,
            Err(er) => r == Err::<Func, ParseError>(er),
        },
{
    let p = parser_for(src, false);
    match p.func(0) {
        Ok((f, j)) => if j == p.toks.len() {
            Ok(f)
        } else {
            Err(p.fail(j))
        },
        Err(er) => Err(er),
    }
}

/// Parses `src` as a function's argument list, without input markers.
pub fn parse_func_args(src: &str) -> (r: ParseResult<Vec<FuncArg>>)
    requires
        src.len() <= u32::MAX,
    ensures
        match func_args_of(src@) {
            Ok(v) => r matches Ok(ps) && view_params(ps@) == v,
            Err(er) => r == Err::<Vec<FuncArg>, ParseError>(er),
        },
{
    let p = parser_for(src, false);
    match p.params(0) {
        Ok((ps, j)) => if j == p.toks.len() {
            Ok(ps)
        } else {
            Err(p.fail(j))
        },
        Err(er) => Err(er),
    }
}

/// Lexes `input` with input markers and parses it as a file of
/// declarations.
pub fn compile(input: &str) -> (r: ParseResult<Vec<Decl>>)
    requires
        input.len() <= u32::MAX,
    ensures
        match file_of(input@) {
            Ok(v) => r matches Ok(ds) && view_decls(ds@) == v,
            Err(er) => r == Err::<Vec<Decl>, ParseError>(er),
        },
{
    let p = parser_for(input, true);
    p.file()
}

// ---------------------------------------------------------------------
// Properties of the grammar
// ---------------------------------------------------------------------

/// Every named argument comes after every positional one.
pub open spec fn named_last(args: Seq<SArg>) -> bool {
    forall|a: int, b: int|
        0 <= a < b < args.len() && (#[trigger] args[a]).name is Some ==> (#[trigger] args[b]).name is Some
}

pub proof fn lemma_args_from_named_last(
    ts: Seq<Tok>,
    s: Seq<char>,
    i: int,
    acc: Seq<SArg>,
    named_seen: bool,
)
    requires
        named_last(acc),
        !named_seen ==> forall|a: int| 0 <= a < acc.len() ==> (#[trigger] acc[a]).name is None,
    ensures
        args_from(ts, s, i, acc, named_seen) matches Ok((args, j)) ==> named_last(args),
    decreases ts.len() - i,
{
    let named = is_kind(ts, i, TokenType::Ident) && is_kind(ts, i + 1, TokenType::Assign);
    if !(named_seen && !named) {
        let start = if named {
            i + 2
        } else {
            i
        };
        if let Ok((e, j)) = p_simple(ts, s, start) {
            let arg = SArg {
                name: if named {
                    Some(text(ts, s, i))
                } else {
                    None
                },
                expr: e,
            };
            let acc2 = acc.push(arg);
            assert forall|a: int, b: int|
                0 <= a < b < acc2.len() && (#[trigger] acc2[a]).name is Some implies (
                #[trigger] acc2[b]).name is Some by {
                if b == acc.len() {
                    assert(acc2[a] == acc[a]);
                } else {
                    assert(acc2[a] == acc[a] && acc2[b] == acc[b]);
                }
            }
            assert forall|a: int| !named && 0 <= a < acc2.len() implies (#[trigger] acc2[a]).name is None by {
                if a < acc.len() {
                    assert(acc2[a] == acc[a]);
                }
            }
            if is_kind(ts, j, TokenType::Comma) && i <= j {
                lemma_args_from_named_last(ts, s, j + 1, acc2, named);
            }
        }
    }
}

/// Named call arguments follow all positional ones: no argument list that
/// the parser accepts has a positional argument after a named one, so such
/// a list is a parse error.
pub proof fn lemma_call_args_named_last(ts: Seq<Tok>, s: Seq<char>, i: int)
    ensures
        call_args(ts, s, i) matches Ok((args, j)) ==> named_last(args),
{
    lemma_args_from_named_last(ts, s, i, Seq::empty(), false);
}

/// Where no atom, `not` or `(` starts, no `or` chain does.
pub proof fn lemma_no_or_at(ts: Seq<Tok>, s: Seq<char>, i: int)
    requires
        !is_kind(ts, i, TokenType::Not),
        !is_kind(ts, i, TokenType::Ident),
        !is_kind(ts, i, TokenType::NumberLit),
        !is_kind(ts, i, TokenType::True),
        !is_kind(ts, i, TokenType::False),
        !is_kind(ts, i, TokenType::LeftParen),
        !(kind_at(ts, i) matches Some(TokenType::StringLit(_))),
        !(kind_at(ts, i) matches Some(TokenType::CharLit(_))),
    ensures
        p_or(ts, s, i) is Err,
{
    assert(p_primary(ts, s, i) is Err);
    assert(p_postfix(ts, s, i) is Err);
    assert(p_not(ts, s, i) is Err);
    assert(p_and(ts, s, i) is Err);
}

/// No bare `if` in condition position: `if if ...` is a parse error where
/// an expression or a simple expression is expected.
pub proof fn lemma_if_if_rejected(ts: Seq<Tok>, s: Seq<char>, i: int)
    requires
        is_kind(ts, i, TokenType::If),
        is_kind(ts, i + 1, TokenType::If),
    ensures
        p_expr(ts, s, i) is Err,
        p_simple(ts, s, i) is Err,
{
    lemma_no_or_at(ts, s, i + 1);
    assert(if_head(ts, s, i) is Err);
    assert(p_if_any(ts, s, i) is Err);
    assert(p_ite(ts, s, i) is Err);
}

/// A block `then` does not take a simple `else`: after the then-block,
/// `else` must go on with `if` or `:`.
pub proof fn lemma_block_then_simple_else(ts: Seq<Tok>, s: Seq<char>, cond: SSimple, j: int)
    requires
        is_kind(ts, j, TokenType::Colon),
        p_block(ts, s, j + 1) matches Ok((b, k)) && j < k <= ts.len() && is_kind(ts, k, TokenType::Else)
            && !is_kind(ts, k + 1, TokenType::If) && !is_kind(ts, k + 1, TokenType::Colon),
    ensures
        if_stmt_from(ts, s, cond, j) is Err,
{
}

/// A simple `then` does not take an `else:` block.
pub proof fn lemma_simple_then_block_else(ts: Seq<Tok>, s: Seq<char>, cond: SSimple, j: int)
    requires
        p_simple(ts, s, j) matches Ok((t, k)) && j <= k && is_kind(ts, k, TokenType::Else)
            && is_kind(ts, k + 1, TokenType::Colon),
    ensures
        ite_rest(ts, s, cond, j) is Err,
{
    let k = p_simple(ts, s, j)->Ok_0.1;
    lemma_no_or_at(ts, s, k + 1);
    assert(p_simple(ts, s, k + 1) is Err);
}

/// `func NAME` must be followed by `(`, even without arguments.
pub proof fn lemma_func_needs_parens(ts: Seq<Tok>, s: Seq<char>, i: int)
    requires
        is_kind(ts, i, TokenType::Func),
        is_kind(ts, i + 1, TokenType::Ident),
        !is_kind(ts, i + 2, TokenType::LeftParen),
    ensures
        p_func(ts, s, i) == Err::<(SFunc, int), ParseError>(fail(ts, i + 2)),
{
}

/// The conditions of an `if` chain, the `else if` ones in order.
pub open spec fn chain_conds(x: SIf) -> Seq<SSimple>
    decreases x,
{
    seq![x.cond] + match x.else_body {
        Some(SElse::If(y)) => chain_conds(*y),
        _ => Seq::empty(),
    }
}

/// An `else if` chain keeps its order and length: when the then-block is
/// followed by `else if`, the else branch is the statement `if` parsed from
/// that `if` on, and the chain's conditions are this one followed by those
/// of the rest, in source order.
pub proof fn lemma_else_if_chain(ts: Seq<Tok>, s: Seq<char>, cond: SSimple, j: int)
    requires
        is_kind(ts, j, TokenType::Colon),
        p_block(ts, s, j + 1) is Ok,
        ({
            let k = p_block(ts, s, j + 1)->Ok_0.1;
            &&& j < k <= ts.len()
            &&& is_kind(ts, k, TokenType::Else)
            &&& is_kind(ts, k + 1, TokenType::If)
            &&& if_head(ts, s, k + 1) is Ok
            &&& k + 1 < if_head(ts, s, k + 1)->Ok_0.1 <= ts.len()
        }),
    ensures
        ({
            let (b, k) = p_block(ts, s, j + 1)->Ok_0;
            let (c2, j2) = if_head(ts, s, k + 1)->Ok_0;
            match if_stmt_from(ts, s, c2, j2) {
                Ok((y, m)) => if_stmt_from(ts, s, cond, j) matches Ok((x, m2)) && m2 == m && x.then_body == b
                    && x.else_body == Some(SElse::If(Box::new(y))) && chain_conds(x) == seq![cond]
                    + chain_conds(y),
                Err(e) => if_stmt_from(ts, s, cond, j) == Err::<(SIf, int), ParseError>(e),
            }
        }),
{
    let (b, k) = p_block(ts, s, j + 1)->Ok_0;
    let (c2, j2) = if_head(ts, s, k + 1)->Ok_0;
    if let Ok((y, m)) = if_stmt_from(ts, s, c2, j2) {
        let x = if_stmt_from(ts, s, cond, j)->Ok_0.0;
        assert(x.cond == cond);
    }
}

} // verus!

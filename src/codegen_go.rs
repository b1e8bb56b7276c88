//! The Go emitter: lowers the expression-oriented tree into statement-
//! oriented Go text, appended to a buffer.
//!
//! Each `*_text` spec function states the exact text that the matching
//! `gen_*` method appends, given the indentation depth at the call.
use vstd::prelude::*;
use vstd::string::StringSliceAdditionalSpecFns;
use vstd::utf8::{encode_utf8, encode_utf8_decode_utf8};
use crate::ast::{
    Block, BoolCond, Call, CallArg, Decl, ElseBody, Expr, Field, Func, FuncArg, FuncBody, If,
    IfThenElse, SimpleExpr, StmtOrExpr,
};

verus! {

// ---------------------------------------------------------------------
// The emitted text
// ---------------------------------------------------------------------

pub open spec fn tabs(n: nat) -> Seq<char>
    decreases n,
{
    if n == 0 {
        Seq::empty()
    } else {
        tabs((n - 1) as nat).push('\t')
    }
}

/// Interop type names and their Go names; other names pass through.
pub open spec fn go_type(name: Seq<char>) -> Seq<char> {
    if name == seq!['I', 'n', 't'] {
        seq!['i', 'n', 't']
    } else if name == seq!['S', 't', 'r', 'i', 'n', 'g'] {
        seq!['s', 't', 'r', 'i', 'n', 'g']
    } else {
        name
    }
}

pub open spec fn digit(d: nat) -> char {
    if d == 0 {
        '0'
    } else if d == 1 {
        '1'
    } else if d == 2 {
        '2'
    } else if d == 3 {
        '3'
    } else if d == 4 {
        '4'
    } else if d == 5 {
        '5'
    } else if d == 6 {
        '6'
    } else if d == 7 {
        '7'
    } else if d == 8 {
        '8'
    } else {
        '9'
    }
}

/// The decimal digits of `n`, without leading zeros.
pub open spec fn decimal(n: nat) -> Seq<char>
    decreases n,
{
    if n < 10 {
        seq![digit(n)]
    } else {
        decimal(n / 10).push(digit(n % 10))
    }
}

pub open spec fn int_text(v: int) -> Seq<char> {
    if v < 0 {
        seq!['-'] + decimal((-v) as nat)
    } else {
        decimal(v as nat)
    }
}

pub open spec fn bool_text(b: bool) -> Seq<char> {
    if b {
        seq!['t', 'r', 'u', 'e']
    } else {
        seq!['f', 'a', 'l', 's', 'e']
    }
}

pub open spec fn return_word() -> Seq<char> {
    seq!['r', 'e', 't', 'u', 'r', 'n', ' ']
}

pub open spec fn separator(more: bool) -> Seq<char> {
    if more {
        seq![',', ' ']
    } else {
        Seq::empty()
    }
}

/// A block of one line holding `inner`, opened at depth `ind`.
pub open spec fn single_block_text(inner: Seq<char>, ind: nat) -> Seq<char> {
    seq!['{', '\n'] + tabs(ind + 1) + inner + seq!['\n'] + tabs(ind) + seq!['}']
}

/// A value in function-body position, where it is returned: `return v`;
/// the value form of `if` becomes an `if` statement whose branches return.
pub open spec fn returned_text(e: SimpleExpr, ind: nat) -> Seq<char>
    decreases e, 1nat,
{
    match e {
        SimpleExpr::IfThenElse(x) => seq!['i', 'f', ' '] + simple_text(x.cond, ind) + seq![' ']
            + single_block_text(returned_text(x.then_, ind + 1), ind) + seq![
            ' ',
            'e',
            'l',
            's',
            'e',
            ' ',
        ] + single_block_text(returned_text(x.else_, ind + 1), ind),
        _ => return_word() + simple_text(e, ind),
    }
}

/// The parameter list: `name type` pairs joined by `, `.
pub open spec fn params_text(args: Seq<FuncArg>, total: nat) -> Seq<char>
    decreases args.len(),
{
    if args.len() == 0 {
        Seq::empty()
    } else {
        let a = args.last();
        params_text(args.drop_last(), total) + a.name.name@ + seq![' '] + go_type(a.arg_type.name())
            + separator(args.len() < total)
    }
}

pub open spec fn simple_text(e: SimpleExpr, ind: nat) -> Seq<char>
    decreases e, 0nat,
{
    match e {
        SimpleExpr::Ident(id) => id.name@,
        SimpleExpr::IntLit(l) => int_text(l.value as int),
        SimpleExpr::StringLit(l) => l.unparsed@,
        SimpleExpr::CharLit(l) => l.unparsed@,
        SimpleExpr::BoolLit(b) => bool_text(b.0),
        SimpleExpr::Field(f) => simple_text(f.target, ind) + seq!['.'] + f.field.name@,
        SimpleExpr::Call(c) => simple_text(c.target, ind) + seq!['('] + call_args_text(
            c.args@,
            c.args@.len(),
            ind,
        ) + seq![')'],
        SimpleExpr::IfThenElse(x) => seq!['i', 'f', ' '] + simple_text(x.cond, ind) + seq![' ']
            + single_block_text(simple_text(x.then_, ind + 1), ind) + seq![
            ' ',
            'e',
            'l',
            's',
            'e',
            ' ',
        ] + single_block_text(simple_text(x.else_, ind + 1), ind) + seq!['\n'],
        SimpleExpr::BoolCond(b) => match *b {
            BoolCond::Not(x) => seq!['!'] + simple_text(x, ind),
            BoolCond::And(l, r) => simple_text(l, ind) + seq![' ', '&', '&', ' '] + simple_text(
                r,
                ind,
            ),
            BoolCond::Or(l, r) => simple_text(l, ind) + seq![' ', '|', '|', ' '] + simple_text(
                r,
                ind,
            ),
        },
        SimpleExpr::Expr(x) => seq!['('] + expr_text(*x, ind) + seq![')'],
    }
}

/// Call arguments in source order, joined by `, `; names are dropped.
pub open spec fn call_args_text(args: Seq<CallArg>, total: nat, ind: nat) -> Seq<char>
    decreases args, 0nat,
{
    if args.len() == 0 {
        Seq::empty()
    } else {
        call_args_text(args.drop_last(), total, ind) + simple_text(args.last().expr, ind)
            + separator(args.len() < total)
    }
}

pub open spec fn expr_text(e: Expr, ind: nat) -> Seq<char>
    decreases e, 0nat,
{
    match e {
        Expr::If(i) => if_text(i, ind),
        Expr::Simple(s) => simple_text(s, ind),
    }
}

pub open spec fn if_text(i: If, ind: nat) -> Seq<char>
    decreases i, 0nat,
{
    seq!['i', 'f', ' '] + simple_text(i.cond, ind) + seq![' '] + block_text(i.then_body, false, ind)
        + match i.else_body {
        None => Seq::empty(),
        Some(ElseBody::If(x)) => seq![' ', 'e', 'l', 's', 'e', ' '] + if_text(*x, ind),
        Some(ElseBody::Block(b)) => seq![' ', 'e', 'l', 's', 'e', ' '] + block_text(b, false, ind),
    }
}

/// A block opened at depth `ind`; in a function body the last item is
/// returned.
pub open spec fn block_text(b: Block, func_block: bool, ind: nat) -> Seq<char>
    decreases b, 0nat,
{
    seq!['{', '\n'] + items_text(
        b.stmt_or_exprs@,
        b.stmt_or_exprs@.len(),
        func_block,
        ind + 1,
    ) + tabs(ind) + seq!['}']
}

/// The first `items.len()` lines of a block of `total` items, at depth `ind`.
/// In a function body the last item is returned (a value as
/// `returned_text` says, anything else behind `return `).
pub open spec fn items_text(items: Seq<StmtOrExpr>, total: nat, func_block: bool, ind: nat) -> Seq<
    char,
>
    decreases items, 0nat,
{
    if items.len() == 0 {
        Seq::empty()
    } else {
        items_text(items.drop_last(), total, func_block, ind) + tabs(ind) + if func_block
            && items.len() == total {
            match items.last() {
                StmtOrExpr::Expr(Expr::Simple(e)) => returned_text(e, ind),
                x => return_word() + item_text(x, ind),
            }
        } else {
            item_text(items.last(), ind)
        } + seq!['\n']
    }
}

pub open spec fn item_text(x: StmtOrExpr, ind: nat) -> Seq<char>
    decreases x, 0nat,
{
    match x {
        StmtOrExpr::Func(f) => func_text(f, ind),
        StmtOrExpr::Expr(e) => expr_text(e, ind),
    }
}

pub open spec fn func_text(f: Func, ind: nat) -> Seq<char>
    decreases f, 0nat,
{
    seq!['f', 'u', 'n', 'c', ' '] + f.name.name@ + seq!['('] + params_text(f.args@, f.args@.len())
        + seq![')', ' '] + match f.body {
        FuncBody::Block(Some(t), b) => go_type(t.name()) + seq![' '] + block_text(b, true, ind),
        FuncBody::Block(None, b) => block_text(b, true, ind),
        FuncBody::Expr(e) => single_block_text(returned_text(e, ind + 1), ind),
    }
}

/// The text of declarations in order.
pub open spec fn decls_text(decls: Seq<Decl>, ind: nat) -> Seq<char>
    decreases decls.len(),
{
    if decls.len() == 0 {
        Seq::empty()
    } else {
        decls_text(decls.drop_last(), ind) + match decls.last() {
            Decl::Func(f) => func_text(f, ind),
        }
    }
}

// ---------------------------------------------------------------------
// The emitter
// ---------------------------------------------------------------------

/// Appends Go code for declarations to a growing buffer.
pub struct GoCodegen {
    /// The current indentation: one tab per level.
    indent: String,
    code: String,
}

/// Whether two texts are equal, by their UTF-8 bytes.
fn same_text(a: &str, b: &str) -> (r: bool)
    ensures
        r == (a@ == b@),
{
    let x = a.as_bytes();
    let y = b.as_bytes();
    proof {
        encode_utf8_decode_utf8(a@);
        encode_utf8_decode_utf8(b@);
        assert(x@ == encode_utf8(a@));
        assert(y@ == encode_utf8(b@));
    }
    if x.len() != y.len() {
        return false;
    }
    let mut i: usize = 0;
    while i < x.len()
        invariant
            x@.len() == y@.len(),
            x@ == encode_utf8(a@),
            y@ == encode_utf8(b@),
            i <= x@.len(),
            forall|j: int| 0 <= j < i ==> x@[j] == y@[j],
        decreases x.len() - i,
    {
        if x[i] != y[i] {
            assert(x@ != y@);
            return false;
        }
        i = i + 1;
    }
    assert(x@ =~= y@);
    true
}

impl GoCodegen {
    pub closed spec fn wf(&self) -> bool {
        self.indent@ == tabs(self.indent@.len())
    }

    /// The indentation depth.
    pub closed spec fn level(&self) -> nat {
        self.indent@.len()
    }

    /// The text emitted so far.
    pub closed spec fn text(&self) -> Seq<char> {
        self.code@
    }

    pub fn new() -> (r: Self)
        ensures
            r.wf(),
            r.level() == 0,
            r.text() == Seq::<char>::empty(),
    {
        GoCodegen { indent: String::new(), code: String::new() }
    }

    fn push_str(&mut self, s: &str)
        ensures
            final(self).code@ == old(self).code@ + s@,
            final(self).indent == old(self).indent,
    {
        self.code.append(s);
    }

    fn push_indent(&mut self)
        requires
            old(self).wf(),
        ensures
            final(self).code@ == old(self).code@ + tabs(old(self).level()),
            final(self).indent == old(self).indent,
    {
        self.code.append(self.indent.as_str());
    }

    /// One level deeper; gives back the indentation to restore.
    fn indent_more(&mut self) -> (saved: String)
        requires
            old(self).wf(),
        ensures
            final(self).wf(),
            final(self).level() == old(self).level() + 1,
            final(self).code == old(self).code,
            saved == old(self).indent,
    {
        let saved = self.indent.clone();
        self.indent.append("\t");
        proof {
            reveal_strlit("\t");
            assert(self.indent@ =~= tabs(old(self).level()).push('\t'));
        }
        saved
    }

    fn map_type<'a>(interop_type: &'a str) -> (r: &'a str)
        ensures
            r@ == go_type(interop_type@),
    {
        proof {
            reveal_strlit("Int");
            reveal_strlit("int");
            reveal_strlit("String");
            reveal_strlit("string");
            assert("Int"@ =~= seq!['I', 'n', 't']);
            assert("int"@ =~= seq!['i', 'n', 't']);
            assert("String"@ =~= seq!['S', 't', 'r', 'i', 'n', 'g']);
            assert("string"@ =~= seq!['s', 't', 'r', 'i', 'n', 'g']);
        }
        if same_text(interop_type, "Int") {
            "int"
        } else if same_text(interop_type, "String") {
            "string"
        } else {
            interop_type
        }
    }

    fn push_digit(&mut self, d: u32)
        requires
            d < 10,
        ensures
            final(self).code@ == old(self).code@ + seq![digit(d as nat)],
            final(self).indent == old(self).indent,
    {
        proof {
            reveal_strlit("0");
            reveal_strlit("1");
            reveal_strlit("2");
            reveal_strlit("3");
            reveal_strlit("4");
            reveal_strlit("5");
            reveal_strlit("6");
            reveal_strlit("7");
            reveal_strlit("8");
            reveal_strlit("9");
        }
        let s = if d == 0 {
            "0"
        } else if d == 1 {
            "1"
        } else if d == 2 {
            "2"
        } else if d == 3 {
            "3"
        } else if d == 4 {
            "4"
        } else if d == 5 {
            "5"
        } else if d == 6 {
            "6"
        } else if d == 7 {
            "7"
        } else if d == 8 {
            "8"
        } else {
            "9"
        };
        self.push_str(s);
    }

    fn push_decimal(&mut self, n: u32)
        ensures
            final(self).code@ == old(self).code@ + decimal(n as nat),
            final(self).indent == old(self).indent,
        decreases n,
    {
        if n >= 10 {
            self.push_decimal(n / 10);
        }
        self.push_digit(n % 10);
        assert(self.code@ =~= old(self).code@ + decimal(n as nat));
    }

    fn push_int(&mut self, v: i32)
        ensures
            final(self).code@ == old(self).code@ + int_text(v as int),
            final(self).indent == old(self).indent,
    {
        if v < 0 {
            self.push_str("-");
            proof {
                reveal_strlit("-");
            }
            let n = (-(v as i64)) as u32;
            self.push_decimal(n);
            assert(self.code@ =~= old(self).code@ + int_text(v as int));
        } else {
            self.push_decimal(v as u32);
        }
    }

    /// Emits the declarations in order and gives back all text so far.
    pub fn gen_code(&mut self, decls: &[Decl]) -> (r: &str)
        requires
            old(self).wf(),
        ensures
            final(self).wf(),
            final(self).level() == old(self).level(),
            final(self).text() == old(self).text() + decls_text(decls@, old(self).level()),
            r@ == final(self).text(),
    {
        let ghost start = self.code@;
        let ghost ind = self.level();
        let mut i: usize = 0;
        while i < decls.len()
            invariant
                self.wf(),
                self.level() == ind,
                i <= decls@.len(),
                self.code@ == start + decls_text(decls@.take(i as int), ind),
            decreases decls.len() - i,
        {
            match &decls[i] {
                Decl::Func(func) => {
                    self.gen_func(func);
                },
            }
            proof {
                assert(decls@.take(i + 1).drop_last() =~= decls@.take(i as int));
            }
            i = i + 1;
        }
        proof {
            assert(decls@.take(i as int) =~= decls@);
        }
        self.code.as_str()
    }

    fn gen_func(&mut self, func: &Func)
        requires
            old(self).wf(),
        ensures
            final(self).wf(),
            final(self).indent == old(self).indent,
            final(self).code@ == old(self).code@ + func_text(*func, old(self).level()),
        decreases func, 0nat,
    {
        let ghost start = self.code@;
        let ghost ind = self.level();
        proof {
            reveal_strlit("func ");
            reveal_strlit("(");
            reveal_strlit(" ");
            reveal_strlit(", ");
            reveal_strlit(") ");
        }
        self.push_str("func ");
        self.push_str(func.name.as_str());
        self.push_str("(");
        let ghost head = self.code@;
        let n = func.args.len();
        let mut idx: usize = 0;
        while idx < n
            invariant
                n == func.args@.len(),
                idx <= n,
                self.indent == old(self).indent,
                self.code@ == head + params_text(func.args@.take(idx as int), n as nat),
            decreases n - idx,
        {
            proof {
                reveal_strlit(" ");
                reveal_strlit(", ");
            }
            let arg = &func.args[idx];
            let ghost before = self.code@;
            let ghost piece = arg.name.name@ + seq![' '] + go_type(arg.arg_type.name()) + separator(
                idx + 1 < n,
            );
            self.push_str(arg.name.as_str());
            self.push_str(" ");
            self.push_str(Self::map_type(arg.arg_type.as_str()));
            if idx < n - 1 {
                self.push_str(", ");
            }
            proof {
                assert(func.args@.take(idx + 1).drop_last() =~= func.args@.take(idx as int));
                assert(func.args@.take(idx + 1).last() == func.args@[idx as int]);
                assert(self.code@ =~= before + piece);
                assert(params_text(func.args@.take(idx + 1), n as nat) == params_text(
                    func.args@.take(idx as int),
                    n as nat,
                ) + piece);
                assert(self.code@ =~= head + params_text(func.args@.take(idx + 1), n as nat));
            }
            idx = idx + 1;
        }
        proof {
            assert(func.args@.take(idx as int) =~= func.args@);
        }
        self.push_str(") ");
        let ghost mid = self.code@;
        match &func.body {
            FuncBody::Block(Some(type_), block) => {
                self.push_str(Self::map_type(type_.as_str()));
                self.push_str(" ");
                self.gen_block(block, true);
            },
            FuncBody::Block(None, block) => {
                self.gen_block(block, true);
            },
            FuncBody::Expr(expr) => {
                self.gen_single_stmt_block(expr, true);
            },
        }
        assert(self.code@ =~= start + func_text(*func, ind));
    }

    fn gen_field(&mut self, field: &Field)
        requires
            old(self).wf(),
        ensures
            final(self).wf(),
            final(self).indent == old(self).indent,
            final(self).code@ == old(self).code@ + simple_text(field.target, old(self).level())
                + seq!['.'] + field.field.name@,
        decreases field, 0nat,
    {
        self.gen_simple_expr(&field.target);
        self.push_str(".");
        self.push_str(field.field.as_str());
        proof {
            reveal_strlit(".");
        }
        assert(self.code@ =~= old(self).code@ + simple_text(field.target, old(self).level())
            + seq!['.'] + field.field.name@);
    }

    fn gen_call(&mut self, call: &Call)
        requires
            old(self).wf(),
        ensures
            final(self).wf(),
            final(self).indent == old(self).indent,
            final(self).code@ == old(self).code@ + simple_text(call.target, old(self).level())
                + seq!['('] + call_args_text(call.args@, call.args@.len(), old(self).level())
                + seq![')'],
        decreases call, 0nat,
    {
        let ghost ind = self.level();
        proof {
            reveal_strlit("(");
            reveal_strlit(")");
            reveal_strlit(", ");
        }
        self.gen_simple_expr(&call.target);
        self.push_str("(");
        let ghost head = self.code@;
        let n = call.args.len();
        let mut idx: usize = 0;
        while idx < n
            invariant
                n == call.args@.len(),
                idx <= n,
                self.wf(),
                self.indent == old(self).indent,
                self.level() == ind,
                self.code@ == head + call_args_text(call.args@.take(idx as int), n as nat, ind),
            decreases n - idx,
        {
            proof {
                reveal_strlit(", ");
            }
            assert(decreases_to!(call => call.args@[idx as int].expr));
            let ghost before = self.code@;
            let ghost piece = simple_text(call.args@[idx as int].expr, ind) + separator(idx + 1 < n);
            self.gen_simple_expr(&call.args[idx].expr);
            if idx < n - 1 {
                self.push_str(", ");
            }
            proof {
                assert(call.args@.take(idx + 1).drop_last() =~= call.args@.take(idx as int));
                assert(call.args@.take(idx + 1).last() == call.args@[idx as int]);
                assert(self.code@ =~= before + piece);
                assert(call_args_text(call.args@.take(idx + 1), n as nat, ind) == call_args_text(
                    call.args@.take(idx as int),
                    n as nat,
                    ind,
                ) + piece);
                assert(self.code@ =~= head + call_args_text(call.args@.take(idx + 1), n as nat, ind));
            }
            idx = idx + 1;
        }
        proof {
            assert(call.args@.take(idx as int) =~= call.args@);
        }
        self.push_str(")");
        assert(self.code@ =~= old(self).code@ + simple_text(call.target, ind) + seq!['(']
            + call_args_text(call.args@, call.args@.len(), ind) + seq![')']);
    }

    fn gen_bool_cond(&mut self, bool_cond: &BoolCond)
        requires
            old(self).wf(),
        ensures
            final(self).wf(),
            final(self).indent == old(self).indent,
            final(self).code@ == old(self).code@ + simple_text(
                SimpleExpr::BoolCond(Box::new(*bool_cond)),
                old(self).level(),
            ),
        decreases bool_cond, 0nat,
    {
        let ghost ind = self.level();
        proof {
            reveal_strlit("!");
            reveal_strlit(" && ");
            reveal_strlit(" || ");
        }
        match bool_cond {
            BoolCond::Not(expr) => {
                self.push_str("!");
                self.gen_simple_expr(expr);
            },
            BoolCond::And(lhs, rhs) => {
                self.gen_simple_expr(lhs);
                self.push_str(" && ");
                self.gen_simple_expr(rhs);
            },
            BoolCond::Or(lhs, rhs) => {
                self.gen_simple_expr(lhs);
                self.push_str(" || ");
                self.gen_simple_expr(rhs);
            },
        }
        assert(self.code@ =~= old(self).code@ + simple_text(
            SimpleExpr::BoolCond(Box::new(*bool_cond)),
            ind,
        ));
    }

    /// Go's `if` is a statement: each branch becomes a block of one line.
    fn gen_if_then_else(&mut self, if_then_else: &IfThenElse)
        requires
            old(self).wf(),
        ensures
            final(self).wf(),
            final(self).indent == old(self).indent,
            final(self).code@ == old(self).code@ + simple_text(
                SimpleExpr::IfThenElse(Box::new(*if_then_else)),
                old(self).level(),
            ),
        decreases if_then_else, 0nat,
    {
        let ghost ind = self.level();
        proof {
            reveal_strlit("if ");
            reveal_strlit(" ");
            reveal_strlit(" else ");
            reveal_strlit("\n");
        }
        self.push_str("if ");
        self.gen_simple_expr(&if_then_else.cond);
        self.push_str(" ");
        self.gen_single_stmt_block(&if_then_else.then_, false);
        self.push_str(" else ");
        self.gen_single_stmt_block(&if_then_else.else_, false);
        self.push_str("\n");
        assert(self.code@ =~= old(self).code@ + simple_text(
            SimpleExpr::IfThenElse(Box::new(*if_then_else)),
            ind,
        ));
    }

    fn gen_if(&mut self, if_: &If)
        requires
            old(self).wf(),
        ensures
            final(self).wf(),
            final(self).indent == old(self).indent,
            final(self).code@ == old(self).code@ + if_text(*if_, old(self).level()),
        decreases if_, 0nat,
    {
        let ghost ind = self.level();
        proof {
            reveal_strlit("if ");
            reveal_strlit(" ");
            reveal_strlit(" else ");
        }
        self.push_str("if ");
        self.gen_simple_expr(&if_.cond);
        self.push_str(" ");
        self.gen_block(&if_.then_body, false);
        match &if_.else_body {
            Some(else_body) => {
                self.push_str(" else ");
                match else_body {
                    ElseBody::If(else_if) => {
                        self.gen_if(else_if);
                    },
                    ElseBody::Block(block) => {
                        self.gen_block(block, false);
                    },
                }
            },
            None => {},
        }
        assert(self.code@ =~= old(self).code@ + if_text(*if_, ind));
    }

    fn gen_simple_expr(&mut self, expr: &SimpleExpr)
        requires
            old(self).wf(),
        ensures
            final(self).wf(),
            final(self).indent == old(self).indent,
            final(self).code@ == old(self).code@ + simple_text(*expr, old(self).level()),
        decreases expr, 0nat,
    {
        let ghost ind = self.level();
        proof {
            reveal_strlit("true");
            reveal_strlit("false");
            reveal_strlit("(");
            reveal_strlit(")");
        }
        match expr {
            SimpleExpr::Ident(ident) => {
                self.push_str(ident.as_str());
            },
            SimpleExpr::IntLit(int_lit) => {
                self.push_int(int_lit.value);
            },
            SimpleExpr::StringLit(string_lit) => {
                self.push_str(string_lit.unparsed.as_str());
            },
            SimpleExpr::CharLit(char_lit) => {
                self.push_str(char_lit.unparsed.as_str());
            },
            SimpleExpr::BoolLit(bool_lit) => {
                if bool_lit.0 {
                    self.push_str("true");
                } else {
                    self.push_str("false");
                }
            },
            SimpleExpr::Field(field) => {
                self.gen_field(field);
            },
            SimpleExpr::Call(call) => {
                self.gen_call(call);
            },
            SimpleExpr::IfThenElse(if_then_else) => {
                self.gen_if_then_else(if_then_else);
            },
            SimpleExpr::BoolCond(bool_cond) => {
                self.gen_bool_cond(bool_cond);
            },
            SimpleExpr::Expr(inner) => {
                self.push_str("(");
                self.gen_expr(inner);
                self.push_str(")");
                assert(self.code@ =~= old(self).code@ + simple_text(*expr, ind));
            },
        }
    }

    fn gen_expr(&mut self, expr: &Expr)
        requires
            old(self).wf(),
        ensures
            final(self).wf(),
            final(self).indent == old(self).indent,
            final(self).code@ == old(self).code@ + expr_text(*expr, old(self).level()),
        decreases expr, 0nat,
    {
        match expr {
            Expr::If(if_) => {
                self.gen_if(if_);
            },
            Expr::Simple(simple_expr) => {
                self.gen_simple_expr(simple_expr);
            },
        }
    }

    fn gen_single_stmt_block(&mut self, expr: &SimpleExpr, func_block: bool)
        requires
            old(self).wf(),
        ensures
            final(self).wf(),
            final(self).indent == old(self).indent,
            final(self).code@ == old(self).code@ + single_block_text(
                if func_block {
                    returned_text(*expr, old(self).level() + 1)
                } else {
                    simple_text(*expr, old(self).level() + 1)
                },
                old(self).level(),
            ),
        decreases expr, 2nat,
    {
        let ghost ind = self.level();
        proof {
            reveal_strlit("{\n");
            reveal_strlit("\n");
            reveal_strlit("}");
        }
        self.push_str("{\n");
        let saved = self.indent_more();
        self.push_indent();
        if func_block {
            self.gen_returned(expr);
        } else {
            self.gen_simple_expr(expr);
        }
        self.push_str("\n");
        self.indent = saved;
        self.push_indent();
        self.push_str("}");
        assert(self.code@ =~= old(self).code@ + single_block_text(
            if func_block {
                returned_text(*expr, ind + 1)
            } else {
                simple_text(*expr, ind + 1)
            },
            ind,
        ));
    }

    /// A value in function-body position: `return` goes before it, or into
    /// each branch of the value form of `if`.
    fn gen_returned(&mut self, expr: &SimpleExpr)
        requires
            old(self).wf(),
        ensures
            final(self).wf(),
            final(self).indent == old(self).indent,
            final(self).code@ == old(self).code@ + returned_text(*expr, old(self).level()),
        decreases expr, 1nat,
    {
        let ghost ind = self.level();
        proof {
            reveal_strlit("if ");
            reveal_strlit(" ");
            reveal_strlit(" else ");
            reveal_strlit("return ");
        }
        match expr {
            SimpleExpr::IfThenElse(x) => {
                self.push_str("if ");
                self.gen_simple_expr(&x.cond);
                self.push_str(" ");
                self.gen_single_stmt_block(&x.then_, true);
                self.push_str(" else ");
                self.gen_single_stmt_block(&x.else_, true);
            },
            _ => {
                self.push_str("return ");
                self.gen_simple_expr(expr);
            },
        }
        assert(self.code@ =~= old(self).code@ + returned_text(*expr, ind));
    }

    fn gen_block(&mut self, block: &Block, func_block: bool)
        requires
            old(self).wf(),
        ensures
            final(self).wf(),
            final(self).indent == old(self).indent,
            final(self).code@ == old(self).code@ + block_text(*block, func_block, old(self).level()),
        decreases block, 0nat,
    {
        let ghost ind = self.level();
        proof {
            reveal_strlit("{\n");
            reveal_strlit("return ");
            reveal_strlit("\n");
            reveal_strlit("}");
        }
        self.push_str("{\n");
        let saved = self.indent_more();
        let ghost head = self.code@;
        let ghost items = block.stmt_or_exprs@;
        let n = block.stmt_or_exprs.len();
        let mut idx: usize = 0;
        while idx < n
            invariant
                n == items.len(),
                items == block.stmt_or_exprs@,
                idx <= n,
                self.wf(),
                self.level() == ind + 1,
                self.code@ == head + items_text(items.take(idx as int), n as nat, func_block, ind + 1),
            decreases n - idx,
        {
            proof {
                reveal_strlit("return ");
                reveal_strlit("\n");
            }
            let ghost before = self.code@;
            let ghost piece = tabs(ind + 1) + if func_block && idx + 1 == n {
                match items[idx as int] {
                    StmtOrExpr::Expr(Expr::Simple(e)) => returned_text(e, ind + 1),
                    x => return_word() + item_text(x, ind + 1),
                }
            } else {
                item_text(items[idx as int], ind + 1)
            } + seq!['\n'];
            self.push_indent();
            assert(decreases_to!(block => block.stmt_or_exprs@[idx as int]));
            let item = &block.stmt_or_exprs[idx];
            if func_block && idx == n - 1 {
                match item {
                    StmtOrExpr::Expr(Expr::Simple(e)) => {
                        self.gen_returned(e);
                    },
                    StmtOrExpr::Expr(expr) => {
                        self.push_str("return ");
                        self.gen_expr(expr);
                    },
                    StmtOrExpr::Func(func) => {
                        self.push_str("return ");
                        self.gen_func(func);
                    },
                }
            } else {
                match item {
                    StmtOrExpr::Func(func) => {
                        self.gen_func(func);
                    },
                    StmtOrExpr::Expr(expr) => {
                        self.gen_expr(expr);
                    },
                }
            }
            self.push_str("\n");
            proof {
                assert(items.take(idx + 1).drop_last() =~= items.take(idx as int));
                assert(items.take(idx + 1).last() == items[idx as int]);
                assert(self.code@ =~= before + piece);
                assert(items_text(items.take(idx + 1), n as nat, func_block, ind + 1) == items_text(
                    items.take(idx as int),
                    n as nat,
                    func_block,
                    ind + 1,
                ) + piece);
                assert(self.code@ =~= head + items_text(
                    items.take(idx + 1),
                    n as nat,
                    func_block,
                    ind + 1,
                ));
            }
            idx = idx + 1;
        }
        proof {
            assert(items.take(idx as int) =~= items);
        }
        self.indent = saved;
        self.push_indent();
        self.push_str("}");
        assert(self.code@ =~= old(self).code@ + block_text(*block, func_block, ind));
    }
}

} // verus!

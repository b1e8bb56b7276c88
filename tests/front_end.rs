use interop_lang::ast::{
    Block, Decl, ElseBody, Expr, Func, FuncBody, Ident, If, IfThenElse, IntLit, SimpleExpr,
    StmtOrExpr,
};
use interop_lang::codegen_go::GoCodegen;
use interop_lang::lexer::Lexer;
use interop_lang::parser::{compile, parse_expr};
use interop_lang::token::TokenType;

fn kinds(input: &str, incl_comments: bool, markers: bool) -> Vec<TokenType> {
    let mut lexer = Lexer::new(input, incl_comments, markers);
    let mut out = Vec::new();
    while let Some(Ok((_, kind, _))) = lexer.next() {
        out.push(kind);
    }
    out
}

fn ident(name: &str) -> SimpleExpr {
    SimpleExpr::Ident(Ident::from_str(name))
}

fn int_lit(value: i32) -> SimpleExpr {
    SimpleExpr::IntLit(IntLit { value })
}

#[test]
fn lex_kinds_with_markers() {
    let input = " 123;(45)\n    6 * 7 +  8 # comment\n    - 9 ;\n";
    assert_eq!(
        kinds(input, false, true),
        vec![
            TokenType::StartOfInput,
            TokenType::NumberLit,
            TokenType::Semi,
            TokenType::LeftParen,
            TokenType::NumberLit,
            TokenType::RightParen,
            TokenType::Semi,
            TokenType::NumberLit,
            TokenType::Multiply,
            TokenType::NumberLit,
            TokenType::Plus,
            TokenType::NumberLit,
            TokenType::Semi,
            TokenType::Minus,
            TokenType::NumberLit,
            TokenType::Semi,
            TokenType::EndOfInput,
        ]
    );
}

#[test]
fn parse_if_block_without_else() {
    let expr = parse_expr("if test then: blah; 123 end").expect("if node");
    let expected = Expr::If(If {
        cond: ident("test"),
        then_body: Block {
            stmt_or_exprs: vec![
                StmtOrExpr::Expr(Expr::Simple(ident("blah"))),
                StmtOrExpr::Expr(Expr::Simple(int_lit(123))),
            ],
        },
        else_body: None,
    });
    assert_eq!(expr, expected);
}

#[test]
fn parse_nested_value_if() {
    let expr = parse_expr("if test then 123 else if test2 then 5 else 3").expect("expr node");
    let expected = Expr::Simple(SimpleExpr::IfThenElse(Box::new(IfThenElse {
        cond: ident("test"),
        then_: int_lit(123),
        else_: SimpleExpr::IfThenElse(Box::new(IfThenElse {
            cond: ident("test2"),
            then_: int_lit(5),
            else_: int_lit(3),
        })),
    })));
    assert_eq!(expr, expected);
}

#[test]
fn emit_typed_function() {
    let decls = compile("func my_func(a: Int, b: String) -> Int:\n  123\nend").expect("file");
    let mut codegen = GoCodegen::new();
    let code = codegen.gen_code(&decls).to_string();
    assert!(code.starts_with("func my_func(a int, b string) int {"));
    assert!(code.contains("return 123"));
    assert_eq!(code, "func my_func(a int, b string) int {\n\treturn 123\n}");
}

#[test]
fn else_if_chain_keeps_order() {
    let src = "if a then:\n 1\nelse if b then:\n 2\nelse if c then:\n 3\nelse:\n 4\nend";
    let expr = parse_expr(src).expect("chain");
    let mut conds = Vec::new();
    let mut node = match &expr {
        Expr::If(x) => x,
        _ => panic!("statement if expected"),
    };
    loop {
        conds.push(node.cond.clone_name());
        match &node.else_body {
            Some(ElseBody::If(next)) => node = next,
            Some(ElseBody::Block(b)) => {
                assert_eq!(b.stmt_or_exprs.len(), 1);
                break;
            }
            None => panic!("final else expected"),
        }
    }
    assert_eq!(conds, vec!["a", "b", "c"]);
}

trait NameOf {
    fn clone_name(&self) -> String;
}

impl NameOf for SimpleExpr {
    fn clone_name(&self) -> String {
        match self {
            SimpleExpr::Ident(id) => id.name.clone(),
            _ => String::new(),
        }
    }
}

#[test]
fn file_with_two_functions() {
    let decls = compile("func a() -> 1\nfunc b() -> 2\n").expect("file");
    assert_eq!(decls.len(), 2);
    match &decls[1] {
        Decl::Func(Func { name, body: FuncBody::Expr(e), .. }) => {
            assert_eq!(name.name, "b");
            assert_eq!(*e, int_lit(2));
        }
        _ => panic!("expression body expected"),
    }
}

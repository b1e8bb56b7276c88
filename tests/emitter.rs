use interop_lang::ast::{Decl, Func, FuncBody, Ident, IntLit, SimpleExpr};
use interop_lang::codegen_go::GoCodegen;
use interop_lang::parser::compile;

fn emit(src: &str) -> String {
    let decls = compile(src).expect("file");
    let mut codegen = GoCodegen::new();
    codegen.gen_code(&decls).to_string()
}

#[test]
fn emit_statement_if_in_function() {
    assert_eq!(
        emit("func f():\n if c then:\n 1\n else:\n 2\n end\nend"),
        "func f() {\n\treturn if c {\n\t\t1\n\t} else {\n\t\t2\n\t}\n}"
    );
}

#[test]
fn emit_value_if_as_body() {
    assert_eq!(
        emit("func g(x: Int) -> if x then 1 else 2"),
        "func g(x int) {\n\tif x {\n\t\treturn 1\n\t} else {\n\t\treturn 2\n\t}\n}"
    );
}

#[test]
fn emit_value_if_returns_in_each_branch() {
    assert_eq!(
        emit("func g() -> if c then t else e"),
        "func g() {\n\tif c {\n\t\treturn t\n\t} else {\n\t\treturn e\n\t}\n}"
    );
    assert_eq!(
        emit("func g() -> if a then 1 else if b then 2 else 3"),
        "func g() {\n\tif a {\n\t\treturn 1\n\t} else {\n\t\tif b {\n\t\t\treturn 2\n\t\t} else {\n\t\t\treturn 3\n\t\t}\n\t}\n}"
    );
}

#[test]
fn emit_value_if_at_end_of_block() {
    assert_eq!(
        emit("func f():\n x\n if c then 1 else 2\nend"),
        "func f() {\n\tx\n\tif c {\n\t\treturn 1\n\t} else {\n\t\treturn 2\n\t}\n}"
    );
    // not at the end: the value form keeps plain branches
    assert_eq!(
        emit("func f():\n if c then 1 else 2\n x\nend"),
        "func f() {\n\tif c {\n\t\t1\n\t} else {\n\t\t2\n\t}\n\n\treturn x\n}"
    );
}

#[test]
fn emit_bool_ops_and_parens() {
    assert_eq!(
        emit("func h() -> (a or b) and not c"),
        "func h() {\n\treturn (a || b) && !c\n}"
    );
}

#[test]
fn emit_calls_fields_and_literals() {
    assert_eq!(
        emit("func k(s: Bool) -> f(1, 'c', true, b = \"s\\n\").x"),
        "func k(s Bool) {\n\treturn f(1, 'c', true, \"s\\n\").x\n}"
    );
}

#[test]
fn emit_else_if_chain_and_nested_func() {
    assert_eq!(
        emit("func m():\n func n() -> 7\n if a then:\n 1\n else if b then:\n 2\n end\nend"),
        "func m() {\n\tfunc n() {\n\t\treturn 7\n\t}\n\treturn if a {\n\t\t1\n\t} else if b {\n\t\t2\n\t}\n}"
    );
}

#[test]
fn emit_negative_and_extreme_integers() {
    let decls = vec![
        Decl::Func(Func {
            name: Ident::from_str("p"),
            args: vec![],
            body: FuncBody::Expr(SimpleExpr::IntLit(IntLit { value: -42 })),
        }),
        Decl::Func(Func {
            name: Ident::from_string(String::from("q")),
            args: vec![],
            body: FuncBody::Expr(SimpleExpr::IntLit(IntLit { value: i32::MIN })),
        }),
    ];
    let mut codegen = GoCodegen::new();
    assert_eq!(
        codegen.gen_code(&decls),
        "func p() {\n\treturn -42\n}func q() {\n\treturn -2147483648\n}"
    );
}

#[test]
fn emit_appends_across_calls() {
    let mut codegen = GoCodegen::new();
    let a = compile("func a() -> 1").expect("file");
    let b = compile("func b() -> 2").expect("file");
    codegen.gen_code(&a);
    assert_eq!(
        codegen.gen_code(&b),
        "func a() {\n\treturn 1\n}func b() {\n\treturn 2\n}"
    );
}

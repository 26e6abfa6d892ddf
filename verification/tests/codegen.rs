use graphol::ast::{
    ArithmeticOp, BlockLiteral, BooleanOp, ControlOp, Expr, LogicOp, NodeExpr, Program,
    ReservedToken,
};
use graphol::codegen::{
    generate_rust_source, push_module, push_nested_module, render_arithmetic_op, render_block,
    render_boolean_op, render_expr, render_logic_op, render_node, render_reserved_token,
    runtime_module_source, rust_string, strip_object_module_decls, RuntimeSources,
};
use std::rc::Rc;

fn text(chars: Vec<char>) -> String {
    chars.into_iter().collect()
}

fn ident(name: &str) -> NodeExpr {
    NodeExpr::Identifier(name.to_string())
}

fn sources() -> RuntimeSources {
    RuntimeSources {
        ast: "pub struct Program;\n".to_string(),
        host: "h1".to_string(),
        io: "i1\ni2".to_string(),
        value: "v1".to_string(),
        object: "pub mod x;\nmod object_commands;\nmod list_commands;\nmod list_object;\n   mod object_strategies;  \nfn o() {}".to_string(),
        object_commands: "oc".to_string(),
        list_commands: "lc".to_string(),
        list_object: "lo".to_string(),
        node_primitives: "np".to_string(),
        numeric_ops: "no".to_string(),
        strategy_predicates: "sp".to_string(),
        scope: "sc".to_string(),
        executor: "ex".to_string(),
    }
}

#[test]
fn rust_string_quotes_and_escapes() {
    assert_eq!(rust_string("plain"), "\"plain\"");
    assert_eq!(rust_string("a\"b\\c\n"), "\"a\\\"b\\\\c\\n\"");
}

#[test]
fn renders_operator_paths() {
    assert_eq!(render_arithmetic_op(ArithmeticOp::Xor), "ast::ArithmeticOp::Xor");
    assert_eq!(render_logic_op(LogicOp::Ge), "ast::LogicOp::Ge");
    assert_eq!(render_boolean_op(BooleanOp::Not), "ast::BooleanOp::Not");
    assert_eq!(
        render_reserved_token(ReservedToken::Arithmetic(ArithmeticOp::Add)),
        "ast::ReservedToken::Arithmetic(ast::ArithmeticOp::Add)"
    );
    assert_eq!(
        render_reserved_token(ReservedToken::Control(ControlOp::Continue)),
        "ast::ReservedToken::Control(ast::ControlOp::Continue)"
    );
}

#[test]
fn renders_nodes_and_expressions() {
    assert_eq!(
        render_node(&ident("x")),
        "ast::NodeExpr::Identifier(\"x\".to_string())"
    );
    assert_eq!(
        render_node(&NodeExpr::StringLiteral("say \"hi\"".to_string())),
        "ast::NodeExpr::StringLiteral(\"say \\\"hi\\\"\".to_string())"
    );
    let expr = Expr {
        nodes: vec![
            ident("echo"),
            NodeExpr::SubExpression(Box::new(Expr {
                nodes: vec![
                    ident("2"),
                    NodeExpr::Reserved(ReservedToken::Logic(LogicOp::Eq)),
                ],
            })),
        ],
    };
    assert_eq!(
        render_expr(&expr),
        "ast::Expr { nodes: vec![ast::NodeExpr::Identifier(\"echo\".to_string()), \
ast::NodeExpr::SubExpression(Box::new(ast::Expr { nodes: vec![ast::NodeExpr::Identifier(\"2\".to_string()), \
ast::NodeExpr::Reserved(ast::ReservedToken::Logic(ast::LogicOp::Eq))] }))] }"
    );
    assert_eq!(render_expr(&Expr { nodes: vec![] }), "ast::Expr { nodes: vec![] }");
}

#[test]
fn renders_blocks_with_their_id() {
    let block = BlockLiteral {
        id: 7,
        expressions: Rc::new(vec![Expr { nodes: vec![ident("a")] }, Expr { nodes: vec![] }]),
    };
    assert_eq!(
        render_block(&block),
        "ast::BlockLiteral { id: 7, expressions: std::rc::Rc::new(vec![ast::Expr { nodes: \
vec![ast::NodeExpr::Identifier(\"a\".to_string())] }, ast::Expr { nodes: vec![] }]) }"
    );
}

#[test]
fn wraps_modules_with_indentation() {
    let mut out: Vec<char> = Vec::new();
    push_module(&mut out, "m", "a\nb\n");
    assert_eq!(text(out), "mod m {\n    a\n    b\n}\n");
    let mut nested: Vec<char> = "x".chars().collect();
    push_nested_module(&mut nested, "n", "line", 2);
    assert_eq!(text(nested), "x        mod n {\n            line\n        }\n");
}

#[test]
fn strips_submodule_declarations() {
    let cleaned = strip_object_module_decls(
        "a\nmod object_commands;\n  mod object_strategies; \nmod list_commands;\n mod list_object;\nb\n",
    );
    assert_eq!(text(cleaned), "a\nb");
}

#[test]
fn assembles_runtime_module() {
    let module = text(runtime_module_source(&sources()));
    assert!(module.starts_with("mod runtime {\n    mod host {\n        h1\n    }\n"));
    assert!(module.contains("    mod io {\n        i1\n        i2\n    }\n"));
    assert!(module.contains("        pub use strategy_predicates::{new_boolean_operator, new_logic_operator};\n        }\n\n        pub mod x;\n        fn o() {}\n    }\n"));
    assert!(!module.contains("mod object_commands;"));
    assert!(!module.contains("mod list_commands;"));
    assert!(!module.contains("mod list_object;"));
    assert!(module.contains("        mod object_commands {\n            oc\n        }\n        mod list_commands {\n            lc\n        }\n        mod list_object {\n            lo\n        }\n        mod object_strategies {\n"));
    assert!(module.ends_with("    pub use executor::{RuntimeEngine, RuntimeError};\n}\n"));
}

#[test]
fn generates_program_source() {
    let program = Program {
        expressions: Rc::new(vec![Expr { nodes: vec![ident("echo"), NodeExpr::StringLiteral("hi".to_string())] }]),
    };
    let source = generate_rust_source(&program, &sources());
    assert!(source.starts_with("#![allow(clippy::all)]\n#![allow(dead_code)]\n\nmod ast {\n    pub struct Program;\n}\n\nmod runtime {\n"));
    assert!(source.contains(
        "fn build_program() -> ast::Program {\n    ast::Program {\n        expressions: std::rc::Rc::new(vec![\n            ast::Expr { nodes: vec![ast::NodeExpr::Identifier(\"echo\".to_string()), ast::NodeExpr::StringLiteral(\"hi\".to_string())] },\n        ]),\n    }\n}\n\n"
    ));
    assert!(source.ends_with(
        "fn main() {\n    let program = build_program();\n    let mut vm = runtime::RuntimeEngine::new(program, Box::new(runtime::StdIo));\n    if let Err(err) = vm.run() {\n        eprintln!(\"error: {}\", err);\n        std::process::exit(1);\n    }\n}\n"
    ));
}

//! Rendering a program as the Rust source of a standalone executable.
use std::rc::Rc;
use vstd::prelude::*;
use crate::ast::{
    ArithmeticOp, BlockLiteral, BooleanOp, ControlOp, Expr, LogicOp, NodeExpr, Program,
    ReservedToken,
};
use crate::text::{
    chars_of, decimal, decimal_chars, lines_of, push_all, push_str, split_lines, string_of, trim,
    trim_chars,
};

verus! {

/// How `{:?}` writes a string: quoted, with the escapes of `str`'s `Debug`.
pub uninterp spec fn debug_quoted(s: Seq<char>) -> Seq<char>;

/// The string `input` written as a Rust string literal, as `{:?}` writes it.
/// Calls `format!("{:?}", input)`, std's `Debug` of `str`; the contract
/// claims only that the result is `debug_quoted` of the input's characters,
/// a function of them alone. What those escapes are is left unsaid.
#[verifier::external_body]
pub fn rust_string(input: &str) -> (r: String)
    ensures
        r@ == debug_quoted(input@),
{
    format!("{:?}", input)
}

pub open spec fn arithmetic_text(op: ArithmeticOp) -> Seq<char> {
    match op {
        ArithmeticOp::Add => "ast::ArithmeticOp::Add"@,
        ArithmeticOp::Sub => "ast::ArithmeticOp::Sub"@,
        ArithmeticOp::Mul => "ast::ArithmeticOp::Mul"@,
        ArithmeticOp::Div => "ast::ArithmeticOp::Div"@,
        ArithmeticOp::Xor => "ast::ArithmeticOp::Xor"@,
    }
}

pub open spec fn logic_text(op: LogicOp) -> Seq<char> {
    match op {
        LogicOp::Eq => "ast::LogicOp::Eq"@,
        LogicOp::Ne => "ast::LogicOp::Ne"@,
        LogicOp::Gt => "ast::LogicOp::Gt"@,
        LogicOp::Lt => "ast::LogicOp::Lt"@,
        LogicOp::Ge => "ast::LogicOp::Ge"@,
        LogicOp::Le => "ast::LogicOp::Le"@,
    }
}

pub open spec fn boolean_text(op: BooleanOp) -> Seq<char> {
    match op {
        BooleanOp::And => "ast::BooleanOp::And"@,
        BooleanOp::Or => "ast::BooleanOp::Or"@,
        BooleanOp::Not => "ast::BooleanOp::Not"@,
        BooleanOp::Xor => "ast::BooleanOp::Xor"@,
    }
}

pub open spec fn control_text(op: ControlOp) -> Seq<char> {
    match op {
        ControlOp::Break => "ast::ControlOp::Break"@,
        ControlOp::Continue => "ast::ControlOp::Continue"@,
    }
}

pub open spec fn reserved_text(token: ReservedToken) -> Seq<char> {
    match token {
        ReservedToken::Arithmetic(op) => "ast::ReservedToken::Arithmetic("@ + arithmetic_text(op) + ")"@,
        ReservedToken::Logic(op) => "ast::ReservedToken::Logic("@ + logic_text(op) + ")"@,
        ReservedToken::Boolean(op) => "ast::ReservedToken::Boolean("@ + boolean_text(op) + ")"@,
        ReservedToken::Control(op) => "ast::ReservedToken::Control("@ + control_text(op) + ")"@,
    }
}

/// The Rust path of an arithmetic operator.
pub fn render_arithmetic_op(op: ArithmeticOp) -> (r: &'static str)
    ensures
        r@ == arithmetic_text(op),
{
    match op {
        ArithmeticOp::Add => "ast::ArithmeticOp::Add",
        ArithmeticOp::Sub => "ast::ArithmeticOp::Sub",
        ArithmeticOp::Mul => "ast::ArithmeticOp::Mul",
        ArithmeticOp::Div => "ast::ArithmeticOp::Div",
        ArithmeticOp::Xor => "ast::ArithmeticOp::Xor",
    }
}

/// The Rust path of a comparison operator.
pub fn render_logic_op(op: LogicOp) -> (r: &'static str)
    ensures
        r@ == logic_text(op),
{
    match op {
        LogicOp::Eq => "ast::LogicOp::Eq",
        LogicOp::Ne => "ast::LogicOp::Ne",
        LogicOp::Gt => "ast::LogicOp::Gt",
        LogicOp::Lt => "ast::LogicOp::Lt",
        LogicOp::Ge => "ast::LogicOp::Ge",
        LogicOp::Le => "ast::LogicOp::Le",
    }
}

/// The Rust path of a boolean operator.
pub fn render_boolean_op(op: BooleanOp) -> (r: &'static str)
    ensures
        r@ == boolean_text(op),
{
    match op {
        BooleanOp::And => "ast::BooleanOp::And",
        BooleanOp::Or => "ast::BooleanOp::Or",
        BooleanOp::Not => "ast::BooleanOp::Not",
        BooleanOp::Xor => "ast::BooleanOp::Xor",
    }
}

/// The Rust path of a control operator.
pub fn render_control_op(op: ControlOp) -> (r: &'static str)
    ensures
        r@ == control_text(op),
{
    match op {
        ControlOp::Break => "ast::ControlOp::Break",
        ControlOp::Continue => "ast::ControlOp::Continue",
    }
}

/// The Rust expression that builds `token`.
pub fn render_reserved_token(token: ReservedToken) -> (r: String)
    ensures
        r@ == reserved_text(token),
{
    let mut out: Vec<char> = Vec::new();
    match token {
        ReservedToken::Arithmetic(op) => {
            push_str(&mut out, "ast::ReservedToken::Arithmetic(");
            push_str(&mut out, render_arithmetic_op(op));
        },
        ReservedToken::Logic(op) => {
            push_str(&mut out, "ast::ReservedToken::Logic(");
            push_str(&mut out, render_logic_op(op));
        },
        ReservedToken::Boolean(op) => {
            push_str(&mut out, "ast::ReservedToken::Boolean(");
            push_str(&mut out, render_boolean_op(op));
        },
        ReservedToken::Control(op) => {
            push_str(&mut out, "ast::ReservedToken::Control(");
            push_str(&mut out, render_control_op(op));
        },
    }
    push_str(&mut out, ")");
    assert(out@ =~= reserved_text(token));
    string_of(&out)
}

/// `parts` joined with `sep` between them.
pub open spec fn join_with(parts: Seq<Seq<char>>, sep: Seq<char>) -> Seq<char>
    decreases parts.len(),
{
    if parts.len() == 0 {
        Seq::empty()
    } else if parts.len() == 1 {
        parts[0]
    } else {
        join_with(parts.drop_last(), sep) + sep + parts.last()
    }
}

/// The Rust expression that builds the expression `e`.
pub open spec fn expr_text(e: Expr) -> Seq<char>
    decreases e, 0nat,
{
    "ast::Expr { nodes: vec!["@ + nodes_text(e.nodes@) + "] }"@
}

/// The rendered nodes of `ns`, joined with `, `.
pub open spec fn nodes_text(ns: Seq<NodeExpr>) -> Seq<char>
    decreases ns, 1nat,
{
    if ns.len() == 0 {
        Seq::empty()
    } else if ns.len() == 1 {
        node_text(ns[0])
    } else {
        nodes_text(ns.drop_last()) + ", "@ + node_text(ns.last())
    }
}

/// The Rust expression that builds the node `n`.
pub open spec fn node_text(n: NodeExpr) -> Seq<char>
    decreases n, 0nat,
{
    match n {
        NodeExpr::Identifier(name) => string_node_text("Identifier"@, debug_quoted(name@)),
        NodeExpr::StringLiteral(text) => string_node_text("StringLiteral"@, debug_quoted(text@)),
        NodeExpr::BlockLiteral(b) => "ast::NodeExpr::BlockLiteral("@ + block_text(b) + ")"@,
        NodeExpr::SubExpression(e) => "ast::NodeExpr::SubExpression(Box::new("@ + expr_text(*e) + "))"@,
        NodeExpr::Reserved(t) => "ast::NodeExpr::Reserved("@ + reserved_text(t) + ")"@,
    }
}

/// The Rust expression that builds the block `b`.
pub open spec fn block_text(b: BlockLiteral) -> Seq<char>
    decreases b, 0nat,
{
    "ast::BlockLiteral { id: "@ + decimal(b.id as nat) + ", expressions: std::rc::Rc::new(vec!["@
        + exprs_text((*b.expressions)@) + "]) }"@
}

/// The rendered expressions of `es`, joined with `, `.
pub open spec fn exprs_text(es: Seq<Expr>) -> Seq<char>
    decreases es, 1nat,
{
    if es.len() == 0 {
        Seq::empty()
    } else if es.len() == 1 {
        expr_text(es[0])
    } else {
        exprs_text(es.drop_last()) + ", "@ + expr_text(es.last())
    }
}

/// The node of kind `variant` built from the quoted string `quoted`.
pub open spec fn string_node_text(variant: Seq<char>, quoted: Seq<char>) -> Seq<char> {
    "ast::NodeExpr::"@ + variant + "("@ + quoted + ".to_string())"@
}


/// The node of kind `variant` built from the already quoted string `quoted`.
pub fn render_string_node(variant: &str, quoted: &str) -> (r: String)
    ensures
        r@ == string_node_text(variant@, quoted@),
{
    let mut out: Vec<char> = Vec::new();
    push_str(&mut out, "ast::NodeExpr::");
    push_str(&mut out, variant);
    push_str(&mut out, "(");
    push_str(&mut out, quoted);
    push_str(&mut out, ".to_string())");
    assert(out@ =~= string_node_text(variant@, quoted@));
    string_of(&out)
}

/// The Rust expression that builds `expr`.
pub fn render_expr(expr: &Expr) -> (r: String)
    ensures
        r@ == expr_text(*expr),
    decreases *expr, 0nat,
{
    let mut out: Vec<char> = Vec::new();
    push_str(&mut out, "ast::Expr { nodes: vec![");
    let ghost head = out@;
    let mut i: usize = 0;
    while i < expr.nodes.len()
        invariant
            i <= expr.nodes.len(),
            out@ == head + nodes_text(expr.nodes@.take(i as int)),
        decreases expr.nodes.len() - i,
    {
        assert(decreases_to!(*expr => expr.nodes@[i as int]));
        let node = render_node(&expr.nodes[i]);
        if i > 0 {
            push_str(&mut out, ", ");
        }
        let nv = chars_of(node.as_str());
        push_all(&mut out, &nv);
        proof {
            let t = expr.nodes@.take(i + 1);
            assert(t.drop_last() == expr.nodes@.take(i as int));
            assert(t.last() == expr.nodes@[i as int]);
            if i == 0 {
                assert(t.len() == 1);
                assert(out@ =~= head + nodes_text(t));
            } else {
                assert(out@ =~= head + nodes_text(t));
            }
        }
        i += 1;
    }
    push_str(&mut out, "] }");
    assert(expr.nodes@.take(expr.nodes.len() as int) == expr.nodes@);
    assert(out@ =~= expr_text(*expr));
    string_of(&out)
}

/// The Rust expression that builds `node`.
pub fn render_node(node: &NodeExpr) -> (r: String)
    ensures
        r@ == node_text(*node),
    decreases *node, 0nat,
{
    match node {
        NodeExpr::Identifier(name) => render_string_node("Identifier", rust_string(name.as_str()).as_str()),
        NodeExpr::StringLiteral(text) => render_string_node("StringLiteral", rust_string(text.as_str()).as_str()),
        NodeExpr::BlockLiteral(block) => {
            let mut out: Vec<char> = Vec::new();
            push_str(&mut out, "ast::NodeExpr::BlockLiteral(");
            let b = render_block(block);
            push_str(&mut out, b.as_str());
            push_str(&mut out, ")");
            assert(out@ =~= node_text(*node));
            string_of(&out)
        },
        NodeExpr::SubExpression(sub) => {
            let mut out: Vec<char> = Vec::new();
            push_str(&mut out, "ast::NodeExpr::SubExpression(Box::new(");
            let e = render_expr(sub);
            push_str(&mut out, e.as_str());
            push_str(&mut out, "))");
            assert(out@ =~= node_text(*node));
            string_of(&out)
        },
        NodeExpr::Reserved(token) => {
            let mut out: Vec<char> = Vec::new();
            push_str(&mut out, "ast::NodeExpr::Reserved(");
            let t = render_reserved_token(*token);
            push_str(&mut out, t.as_str());
            push_str(&mut out, ")");
            assert(out@ =~= node_text(*node));
            string_of(&out)
        },
    }
}

/// The rendered expressions of `exprs`, joined with `, `.
fn render_exprs(exprs: &Vec<Expr>) -> (r: Vec<char>)
    ensures
        r@ == exprs_text(exprs@),
    decreases exprs@, 2nat,
{
    let mut out: Vec<char> = Vec::new();
    let mut i: usize = 0;
    while i < exprs.len()
        invariant
            i <= exprs.len(),
            out@ == exprs_text(exprs@.take(i as int)),
        decreases exprs.len() - i,
    {
        assert(decreases_to!(exprs@ => exprs@[i as int]));
        let e = render_expr(&exprs[i]);
        if i > 0 {
            push_str(&mut out, ", ");
        }
        push_str(&mut out, e.as_str());
        proof {
            let t = exprs@.take(i + 1);
            assert(t.drop_last() == exprs@.take(i as int));
            assert(t.last() == exprs@[i as int]);
            if i == 0 {
                assert(t.len() == 1);
                assert(out@ =~= exprs_text(t));
            } else {
                assert(out@ =~= exprs_text(t));
            }
        }
        i += 1;
    }
    assert(exprs@.take(exprs.len() as int) == exprs@);
    out
}

/// The Rust expression that builds `block`.
pub fn render_block(block: &BlockLiteral) -> (r: String)
    ensures
        r@ == block_text(*block),
    decreases *block, 0nat,
{
    let mut out: Vec<char> = Vec::new();
    push_str(&mut out, "ast::BlockLiteral { id: ");
    let digits = decimal_chars(block.id);
    push_all(&mut out, &digits);
    push_str(&mut out, ", expressions: std::rc::Rc::new(vec![");
    let exprs: &Vec<Expr> = &block.expressions;
    assert(decreases_to!(*block => (*block.expressions)@));
    let inner = render_exprs(exprs);
    push_all(&mut out, &inner);
    push_str(&mut out, "]) }");
    assert(out@ =~= block_text(*block));
    string_of(&out)
}


// ---------------------------------------------------------------------------
// Modules

/// `levels` steps of four spaces.
pub open spec fn indent(levels: nat) -> Seq<char>
    decreases levels,
{
    if levels == 0 {
        Seq::empty()
    } else {
        indent((levels - 1) as nat) + "    "@
    }
}

/// Each line of `ls` written after `ind` and followed by a line feed.
pub open spec fn indented_lines(ls: Seq<Seq<char>>, ind: Seq<char>) -> Seq<char>
    decreases ls.len(),
{
    if ls.len() == 0 {
        Seq::empty()
    } else {
        indented_lines(ls.drop_last(), ind) + ind + ls.last() + "\n"@
    }
}

/// `body` wrapped in `mod name { ... }`, indented by `levels` steps.
pub open spec fn module_text(name: Seq<char>, body: Seq<char>, levels: nat) -> Seq<char> {
    indent(levels) + "mod "@ + name + " {\n"@ + indented_lines(lines_of(body), indent(levels) + "    "@)
        + indent(levels) + "}\n"@
}

fn indent_chars(levels: usize) -> (r: Vec<char>)
    ensures
        r@ == indent(levels as nat),
{
    let mut r: Vec<char> = Vec::new();
    let mut i: usize = 0;
    while i < levels
        invariant
            i <= levels,
            r@ == indent(i as nat),
        decreases levels - i,
    {
        push_str(&mut r, "    ");
        i += 1;
    }
    r
}

/// Appends each line of `lines` after `ind`, each followed by a line feed.
fn push_indented_lines(target: &mut Vec<char>, lines: &Vec<Vec<char>>, ind: &Vec<char>)
    ensures
        final(target)@ == old(target)@ + indented_lines(lines@.map_values(|l: Vec<char>| l@), ind@),
{
    let ghost ls = lines@.map_values(|l: Vec<char>| l@);
    let mut i: usize = 0;
    while i < lines.len()
        invariant
            i <= lines.len(),
            ls == lines@.map_values(|l: Vec<char>| l@),
            target@ == old(target)@ + indented_lines(ls.take(i as int), ind@),
        decreases lines.len() - i,
    {
        push_all(target, ind);
        push_all(target, &lines[i]);
        push_str(target, "\n");
        proof {
            let t = ls.take(i + 1);
            assert(t.drop_last() == ls.take(i as int));
            assert(t.last() == lines@[i as int]@);
            assert(target@ =~= old(target)@ + indented_lines(t, ind@));
        }
        i += 1;
    }
    assert(ls.take(lines.len() as int) == ls);
}

/// Appends `body` wrapped in `mod name { ... }`, indented by
/// `indentation_levels` steps.
pub fn push_nested_module(target: &mut Vec<char>, name: &str, body: &str, indentation_levels: usize)
    ensures
        final(target)@ == old(target)@ + module_text(name@, body@, indentation_levels as nat),
{
    let ind = indent_chars(indentation_levels);
    let mut inner = indent_chars(indentation_levels);
    push_str(&mut inner, "    ");
    push_all(target, &ind);
    push_str(target, "mod ");
    push_str(target, name);
    push_str(target, " {\n");
    let lines = split_lines(&chars_of(body));
    proof {
        assert(lines@.map_values(|l: Vec<char>| l@) =~= lines_of(body@));
    }
    push_indented_lines(target, &lines, &inner);
    push_all(target, &ind);
    push_str(target, "}\n");
    assert(target@ =~= old(target)@ + module_text(name@, body@, indentation_levels as nat));
}

/// Appends `body` wrapped in `mod name { ... }`.
pub fn push_module(target: &mut Vec<char>, name: &str, body: &str)
    ensures
        final(target)@ == old(target)@ + module_text(name@, body@, 0),
{
    push_nested_module(target, name, body, 0);
}

/// Whether a line of the object module is one of the submodule
/// declarations that the assembled runtime replaces with the modules
/// themselves.
pub open spec fn is_submodule_decl(line: Seq<char>) -> bool {
    ||| trim(line) == "mod object_commands;"@
    ||| trim(line) == "mod list_commands;"@
    ||| trim(line) == "mod list_object;"@
    ||| trim(line) == "mod object_strategies;"@
}

/// The lines of `ls` that are not submodule declarations.
pub open spec fn kept_lines(ls: Seq<Seq<char>>) -> Seq<Seq<char>>
    decreases ls.len(),
{
    if ls.len() == 0 {
        Seq::empty()
    } else if is_submodule_decl(ls.last()) {
        kept_lines(ls.drop_last())
    } else {
        kept_lines(ls.drop_last()).push(ls.last())
    }
}

fn same_as_str(a: &Vec<char>, b: &str) -> (r: bool)
    ensures
        r == (a@ == b@),
{
    let bv = chars_of(b);
    if a.len() != bv.len() {
        return false;
    }
    let mut i: usize = 0;
    while i < a.len()
        invariant
            a.len() == bv.len(),
            bv@ == b@,
            i <= a.len(),
            forall|k: int| 0 <= k < i ==> a@[k] == bv@[k],
        decreases a.len() - i,
    {
        if a[i] != bv[i] {
            return false;
        }
        i += 1;
    }
    assert(a@ == bv@);
    true
}

/// `source` without the lines that declare the `object_commands`,
/// `list_commands`, `list_object` and `object_strategies` submodules, its
/// lines joined with line feeds.
pub fn strip_object_module_decls(source: &str) -> (r: Vec<char>)
    ensures
        r@ == join_with(kept_lines(lines_of(source@)), "\n"@),
{
    let lines = split_lines(&chars_of(source));
    let ghost ls = lines@.map_values(|l: Vec<char>| l@);
    proof {
        assert(ls =~= lines_of(source@));
    }
    let mut out: Vec<char> = Vec::new();
    let mut any = false;
    let mut i: usize = 0;
    while i < lines.len()
        invariant
            i <= lines.len(),
            ls == lines@.map_values(|l: Vec<char>| l@),
            any == (kept_lines(ls.take(i as int)).len() > 0),
            out@ == join_with(kept_lines(ls.take(i as int)), "\n"@),
        decreases lines.len() - i,
    {
        let t = trim_chars(&lines[i]);
        let drop = same_as_str(&t, "mod object_commands;") || same_as_str(&t, "mod list_commands;")
            || same_as_str(&t, "mod list_object;") || same_as_str(&t, "mod object_strategies;");
        proof {
            let tk = ls.take(i + 1);
            assert(tk.drop_last() == ls.take(i as int));
            assert(tk.last() == lines@[i as int]@);
        }
        if !drop {
            if any {
                push_str(&mut out, "\n");
            }
            push_all(&mut out, &lines[i]);
            proof {
                let k = kept_lines(ls.take(i as int));
                let k2 = k.push(lines@[i as int]@);
                assert(k2.drop_last() == k);
                if !any {
                    assert(k2.len() == 1);
                    assert(out@ =~= join_with(k2, "\n"@));
                } else {
                    assert(out@ =~= join_with(k2, "\n"@));
                }
            }
            any = true;
        }
        i += 1;
    }
    assert(ls.take(lines.len() as int) == ls);
    out
}

/// The source texts the generated program's runtime module is built from.
pub struct RuntimeSources {
    pub ast: String,
    pub host: String,
    pub io: String,
    pub value: String,
    pub object: String,
    pub object_commands: String,
    pub list_commands: String,
    pub list_object: String,
    pub node_primitives: String,
    pub numeric_ops: String,
    pub strategy_predicates: String,
    pub scope: String,
    pub executor: String,
}

/// The `runtime` module of the generated program, assembled from `src`.
pub open spec fn runtime_module_text(src: RuntimeSources) -> Seq<char> {
    "mod runtime {\n"@ + module_text("host"@, src.host@, 1) + module_text("io"@, src.io@, 1)
        + module_text("value"@, src.value@, 1) + "    pub mod object {\n"@
        + module_text("object_commands"@, src.object_commands@, 2)
        + module_text("list_commands"@, src.list_commands@, 2)
        + module_text("list_object"@, src.list_object@, 2)
        + "        mod object_strategies {\n"@ + "            mod strategy_core {\n"@
        + module_text("node_primitives"@, src.node_primitives@, 4)
        + module_text("numeric_ops"@, src.numeric_ops@, 4)
        + "                pub use node_primitives::{new_node, new_string};\n"@
        + "                pub use numeric_ops::{new_number, new_operator};\n"@
        + "            }\n"@
        + module_text("strategy_predicates"@, src.strategy_predicates@, 3)
        + "            pub use strategy_core::{new_node, new_number, new_operator, new_string};\n"@
        + "            pub use strategy_predicates::{new_boolean_operator, new_logic_operator};\n"@
        + "        }\n\n"@
        + indented_lines(lines_of(join_with(kept_lines(lines_of(src.object@)), "\n"@)), indent(2))
        + "    }\n"@ + module_text("scope"@, src.scope@, 1)
        + module_text("executor"@, src.executor@, 1)
        + "    pub use io::{OutputEvent, OutputMode, RuntimeIo, StdIo, TestIo};\n"@
        + "    pub use executor::{RuntimeEngine, RuntimeError};\n"@ + "}\n"@
}

/// Assembles the generated program's `runtime` module from `src`.
pub fn runtime_module_source(src: &RuntimeSources) -> (r: Vec<char>)
    ensures
        r@ == runtime_module_text(*src),
{
    let mut out: Vec<char> = Vec::new();
    push_str(&mut out, "mod runtime {\n");
    push_nested_module(&mut out, "host", src.host.as_str(), 1);
    push_nested_module(&mut out, "io", src.io.as_str(), 1);
    push_nested_module(&mut out, "value", src.value.as_str(), 1);
    push_str(&mut out, "    pub mod object {\n");
    push_nested_module(&mut out, "object_commands", src.object_commands.as_str(), 2);
    push_nested_module(&mut out, "list_commands", src.list_commands.as_str(), 2);
    push_nested_module(&mut out, "list_object", src.list_object.as_str(), 2);
    push_str(&mut out, "        mod object_strategies {\n");
    push_str(&mut out, "            mod strategy_core {\n");
    push_nested_module(&mut out, "node_primitives", src.node_primitives.as_str(), 4);
    push_nested_module(&mut out, "numeric_ops", src.numeric_ops.as_str(), 4);
    push_str(&mut out, "                pub use node_primitives::{new_node, new_string};\n");
    push_str(&mut out, "                pub use numeric_ops::{new_number, new_operator};\n");
    push_str(&mut out, "            }\n");
    push_nested_module(&mut out, "strategy_predicates", src.strategy_predicates.as_str(), 3);
    push_str(
        &mut out,
        "            pub use strategy_core::{new_node, new_number, new_operator, new_string};\n",
    );
    push_str(
        &mut out,
        "            pub use strategy_predicates::{new_boolean_operator, new_logic_operator};\n",
    );
    push_str(&mut out, "        }\n\n");
    let cleaned = strip_object_module_decls(src.object.as_str());
    let lines = split_lines(&cleaned);
    let ind = indent_chars(2);
    proof {
        assert(lines@.map_values(|l: Vec<char>| l@) =~= lines_of(cleaned@));
    }
    push_indented_lines(&mut out, &lines, &ind);
    push_str(&mut out, "    }\n");
    push_nested_module(&mut out, "scope", src.scope.as_str(), 1);
    push_nested_module(&mut out, "executor", src.executor.as_str(), 1);
    push_str(&mut out, "    pub use io::{OutputEvent, OutputMode, RuntimeIo, StdIo, TestIo};\n");
    push_str(&mut out, "    pub use executor::{RuntimeEngine, RuntimeError};\n");
    push_str(&mut out, "}\n");
    assert(out@ =~= runtime_module_text(*src));
    out
}


/// Each expression of `es` rendered on a line of its own, indented by three
/// steps and followed by a comma.
pub open spec fn program_lines(es: Seq<Expr>) -> Seq<char>
    decreases es.len(),
{
    if es.len() == 0 {
        Seq::empty()
    } else {
        program_lines(es.drop_last()) + indent(3) + expr_text(es.last()) + ",\n"@
    }
}

/// The program's lines come in program order: the lines of two runs of
/// expressions one after the other are the lines of the first run
/// followed by those of the second, and a single expression gives its
/// own rendering on one indented line.
pub proof fn law_program_lines_keep_order(a: Seq<Expr>, b: Seq<Expr>, e: Expr)
    ensures
        program_lines(a + b) == program_lines(a) + program_lines(b),
        program_lines(seq![e]) == indent(3) + expr_text(e) + ",\n"@,
    decreases b.len(),
{
    assert(seq![e].drop_last() =~= Seq::<Expr>::empty());
    assert(seq![e].last() == e);
    assert(program_lines(Seq::<Expr>::empty()) == Seq::<char>::empty());
    assert(program_lines(seq![e]) == program_lines(seq![e].drop_last()) + indent(3) + expr_text(e) + ",\n"@);
    assert(Seq::<char>::empty() + indent(3) + expr_text(e) + ",\n"@ =~= indent(3) + expr_text(e) + ",\n"@);
    if b.len() == 0 {
        assert(a + b =~= a);
        assert(program_lines(a) + Seq::<char>::empty() =~= program_lines(a));
    } else {
        law_program_lines_keep_order(a, b.drop_last(), e);
        assert((a + b).drop_last() =~= a + b.drop_last());
        assert((a + b).last() == b.last());
        assert(program_lines(a + b) =~= program_lines(a) + program_lines(b));
    }
}

/// The Rust source of a standalone program that runs `program` on the
/// runtime assembled from `src`.
pub open spec fn program_text(program: Program, src: RuntimeSources) -> Seq<char> {
    "#![allow(clippy::all)]\n#![allow(dead_code)]\n\n"@ + module_text("ast"@, src.ast@, 0) + "\n"@
        + runtime_module_text(src) + "\n"@ + "fn build_program() -> ast::Program {\n"@
        + "    ast::Program {\n"@ + "        expressions: std::rc::Rc::new(vec![\n"@
        + program_lines((*program.expressions)@) + "        ]),\n"@ + "    }\n"@ + "}\n\n"@
        + "fn main() {\n"@ + "    let program = build_program();\n"@
        + "    let mut vm = runtime::RuntimeEngine::new(program, Box::new(runtime::StdIo));\n"@
        + "    if let Err(err) = vm.run() {\n"@ + "        eprintln!(\"error: {}\", err);\n"@
        + "        std::process::exit(1);\n"@ + "    }\n"@ + "}\n"@
}

/// The Rust source of a standalone program that runs `program` on the
/// runtime assembled from `src`.
#[verifier::rlimit(50)]
#[verifier::spinoff_prover]
pub fn generate_rust_source(program: &Program, src: &RuntimeSources) -> (r: String)
    ensures
        r@ == program_text(*program, *src),
{
    let mut out: Vec<char> = Vec::new();
    push_str(&mut out, "#![allow(clippy::all)]\n#![allow(dead_code)]\n\n");
    push_module(&mut out, "ast", src.ast.as_str());
    push_str(&mut out, "\n");
    let runtime = runtime_module_source(src);
    push_all(&mut out, &runtime);
    push_str(&mut out, "\n");
    push_str(&mut out, "fn build_program() -> ast::Program {\n");
    push_str(&mut out, "    ast::Program {\n");
    push_str(&mut out, "        expressions: std::rc::Rc::new(vec![\n");
    let exprs: &Vec<Expr> = &program.expressions;
    let ghost head = out@;
    let mut i: usize = 0;
    while i < exprs.len()
        invariant
            i <= exprs.len(),
            out@ == head + program_lines(exprs@.take(i as int)),
        decreases exprs.len() - i,
    {
        let ind = indent_chars(3);
        push_all(&mut out, &ind);
        let e = render_expr(&exprs[i]);
        push_str(&mut out, e.as_str());
        push_str(&mut out, ",\n");
        proof {
            let t = exprs@.take(i + 1);
            assert(t.drop_last() == exprs@.take(i as int));
            assert(t.last() == exprs@[i as int]);
            assert(out@ =~= head + program_lines(t));
        }
        i += 1;
    }
    assert(exprs@.take(exprs.len() as int) == exprs@);
    push_str(&mut out, "        ]),\n");
    push_str(&mut out, "    }\n");
    push_str(&mut out, "}\n\n");
    push_str(&mut out, "fn main() {\n");
    push_str(&mut out, "    let program = build_program();\n");
    push_str(
        &mut out,
        "    let mut vm = runtime::RuntimeEngine::new(program, Box::new(runtime::StdIo));\n",
    );
    push_str(&mut out, "    if let Err(err) = vm.run() {\n");
    push_str(&mut out, "        eprintln!(\"error: {}\", err);\n");
    push_str(&mut out, "        std::process::exit(1);\n");
    push_str(&mut out, "    }\n");
    push_str(&mut out, "}\n");
    assert(out@ =~= program_text(*program, *src));
    string_of(&out)
}

} // verus!

use graphol::ast::{BlockLiteral, ControlOp, Expr, NodeExpr, Program, ReservedToken};
use graphol::runtime::engine::{control_from_expression, parse_literal, reserved_to_object, RuntimeEngine};
use graphol::runtime::eval::LoopControl;
use graphol::runtime::number::is_number_word;
use graphol::runtime::object::{
    BlockSnapshot, end_object, ensure_node_value, exec_object, list_target, message_kind, new_list, new_list_get,
    new_list_len, new_list_pop, new_list_push, new_list_set, new_node, new_string, receive_object,
    Heap,
};
use graphol::runtime::scope::{Scope, Scopes};
use graphol::runtime::value::{MessageKind, ModeCells, ObjectRef, OutputMode, ScopeRef, StdoutState, Value};
use std::rc::Rc;

fn text(heap: &Heap, o: ObjectRef) -> String {
    heap.text_of(o, heap.len()).into_iter().collect()
}

fn kind(heap: &Heap, o: ObjectRef) -> String {
    heap.type_of(o, heap.len()).into_iter().collect()
}

fn num(t: &str) -> Value {
    Value::Number(t.to_string())
}

fn txt(t: &str) -> Value {
    Value::Text(t.to_string())
}

fn ident(name: &str) -> NodeExpr {
    NodeExpr::Identifier(name.to_string())
}

fn expr(nodes: Vec<NodeExpr>) -> Expr {
    Expr { nodes }
}

fn engine(expressions: Vec<Expr>) -> RuntimeEngine {
    RuntimeEngine::new(Program { expressions: Rc::new(expressions) })
}

#[test]
fn list_commands_push_pop_get_set_and_len() {
    let mut heap = Heap::new();
    let list = new_list(&mut heap);
    let push = new_list_push(&mut heap);
    receive_object(&mut heap, push, Value::Obj(list));
    receive_object(&mut heap, push, num("3"));
    receive_object(&mut heap, push, txt("a"));
    assert_eq!(text(&heap, list), "[3, \"a\"]");

    let pop = new_list_pop(&mut heap);
    receive_object(&mut heap, pop, Value::Obj(list));
    assert_eq!(text(&heap, pop), "a");
    assert_eq!(text(&heap, list), "[3]");

    let get = new_list_get(&mut heap);
    receive_object(&mut heap, get, Value::Obj(list));
    receive_object(&mut heap, get, num("0"));
    assert_eq!(text(&heap, get), "3");

    let set = new_list_set(&mut heap);
    receive_object(&mut heap, set, Value::Obj(list));
    receive_object(&mut heap, set, num("0"));
    receive_object(&mut heap, set, txt("say \"x\""));
    assert_eq!(text(&heap, list), "[\"say \\\"x\\\"\"]");

    let len = new_list_len(&mut heap);
    receive_object(&mut heap, len, Value::Obj(list));
    assert_eq!(text(&heap, len), "1");
    assert_eq!(heap.list_len(list, heap.len()), Some(1));
}

#[test]
fn ending_a_message_resets_list_commands() {
    let mut heap = Heap::new();
    let list = new_list(&mut heap);
    let push = new_list_push(&mut heap);
    receive_object(&mut heap, push, Value::Obj(list));
    receive_object(&mut heap, push, num("1"));
    end_object(&mut heap, push);
    receive_object(&mut heap, push, num("2"));
    assert_eq!(text(&heap, list), "[1]");
    exec_object(&mut heap, push);
    assert_eq!(text(&heap, list), "[1]");
}

#[test]
fn out_of_range_list_index_reads_null() {
    let mut heap = Heap::new();
    let list = new_list(&mut heap);
    let get = new_list_get(&mut heap);
    receive_object(&mut heap, get, Value::Obj(list));
    receive_object(&mut heap, get, num("4"));
    assert_eq!(text(&heap, get), "");
    assert!(!heap.truth_of(get, heap.len()));
}

#[test]
fn node_takes_its_kind_from_the_first_value() {
    let mut heap = Heap::new();
    let words = new_node(&mut heap);
    receive_object(&mut heap, words, txt("ab"));
    receive_object(&mut heap, words, txt("cd"));
    receive_object(&mut heap, words, num("5"));
    assert_eq!(kind(&heap, words), "text");
    assert_eq!(text(&heap, words), "abcd5");

    let n = new_node(&mut heap);
    receive_object(&mut heap, n, num("12"));
    receive_object(&mut heap, n, txt("ignored"));
    assert_eq!(kind(&heap, n), "number");
    assert_eq!(heap.number_of(n, heap.len()).into_iter().collect::<String>(), "12");

    let flag = new_node(&mut heap);
    receive_object(&mut heap, flag, Value::Bool(true));
    assert!(heap.truth_of(flag, heap.len()));
    receive_object(&mut heap, flag, Value::Bool(false));
    assert_eq!(kind(&heap, flag), "boolean");
    assert!(!heap.truth_of(flag, heap.len()));

    let shared = new_node(&mut heap);
    let list = new_list(&mut heap);
    receive_object(&mut heap, shared, Value::Obj(list));
    receive_object(&mut heap, shared, num("7"));
    assert_eq!(kind(&heap, shared), "list");
    assert_eq!(text(&heap, list), "[7]");
}

#[test]
fn strings_and_node_values() {
    let mut heap = Heap::new();
    let s = new_string(&mut heap, "hi".to_string());
    assert_eq!(text(&heap, s), "hi");
    let n = ensure_node_value(&mut heap, Value::Bool(false));
    assert_eq!(kind(&heap, n), "boolean");
    let wrapped = ensure_node_value(&mut heap, Value::Obj(s));
    assert_ne!(wrapped, s);
    assert_eq!(kind(&heap, wrapped), "text");
    assert_eq!(text(&heap, wrapped), "hi");
}

#[test]
fn scopes_bind_builtins_and_fall_back_on_parents() {
    let mut heap = Heap::new();
    let mut scopes = Scopes::new();
    let mut modes = ModeCells::new();
    let stdout = StdoutState::new(&mut modes);
    let root = Scope::new(&mut scopes, &mut heap, None, stdout.clone_ref());
    assert_eq!(root, ScopeRef(0));
    for name in ["input", "run", "stdout", "echo", "async", "if", "else", "while"] {
        assert!(Scope::find(&scopes, root, name).is_some(), "{} should be bound", name);
    }
    for name in ["list_push", "list_pop", "list_get", "list_set", "list_len"] {
        assert!(Scope::find(&scopes, root, name).is_some(), "{} should be bound", name);
    }
    let run = Scope::find(&scopes, root, "run").expect("run is bound");
    assert_eq!(message_kind(&heap, &Value::Obj(run)), Some(MessageKind::Run));
    let echo = Scope::find(&scopes, root, "echo").expect("echo is bound");
    assert_eq!(kind(&heap, echo), "command");
    let w = Scope::find(&scopes, root, "while").expect("while is bound");
    assert_eq!(kind(&heap, w), "whileCommand");

    assert_eq!(Scope::find(&scopes, root, "x"), None);
    let x = Scope::get(&mut scopes, &mut heap, root, "x");
    assert_eq!(Scope::find(&scopes, root, "x"), Some(x));
    assert_eq!(Scope::get(&mut scopes, &mut heap, root, "x"), x);

    let child = Scope::new(&mut scopes, &mut heap, Some(root), stdout.clone_ref());
    assert_eq!(Scope::find(&scopes, child, "x"), Some(x));
    let y = new_node(&mut heap);
    Scope::set(&mut scopes, child, "x", y);
    assert_eq!(Scope::find(&scopes, child, "x"), Some(y));
    assert_eq!(Scope::find(&scopes, root, "x"), Some(x));
    let child_run = Scope::find(&scopes, child, "run").expect("run is bound");
    assert_ne!(child_run, run);
}

#[test]
fn list_target_and_message_kind_of_values() {
    let mut heap = Heap::new();
    let list = new_list(&mut heap);
    let node = new_node(&mut heap);
    receive_object(&mut heap, node, Value::Obj(list));
    assert_eq!(list_target(&heap, &Value::Obj(node)), Some(node));
    assert_eq!(list_target(&heap, &num("1")), None);
    assert_eq!(message_kind(&heap, &txt("run")), None);
}

#[test]
fn literals_are_booleans_and_numbers() {
    assert!(matches!(parse_literal("true"), Some(Value::Bool(true))));
    assert!(matches!(parse_literal("false"), Some(Value::Bool(false))));
    match parse_literal("-12.5e3") {
        Some(Value::Number(t)) => assert_eq!(t, "-12.5e3"),
        _ => panic!("a number was expected"),
    }
    assert!(matches!(parse_literal("inf"), Some(Value::Number(_))));
    assert!(matches!(parse_literal("NaN"), Some(Value::Number(_))));
    assert!(parse_literal("abc").is_none());
    assert!(parse_literal("1e").is_none());
    assert!(parse_literal("").is_none());
    assert!(is_number_word(&".5".chars().collect()));
    assert!(is_number_word(&"+3.".chars().collect()));
    assert!(!is_number_word(&".".chars().collect()));
    assert!(!is_number_word(&"1_000".chars().collect()));
}

#[test]
fn control_words_are_only_standalone() {
    let mut heap = Heap::new();
    let err = reserved_to_object(&mut heap, ReservedToken::Control(ControlOp::Break))
        .expect_err("control words make no object");
    assert_eq!(err.message, "'break' must be used as a standalone expression");
    assert_eq!(heap.len(), 0);
    let brk = expr(vec![NodeExpr::Reserved(ReservedToken::Control(ControlOp::Break))]);
    assert_eq!(control_from_expression(&brk), Some(LoopControl::Break));
    assert_eq!(control_from_expression(&expr(vec![ident("x")])), None);
    assert_eq!(LoopControl::Continue.keyword(), "continue");
}

#[test]
fn stdout_state_switches_mode() {
    let mut cells = ModeCells::new();
    let state = StdoutState::new(&mut cells);
    assert_eq!(state.mode(&cells), OutputMode::Alert);
    let clone = state.clone_ref();
    clone.set_mode(&mut cells, OutputMode::Console);
    assert_eq!(state.mode(&cells), OutputMode::Console);
    assert_eq!(clone.mode(&cells), OutputMode::Console);
    state.set_mode(&mut cells, OutputMode::Alert);
    assert_eq!(clone.mode(&cells), OutputMode::Alert);
    let other = StdoutState::new(&mut cells);
    other.set_mode(&mut cells, OutputMode::Console);
    assert_eq!(state.mode(&cells), OutputMode::Alert);
    assert_eq!(cells.len(), 2);
}

#[test]
fn engine_runs_assignments() {
    let mut vm = engine(vec![
        expr(vec![ident("x"), NodeExpr::StringLiteral("hello".to_string())]),
        expr(vec![ident("x"), NodeExpr::StringLiteral(" world".to_string())]),
        expr(vec![ident("n"), ident("42")]),
    ]);
    vm.run().expect("program runs");
    assert!(vm.outputs().is_empty());
    let x = Scope::find(vm.scopes(), ScopeRef(0), "x").expect("x is bound");
    assert_eq!(text(vm.heap(), x), "hello world");
    let n = Scope::find(vm.scopes(), ScopeRef(0), "n").expect("n is bound");
    assert_eq!(kind(vm.heap(), n), "number");
}

#[test]
fn engine_rejects_loop_control_outside_while() {
    let mut vm = engine(vec![expr(vec![NodeExpr::Reserved(ReservedToken::Control(ControlOp::Continue))])]);
    let err = vm.run().expect_err("continue outside a loop fails");
    assert_eq!(err.message, "'continue' can only be used inside while body");

    let mut vm = engine(vec![expr(vec![
        ident("x"),
        NodeExpr::Reserved(ReservedToken::Control(ControlOp::Break)),
    ])]);
    let err = vm.run().expect_err("break as a message fails");
    assert_eq!(err.message, "'break' must be used as a standalone expression");
}

#[test]
fn engine_while_stops_on_false_and_on_break() {
    let mut vm = engine(vec![expr(vec![ident("while"), ident("false"), ident("body")])]);
    vm.run().expect("a false condition ends the loop");

    let brk = expr(vec![NodeExpr::Reserved(ReservedToken::Control(ControlOp::Break))]);
    let mut vm = engine(vec![expr(vec![
        ident("while"),
        ident("true"),
        NodeExpr::SubExpression(Box::new(brk)),
    ])]);
    vm.run().expect("break ends the loop");
}

#[test]
fn engine_records_outputs() {
    let mut vm = engine(vec![]);
    vm.emit_output(OutputMode::Console, "24");
    assert_eq!(vm.outputs().len(), 1);
    assert_eq!(vm.outputs()[0].value, "24");
    assert_eq!(vm.outputs()[0].mode, OutputMode::Console);
    vm.run().expect("an empty program runs");
    assert!(vm.outputs().is_empty());
}

#[test]
fn lists_show_the_objects_they_hold() {
    let mut heap = Heap::new();
    let inner = new_list(&mut heap);
    let words = new_string(&mut heap, "w".to_string());
    let outer = new_list(&mut heap);
    receive_object(&mut heap, inner, Value::Bool(true));
    receive_object(&mut heap, outer, Value::Obj(inner));
    receive_object(&mut heap, outer, Value::Obj(words));
    receive_object(&mut heap, outer, Value::Null);
    assert_eq!(text(&heap, outer), "[[true], w, null]");
}

#[test]
fn a_failing_expression_stops_the_program() {
    let mut vm = engine(vec![
        expr(vec![ident("x"), NodeExpr::StringLiteral("a".to_string())]),
        expr(vec![NodeExpr::Reserved(ReservedToken::Control(ControlOp::Break))]),
        expr(vec![ident("y"), NodeExpr::StringLiteral("b".to_string())]),
    ]);
    assert!(vm.run().is_err());
    assert!(Scope::find(vm.scopes(), ScopeRef(0), "x").is_some());
    assert_eq!(Scope::find(vm.scopes(), ScopeRef(0), "y"), None);
}

#[test]
fn an_async_block_gets_a_scope_with_its_inbox() {
    let mut vm = engine(vec![expr(vec![ident("outer"), NodeExpr::StringLiteral("o".to_string())])]);
    vm.run().expect("program runs");
    let outer = Scope::find(vm.scopes(), ScopeRef(0), "outer").expect("outer is bound");
    let scopes_before = vm.scopes().len();
    let inbox = outer;
    vm.call_block(BlockSnapshot {
        id: 1,
        expressions: Rc::new(vec![]),
        parent_scope: ScopeRef(0),
        inbox,
        is_async: true,
    });
    let child = ScopeRef(scopes_before);
    assert_eq!(vm.scopes().len(), scopes_before + 1);
    assert_eq!(Scope::find(vm.scopes(), child, "inbox"), Some(inbox));
    assert_eq!(Scope::find(vm.scopes(), child, "outer"), Some(outer));
    assert_ne!(Scope::find(vm.scopes(), child, "echo"), Scope::find(vm.scopes(), ScopeRef(0), "echo"));
}

fn block(id: usize, body: Vec<Expr>) -> NodeExpr {
    NodeExpr::BlockLiteral(BlockLiteral { id, expressions: Rc::new(body) })
}

#[test]
fn run_sent_to_a_block_runs_its_body_with_the_inbox() {
    let body = vec![
        expr(vec![ident("x"), ident("inbox")]),
        expr(vec![ident("seen"), NodeExpr::StringLiteral("ran".to_string())]),
    ];
    let mut vm = engine(vec![
        expr(vec![ident("double"), block(1, body)]),
        expr(vec![ident("number"), ident("5")]),
        expr(vec![ident("double"), ident("number"), ident("run")]),
    ]);
    vm.run().expect("program runs");
    assert_eq!(vm.scopes().len(), 2);
    let child = ScopeRef(1);
    let x = Scope::find(vm.scopes(), child, "x").expect("x is bound in the block's scope");
    assert_eq!(kind(vm.heap(), x), "number");
    assert_eq!(vm.heap().number_of(x, vm.heap().len()).into_iter().collect::<String>(), "5");
    let seen = Scope::find(vm.scopes(), child, "seen").expect("the body ran");
    assert_eq!(text(vm.heap(), seen), "ran");
    assert_eq!(Scope::find(vm.scopes(), ScopeRef(0), "seen"), None);
}

#[test]
fn async_run_and_repeated_runs_each_get_a_scope() {
    let body = vec![expr(vec![ident("hit"), NodeExpr::StringLiteral("h".to_string())])];
    let mut vm = engine(vec![
        expr(vec![ident("b"), block(2, body)]),
        expr(vec![ident("b"), ident("async"), ident("run")]),
        expr(vec![ident("b"), ident("run")]),
    ]);
    vm.run().expect("program runs");
    assert_eq!(vm.scopes().len(), 3);
    for s in [1, 2] {
        let hit = Scope::find(vm.scopes(), ScopeRef(s), "hit").expect("each run binds hit");
        assert_eq!(text(vm.heap(), hit), "h");
    }
}

#[test]
fn a_block_that_is_not_run_does_nothing() {
    let body = vec![expr(vec![ident("hit"), NodeExpr::StringLiteral("h".to_string())])];
    let mut vm = engine(vec![expr(vec![ident("b"), block(3, body)]), expr(vec![ident("b"), ident("5")])]);
    vm.run().expect("program runs");
    assert_eq!(vm.scopes().len(), 1);
}

#[test]
fn engine_stdout_mode_starts_as_alert_and_can_change() {
    let mut vm = engine(vec![]);
    assert_eq!(vm.stdout_mode(), OutputMode::Alert);
    vm.set_stdout_mode(OutputMode::Console);
    assert_eq!(vm.stdout_mode(), OutputMode::Console);
    vm.run().expect("an empty program runs");
    assert_eq!(vm.stdout_mode(), OutputMode::Console);
}

#[test]
fn list_indices_read_from_whole_number_literals() {
    let mut heap = Heap::new();
    let list = new_list(&mut heap);
    receive_object(&mut heap, list, txt("a"));
    receive_object(&mut heap, list, txt("b"));
    for (literal, expected) in [
        ("1", "b"),
        ("+1.00", "b"),
        ("-0", "a"),
        (".0", "a"),
        ("1.", "b"),
        ("-1", ""),
        ("0.5", ""),
        (".", ""),
        ("1e0", "b"),
        ("1E+0", "b"),
        ("10e-1", "b"),
        ("0.1e1", "b"),
        ("100e-2", "b"),
        ("-0e5", "a"),
        ("0e-99999999999999999999999", "a"),
        ("1e-1", ""),
        ("1e1", ""),
        ("1e99999999999999999999999", ""),
        ("inf", ""),
        ("NaN", ""),
    ] {
        let get = new_list_get(&mut heap);
        receive_object(&mut heap, get, Value::Obj(list));
        receive_object(&mut heap, get, num(literal));
        assert_eq!(text(&heap, get), expected, "index literal {}", literal);
    }
}

#[test]
fn a_synchronous_block_runs_before_other_threads_take_a_turn() {
    let b_body = vec![
        expr(vec![ident("log"), NodeExpr::StringLiteral("1".to_string())]),
        expr(vec![ident("log"), NodeExpr::StringLiteral("2".to_string())]),
    ];
    let c_body = vec![expr(vec![ident("log"), NodeExpr::StringLiteral("c".to_string())])];
    let mut vm = engine(vec![
        expr(vec![ident("log"), NodeExpr::StringLiteral("s".to_string())]),
        expr(vec![ident("b"), block(1, b_body)]),
        expr(vec![ident("c"), block(2, c_body)]),
        expr(vec![ident("c"), ident("async"), ident("run")]),
        expr(vec![ident("b"), ident("run")]),
        expr(vec![ident("log"), NodeExpr::StringLiteral("e".to_string())]),
    ]);
    vm.run().expect("program runs");
    let log = Scope::find(vm.scopes(), ScopeRef(0), "log").expect("log is bound");
    assert_eq!(text(vm.heap(), log), "sc12e");
}

#[test]
fn list_set_takes_an_index_written_with_an_exponent() {
    let mut heap = Heap::new();
    let list = new_list(&mut heap);
    receive_object(&mut heap, list, txt("a"));
    receive_object(&mut heap, list, txt("b"));
    let set = new_list_set(&mut heap);
    receive_object(&mut heap, set, Value::Obj(list));
    receive_object(&mut heap, set, num("1e0"));
    receive_object(&mut heap, set, txt("z"));
    assert_eq!(text(&heap, list), "[\"a\", \"z\"]");
}

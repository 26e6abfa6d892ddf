//! The engine: threads of frames, each frame a list of expressions to run
//! in a scope, scheduled in turn.
use std::rc::Rc;
use vstd::prelude::*;
use crate::ast::{BlockLiteral, ControlOp, Expr, NodeExpr, Program, ReservedToken};
use crate::runtime::eval::{
    alloc_st, block_st, control_of, end_st, endless_loop_message, nesting_message, eval_expr_spec, eval_message_spec,
    eval_root_spec, literal_of, loop_keyword, name_st, outside_loop_message, prompt_spec, receive_st,
    request_st, reserved_heap, reserved_st, send_spec, standalone_message, while_budget, while_spec, EvalState,
    LoopControl,
};
use crate::runtime::number::is_number_word;
use crate::runtime::object::{
    share, end_object, new_boolean_operator, new_list, new_logic_operator, new_node, new_operator,
    receive_object, BlockCall, BlockSnapshot, Heap, Object, ObjectView,
};
use crate::runtime::scope::{
    builtin_bindings, builtin_names, builtin_objects, find_spec, lemma_find_after_push, lemma_lookup_absent,
    lookup, scopes_wf, Scope, Scopes, ScopeView,
};
use crate::runtime::value::{MessageKind, ModeCells, ObjectRef, OutputMode, ScopeRef, StdoutState, Value, ValueView};
use crate::text::{chars_of, eq_str, push_all, push_str, string_of};

verus! {

/// An error that stops a program.
#[derive(Debug)]
pub struct RuntimeError {
    pub message: String,
}

/// A value written by `echo`, with the mode it was written in.
#[derive(Debug)]
pub struct OutputEvent {
    pub mode: OutputMode,
    pub value: String,
}


impl RuntimeError {
    fn new(message: Vec<char>) -> (r: RuntimeError)
        ensures
            r.message@ == message@,
    {
        RuntimeError { message: string_of(&message) }
    }
}

/// The value a word stands for by itself: `true`, `false` or a number.
pub fn parse_literal(token: &str) -> (r: Option<Value>)
    ensures
        match r {
            Some(v) => literal_of(token@) == Some(v.view()),
            None => literal_of(token@) is None,
        },
{
    let c = chars_of(token);
    if eq_str(&c, "true") {
        Some(Value::Bool(true))
    } else if eq_str(&c, "false") {
        Some(Value::Bool(false))
    } else if is_number_word(&c) {
        Some(Value::Number(string_of(&c)))
    } else {
        None
    }
}

pub open spec fn result_view(r: Result<ObjectRef, RuntimeError>) -> Result<int, Seq<char>> {
    match r {
        Ok(o) => Ok(o.0 as int),
        Err(e) => Err(e.message@),
    }
}

/// The operator object a reserved token makes; a control word makes none.
pub fn reserved_to_object(heap: &mut Heap, token: ReservedToken) -> (r: Result<ObjectRef, RuntimeError>)
    ensures
        (final(heap)@, result_view(r)) == reserved_heap(old(heap)@, token),
{
    match token {
        ReservedToken::Arithmetic(op) => Ok(new_operator(heap, op)),
        ReservedToken::Logic(op) => Ok(new_logic_operator(heap, op)),
        ReservedToken::Boolean(op) => Ok(new_boolean_operator(heap, op)),
        ReservedToken::Control(op) => {
            let mut m = chars_of("'");
            push_str(&mut m, op.keyword());
            push_str(&mut m, "' must be used as a standalone expression");
            assert(m@ =~= standalone_message(op));
            Err(RuntimeError::new(m))
        },
    }
}

/// The loop control an expression is, when it is `break` or `continue`
/// alone.
pub fn control_from_expression(expr: &Expr) -> (r: Option<LoopControl>)
    ensures
        r == control_of(*expr),
{
    if expr.nodes.len() != 1 {
        return None;
    }
    match &expr.nodes[0] {
        NodeExpr::Reserved(ReservedToken::Control(ControlOp::Break)) => Some(LoopControl::Break),
        NodeExpr::Reserved(ReservedToken::Control(ControlOp::Continue)) => Some(LoopControl::Continue),
        _ => None,
    }
}

impl LoopControl {
    /// The word that writes this control.
    pub fn keyword(&self) -> (r: &'static str)
        ensures
            r@ == loop_keyword(*self),
    {
        match self {
            LoopControl::Break => "break",
            LoopControl::Continue => "continue",
        }
    }
}

struct Frame {
    scope: ScopeRef,
    expressions: Rc<Vec<Expr>>,
    pc: usize,
}

struct Thread {
    frames: Vec<Frame>,
}

/// Runs a program: its threads, the objects and scopes they share, and
/// what was written.
pub struct RuntimeEngine {
    program: Program,
    modes: ModeCells,
    stdout: StdoutState,
    heap: Heap,
    scopes: Scopes,
    threads: Vec<Thread>,
    current_thread: usize,
    active_thread: usize,
    outputs: Vec<OutputEvent>,
    active_loops: usize,
    pending_loop_control: Option<LoopControl>,
    calls: Vec<BlockSnapshot>,
}

impl RuntimeEngine {
    /// What evaluation reads and changes.
    pub closed spec fn eval_state(&self) -> EvalState {
        EvalState {
            heap: self.heap@,
            scopes: self.scopes@,
            active_loops: self.active_loops as int,
            pending: self.pending_loop_control,
            calls: self.calls@.map_values(|b: BlockSnapshot| b.call()),
        }
    }

    /// The scopes are well formed.
    pub closed spec fn scopes_ok(&self) -> bool {
        scopes_wf(self.scopes@)
    }

    /// A new engine for `program`, not yet run.
    pub fn new(program: Program) -> (r: Self)
        ensures
            r.eval_state() == (EvalState {
                heap: Seq::empty(),
                scopes: Seq::empty(),
                active_loops: 0,
                pending: None,
                calls: Seq::empty(),
            }),
            r.scopes_ok(),
            r.wf(),
            r@.modes == seq![OutputMode::Alert],
            r.program_exprs() == (*program.expressions)@,
            r@.threads.len() == 0,
            r@.outputs.len() == 0,
    {
        let mut modes = ModeCells::new();
        let stdout = StdoutState::new(&mut modes);
        let r = RuntimeEngine {
            program,
            modes,
            stdout,
            heap: Heap::new(),
            scopes: Scopes::new(),
            threads: Vec::new(),
            current_thread: 0,
            active_thread: 0,
            outputs: Vec::new(),
            active_loops: 0,
            pending_loop_control: None,
            calls: Vec::new(),
        };
        assert(r.calls@.map_values(|b: BlockSnapshot| b.call()) =~= Seq::<BlockCall>::empty());
        assert(r@.modes =~= seq![OutputMode::Alert]);
        r
    }
}


pub open spec fn value_result(r: Result<Value, RuntimeError>) -> Result<ValueView, Seq<char>> {
    match r {
        Ok(v) => Ok(v.view()),
        Err(e) => Err(e.message@),
    }
}

impl RuntimeEngine {
    /// Whether `self` differs from `other` in the objects, scopes and loop
    /// state at most.
    pub closed spec fn same_schedule(&self, other: &Self) -> bool {
        &&& self.threads@ == other.threads@
        &&& self.current_thread == other.current_thread
        &&& self.active_thread == other.active_thread
        &&& self.outputs@ == other.outputs@
        &&& self.program == other.program
        &&& self.stdout == other.stdout
        &&& self.modes@ == other.modes@
    }

    /// The scopes are well formed and `scope` is one of them.
    pub closed spec fn can_eval_in(&self, scope: ScopeRef) -> bool {
        scopes_wf(self.scopes@) && scope.0 < self.scopes@.len()
    }

    /// A block object for `block`, written in `scope`.
    fn block_to_object(&mut self, block: &BlockLiteral, scope: ScopeRef) -> (r: ObjectRef)
        ensures
            (final(self).eval_state(), r.0 as int) == block_st(old(self).eval_state(), *block, scope.0 as int),
            final(self).same_schedule(old(self)),
            final(self).scopes@ == old(self).scopes@,
    {
        let inbox = new_node(&mut self.heap);
        let snapshot = BlockSnapshot {
            id: block.id,
            expressions: share(&block.expressions),
            parent_scope: scope,
            inbox,
            is_async: false,
        };
        self.heap.object_ref(Object::Block(snapshot))
    }

    /// The object `name` names from `scope`.
    fn name(&mut self, scope: ScopeRef, name: &str) -> (r: ObjectRef)
        requires
            old(self).can_eval_in(scope),
        ensures
            final(self).can_eval_in(scope),
            final(self).scopes@.len() == old(self).scopes@.len(),
            (final(self).eval_state(), r.0 as int) == name_st(old(self).eval_state(), scope.0 as int, name@),
            final(self).same_schedule(old(self)),
    {
        Scope::get(&mut self.scopes, &mut self.heap, scope, name)
    }

    /// Evaluates the first node of an expression: the receiver.
    fn eval_root(&mut self, node: &NodeExpr, scope: ScopeRef) -> (r: Result<ObjectRef, RuntimeError>)
        requires
            old(self).can_eval_in(scope),
        ensures
            final(self).can_eval_in(scope),
            final(self).eval_state().scopes.len() >= old(self).eval_state().scopes.len(),
            (final(self).eval_state(), result_view(r)) == eval_root_spec(old(self).eval_state(), *node, scope.0 as int),
            final(self).same_schedule(old(self)),
        decreases *node, 0nat, 0nat,
    {
        match node {
            NodeExpr::Identifier(name) => {
                if eq_str(&chars_of(name.as_str()), "list") {
                    return Ok(new_list(&mut self.heap));
                }
                match parse_literal(name.as_str()) {
                    Some(literal) => {
                        let n = new_node(&mut self.heap);
                        receive_object(&mut self.heap, n, literal);
                        Ok(n)
                    },
                    None => Ok(self.name(scope, name.as_str())),
                }
            },
            NodeExpr::StringLiteral(text) => {
                let n = new_node(&mut self.heap);
                receive_object(&mut self.heap, n, Value::Text(text.clone()));
                Ok(n)
            },
            NodeExpr::Reserved(token) => {
                let n = new_node(&mut self.heap);
                match reserved_to_object(&mut self.heap, *token) {
                    Ok(op) => {
                        receive_object(&mut self.heap, n, Value::Obj(op));
                        Ok(n)
                    },
                    Err(e) => Err(e),
                }
            },
            NodeExpr::SubExpression(sub) => self.eval_expression(sub, scope),
            NodeExpr::BlockLiteral(block) => Ok(self.block_to_object(block, scope)),
        }
    }

    /// Evaluates a node sent as a message.
    fn eval_message(&mut self, node: &NodeExpr, scope: ScopeRef) -> (r: Result<Value, RuntimeError>)
        requires
            old(self).can_eval_in(scope),
        ensures
            final(self).can_eval_in(scope),
            final(self).eval_state().scopes.len() >= old(self).eval_state().scopes.len(),
            (final(self).eval_state(), value_result(r)) == eval_message_spec(old(self).eval_state(), *node, scope.0 as int),
            final(self).same_schedule(old(self)),
        decreases *node, 0nat, 0nat,
    {
        match node {
            NodeExpr::Identifier(name) => {
                if eq_str(&chars_of(name.as_str()), "list") {
                    return Ok(Value::Obj(new_list(&mut self.heap)));
                }
                match parse_literal(name.as_str()) {
                    Some(literal) => Ok(literal),
                    None => Ok(Value::Obj(self.name(scope, name.as_str()))),
                }
            },
            NodeExpr::StringLiteral(text) => Ok(Value::Text(text.clone())),
            NodeExpr::Reserved(token) => match reserved_to_object(&mut self.heap, *token) {
                Ok(op) => Ok(Value::Obj(op)),
                Err(e) => Err(e),
            },
            NodeExpr::SubExpression(sub) => match self.eval_expression(sub, scope) {
                Ok(o) => Ok(Value::Obj(o)),
                Err(e) => Err(e),
            },
            NodeExpr::BlockLiteral(block) => Ok(Value::Obj(self.block_to_object(block, scope))),
        }
    }

    /// Evaluates `expr` in `scope`; the result is its receiver.
    #[verifier::loop_isolation(false)]
    pub fn eval_expression(&mut self, expr: &Expr, scope: ScopeRef) -> (r: Result<ObjectRef, RuntimeError>)
        requires
            old(self).can_eval_in(scope),
        ensures
            final(self).can_eval_in(scope),
            final(self).eval_state().scopes.len() >= old(self).eval_state().scopes.len(),
            (final(self).eval_state(), result_view(r)) == eval_expr_spec(old(self).eval_state(), *expr, scope.0 as int),
            final(self).same_schedule(old(self)),
        decreases *expr, 2nat, 0nat,
    {
        let ghost st0 = self.eval_state();
        if expr.nodes.len() == 0 {
            let r = new_node(&mut self.heap);
            end_object(&mut self.heap, r);
            return Ok(r);
        }
        match control_from_expression(expr) {
            Some(control) => {
                if self.active_loops == 0 {
                    let mut m = chars_of("'");
                    push_str(&mut m, control.keyword());
                    push_str(&mut m, "' can only be used inside while body");
                    assert(m@ =~= outside_loop_message(control));
                    return Err(RuntimeError::new(m));
                }
                self.pending_loop_control = Some(control);
                let r = new_node(&mut self.heap);
                end_object(&mut self.heap, r);
                return Ok(r);
            },
            None => {},
        }
        assert(decreases_to!(*expr => expr.nodes@[0]));
        let receiver = match self.eval_root(&expr.nodes[0], scope) {
            Ok(o) => o,
            Err(e) => {
                return Err(e);
            },
        };
        let ghost s1 = self.eval_state();
        let fuel = self.heap.len();
        let kind = self.heap.type_of(receiver, fuel);
        if eq_str(&kind, "whileCommand") {
            if self.active_loops == usize::MAX {
                return Err(RuntimeError::new(chars_of("while loops nested too deeply")));
            }
            let saved = self.active_loops;
            self.active_loops = saved + 1;
            let r = self.eval_while(expr, receiver, scope);
            self.active_loops = saved;
            match r {
                Ok(()) => {},
                Err(e) => {
                    return Err(e);
                },
            }
        } else if eq_str(&kind, "input") {
            if expr.nodes.len() > 1 {
                let ghost target = prompt_spec(s1, *expr, 1, scope.0 as int, Seq::empty());
                let mut prompt: Vec<char> = Vec::new();
                let mut i: usize = 1;
                while i < expr.nodes.len()
                    invariant
                        1 <= i <= expr.nodes.len(),
                        self.can_eval_in(scope),
                        self.same_schedule(old(self)),
                        self.eval_state().scopes.len() >= old(self).eval_state().scopes.len(),
                        prompt_spec(self.eval_state(), *expr, i as int, scope.0 as int, prompt@) == target,
                    decreases expr.nodes.len() - i,
                {
                    assert(decreases_to!(*expr => expr.nodes@[i as int]));
                    let message = match self.eval_message(&expr.nodes[i], scope) {
                        Ok(v) => v,
                        Err(e) => {
                            return Err(e);
                        },
                    };
                    let f = self.heap.len();
                    let t = self.heap.value_text(&message, f);
                    push_all(&mut prompt, &t);
                    i += 1;
                }
                receive_object(&mut self.heap, receiver, Value::Text(string_of(&prompt)));
            }
        } else {
            let ghost target = send_spec(s1, *expr, 1, scope.0 as int, receiver.0 as int);
            let mut i: usize = 1;
            while i < expr.nodes.len()
                invariant
                    1 <= i <= expr.nodes.len(),
                    self.can_eval_in(scope),
                    self.same_schedule(old(self)),
                    self.eval_state().scopes.len() >= old(self).eval_state().scopes.len(),
                    send_spec(self.eval_state(), *expr, i as int, scope.0 as int, receiver.0 as int) == target,
                decreases expr.nodes.len() - i,
            {
                assert(decreases_to!(*expr => expr.nodes@[i as int]));
                let message = match self.eval_message(&expr.nodes[i], scope) {
                    Ok(v) => v,
                    Err(e) => {
                        return Err(e);
                    },
                };
                let sent = match &message {
                    Value::Obj(m) => Some(*m),
                    _ => None,
                };
                let ghost mv = message.view();
                receive_object(&mut self.heap, receiver, message);
                self.request_run(receiver, sent, Ghost(mv));
                i += 1;
            }
        }
        end_object(&mut self.heap, receiver);
        Ok(receiver)
    }
}


impl RuntimeEngine {
    /// Runs a `while`: the condition, then while it holds the body, each
    /// sent to `receiver`.
    #[verifier::loop_isolation(false)]
    fn eval_while(&mut self, expr: &Expr, receiver: ObjectRef, scope: ScopeRef) -> (r: Result<(), RuntimeError>)
        requires
            old(self).can_eval_in(scope),
        ensures
            final(self).can_eval_in(scope),
            final(self).eval_state().scopes.len() >= old(self).eval_state().scopes.len(),
            (final(self).eval_state(), match r {
                Ok(()) => Ok::<(), Seq<char>>(()),
                Err(e) => Err(e.message@),
            }) == while_spec(old(self).eval_state(), *expr, scope.0 as int, receiver.0 as int, while_budget()),
            final(self).same_schedule(old(self)),
        decreases *expr, 1nat, 0nat,
    {
        let ghost target = while_spec(self.eval_state(), *expr, scope.0 as int, receiver.0 as int, while_budget());
        if expr.nodes.len() < 3 {
            return Ok(());
        }
        let mut left: usize = usize::MAX;
        assert(decreases_to!(*expr => expr.nodes@[1]));
        assert(decreases_to!(*expr => expr.nodes@[2]));
        loop
            invariant
                expr.nodes.len() >= 3,
                self.can_eval_in(scope),
                self.same_schedule(old(self)),
                self.eval_state().scopes.len() >= old(self).eval_state().scopes.len(),
                while_spec(self.eval_state(), *expr, scope.0 as int, receiver.0 as int, left as nat) == target,
            decreases left,
        {
            if left == 0 {
                return Err(RuntimeError::new(chars_of("while loop did not end")));
            }
            let condition = match self.eval_message(&expr.nodes[1], scope) {
                Ok(v) => v,
                Err(e) => {
                    return Err(e);
                },
            };
            let f = self.heap.len();
            let holds = self.heap.value_truth(&condition, f);
            receive_object(&mut self.heap, receiver, condition);
            if !holds {
                return Ok(());
            }
            let body = match self.eval_message(&expr.nodes[2], scope) {
                Ok(v) => v,
                Err(e) => {
                    return Err(e);
                },
            };
            receive_object(&mut self.heap, receiver, body);
            let control = self.pending_loop_control;
            self.pending_loop_control = None;
            match control {
                Some(LoopControl::Break) => {
                    return Ok(());
                },
                _ => {},
            }
            left = left - 1;
        }
    }
}


// ---------------------------------------------------------------------------
// Scheduling

/// A frame as the scheduler sees it: a scope, the expressions to run in
/// it and the index of the next one.
pub ghost struct RunFrame {
    pub scope: int,
    pub exprs: Seq<Expr>,
    pub pc: int,
}

/// The whole state of an engine.
pub ghost struct EngineView {
    pub eval: EvalState,
    pub threads: Seq<Seq<RunFrame>>,
    pub current: int,
    pub active: int,
    pub outputs: Seq<(OutputMode, Seq<char>)>,
    /// The handle on the output mode that the built-in `echo` and `stdout`
    /// of every scope share.
    pub stdout: StdoutState,
    /// The output-mode cells.
    pub modes: Seq<OutputMode>,
}

/// The engine once thread `index` is removed: the turn indices that pointed
/// past it move back by one.
pub open spec fn remove_spec(ev: EngineView, index: int) -> EngineView {
    EngineView {
        threads: ev.threads.remove(index),
        current: if ev.current > 0 && index < ev.current { ev.current - 1 } else { ev.current },
        active: if ev.active > 0 && index < ev.active { ev.active - 1 } else { ev.active },
        ..ev
    }
}

/// The engine after the block calls `calls` were made, in order; a call
/// whose scope is not one of the engine's is left out.
pub open spec fn apply_calls(ev: EngineView, calls: Seq<BlockCall>, fuel: nat) -> EngineView
    decreases fuel, 2nat, calls.len(),
{
    if calls.len() == 0 {
        ev
    } else {
        let ev1 = apply_calls(ev, calls.drop_last(), fuel);
        let c = calls.last();
        if 0 <= c.parent < ev1.eval.scopes.len() {
            call_block_spec(ev1, c.exprs, c.parent, c.inbox, c.is_async, fuel)
        } else {
            ev1
        }
    }
}

/// One step of thread `index`: run its next expression and then the blocks
/// it sent `run` to, or drop a finished frame, or remove the thread when it
/// has no frame left.
pub open spec fn step_spec(ev: EngineView, index: int, fuel: nat) -> (EngineView, Result<(), Seq<char>>)
    decreases fuel, 3nat, 0nat,
{
    if !(0 <= index < ev.threads.len()) {
        (ev, Ok(()))
    } else {
        let frames = ev.threads[index];
        if frames.len() == 0 {
            (remove_spec(ev, index), Ok(()))
        } else {
            let top = frames.last();
            if top.pc >= top.exprs.len() {
                let rest = frames.drop_last();
                let ev1 = EngineView { threads: ev.threads.update(index, rest), ..ev };
                if rest.len() == 0 {
                    (remove_spec(ev1, index), Ok(()))
                } else {
                    (ev1, Ok(()))
                }
            } else {
                let ev1 = EngineView {
                    threads: ev.threads.update(
                        index,
                        frames.update(frames.len() - 1, RunFrame { pc: top.pc + 1, ..top }),
                    ),
                    ..ev
                };
                let (st, r) = eval_expr_spec(
                    EvalState { calls: Seq::empty(), ..ev.eval },
                    top.exprs[top.pc],
                    top.scope,
                );
                let ev2 = EngineView { eval: EvalState { calls: Seq::empty(), ..st }, ..ev1 };
                match r {
                    Err(m) => (ev2, Err(m)),
                    Ok(_) => (apply_calls(ev2, st.calls, fuel), Ok(())),
                }
            }
        }
    }
}

pub open spec fn endless_program_message() -> Seq<char> {
    "program did not end"@
}

/// The turns a program may take before it is held to be endless.
pub open spec fn run_budget() -> nat {
    usize::MAX as nat
}

/// The scheduler's loop: each turn steps the next thread, until no thread
/// is left or a step fails; `budget` turns are left.
pub open spec fn run_loop_spec(ev: EngineView, budget: nat) -> (EngineView, Result<(), Seq<char>>)
    decreases budget,
{
    if ev.threads.len() == 0 {
        (ev, Ok(()))
    } else if budget == 0 {
        (ev, Err(endless_program_message()))
    } else {
        let cur = if ev.current >= ev.threads.len() || ev.current < 0 { 0 } else { ev.current };
        let ev1 = EngineView { current: cur + 1, active: cur, ..ev };
        let (ev2, r) = step_spec(ev1, cur, nest_budget());
        match r {
            Err(m) => (ev2, Err(m)),
            Ok(_) => run_loop_spec(ev2, (budget - 1) as nat),
        }
    }
}


spec fn frame_view(f: Frame) -> RunFrame {
    RunFrame { scope: f.scope.0 as int, exprs: (*f.expressions)@, pc: f.pc as int }
}

spec fn thread_view(t: Thread) -> Seq<RunFrame> {
    t.frames@.map_values(|f: Frame| frame_view(f))
}

/// The engine once the root scope is made and the program's expressions are
/// put in a first thread.
pub open spec fn start_spec(ev: EngineView, program: Seq<Expr>) -> EngineView {
    let root = ev.eval.scopes.len() as int;
    EngineView {
        eval: EvalState {
            heap: ev.eval.heap + builtin_objects(ev.stdout),
            scopes: ev.eval.scopes.push(
                ScopeView { values: builtin_bindings(ev.eval.heap.len() as int), parent: None },
            ),
            active_loops: 0,
            pending: None,
            calls: Seq::empty(),
        },
        threads: seq![seq![RunFrame { scope: root, exprs: program, pc: 0 }]],
        current: 0,
        active: ev.active,
        outputs: Seq::empty(),
        stdout: ev.stdout,
        modes: ev.modes,
    }
}

/// Running the program from the start.
pub open spec fn run_spec(ev: EngineView, program: Seq<Expr>) -> (EngineView, Result<(), Seq<char>>) {
    run_loop_spec(start_spec(ev, program), run_budget())
}

/// The expressions `es[i..]` evaluated one after the other in `scope`,
/// each starting with no block asked to run, up to the first that fails.
pub open spec fn eval_all(st: EvalState, es: Seq<Expr>, i: int, scope: int) -> (EvalState, Result<(), Seq<char>>)
    decreases es.len() - i,
{
    if i < 0 || i >= es.len() {
        (st, Ok(()))
    } else {
        match eval_expr_spec(EvalState { calls: Seq::empty(), ..st }, es[i], scope) {
            (s, Err(m)) => (EvalState { calls: Seq::empty(), ..s }, Err(m)),
            (s, Ok(_)) => eval_all(EvalState { calls: Seq::empty(), ..s }, es, i + 1, scope),
        }
    }
}

/// Whether, evaluated as `eval_all` does, none of `es[i..]` sends `run` to a
/// block.
pub open spec fn runs_no_block(st: EvalState, es: Seq<Expr>, i: int, scope: int) -> bool
    decreases es.len() - i,
{
    if i < 0 || i >= es.len() {
        true
    } else {
        let (s, r) = eval_expr_spec(EvalState { calls: Seq::empty(), ..st }, es[i], scope);
        s.calls.len() == 0 && (r is Ok ==> runs_no_block(
            EvalState { calls: Seq::empty(), ..s },
            es,
            i + 1,
            scope,
        ))
    }
}

proof fn lemma_single_frame_run(ev: EngineView, scope: int, exprs: Seq<Expr>, pc: int, budget: nat)
    requires
        ev.threads == seq![seq![RunFrame { scope, exprs, pc }]],
        0 <= pc <= exprs.len(),
        budget > exprs.len() - pc,
        runs_no_block(ev.eval, exprs, pc, scope),
    ensures
        run_loop_spec(ev, budget).1 == eval_all(ev.eval, exprs, pc, scope).1,
        run_loop_spec(ev, budget).0.eval == eval_all(ev.eval, exprs, pc, scope).0,
        run_loop_spec(ev, budget).0.outputs == ev.outputs,
        run_loop_spec(ev, budget).0.threads.len() == 0 || run_loop_spec(ev, budget).1 is Err,
    decreases exprs.len() - pc,
{
    let cur = if ev.current >= ev.threads.len() || ev.current < 0 { 0 } else { ev.current };
    assert(cur == 0);
    let ev1 = EngineView { current: cur + 1, active: cur, ..ev };
    let (ev2, r) = step_spec(ev1, cur, nest_budget());
    let frames = ev1.threads[0];
    let top = frames.last();
    assert(top == RunFrame { scope, exprs, pc });
    if pc >= exprs.len() {
        assert(ev2.threads.len() == 0);
        assert(run_loop_spec(ev2, (budget - 1) as nat) == (ev2, Ok::<(), Seq<char>>(())));
        assert(eval_all(ev.eval, exprs, pc, scope) == (ev.eval, Ok::<(), Seq<char>>(())));
    } else {
        let next = RunFrame { pc: pc + 1, ..top };
        assert(frames.update(frames.len() - 1, next) =~= seq![next]);
        let (st, r0) = eval_expr_spec(EvalState { calls: Seq::empty(), ..ev.eval }, exprs[pc], scope);
        assert(st.calls.len() == 0);
        assert(st.calls =~= Seq::<BlockCall>::empty());
        assert(ev2.threads =~= seq![seq![next]]);
        if r is Ok {
            lemma_single_frame_run(ev2, scope, exprs, pc + 1, (budget - 1) as nat);
        }
    }
}

/// A program that sends `run` to no block runs by evaluating its top-level
/// expressions one after the other in a new root scope, stopping at the
/// first that fails; running clears what was written before, and a run
/// that succeeds leaves no thread behind.
pub proof fn law_program_runs_in_order(ev: EngineView, program: Seq<Expr>)
    requires
        program.len() < usize::MAX,
        runs_no_block(start_spec(ev, program).eval, program, 0, ev.eval.scopes.len() as int),
    ensures
        run_spec(ev, program).1 == eval_all(
            start_spec(ev, program).eval,
            program,
            0,
            ev.eval.scopes.len() as int,
        ).1,
        run_spec(ev, program).0.eval == eval_all(
            start_spec(ev, program).eval,
            program,
            0,
            ev.eval.scopes.len() as int,
        ).0,
        run_spec(ev, program).0.outputs.len() == 0,
        run_spec(ev, program).1 is Ok ==> run_spec(ev, program).0.threads.len() == 0,
{
    lemma_single_frame_run(start_spec(ev, program), ev.eval.scopes.len() as int, program, 0, run_budget());
}

proof fn lemma_step_outputs(ev: EngineView, index: int, fuel: nat)
    ensures
        step_spec(ev, index, fuel).0.outputs == ev.outputs,
    decreases fuel, 3nat, 0nat,
{
    if 0 <= index < ev.threads.len() && ev.threads[index].len() > 0 {
        let frames = ev.threads[index];
        let top = frames.last();
        if top.pc < top.exprs.len() {
            let ev1 = EngineView {
                threads: ev.threads.update(
                    index,
                    frames.update(frames.len() - 1, RunFrame { pc: top.pc + 1, ..top }),
                ),
                ..ev
            };
            let (st, r) = eval_expr_spec(EvalState { calls: Seq::empty(), ..ev.eval }, top.exprs[top.pc], top.scope);
            let ev2 = EngineView { eval: EvalState { calls: Seq::empty(), ..st }, ..ev1 };
            if r is Ok {
                lemma_apply_outputs(ev2, st.calls, fuel);
            }
        }
    }
}

proof fn lemma_apply_outputs(ev: EngineView, calls: Seq<BlockCall>, fuel: nat)
    ensures
        apply_calls(ev, calls, fuel).outputs == ev.outputs,
    decreases fuel, 2nat, calls.len(),
{
    if calls.len() > 0 {
        lemma_apply_outputs(ev, calls.drop_last(), fuel);
        let ev1 = apply_calls(ev, calls.drop_last(), fuel);
        let c = calls.last();
        lemma_call_outputs(ev1, c.exprs, c.parent, c.inbox, c.is_async, fuel);
    }
}

proof fn lemma_call_outputs(ev: EngineView, exprs: Seq<Expr>, parent: int, inbox: int, is_async: bool, fuel: nat)
    ensures
        call_block_spec(ev, exprs, parent, inbox, is_async, fuel).outputs == ev.outputs,
    decreases fuel, 1nat, 0nat,
{
    if !is_async && 0 <= ev.active < ev.threads.len() {
        let started = block_start_spec(ev, exprs, parent, inbox, is_async);
        lemma_nested_outputs(started, ev.threads[ev.active].len() as int, fuel, nest_budget());
    }
}

proof fn lemma_nested_outputs(ev: EngineView, depth: int, fuel: nat, n: nat)
    ensures
        nested_spec(ev, depth, fuel, n).outputs == ev.outputs,
    decreases fuel, 0nat, n,
{
    if n > 0 && fuel > 0 && ev.eval.pending is None && 0 <= ev.active < ev.threads.len()
        && ev.threads[ev.active].len() > depth {
        let (ev2, r) = step_spec(ev, ev.active, (fuel - 1) as nat);
        lemma_step_outputs(ev, ev.active, (fuel - 1) as nat);
        if r is Ok {
            lemma_nested_outputs(ev2, depth, fuel, (n - 1) as nat);
        }
    }
}

proof fn lemma_run_loop(ev: EngineView, budget: nat)
    ensures
        run_loop_spec(ev, budget).0.outputs == ev.outputs,
        run_loop_spec(ev, budget).1 is Ok ==> run_loop_spec(ev, budget).0.threads.len() == 0,
    decreases budget,
{
    if ev.threads.len() > 0 && budget > 0 {
        let cur = if ev.current >= ev.threads.len() || ev.current < 0 { 0 } else { ev.current };
        let ev1 = EngineView { current: cur + 1, active: cur, ..ev };
        let (ev2, r) = step_spec(ev1, cur, nest_budget());
        lemma_step_outputs(ev1, cur, nest_budget());
        if r is Ok {
            lemma_run_loop(ev2, (budget - 1) as nat);
        }
    }
}

/// A run, whatever its program does, writes only what its own steps write,
/// none of what earlier runs wrote, and succeeds only once every thread,
/// the program's and each asynchronous block's, has finished.
pub proof fn law_run_clears_outputs_and_finishes_threads(ev: EngineView, program: Seq<Expr>)
    ensures
        run_spec(ev, program).0.outputs.len() == 0,
        run_spec(ev, program).1 is Ok ==> run_spec(ev, program).0.threads.len() == 0,
{
    lemma_run_loop(start_spec(ev, program), run_budget());
}

impl RuntimeEngine {
    /// The whole state of the engine.
    pub closed spec fn view(&self) -> EngineView {
        EngineView {
            eval: self.eval_state(),
            threads: self.threads@.map_values(|t: Thread| thread_view(t)),
            current: self.current_thread as int,
            active: self.active_thread as int,
            outputs: self.outputs@.map_values(|o: OutputEvent| (o.mode, o.value@)),
            stdout: self.stdout,
            modes: self.modes@,
        }
    }

    /// The program's top-level expressions.
    pub closed spec fn program_exprs(&self) -> Seq<Expr> {
        (*self.program.expressions)@
    }

    /// The engine's invariant: its scopes are well formed and every frame
    /// runs in one of them.
    pub closed spec fn wf(&self) -> bool {
        &&& scopes_wf(self.scopes@)
        &&& self.stdout.cell() < self.modes@.len()
        &&& forall|t: int, f: int|
            0 <= t < self.threads@.len() && 0 <= f < self.threads@[t].frames@.len() ==> (
            #[trigger] self.threads@[t].frames@[f]).scope.0 < self.scopes@.len()
    }

    proof fn lemma_wf_after_eval(&self, other: &Self)
        requires
            other.wf(),
            scopes_wf(self.scopes@),
            self.scopes@.len() >= other.scopes@.len(),
            self.threads@ == other.threads@,
            self.stdout == other.stdout,
            self.modes@ == other.modes@,
        ensures
            self.wf(),
    {
    }

    /// Removes thread `index`; the turn indices that pointed past it move
    /// back by one.
    fn remove_thread(&mut self, index: usize)
        requires
            index < old(self).threads@.len(),
            old(self).wf(),
        ensures
            final(self)@ == remove_spec(old(self)@, index as int),
            final(self).wf(),
            final(self).program_exprs() == old(self).program_exprs(),
    {
        let ghost before = self@;
        let ghost tv = self.threads@;
        self.threads.remove(index);
        if self.current_thread > 0 && index < self.current_thread {
            self.current_thread = self.current_thread - 1;
        }
        if self.active_thread > 0 && index < self.active_thread {
            self.active_thread = self.active_thread - 1;
        }
        assert(self.threads@.map_values(|t: Thread| thread_view(t)) =~= before.threads.remove(
            index as int,
        ));
        assert forall|t: int, f: int|
            0 <= t < self.threads@.len() && 0 <= f < self.threads@[t].frames@.len() implies (
            #[trigger] self.threads@[t].frames@[f]).scope.0 < self.scopes@.len() by {
            if t < index {
                assert(self.threads@[t] == tv[t]);
            } else {
                assert(self.threads@[t] == tv[t + 1]);
            }
        }
    }

    /// One step of thread `index`.
    fn step_thread(&mut self, index: usize, fuel: usize) -> (r: Result<(), RuntimeError>)
        requires
            old(self).wf(),
        ensures
            final(self).wf(),
            (final(self)@, match r {
                Ok(()) => Ok::<(), Seq<char>>(()),
                Err(e) => Err(e.message@),
            }) == step_spec(old(self)@, index as int, fuel as nat),
            final(self).program_exprs() == old(self).program_exprs(),
        decreases fuel, 3nat, 0nat,
    {
        if index >= self.threads.len() {
            return Ok(());
        }
        let ghost before = self@;
        let ghost tv = self.threads@;
        let frames_len = self.threads[index].frames.len();
        if frames_len == 0 {
            self.remove_thread(index);
            return Ok(());
        }
        let top = frames_len - 1;
        let finished = self.threads[index].frames[top].pc >= self.threads[index].frames[top].expressions.len();
        let mut thread = Thread { frames: Vec::new() };
        self.threads.set_and_swap(index, &mut thread);
        assert(thread == tv[index as int]);
        if finished {
            let ghost fv = thread_view(thread);
            thread.frames.pop();
            assert(thread_view(thread) =~= fv.drop_last());
            let now_empty = thread.frames.len() == 0;
            self.threads.set(index, thread);
            assert(self.threads@.map_values(|t: Thread| thread_view(t)) =~= before.threads.update(
                index as int,
                fv.drop_last(),
            ));
            assert forall|t: int, f: int|
                0 <= t < self.threads@.len() && 0 <= f < self.threads@[t].frames@.len() implies (
                #[trigger] self.threads@[t].frames@[f]).scope.0 < self.scopes@.len() by {
                if t != index {
                    assert(self.threads@[t] == tv[t]);
                } else {
                    assert(self.threads@[t].frames@[f] == tv[t].frames@[f]);
                }
            }
            if now_empty {
                self.remove_thread(index);
            }
            return Ok(());
        }
        let ghost fv = thread_view(thread);
        let mut frame = thread.frames.pop().unwrap();
        let exprs = share(&frame.expressions);
        let pc = frame.pc;
        let scope = frame.scope;
        frame.pc = pc + 1;
        thread.frames.push(frame);
        assert(thread_view(thread) =~= fv.update(
            fv.len() - 1,
            RunFrame { pc: fv.last().pc + 1, ..fv.last() },
        ));
        self.threads.set(index, thread);
        assert(self.threads@.map_values(|t: Thread| thread_view(t)) =~= before.threads.update(
            index as int,
            fv.update(fv.len() - 1, RunFrame { pc: fv.last().pc + 1, ..fv.last() }),
        ));
        assert forall|t: int, f: int|
            0 <= t < self.threads@.len() && 0 <= f < self.threads@[t].frames@.len() implies (
            #[trigger] self.threads@[t].frames@[f]).scope.0 < self.scopes@.len() by {
            if t != index {
                assert(self.threads@[t] == tv[t]);
            } else {
                assert(self.threads@[t].frames@[f].scope == tv[t].frames@[f].scope);
            }
        }
        assert(scope.0 < self.scopes@.len()) by {
            assert(tv[index as int].frames@[top as int].scope == scope);
        }
        self.calls = Vec::new();
        assert(self.calls@.map_values(|b: BlockSnapshot| b.call()) =~= Seq::<BlockCall>::empty());
        assert(self.eval_state() == EvalState { calls: Seq::empty(), ..before.eval });
        let ghost mid = *self;
        let ghost mid_view = self@;
        let r = self.eval_expression(&exprs[pc], scope);
        proof {
            self.lemma_wf_after_eval(&mid);
        }
        match r {
            Ok(_) => {
                assert(self@ == EngineView { eval: self.eval_state(), ..mid_view });
                self.run_requested(fuel);
                Ok(())
            },
            Err(e) => {
                self.calls = Vec::new();
                assert(self.calls@.map_values(|b: BlockSnapshot| b.call()) =~= Seq::<BlockCall>::empty());
                Err(e)
            },
        }
    }

    /// Makes the block calls that evaluation asked for, in order.
    fn run_requested(&mut self, fuel: usize)
        requires
            old(self).wf(),
        ensures
            final(self).wf(),
            final(self).program_exprs() == old(self).program_exprs(),
            final(self)@ == apply_calls(
                EngineView { eval: EvalState { calls: Seq::empty(), ..old(self)@.eval }, ..old(self)@ },
                old(self)@.eval.calls,
                fuel as nat,
            ),
        decreases fuel, 2nat, 0nat,
    {
        let mut pending: Vec<BlockSnapshot> = Vec::new();
        std::mem::swap(&mut pending, &mut self.calls);
        let ghost cs = pending@.map_values(|b: BlockSnapshot| b.call());
        assert(self.calls@.map_values(|b: BlockSnapshot| b.call()) =~= Seq::<BlockCall>::empty());
        let ghost base = self@;
        assert(cs.take(0) =~= Seq::<BlockCall>::empty());
        let mut i: usize = 0;
        while i < pending.len()
            invariant
                i <= pending.len(),
                cs == pending@.map_values(|b: BlockSnapshot| b.call()),
                self.wf(),
                self.program_exprs() == old(self).program_exprs(),
                self@ == apply_calls(base, cs.take(i as int), fuel as nat),
            decreases pending.len() - i,
        {
            let b = &pending[i];
            proof {
                assert(cs.take(i + 1).drop_last() =~= cs.take(i as int));
                assert(cs.take(i + 1).last() == b.call());
            }
            if b.parent_scope.0 < self.scopes.len() {
                let snapshot = BlockSnapshot {
                    id: b.id,
                    expressions: share(&b.expressions),
                    parent_scope: b.parent_scope,
                    inbox: b.inbox,
                    is_async: b.is_async,
                };
                self.call_block_fuel(snapshot, fuel);
            }
            i += 1;
        }
        assert(cs.take(pending.len() as int) =~= cs);
    }

    /// Records the block that `receiver` is, when it was just sent the
    /// `run` message `sent`, as asked to run.
    fn request_run(&mut self, receiver: ObjectRef, sent: Option<ObjectRef>, Ghost(v): Ghost<ValueView>)
        requires
            match v {
                ValueView::Obj(m) => sent matches Some(x) && x.0 == m,
                _ => sent is None,
            },
        ensures
            final(self).eval_state() == request_st(old(self).eval_state(), receiver.0 as int, v),
            final(self).same_schedule(old(self)),
            final(self).scopes@ == old(self).scopes@,
    {
        let is_run = match sent {
            Some(m) => match self.heap.message_of(m) {
                Some(MessageKind::Run) => true,
                _ => false,
            },
            None => false,
        };
        if is_run {
            let fuel = self.heap.len();
            match self.heap.block_snapshot(receiver, fuel) {
                Some(b) => {
                    let ghost before = self.calls@.map_values(|x: BlockSnapshot| x.call());
                    self.calls.push(b);
                    assert(self.calls@.map_values(|x: BlockSnapshot| x.call()) =~= before.push(b.call()));
                },
                None => {},
            }
        }
    }
}


/// Starting a block: a new scope under the block's, with `inbox` bound to
/// the block's inbox, and a frame over the block's expressions in it: on a
/// thread of its own for an asynchronous block, else on top of the active
/// thread.
pub open spec fn block_start_spec(
    ev: EngineView,
    exprs: Seq<Expr>,
    parent: int,
    inbox: int,
    is_async: bool,
) -> EngineView {
    let child = ev.eval.scopes.len() as int;
    let made = ev.eval.scopes.push(
        ScopeView { values: builtin_bindings(ev.eval.heap.len() as int), parent: Some(parent) },
    );
    let ev1 = EngineView {
        eval: EvalState {
            heap: ev.eval.heap + builtin_objects(ev.stdout),
            scopes: made.update(
                child,
                ScopeView { values: made[child].values.push(("inbox"@, inbox)), ..made[child] },
            ),
            ..ev.eval
        },
        ..ev
    };
    let frame = RunFrame { scope: child, exprs, pc: 0 };
    if is_async {
        EngineView { threads: ev1.threads.push(seq![frame]), ..ev1 }
    } else if 0 <= ev1.active < ev1.threads.len() {
        EngineView {
            threads: ev1.threads.update(ev1.active, ev1.threads[ev1.active].push(frame)),
            ..ev1
        }
    } else {
        ev1
    }
}

/// The turns a synchronous block may take, and the depth to which
/// synchronous blocks may run one another, before the engine stops
/// stepping them.
pub open spec fn nest_budget() -> nat {
    usize::MAX as nat
}

/// Running a block: an asynchronous block is started on a thread of its
/// own; a synchronous one is started on the active thread, which is then
/// stepped until the block's frames are gone.
pub open spec fn call_block_spec(
    ev: EngineView,
    exprs: Seq<Expr>,
    parent: int,
    inbox: int,
    is_async: bool,
    fuel: nat,
) -> EngineView
    decreases fuel, 1nat, 0nat,
{
    let started = block_start_spec(ev, exprs, parent, inbox, is_async);
    if !is_async && 0 <= ev.active < ev.threads.len() {
        nested_spec(started, ev.threads[ev.active].len() as int, fuel, nest_budget())
    } else {
        started
    }
}

/// After a synchronous block's frame was pushed on the active thread: step
/// that thread until it is back at `depth` frames, a `break` or `continue`
/// is pending, or a step fails; `fuel` bounds how deep blocks run blocks
/// and `n` the turns left.
pub open spec fn nested_spec(ev: EngineView, depth: int, fuel: nat, n: nat) -> EngineView
    decreases fuel, 0nat, n,
{
    if n > 0 && fuel > 0 && ev.eval.pending is None && 0 <= ev.active < ev.threads.len()
        && ev.threads[ev.active].len() > depth {
        let (ev2, r) = step_spec(ev, ev.active, (fuel - 1) as nat);
        if r is Err {
            finish_spec(ev2, depth)
        } else {
            nested_spec(ev2, depth, fuel, (n - 1) as nat)
        }
    } else {
        finish_spec(ev, depth)
    }
}

/// A pending `break` or `continue` drops the frames the block pushed.
pub open spec fn finish_spec(ev: EngineView, depth: int) -> EngineView {
    if ev.eval.pending is Some && 0 <= ev.active < ev.threads.len() && 0 <= depth
        <= ev.threads[ev.active].len() {
        EngineView {
            threads: ev.threads.update(ev.active, ev.threads[ev.active].subrange(0, depth)),
            ..ev
        }
    } else {
        ev
    }
}

/// A step whose expression sends `run` to blocks makes those block calls,
/// in order, once the expression is evaluated: a `run` of one block,
/// written in a scope of the engine, is `call_block_spec` over the block's
/// own expressions, scope, inbox and mode.
pub proof fn law_run_message_calls_block(ev: EngineView, index: int, fuel: nat)
    requires
        0 <= index < ev.threads.len(),
        ev.threads[index].len() > 0,
        ev.threads[index].last().pc < ev.threads[index].last().exprs.len(),
    ensures
        ({
            let top = ev.threads[index].last();
            let (st, r) = eval_expr_spec(
                EvalState { calls: Seq::empty(), ..ev.eval },
                top.exprs[top.pc],
                top.scope,
            );
            let frames = ev.threads[index];
            let ev2 = EngineView {
                eval: EvalState { calls: Seq::empty(), ..st },
                threads: ev.threads.update(
                    index,
                    frames.update(frames.len() - 1, RunFrame { pc: top.pc + 1, ..top }),
                ),
                ..ev
            };
            (r is Ok && st.calls.len() == 1 && 0 <= st.calls[0].parent < st.scopes.len()) ==> step_spec(
                ev,
                index,
                fuel,
            ).0 == call_block_spec(
                ev2,
                st.calls[0].exprs,
                st.calls[0].parent,
                st.calls[0].inbox,
                st.calls[0].is_async,
                fuel,
            )
        }),
{
    let top = ev.threads[index].last();
    let (st, r) = eval_expr_spec(EvalState { calls: Seq::empty(), ..ev.eval }, top.exprs[top.pc], top.scope);
    let frames = ev.threads[index];
    let ev2 = EngineView {
        eval: EvalState { calls: Seq::empty(), ..st },
        threads: ev.threads.update(index, frames.update(frames.len() - 1, RunFrame { pc: top.pc + 1, ..top })),
        ..ev
    };
    if st.calls.len() == 1 {
        assert(st.calls.drop_last() =~= Seq::<BlockCall>::empty());
        assert(apply_calls(ev2, st.calls.drop_last(), fuel) == ev2);
        assert(st.calls.last() == st.calls[0]);
    }
}

/// An asynchronous block runs on a thread of its own, added after the
/// others, in a new scope where `inbox` names the block's inbox and every
/// other name that is not built in is looked up in the scope the block was
/// written in.
pub proof fn law_async_block_runs_in_own_scope(
    ev: EngineView,
    exprs: Seq<Expr>,
    parent: int,
    inbox: int,
    key: Seq<char>,
    fuel: nat,
)
    requires
        scopes_wf(ev.eval.scopes),
        0 <= parent < ev.eval.scopes.len(),
    ensures
        ({
            let after = call_block_spec(ev, exprs, parent, inbox, true, fuel);
            let child = ev.eval.scopes.len() as int;
            &&& after.threads == ev.threads.push(seq![RunFrame { scope: child, exprs, pc: 0 }])
            &&& find_spec(after.eval.scopes, child, "inbox"@) == Some(inbox)
            &&& (key != "inbox"@ && !builtin_names().contains(key)) ==> find_spec(
                after.eval.scopes,
                child,
                key,
            ) == find_spec(ev.eval.scopes, parent, key)
        }),
{
    let ss = ev.eval.scopes;
    let child = ss.len() as int;
    let x = ScopeView { values: builtin_bindings(ev.eval.heap.len() as int), parent: Some(parent) };
    let made = ss.push(x);
    let after = call_block_spec(ev, exprs, parent, inbox, true, fuel);
    let bound = ScopeView { values: made[child].values.push(("inbox"@, inbox)), ..made[child] };
    assert(after.eval.scopes == made.update(child, bound));
    assert(after.eval.scopes[child] == bound);
    assert(made.update(child, bound) =~= ss.push(bound));
    if key != "inbox"@ && !builtin_names().contains(key) {
        let vs = builtin_bindings(ev.eval.heap.len() as int);
        assert forall|i: int| 0 <= i < vs.len() implies (#[trigger] vs[i]).0 != key by {
            assert(vs[i].0 == builtin_names()[i]);
        }
        lemma_lookup_absent(vs, key);
        assert(bound.values.drop_last() == vs);
        assert(lookup(bound.values, key) is None);
        lemma_find_after_push(ss, bound, parent, key);
    }
}

impl RuntimeEngine {
    /// Runs the program from the start, until no thread is left or an
    /// expression fails.
    pub fn run(&mut self) -> (r: Result<(), RuntimeError>)
        requires
            old(self).wf(),
        ensures
            final(self).wf(),
            (final(self)@, match r {
                Ok(()) => Ok::<(), Seq<char>>(()),
                Err(e) => Err(e.message@),
            }) == run_spec(old(self)@, old(self).program_exprs()),
    {
        let ghost start = start_spec(self@, self.program_exprs());
        self.threads.clear();
        self.current_thread = 0;
        self.outputs.clear();
        self.active_loops = 0;
        self.pending_loop_control = None;
        self.calls = Vec::new();
        assert(self.calls@.map_values(|b: BlockSnapshot| b.call()) =~= Seq::<BlockCall>::empty());
        let root_scope = Scope::new(&mut self.scopes, &mut self.heap, None, self.stdout.clone_ref());
        let mut frames: Vec<Frame> = Vec::new();
        frames.push(Frame { scope: root_scope, expressions: share(&self.program.expressions), pc: 0 });
        self.threads.push(Thread { frames });
        proof {
            let t0 = self.threads@[0];
            assert(t0.frames@.len() == 1);
            assert(frame_view(t0.frames@[0]) == RunFrame {
                scope: root_scope.0 as int,
                exprs: self.program_exprs(),
                pc: 0,
            });
            assert(thread_view(t0) =~= seq![RunFrame { scope: root_scope.0 as int, exprs: self.program_exprs(), pc: 0 }]);
            assert(self.threads@.map_values(|t: Thread| thread_view(t)) =~= start.threads);
            assert(self.outputs@.map_values(|o: OutputEvent| (o.mode, o.value@)) =~= start.outputs);
            assert(self@ == start);
            assert(scopes_wf(self.scopes@));
        }
        let mut left: usize = usize::MAX;
        while self.threads.len() > 0
            invariant
                self.wf(),
                self.program_exprs() == old(self).program_exprs(),
                run_loop_spec(self@, left as nat) == run_spec(old(self)@, old(self).program_exprs()),
            decreases left,
        {
            if left == 0 {
                return Err(RuntimeError::new(chars_of("program did not end")));
            }
            if self.current_thread >= self.threads.len() {
                self.current_thread = 0;
            }
            let thread_index = self.current_thread;
            self.current_thread = thread_index + 1;
            self.active_thread = thread_index;
            left = left - 1;
            match self.step_thread(thread_index, usize::MAX) {
                Ok(()) => {},
                Err(e) => {
                    return Err(e);
                },
            }
        }
        Ok(())
    }

    /// The values written so far.
    pub fn outputs(&self) -> (r: &[OutputEvent])
        ensures
            r@.map_values(|o: OutputEvent| (o.mode, o.value@)) == self@.outputs,
    {
        self.outputs.as_slice()
    }

    /// Records a value written in `mode`.
    pub fn emit_output(&mut self, mode: OutputMode, value: &str)
        ensures
            final(self)@ == (EngineView { outputs: old(self)@.outputs.push((mode, value@)), ..old(self)@ }),
            final(self).wf() == old(self).wf(),
    {
        let ghost before = self@;
        self.outputs.push(OutputEvent { mode, value: string_of(&chars_of(value)) });
        assert(self.outputs@.map_values(|o: OutputEvent| (o.mode, o.value@)) =~= before.outputs.push(
            (mode, value@),
        ));
    }

    /// The output mode that `echo` follows, which `stdout` sets.
    pub fn stdout_mode(&self) -> (r: OutputMode)
        requires
            self.wf(),
        ensures
            r == self@.modes[self@.stdout.cell()],
    {
        self.stdout.mode(&self.modes)
    }

    /// Sets the output mode that `echo` follows: every scope's `echo` and
    /// `stdout` share it.
    pub fn set_stdout_mode(&mut self, mode: OutputMode)
        requires
            old(self).wf(),
        ensures
            final(self).wf(),
            final(self)@ == (EngineView {
                modes: old(self)@.modes.update(old(self)@.stdout.cell(), mode),
                ..old(self)@
            }),
    {
        let handle = self.stdout.clone_ref();
        handle.set_mode(&mut self.modes, mode);
    }

    /// A scope of a well-formed engine is one evaluation can run in.
    pub proof fn lemma_can_eval_in(&self, scope: ScopeRef)
        requires
            self.wf(),
            scope.0 < self@.eval.scopes.len(),
        ensures
            self.can_eval_in(scope),
    {
    }

    /// The engine's objects.
    pub fn heap(&self) -> (r: &Heap)
        ensures
            r@ == self@.eval.heap,
    {
        &self.heap
    }

    /// The engine's scopes.
    pub fn scopes(&self) -> (r: &Scopes)
        ensures
            r@ == self@.eval.scopes,
    {
        &self.scopes
    }
}


impl RuntimeEngine {
    /// Runs `block`: in a new scope under the block's own, where `inbox`
    /// names the block's inbox. An asynchronous block gets a thread of its
    /// own, which runs later; a synchronous one runs on the active thread
    /// before this returns, until its frames are done, a `break` or
    /// `continue` is pending (its frames are then dropped) or one of its
    /// steps fails (the error goes no further).
    pub fn call_block(&mut self, block: BlockSnapshot)
        requires
            old(self).wf(),
            block.parent_scope.0 < old(self)@.eval.scopes.len(),
        ensures
            final(self).wf(),
            final(self).program_exprs() == old(self).program_exprs(),
            final(self)@ == call_block_spec(
                old(self)@,
                (*block.expressions)@,
                block.parent_scope.0 as int,
                block.inbox.0 as int,
                block.is_async,
                nest_budget(),
            ),
    {
        self.call_block_fuel(block, usize::MAX);
    }

    fn call_block_fuel(&mut self, block: BlockSnapshot, fuel: usize)
        requires
            old(self).wf(),
            block.parent_scope.0 < old(self)@.eval.scopes.len(),
        ensures
            final(self).wf(),
            final(self).program_exprs() == old(self).program_exprs(),
            final(self)@ == call_block_spec(
                old(self)@,
                (*block.expressions)@,
                block.parent_scope.0 as int,
                block.inbox.0 as int,
                block.is_async,
                fuel as nat,
            ),
        decreases fuel, 1nat, 0nat,
    {
        let sync_on = !block.is_async && self.active_thread < self.threads.len();
        let depth = if sync_on {
            self.threads[self.active_thread].frames.len()
        } else {
            0
        };
        let ghost call = call_block_spec(
            self@,
            (*block.expressions)@,
            block.parent_scope.0 as int,
            block.inbox.0 as int,
            block.is_async,
            fuel as nat,
        );
        self.start_block(block);
        if !sync_on {
            return;
        }
        let ghost target = nested_spec(self@, depth as int, fuel as nat, nest_budget());
        assert(target == call);
        let mut left: usize = usize::MAX;
        let mut stop = false;
        while !stop && left > 0 && fuel > 0 && self.pending_loop_control.is_none() && self.active_thread
            < self.threads.len() && self.threads[self.active_thread].frames.len() > depth
            invariant
                self.wf(),
                self.program_exprs() == old(self).program_exprs(),
                !stop ==> nested_spec(self@, depth as int, fuel as nat, left as nat) == target,
                stop ==> finish_spec(self@, depth as int) == target,
            decreases left,
        {
            let a = self.active_thread;
            if self.step_thread(a, fuel - 1).is_err() {
                stop = true;
            }
            left = left - 1;
        }
        if self.pending_loop_control.is_some() && self.active_thread < self.threads.len() {
            let a = self.active_thread;
            let ghost before = self@;
            let ghost tvb = self.threads@;
            let mut t = Thread { frames: Vec::new() };
            self.threads.set_and_swap(a, &mut t);
            let ghost fv2 = thread_view(t);
            t.frames.truncate(depth);
            proof {
                if depth <= fv2.len() {
                    assert(thread_view(t) =~= fv2.subrange(0, depth as int));
                } else {
                    assert(thread_view(t) =~= fv2);
                }
            }
            self.threads.set(a, t);
            assert forall|x: int, f: int|
                0 <= x < self.threads@.len() && 0 <= f < self.threads@[x].frames@.len() implies (
                #[trigger] self.threads@[x].frames@[f]).scope.0 < self.scopes@.len() by {
                if x != a {
                    assert(self.threads@[x] == tvb[x]);
                } else {
                    assert(self.threads@[x].frames@[f] == tvb[x].frames@[f]);
                }
            }
            proof {
                if depth <= fv2.len() {
                    assert(self@.threads =~= before.threads.update(a as int, fv2.subrange(0, depth as int)));
                } else {
                    assert(self@.threads =~= before.threads);
                }
            }
        }
    }

    /// Starts `block`: its scope, and its frame on a thread of its own or on
    /// top of the active thread.
    fn start_block(&mut self, block: BlockSnapshot)
        requires
            old(self).wf(),
            block.parent_scope.0 < old(self)@.eval.scopes.len(),
        ensures
            final(self).wf(),
            final(self).program_exprs() == old(self).program_exprs(),
            final(self)@ == block_start_spec(
                old(self)@,
                (*block.expressions)@,
                block.parent_scope.0 as int,
                block.inbox.0 as int,
                block.is_async,
            ),
    {
        let ghost target = block_start_spec(
            self@,
            (*block.expressions)@,
            block.parent_scope.0 as int,
            block.inbox.0 as int,
            block.is_async,
        );
        let ghost tv0 = self.threads@;
        let child = Scope::new(&mut self.scopes, &mut self.heap, Some(block.parent_scope), self.stdout.clone_ref());
        proof {
            assert forall|i: int| 0 <= i < self.scopes@.len() implies ((#[trigger] self.scopes@[i]).parent matches Some(
                p,
            ) ==> 0 <= p < i) by {
                if i < self.scopes@.len() - 1 {
                    assert(self.scopes@[i] == old(self).scopes@[i]);
                }
            }
        }
        Scope::set(&mut self.scopes, child, "inbox", block.inbox);
        let ghost ev1 = self@;
        let frame = Frame { scope: child, expressions: block.expressions, pc: 0 };
        assert(frame_view(frame) == RunFrame { scope: child.0 as int, exprs: (*block.expressions)@, pc: 0 });
        if block.is_async {
            let mut frames: Vec<Frame> = Vec::new();
            frames.push(frame);
            let t = Thread { frames };
            assert(thread_view(t) =~= seq![frame_view(frame)]);
            self.threads.push(t);
            assert(self@.threads =~= ev1.threads.push(seq![frame_view(frame)]));
            assert forall|t: int, f: int|
                0 <= t < self.threads@.len() && 0 <= f < self.threads@[t].frames@.len() implies (
                #[trigger] self.threads@[t].frames@[f]).scope.0 < self.scopes@.len() by {
                if t < tv0.len() {
                    assert(self.threads@[t] == tv0[t]);
                }
            }
            return;
        }
        if self.active_thread < self.threads.len() {
            let active = self.active_thread;
            let depth = self.threads[active].frames.len();
            let mut thread = Thread { frames: Vec::new() };
            self.threads.set_and_swap(active, &mut thread);
            let ghost fv = thread_view(thread);
            thread.frames.push(frame);
            assert(thread_view(thread) =~= fv.push(frame_view(frame)));
            self.threads.set(active, thread);
            assert(self@.threads =~= ev1.threads.update(active as int, ev1.threads[active as int].push(frame_view(frame))));
            assert forall|t: int, f: int|
                0 <= t < self.threads@.len() && 0 <= f < self.threads@[t].frames@.len() implies (
                #[trigger] self.threads@[t].frames@[f]).scope.0 < self.scopes@.len() by {
                if t != active {
                    assert(self.threads@[t] == tv0[t]);
                } else if f < depth {
                    assert(self.threads@[t].frames@[f] == tv0[t].frames@[f]);
                }
            }
        }
    }
}

} // verus!

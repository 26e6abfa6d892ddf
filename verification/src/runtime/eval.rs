//! How expressions are evaluated: the first node is the receiver, the
//! others are messages sent to it.
use std::rc::Rc;
use vstd::prelude::*;
use crate::ast::{control_keyword, BlockLiteral, ControlOp, Expr, NodeExpr, ReservedToken};
use crate::runtime::number::is_number_literal;
use crate::runtime::object::{
    block_of, call_of, end_spec, receive_spec, type_of, value_message, value_text, value_truth, BlockCall,
    ObjectView,
};
use crate::runtime::value::MessageKind;
use crate::runtime::scope::{bind_spec, find_spec, law_set_then_find, scopes_wf, ScopeView};
use crate::runtime::value::ValueView;

verus! {

/// A `break` or `continue` waiting to be acted on by the innermost loop.
#[derive(Debug, Clone, Copy, PartialEq, Eq, Structural)]
pub enum LoopControl {
    Break,
    Continue,
}

/// The part of a running program that evaluation reads and changes.
pub ghost struct EvalState {
    pub heap: Seq<ObjectView>,
    pub scopes: Seq<ScopeView>,
    pub active_loops: int,
    pub pending: Option<LoopControl>,
    /// The blocks asked to run by a `run` message, in order, not yet run.
    pub calls: Seq<BlockCall>,
}

pub open spec fn loop_keyword(c: LoopControl) -> Seq<char> {
    match c {
        LoopControl::Break => "break"@,
        LoopControl::Continue => "continue"@,
    }
}

pub open spec fn outside_loop_message(c: LoopControl) -> Seq<char> {
    "'"@ + loop_keyword(c) + "' can only be used inside while body"@
}

pub open spec fn standalone_message(op: ControlOp) -> Seq<char> {
    "'"@ + control_keyword(op) + "' must be used as a standalone expression"@
}

pub open spec fn endless_loop_message() -> Seq<char> {
    "while loop did not end"@
}

pub open spec fn nesting_message() -> Seq<char> {
    "while loops nested too deeply"@
}

/// The value a word stands for by itself: `true`, `false` or a number.
pub open spec fn literal_of(token: Seq<char>) -> Option<ValueView> {
    if token == "true"@ {
        Some(ValueView::Bool(true))
    } else if token == "false"@ {
        Some(ValueView::Bool(false))
    } else if is_number_literal(token) {
        Some(ValueView::Number(token))
    } else {
        None
    }
}

/// The loop control an expression is, when it is `break` or `continue`
/// alone.
pub open spec fn control_of(e: Expr) -> Option<LoopControl> {
    if e.nodes@.len() == 1 {
        match e.nodes@[0] {
            NodeExpr::Reserved(ReservedToken::Control(ControlOp::Break)) => Some(LoopControl::Break),
            NodeExpr::Reserved(ReservedToken::Control(ControlOp::Continue)) => Some(
                LoopControl::Continue,
            ),
            _ => None,
        }
    } else {
        None
    }
}

pub open spec fn alloc_st(st: EvalState, ob: ObjectView) -> (EvalState, int) {
    (EvalState { heap: st.heap.push(ob), ..st }, st.heap.len() as int)
}

pub open spec fn receive_st(st: EvalState, o: int, v: ValueView) -> EvalState {
    EvalState { heap: receive_spec(st.heap, o, v, st.heap.len()), ..st }
}

pub open spec fn end_st(st: EvalState, o: int) -> EvalState {
    EvalState { heap: end_spec(st.heap, o, st.heap.len()), ..st }
}

/// The object `name` names from `scope`, bound there to a new node when no
/// scope binds it.
pub open spec fn name_st(st: EvalState, scope: int, name: Seq<char>) -> (EvalState, int) {
    match find_spec(st.scopes, scope, name) {
        Some(o) => (st, o),
        None => (
            EvalState {
                heap: st.heap.push(ObjectView::Node { strategy: None }),
                scopes: st.scopes.update(
                    scope,
                    ScopeView {
                        values: st.scopes[scope].values.push((name, st.heap.len() as int)),
                        ..st.scopes[scope]
                    },
                ),
                ..st
            },
            st.heap.len() as int,
        ),
    }
}

/// Naming an object twice gives the same object: the first time binds a
/// new node when no scope binds the name, the second finds that node and
/// changes nothing.
pub proof fn law_name_is_stable(st: EvalState, scope: int, name: Seq<char>)
    requires
        scopes_wf(st.scopes),
        0 <= scope < st.scopes.len(),
    ensures
        name_st(name_st(st, scope, name).0, scope, name) == name_st(st, scope, name),
{
    if find_spec(st.scopes, scope, name) is None {
        let st1 = name_st(st, scope, name).0;
        assert(st1.scopes == bind_spec(st.scopes, scope, name, st.heap.len() as int));
        law_set_then_find(st.scopes, scope, name, st.heap.len() as int);
    }
}

/// The operator object a reserved token makes; control words make none.
pub open spec fn reserved_heap(h: Seq<ObjectView>, token: ReservedToken) -> (Seq<ObjectView>, Result<int, Seq<char>>) {
    match token {
        ReservedToken::Control(op) => (h, Err(standalone_message(op))),
        _ => (h.push(ObjectView::Operator(token)), Ok(h.len() as int)),
    }
}

pub open spec fn reserved_st(st: EvalState, token: ReservedToken) -> (EvalState, Result<int, Seq<char>>) {
    let (h, r) = reserved_heap(st.heap, token);
    (EvalState { heap: h, ..st }, r)
}

/// A block object for `b` written in `scope`, with a new node as its inbox.
pub open spec fn block_st(st: EvalState, b: BlockLiteral, scope: int) -> (EvalState, int) {
    let (s1, inbox) = alloc_st(st, ObjectView::Node { strategy: None });
    alloc_st(
        s1,
        ObjectView::Block {
            id: b.id as nat,
            exprs: (*b.expressions)@,
            parent_scope: scope,
            inbox,
            is_async: false,
        },
    )
}

/// Evaluates the first node of an expression: the receiver.
pub open spec fn eval_root_spec(st: EvalState, n: NodeExpr, scope: int) -> (EvalState, Result<int, Seq<char>>)
    decreases n, 0nat, 0nat,
{
    match n {
        NodeExpr::Identifier(name) => if name@ == "list"@ {
            let (s, o) = alloc_st(st, ObjectView::List(Seq::empty()));
            (s, Ok(o))
        } else {
            match literal_of(name@) {
                Some(lit) => {
                    let (s1, node) = alloc_st(st, ObjectView::Node { strategy: None });
                    (receive_st(s1, node, lit), Ok(node))
                },
                None => {
                    let (s, o) = name_st(st, scope, name@);
                    (s, Ok(o))
                },
            }
        },
        NodeExpr::StringLiteral(text) => {
            let (s1, node) = alloc_st(st, ObjectView::Node { strategy: None });
            (receive_st(s1, node, ValueView::Text(text@)), Ok(node))
        },
        NodeExpr::Reserved(token) => {
            let (s1, node) = alloc_st(st, ObjectView::Node { strategy: None });
            match reserved_st(s1, token) {
                (s2, Err(m)) => (s2, Err(m)),
                (s2, Ok(op)) => (receive_st(s2, node, ValueView::Obj(op)), Ok(node)),
            }
        },
        NodeExpr::SubExpression(sub) => eval_expr_spec(st, *sub, scope),
        NodeExpr::BlockLiteral(b) => {
            let (s, o) = block_st(st, b, scope);
            (s, Ok(o))
        },
    }
}

/// Evaluates a node sent as a message.
pub open spec fn eval_message_spec(st: EvalState, n: NodeExpr, scope: int) -> (EvalState, Result<ValueView, Seq<char>>)
    decreases n, 0nat, 0nat,
{
    match n {
        NodeExpr::Identifier(name) => if name@ == "list"@ {
            let (s, o) = alloc_st(st, ObjectView::List(Seq::empty()));
            (s, Ok(ValueView::Obj(o)))
        } else {
            match literal_of(name@) {
                Some(lit) => (st, Ok(lit)),
                None => {
                    let (s, o) = name_st(st, scope, name@);
                    (s, Ok(ValueView::Obj(o)))
                },
            }
        },
        NodeExpr::StringLiteral(text) => (st, Ok(ValueView::Text(text@))),
        NodeExpr::Reserved(token) => match reserved_st(st, token) {
            (s, Err(m)) => (s, Err(m)),
            (s, Ok(o)) => (s, Ok(ValueView::Obj(o))),
        },
        NodeExpr::SubExpression(sub) => match eval_expr_spec(st, *sub, scope) {
            (s, Err(m)) => (s, Err(m)),
            (s, Ok(o)) => (s, Ok(ValueView::Obj(o))),
        },
        NodeExpr::BlockLiteral(b) => {
            let (s, o) = block_st(st, b, scope);
            (s, Ok(ValueView::Obj(o)))
        },
    }
}

/// After `recv` received `v`: when `v` is the `run` message and `recv` is a
/// block, itself or through its nodes, that block is asked to run.
pub open spec fn request_st(st: EvalState, recv: int, v: ValueView) -> EvalState {
    if value_message(st.heap, v) == Some(MessageKind::Run) {
        match block_of(st.heap, recv, st.heap.len()) {
            Some(b) => EvalState { calls: st.calls.push(call_of(st.heap[b])), ..st },
            None => st,
        }
    } else {
        st
    }
}

/// A block made from a literal runs the literal's body: when it is sent
/// the `run` message, the call asked for runs the literal's expressions,
/// in the scope the literal was written in, with the block's own inbox.
pub proof fn law_block_literal_runs_its_body(st: EvalState, b: BlockLiteral, scope: int, m: int)
    requires
        value_message(block_st(st, b, scope).0.heap, ValueView::Obj(m)) == Some(MessageKind::Run),
    ensures
        ({
            let (s1, o) = block_st(st, b, scope);
            request_st(s1, o, ValueView::Obj(m)).calls == s1.calls.push(
                BlockCall {
                    exprs: (*b.expressions)@,
                    parent: scope,
                    inbox: st.heap.len() as int,
                    is_async: false,
                },
            )
        }),
{
    let (s1, o) = block_st(st, b, scope);
    assert(s1.heap[o] is Block);
    assert(block_of(s1.heap, o, s1.heap.len()) == Some(o));
}

/// Sends the messages `e.nodes[i..]` to `recv`, one after the other.
pub open spec fn send_spec(st: EvalState, e: Expr, i: int, scope: int, recv: int) -> (EvalState, Result<(), Seq<char>>)
    decreases e, 1nat, e.nodes@.len() - i,
{
    if i < 0 || i >= e.nodes@.len() {
        (st, Ok(()))
    } else {
        proof {
            assert(decreases_to!(e => e.nodes@[i]));
        }
        match eval_message_spec(st, e.nodes@[i], scope) {
            (s1, Err(m)) => (s1, Err(m)),
            (s1, Ok(v)) => send_spec(request_st(receive_st(s1, recv, v), recv, v), e, i + 1, scope, recv),
        }
    }
}

/// The text of the messages `e.nodes[i..]`, after `acc`: the prompt that
/// `input` shows.
pub open spec fn prompt_spec(st: EvalState, e: Expr, i: int, scope: int, acc: Seq<char>) -> (EvalState, Result<Seq<char>, Seq<char>>)
    decreases e, 1nat, e.nodes@.len() - i,
{
    if i < 0 || i >= e.nodes@.len() {
        (st, Ok(acc))
    } else {
        proof {
            assert(decreases_to!(e => e.nodes@[i]));
        }
        match eval_message_spec(st, e.nodes@[i], scope) {
            (s1, Err(m)) => (s1, Err(m)),
            (s1, Ok(v)) => prompt_spec(s1, e, i + 1, scope, acc + value_text(s1.heap, v, s1.heap.len())),
        }
    }
}

/// One turn of a `while`: evaluate the condition and send it; while it
/// holds, evaluate the body and send it, and act on a pending `break` or
/// `continue`. `budget` turns are left.
pub open spec fn while_spec(st: EvalState, e: Expr, scope: int, recv: int, budget: nat) -> (EvalState, Result<(), Seq<char>>)
    decreases e, 0nat, budget,
{
    if e.nodes@.len() < 3 {
        (st, Ok(()))
    } else if budget == 0 {
        (st, Err(endless_loop_message()))
    } else {
        proof {
            assert(decreases_to!(e => e.nodes@[1]));
            assert(decreases_to!(e => e.nodes@[2]));
        }
        match eval_message_spec(st, e.nodes@[1], scope) {
            (s1, Err(m)) => (s1, Err(m)),
            (s1, Ok(c)) => {
                let holds = value_truth(s1.heap, c, s1.heap.len());
                let s2 = receive_st(s1, recv, c);
                if !holds {
                    (s2, Ok(()))
                } else {
                    match eval_message_spec(s2, e.nodes@[2], scope) {
                        (s3, Err(m)) => (s3, Err(m)),
                        (s3, Ok(b)) => {
                            let s4 = receive_st(s3, recv, b);
                            match s4.pending {
                                Some(LoopControl::Break) => (EvalState { pending: None, ..s4 }, Ok(())),
                                Some(LoopControl::Continue) => while_spec(
                                    EvalState { pending: None, ..s4 },
                                    e,
                                    scope,
                                    recv,
                                    (budget - 1) as nat,
                                ),
                                None => while_spec(s4, e, scope, recv, (budget - 1) as nat),
                            }
                        },
                    }
                }
            },
        }
    }
}

/// One turn of a `while` whose condition holds and whose body evaluates:
/// a pending `break` ends the loop there, with nothing left pending; a
/// pending `continue`, like a body that leaves nothing pending, goes on to
/// the next turn, which evaluates the condition again from the state the
/// body left, with nothing pending.
pub proof fn law_loop_goes_on_unless_break(
    st: EvalState,
    e: Expr,
    scope: int,
    recv: int,
    budget: nat,
    s1: EvalState,
    c: ValueView,
    s3: EvalState,
    b: ValueView,
)
    requires
        e.nodes@.len() >= 3,
        budget > 0,
        eval_message_spec(st, e.nodes@[1], scope) == (s1, Ok::<ValueView, Seq<char>>(c)),
        value_truth(s1.heap, c, s1.heap.len()),
        eval_message_spec(receive_st(s1, recv, c), e.nodes@[2], scope) == (s3, Ok::<ValueView, Seq<char>>(b)),
    ensures
        ({
            let t = receive_st(s3, recv, b);
            let cleared = EvalState { pending: None, ..t };
            &&& t.pending == Some(LoopControl::Break) ==> while_spec(st, e, scope, recv, budget) == (
                cleared,
                Ok::<(), Seq<char>>(()),
            )
            &&& t.pending != Some(LoopControl::Break) ==> while_spec(st, e, scope, recv, budget)
                == while_spec(cleared, e, scope, recv, (budget - 1) as nat)
        }),
{
    let t = receive_st(s3, recv, b);
    if t.pending is None {
        assert(EvalState { pending: None, ..t } == t);
    }
}

/// The turns a `while` may take before it is held to be endless.
pub open spec fn while_budget() -> nat {
    usize::MAX as nat
}

/// Evaluates an expression; the result is its receiver.
pub open spec fn eval_expr_spec(st: EvalState, e: Expr, scope: int) -> (EvalState, Result<int, Seq<char>>)
    decreases e, 2nat, 0nat,
{
    if e.nodes@.len() == 0 {
        let (s1, n) = alloc_st(st, ObjectView::Node { strategy: None });
        (end_st(s1, n), Ok(n))
    } else {
        match control_of(e) {
            Some(c) => if st.active_loops == 0 {
                (st, Err(outside_loop_message(c)))
            } else {
                let (s1, n) = alloc_st(EvalState { pending: Some(c), ..st }, ObjectView::Node { strategy: None });
                (end_st(s1, n), Ok(n))
            },
            None => {
                proof {
                    assert(decreases_to!(e => e.nodes@[0]));
                }
                match eval_root_spec(st, e.nodes@[0], scope) {
                    (s1, Err(m)) => (s1, Err(m)),
                    (s1, Ok(recv)) => {
                        let kind = type_of(s1.heap, recv, s1.heap.len());
                        let (s2, r) = if kind == "whileCommand"@ && s1.active_loops >= usize::MAX {
                            (s1, Err(nesting_message()))
                        } else if kind == "whileCommand"@ {
                            let (w, r) = while_spec(
                                EvalState { active_loops: s1.active_loops + 1, ..s1 },
                                e,
                                scope,
                                recv,
                                while_budget(),
                            );
                            (EvalState { active_loops: s1.active_loops, ..w }, r)
                        } else if kind == "input"@ {
                            if e.nodes@.len() <= 1 {
                                (s1, Ok(()))
                            } else {
                                match prompt_spec(s1, e, 1, scope, Seq::empty()) {
                                    (p, Err(m)) => (p, Err(m)),
                                    (p, Ok(text)) => (receive_st(p, recv, ValueView::Text(text)), Ok(())),
                                }
                            }
                        } else {
                            send_spec(s1, e, 1, scope, recv)
                        };
                        match r {
                            Err(m) => (s2, Err(m)),
                            Ok(_) => (end_st(s2, recv), Ok(recv)),
                        }
                    },
                }
            },
        }
    }
}

} // verus!

//! The objects of a running program and how they take messages.
//!
//! Objects live in a heap and refer to each other by index. A node takes
//! its behaviour (its strategy) from the first value it receives; lists and
//! the list commands hold and change sequences of values.
use std::rc::Rc;
use vstd::prelude::*;
use crate::ast::{ArithmeticOp, BooleanOp, Expr, LogicOp, ReservedToken};
use crate::codegen::{debug_quoted, rust_string};
use crate::runtime::number::{is_number_literal, is_number_word};
use crate::runtime::value::{MessageKind, ObjectRef, ScopeRef, StdoutState, Value, ValueView};
use crate::text::{chars_of, decimal, decimal_chars, eq_str, push_all, push_str, string_of};

verus! {

/// The built-in commands whose behaviour lies outside this library: the
/// library knows them by name and type, and `echo` and `stdout` by the
/// output mode they share.
#[derive(Debug, Clone, Copy, PartialEq, Eq, Structural)]
pub enum Command {
    Input,
    Echo(StdoutState),
    Stdout(StdoutState),
    If,
    While,
}

/// What a block object carries to be run: its body, the scope it was
/// written in, its inbox and whether it runs on a thread of its own.
pub struct BlockSnapshot {
    pub id: usize,
    pub expressions: Rc<Vec<Expr>>,
    pub parent_scope: ScopeRef,
    pub inbox: ObjectRef,
    pub is_async: bool,
}

/// What running a block takes: its body, the scope it was written in, its
/// inbox, and whether it runs on a thread of its own.
pub ghost struct BlockCall {
    pub exprs: Seq<Expr>,
    pub parent: int,
    pub inbox: int,
    pub is_async: bool,
}

impl BlockSnapshot {
    /// What running this block takes.
    pub open spec fn call(&self) -> BlockCall {
        BlockCall {
            exprs: (*self.expressions)@,
            parent: self.parent_scope.0 as int,
            inbox: self.inbox.0 as int,
            is_async: self.is_async,
        }
    }
}

/// What running the block object `ob` takes.
pub open spec fn call_of(ob: ObjectView) -> BlockCall {
    match ob {
        ObjectView::Block { exprs, parent_scope, inbox, is_async, .. } => BlockCall {
            exprs,
            parent: parent_scope,
            inbox,
            is_async,
        },
        _ => BlockCall { exprs: Seq::empty(), parent: 0, inbox: 0, is_async: false },
    }
}

/// Another handle on the same expressions. Calls std's `Rc::clone`; the
/// contract claims that the new handle points to the same vector.
#[verifier::external_body]
pub(crate) fn share(expressions: &Rc<Vec<Expr>>) -> (r: Rc<Vec<Expr>>)
    ensures
        r == *expressions,
{
    Rc::clone(expressions)
}

/// An object of the heap.
pub enum Object {
    /// A node, which takes a strategy from the first value it receives.
    Node { strategy: Option<ObjectRef> },
    /// The strategy of a node whose first value was null.
    Null,
    /// The text strategy: received values are appended as text.
    Text(String),
    /// The boolean strategy: received values are and-ed in.
    Boolean(bool),
    /// The number strategy, with the literal of its first value.
    Number(Option<String>),
    /// A list of values.
    List(Vec<Value>),
    /// `list_push`: a target list, then values to push.
    ListPush { target: Option<ObjectRef> },
    /// `list_pop`: a target list; holds the value popped.
    ListPop { target: Option<ObjectRef>, result: Value },
    /// `list_get`: a target list and an index; holds the value read.
    ListGet { target: Option<ObjectRef>, index: Option<usize>, result: Value },
    /// `list_set`: a target list, an index and the value to store.
    ListSet { target: Option<ObjectRef>, index: Option<usize>, has_index: bool },
    /// `list_len`: a target list; holds its length.
    ListLen { consumed_target: bool, result: usize },
    /// The `run`, `async` and `else` messages.
    Message(MessageKind),
    /// A built-in command.
    Command(Command),
    /// An operator object.
    Operator(ReservedToken),
    /// A block.
    Block(BlockSnapshot),
}

pub ghost enum ObjectView {
    Node { strategy: Option<int> },
    Null,
    Text(Seq<char>),
    Boolean(bool),
    Number(Option<Seq<char>>),
    List(Seq<ValueView>),
    ListPush { target: Option<int> },
    ListPop { target: Option<int>, result: ValueView },
    ListGet { target: Option<int>, index: Option<nat>, result: ValueView },
    ListSet { target: Option<int>, index: Option<nat>, has_index: bool },
    ListLen { consumed_target: bool, result: nat },
    Message(MessageKind),
    Command(Command),
    Operator(ReservedToken),
    Block { id: nat, exprs: Seq<Expr>, parent_scope: int, inbox: int, is_async: bool },
}

pub open spec fn ref_opt(o: Option<ObjectRef>) -> Option<int> {
    match o {
        Some(r) => Some(r.0 as int),
        None => None,
    }
}

pub open spec fn index_opt(o: Option<usize>) -> Option<nat> {
    match o {
        Some(i) => Some(i as nat),
        None => None,
    }
}

impl Object {
    pub open spec fn view(&self) -> ObjectView {
        match self {
            Object::Node { strategy } => ObjectView::Node { strategy: ref_opt(*strategy) },
            Object::Null => ObjectView::Null,
            Object::Text(t) => ObjectView::Text(t@),
            Object::Boolean(b) => ObjectView::Boolean(*b),
            Object::Number(n) => ObjectView::Number(
                match n {
                    Some(t) => Some(t@),
                    None => None,
                },
            ),
            Object::List(items) => ObjectView::List(items@.map_values(|v: Value| v.view())),
            Object::ListPush { target } => ObjectView::ListPush { target: ref_opt(*target) },
            Object::ListPop { target, result } => ObjectView::ListPop {
                target: ref_opt(*target),
                result: result.view(),
            },
            Object::ListGet { target, index, result } => ObjectView::ListGet {
                target: ref_opt(*target),
                index: index_opt(*index),
                result: result.view(),
            },
            Object::ListSet { target, index, has_index } => ObjectView::ListSet {
                target: ref_opt(*target),
                index: index_opt(*index),
                has_index: *has_index,
            },
            Object::ListLen { consumed_target, result } => ObjectView::ListLen {
                consumed_target: *consumed_target,
                result: *result as nat,
            },
            Object::Message(k) => ObjectView::Message(*k),
            Object::Command(c) => ObjectView::Command(*c),
            Object::Operator(t) => ObjectView::Operator(*t),
            Object::Block(b) => ObjectView::Block {
                id: b.id as nat,
                exprs: (*b.expressions)@,
                parent_scope: b.parent_scope.0 as int,
                inbox: b.inbox.0 as int,
                is_async: b.is_async,
            },
        }
    }
}

// ---------------------------------------------------------------------------
// What an object is and what it says of itself

pub open spec fn command_type(c: Command) -> Seq<char> {
    match c {
        Command::Input => "input"@,
        Command::While => "whileCommand"@,
        _ => "command"@,
    }
}

pub open spec fn operator_type(t: ReservedToken) -> Seq<char> {
    match t {
        ReservedToken::Logic(_) => "logicOperator"@,
        ReservedToken::Boolean(_) => "booleanOperator"@,
        _ => "operator"@,
    }
}

/// The type name of object `o`; a node has the type of its strategy.
/// `fuel` bounds how many nodes are followed.
pub open spec fn type_of(h: Seq<ObjectView>, o: int, fuel: nat) -> Seq<char>
    decreases fuel,
{
    if !(0 <= o < h.len()) {
        "null"@
    } else {
        match h[o] {
            ObjectView::Node { strategy: Some(s) } => if fuel == 0 {
                "null"@
            } else {
                type_of(h, s, (fuel - 1) as nat)
            },
            ObjectView::Node { strategy: None } => "null"@,
            ObjectView::Null => "null"@,
            ObjectView::Text(_) => "text"@,
            ObjectView::Boolean(_) => "boolean"@,
            ObjectView::Number(_) => "number"@,
            ObjectView::List(_) => "list"@,
            ObjectView::ListPush { .. } => "command"@,
            ObjectView::ListPop { .. } => "command"@,
            ObjectView::ListGet { .. } => "command"@,
            ObjectView::ListSet { .. } => "command"@,
            ObjectView::ListLen { .. } => "command"@,
            ObjectView::Message(_) => "message"@,
            ObjectView::Command(c) => command_type(c),
            ObjectView::Operator(t) => operator_type(t),
            ObjectView::Block { .. } => "block"@,
        }
    }
}

pub open spec fn bool_text(b: bool) -> Seq<char> {
    if b {
        "true"@
    } else {
        "false"@
    }
}

/// The text of object `o`.
pub open spec fn text_of(h: Seq<ObjectView>, o: int, fuel: nat) -> Seq<char>
    decreases fuel, 0nat,
{
    if !(0 <= o < h.len()) {
        Seq::empty()
    } else {
        match h[o] {
            ObjectView::Node { strategy: Some(s) } => if fuel == 0 {
                Seq::empty()
            } else {
                text_of(h, s, (fuel - 1) as nat)
            },
            ObjectView::Text(t) => t,
            ObjectView::Number(Some(t)) => t,
            ObjectView::List(items) => if fuel == 0 {
                Seq::empty()
            } else {
                "["@ + items_text(h, items, (fuel - 1) as nat) + "]"@
            },
            ObjectView::ListPop { result, .. } => if fuel == 0 {
                Seq::empty()
            } else {
                value_text(h, result, (fuel - 1) as nat)
            },
            ObjectView::ListGet { result, .. } => if fuel == 0 {
                Seq::empty()
            } else {
                value_text(h, result, (fuel - 1) as nat)
            },
            ObjectView::ListLen { result, .. } => decimal(result),
            _ => Seq::empty(),
        }
    }
}

/// A value as text: an object's text, a number's literal, a text itself,
/// `true` or `false`; null is empty.
pub open spec fn value_text(h: Seq<ObjectView>, v: ValueView, fuel: nat) -> Seq<char>
    decreases fuel, 1nat,
{
    match v {
        ValueView::Obj(o) => text_of(h, o, fuel),
        ValueView::Number(t) => t,
        ValueView::Text(t) => t,
        ValueView::Bool(b) => bool_text(b),
        ValueView::Null => Seq::empty(),
    }
}

/// How a list shows one of its items: texts quoted, null as `null`.
pub open spec fn item_text(h: Seq<ObjectView>, v: ValueView, fuel: nat) -> Seq<char>
    decreases fuel, 1nat,
{
    match v {
        ValueView::Obj(o) => text_of(h, o, fuel),
        ValueView::Number(t) => t,
        ValueView::Text(t) => debug_quoted(t),
        ValueView::Bool(b) => bool_text(b),
        ValueView::Null => "null"@,
    }
}

/// The items of a list shown one after the other, separated by `, `.
pub open spec fn items_text(h: Seq<ObjectView>, items: Seq<ValueView>, fuel: nat) -> Seq<char>
    decreases fuel, items.len() + 2,
{
    if items.len() == 0 {
        Seq::empty()
    } else if items.len() == 1 {
        item_text(h, items[0], fuel)
    } else {
        items_text(h, items.drop_last(), fuel) + ", "@ + item_text(h, items.last(), fuel)
    }
}

/// Whether a number literal stands for a value other than zero: it names
/// infinity or not-a-number, or a digit of its mantissa is not zero.
pub open spec fn number_is_nonzero(t: Seq<char>) -> bool {
    exists|i: int|
        0 <= i < t.len() && (('1' <= #[trigger] t[i] && t[i] <= '9') || t[i] == 'i' || t[i] == 'I'
            || t[i] == 'n' || t[i] == 'N') && forall|k: int| 0 <= k < i ==> t[k] != 'e' && t[k]
            != 'E'
}

/// The truth of object `o`.
pub open spec fn truth_of(h: Seq<ObjectView>, o: int, fuel: nat) -> bool
    decreases fuel, 0nat,
{
    if !(0 <= o < h.len()) {
        false
    } else {
        match h[o] {
            ObjectView::Node { strategy: Some(s) } => fuel > 0 && truth_of(h, s, (fuel - 1) as nat),
            ObjectView::Boolean(b) => b,
            ObjectView::Number(Some(t)) => number_is_nonzero(t),
            ObjectView::List(items) => items.len() > 0,
            ObjectView::ListPop { result, .. } => fuel > 0 && value_truth(h, result, (fuel - 1) as nat),
            ObjectView::ListGet { result, .. } => fuel > 0 && value_truth(h, result, (fuel - 1) as nat),
            ObjectView::ListLen { result, .. } => result > 0,
            _ => false,
        }
    }
}

/// The truth of a value: an object's truth, a boolean itself, a non-empty
/// text, a number other than zero; null is false.
pub open spec fn value_truth(h: Seq<ObjectView>, v: ValueView, fuel: nat) -> bool
    decreases fuel, 1nat,
{
    match v {
        ValueView::Obj(o) => truth_of(h, o, fuel),
        ValueView::Number(t) => number_is_nonzero(t),
        ValueView::Text(t) => t.len() > 0,
        ValueView::Bool(b) => b,
        ValueView::Null => false,
    }
}

/// The literal of the number that object `o` stands for: a number's own, a
/// text that reads as a number, a list's or a length's count; else zero.
pub open spec fn number_of(h: Seq<ObjectView>, o: int, fuel: nat) -> Seq<char>
    decreases fuel, 0nat,
{
    if !(0 <= o < h.len()) {
        "0"@
    } else {
        match h[o] {
            ObjectView::Node { strategy: Some(s) } => if fuel == 0 {
                "0"@
            } else {
                number_of(h, s, (fuel - 1) as nat)
            },
            ObjectView::Number(Some(t)) => t,
            ObjectView::Text(t) => if is_number_literal(t) {
                t
            } else {
                "0"@
            },
            ObjectView::List(items) => decimal(items.len()),
            ObjectView::ListLen { result, .. } => decimal(result),
            ObjectView::ListPop { result, .. } => if fuel == 0 {
                "0"@
            } else {
                value_number(h, result, (fuel - 1) as nat)
            },
            ObjectView::ListGet { result, .. } => if fuel == 0 {
                "0"@
            } else {
                value_number(h, result, (fuel - 1) as nat)
            },
            _ => "0"@,
        }
    }
}

/// The literal of the number a value stands for, zero when it is none.
pub open spec fn value_number(h: Seq<ObjectView>, v: ValueView, fuel: nat) -> Seq<char>
    decreases fuel, 1nat,
{
    match v {
        ValueView::Obj(o) => number_of(h, o, fuel),
        ValueView::Number(t) => t,
        ValueView::Text(t) => if is_number_literal(t) {
            t
        } else {
            "0"@
        },
        _ => "0"@,
    }
}

/// The length of the list that object `o` is, if it is one.
pub open spec fn list_len_of(h: Seq<ObjectView>, o: int, fuel: nat) -> Option<nat>
    decreases fuel,
{
    if !(0 <= o < h.len()) {
        None
    } else {
        match h[o] {
            ObjectView::Node { strategy: Some(s) } => if fuel == 0 {
                None
            } else {
                list_len_of(h, s, (fuel - 1) as nat)
            },
            ObjectView::List(items) => Some(items.len()),
            _ => None,
        }
    }
}

/// The message that object `o` carries, if it is one.
pub open spec fn message_of(h: Seq<ObjectView>, o: int) -> Option<MessageKind> {
    if 0 <= o < h.len() {
        match h[o] {
            ObjectView::Message(k) => Some(k),
            _ => None,
        }
    } else {
        None
    }
}

/// The message `v` is, when it refers to a message object.
pub open spec fn value_message(h: Seq<ObjectView>, v: ValueView) -> Option<MessageKind> {
    match v {
        ValueView::Obj(m) => message_of(h, m),
        _ => None,
    }
}

/// The block that `x` is, itself or through the nodes it hands on to.
pub open spec fn block_of(h: Seq<ObjectView>, x: int, fuel: nat) -> Option<int>
    decreases fuel,
{
    if !(0 <= x < h.len()) {
        None
    } else {
        match h[x] {
            ObjectView::Node { strategy: Some(s) } => if fuel == 0 {
                None
            } else {
                block_of(h, s, (fuel - 1) as nat)
            },
            ObjectView::Block { .. } => Some(x),
            _ => None,
        }
    }
}

/// The object `v` refers to, when it is a list.
pub open spec fn list_target_of(h: Seq<ObjectView>, v: ValueView, fuel: nat) -> Option<int> {
    match v {
        ValueView::Obj(o) => if list_len_of(h, o, fuel) is Some {
            Some(o)
        } else {
            None
        },
        _ => None,
    }
}


// ---------------------------------------------------------------------------
// List indices

/// The value of the decimal digits `d`.
pub open spec fn digits_value(d: Seq<char>) -> nat
    decreases d.len(),
{
    if d.len() == 0 {
        0
    } else {
        digits_value(d.drop_last()) * 10 + (d.last() as nat - '0' as nat) as nat
    }
}

pub open spec fn all_zeros(s: Seq<char>) -> bool {
    forall|i: int| 0 <= i < s.len() ==> #[trigger] s[i] == '0'
}

/// The list index a number literal stands for: its value, when that is a
/// whole number not below zero, held at `usize::MAX` when larger.
pub open spec fn index_of_literal(t: Seq<char>) -> Option<nat> {
    crate::runtime::number::literal_index(t)
}

/// The list index a value stands for, if any.
pub open spec fn index_of_value(h: Seq<ObjectView>, v: ValueView, fuel: nat) -> Option<nat> {
    match v {
        ValueView::Number(t) => index_of_literal(t),
        ValueView::Text(t) => if is_number_literal(t) {
            index_of_literal(t)
        } else {
            None
        },
        ValueView::Obj(o) => index_of_literal(number_of(h, o, fuel)),
        _ => None,
    }
}

// ---------------------------------------------------------------------------
// Lists

/// Pushes `v` on the list that `x` is; whether there was one.
pub open spec fn push_spec(h: Seq<ObjectView>, x: int, v: ValueView, fuel: nat) -> (Seq<ObjectView>, bool)
    decreases fuel,
{
    if !(0 <= x < h.len()) {
        (h, false)
    } else {
        match h[x] {
            ObjectView::Node { strategy: Some(s) } => if fuel == 0 {
                (h, false)
            } else {
                push_spec(h, s, v, (fuel - 1) as nat)
            },
            ObjectView::List(items) => (h.update(x, ObjectView::List(items.push(v))), true),
            _ => (h, false),
        }
    }
}

/// Pops the last value of the list that `x` is.
pub open spec fn pop_spec(h: Seq<ObjectView>, x: int, fuel: nat) -> (Seq<ObjectView>, Option<ValueView>)
    decreases fuel,
{
    if !(0 <= x < h.len()) {
        (h, None)
    } else {
        match h[x] {
            ObjectView::Node { strategy: Some(s) } => if fuel == 0 {
                (h, None)
            } else {
                pop_spec(h, s, (fuel - 1) as nat)
            },
            ObjectView::List(items) => if items.len() == 0 {
                (h, None)
            } else {
                (h.update(x, ObjectView::List(items.drop_last())), Some(items.last()))
            },
            _ => (h, None),
        }
    }
}

/// The value at `i` in the list that `x` is.
pub open spec fn get_spec(h: Seq<ObjectView>, x: int, i: nat, fuel: nat) -> Option<ValueView>
    decreases fuel,
{
    if !(0 <= x < h.len()) {
        None
    } else {
        match h[x] {
            ObjectView::Node { strategy: Some(s) } => if fuel == 0 {
                None
            } else {
                get_spec(h, s, i, (fuel - 1) as nat)
            },
            ObjectView::List(items) => if i < items.len() {
                Some(items[i as int])
            } else {
                None
            },
            _ => None,
        }
    }
}

/// Stores `v` at `i` in the list that `x` is; whether it could.
pub open spec fn set_spec(h: Seq<ObjectView>, x: int, i: nat, v: ValueView, fuel: nat) -> (Seq<ObjectView>, bool)
    decreases fuel,
{
    if !(0 <= x < h.len()) {
        (h, false)
    } else {
        match h[x] {
            ObjectView::Node { strategy: Some(s) } => if fuel == 0 {
                (h, false)
            } else {
                set_spec(h, s, i, v, (fuel - 1) as nat)
            },
            ObjectView::List(items) => if i < items.len() {
                (h.update(x, ObjectView::List(items.update(i as int, v))), true)
            } else {
                (h, false)
            },
            _ => (h, false),
        }
    }
}

/// Popping keeps the number of objects.
pub proof fn lemma_pop_len(h: Seq<ObjectView>, x: int, fuel: nat)
    ensures
        pop_spec(h, x, fuel).0.len() == h.len(),
    decreases fuel,
{
    if 0 <= x < h.len() {
        if let ObjectView::Node { strategy: Some(s) } = h[x] {
            if fuel > 0 {
                lemma_pop_len(h, s, (fuel - 1) as nat);
            }
        }
    }
}

/// The list that `x` is, itself or through the nodes it hands on to.
pub open spec fn list_of(h: Seq<ObjectView>, x: int, fuel: nat) -> Option<int>
    decreases fuel,
{
    if !(0 <= x < h.len()) {
        None
    } else {
        match h[x] {
            ObjectView::Node { strategy: Some(s) } => if fuel == 0 {
                None
            } else {
                list_of(h, s, (fuel - 1) as nat)
            },
            ObjectView::List(_) => Some(x),
            _ => None,
        }
    }
}

/// The list that `x` is, when there is one, is a list object of the heap.
pub proof fn lemma_list_of(h: Seq<ObjectView>, x: int, fuel: nat)
    ensures
        list_of(h, x, fuel) matches Some(l) ==> 0 <= l < h.len() && h[l] is List,
        list_of(h, x, fuel) is Some <==> list_len_of(h, x, fuel) is Some,
        list_of(h, x, fuel) matches Some(l) ==> list_len_of(h, x, fuel) == Some(
            h[l]->List_0.len(),
        ),
    decreases fuel,
{
    if 0 <= x < h.len() {
        if let ObjectView::Node { strategy: Some(s) } = h[x] {
            if fuel > 0 {
                lemma_list_of(h, s, (fuel - 1) as nat);
            }
        }
    }
}

/// Changing the list `l` keeps every path of nodes that led to it.
proof fn lemma_list_of_update(h: Seq<ObjectView>, x: int, fuel: nat, items: Seq<ValueView>)
    requires
        list_of(h, x, fuel) is Some,
    ensures
        list_of(h.update(list_of(h, x, fuel)->0, ObjectView::List(items)), x, fuel) == list_of(h, x, fuel),
    decreases fuel,
{
    lemma_list_of(h, x, fuel);
    let l = list_of(h, x, fuel)->0;
    let h2 = h.update(l, ObjectView::List(items));
    if let ObjectView::Node { strategy: Some(s) } = h[x] {
        assert(x != l);
        assert(h2[x] == h[x]);
        lemma_list_of_update(h, s, (fuel - 1) as nat, items);
    }
}

proof fn lemma_push_at(h: Seq<ObjectView>, x: int, v: ValueView, fuel: nat)
    requires
        list_of(h, x, fuel) is Some,
    ensures
        ({
            let l = list_of(h, x, fuel)->0;
            push_spec(h, x, v, fuel) == (h.update(l, ObjectView::List(h[l]->List_0.push(v))), true)
        }),
    decreases fuel,
{
    lemma_list_of(h, x, fuel);
    if let ObjectView::Node { strategy: Some(s) } = h[x] {
        lemma_push_at(h, s, v, (fuel - 1) as nat);
    }
}

proof fn lemma_pop_at(h: Seq<ObjectView>, x: int, fuel: nat)
    requires
        list_of(h, x, fuel) is Some,
    ensures
        ({
            let l = list_of(h, x, fuel)->0;
            let items = h[l]->List_0;
            pop_spec(h, x, fuel) == if items.len() == 0 {
                (h, None)
            } else {
                (h.update(l, ObjectView::List(items.drop_last())), Some(items.last()))
            }
        }),
    decreases fuel,
{
    lemma_list_of(h, x, fuel);
    if let ObjectView::Node { strategy: Some(s) } = h[x] {
        lemma_pop_at(h, s, (fuel - 1) as nat);
    }
}

proof fn lemma_get_set_at(h: Seq<ObjectView>, x: int, i: nat, v: ValueView, fuel: nat)
    requires
        list_of(h, x, fuel) is Some,
    ensures
        ({
            let l = list_of(h, x, fuel)->0;
            let items = h[l]->List_0;
            &&& get_spec(h, x, i, fuel) == if i < items.len() {
                Some(items[i as int])
            } else {
                None
            }
            &&& set_spec(h, x, i, v, fuel) == if i < items.len() {
                (h.update(l, ObjectView::List(items.update(i as int, v))), true)
            } else {
                (h, false)
            }
        }),
    decreases fuel,
{
    lemma_list_of(h, x, fuel);
    if let ObjectView::Node { strategy: Some(s) } = h[x] {
        lemma_get_set_at(h, s, i, v, (fuel - 1) as nat);
    }
}

/// A value pushed on a list is the value popped next, and the pop leaves
/// the heap as it was before the push.
pub proof fn law_push_then_pop(h: Seq<ObjectView>, x: int, v: ValueView, fuel: nat)
    requires
        list_len_of(h, x, fuel) is Some,
    ensures
        push_spec(h, x, v, fuel).1,
        pop_spec(push_spec(h, x, v, fuel).0, x, fuel) == (h, Some(v)),
{
    lemma_list_of(h, x, fuel);
    let l = list_of(h, x, fuel)->0;
    let items = h[l]->List_0;
    lemma_push_at(h, x, v, fuel);
    let h1 = push_spec(h, x, v, fuel).0;
    lemma_list_of_update(h, x, fuel, items.push(v));
    lemma_pop_at(h1, x, fuel);
    assert(items.push(v).drop_last() == items);
    assert(h1.update(l, ObjectView::List(items)) =~= h);
}

/// Pushing on a list makes it one longer.
pub proof fn law_push_grows(h: Seq<ObjectView>, x: int, v: ValueView, fuel: nat)
    requires
        list_len_of(h, x, fuel) is Some,
    ensures
        list_len_of(push_spec(h, x, v, fuel).0, x, fuel) == Some(
            list_len_of(h, x, fuel)->0 + 1,
        ),
{
    lemma_list_of(h, x, fuel);
    let l = list_of(h, x, fuel)->0;
    let items = h[l]->List_0;
    lemma_push_at(h, x, v, fuel);
    lemma_list_of_update(h, x, fuel, items.push(v));
    lemma_list_of(push_spec(h, x, v, fuel).0, x, fuel);
}

/// A value stored at an index of a list is the value read there next.
pub proof fn law_set_then_get(h: Seq<ObjectView>, x: int, i: nat, v: ValueView, fuel: nat)
    requires
        list_len_of(h, x, fuel) matches Some(n) && i < n,
    ensures
        set_spec(h, x, i, v, fuel).1,
        get_spec(set_spec(h, x, i, v, fuel).0, x, i, fuel) == Some(v),
{
    lemma_list_of(h, x, fuel);
    let l = list_of(h, x, fuel)->0;
    let items = h[l]->List_0;
    lemma_get_set_at(h, x, i, v, fuel);
    let h1 = set_spec(h, x, i, v, fuel).0;
    lemma_list_of_update(h, x, fuel, items.update(i as int, v));
    lemma_get_set_at(h1, x, i, v, fuel);
}

// ---------------------------------------------------------------------------
// Receiving

/// The strategy a node takes from its first value: a block, list or
/// operator it shares; for any other value a new object.
pub open spec fn strategy_spec(h: Seq<ObjectView>, v: ValueView, fuel: nat) -> (Seq<ObjectView>, int) {
    match v {
        ValueView::Obj(obj) => {
            let k = type_of(h, obj, fuel);
            if k == "block"@ || k == "list"@ || k == "logicOperator"@ || k == "booleanOperator"@ {
                (h, obj)
            } else if k == "boolean"@ {
                (h.push(ObjectView::Boolean(truth_of(h, obj, fuel))), h.len() as int)
            } else if k == "number"@ {
                (h.push(ObjectView::Number(Some(number_of(h, obj, fuel)))), h.len() as int)
            } else if k == "operator"@ {
                (h.push(ObjectView::Number(None)), h.len() as int)
            } else {
                (h.push(ObjectView::Text(text_of(h, obj, fuel))), h.len() as int)
            }
        },
        ValueView::Text(t) => (h.push(ObjectView::Text(t)), h.len() as int),
        ValueView::Bool(b) => (h.push(ObjectView::Boolean(b)), h.len() as int),
        ValueView::Number(t) => (h.push(ObjectView::Number(Some(t))), h.len() as int),
        ValueView::Null => (h.push(ObjectView::Null), h.len() as int),
    }
}

/// The heap after object `o` receives `v`.
pub open spec fn receive_spec(h: Seq<ObjectView>, o: int, v: ValueView, fuel: nat) -> Seq<ObjectView>
    decreases fuel,
{
    if !(0 <= o < h.len()) {
        h
    } else {
        match h[o] {
            ObjectView::Node { strategy: Some(s) } => if fuel == 0 {
                h
            } else {
                receive_spec(h, s, v, (fuel - 1) as nat)
            },
            ObjectView::Node { strategy: None } => {
                let (h2, s) = strategy_spec(h, v, fuel);
                h2.update(o, ObjectView::Node { strategy: Some(s) })
            },
            ObjectView::Text(t) => h.update(o, ObjectView::Text(t + value_text(h, v, fuel))),
            ObjectView::Boolean(b) => h.update(o, ObjectView::Boolean(b && value_truth(h, v, fuel))),
            ObjectView::List(items) => h.update(o, ObjectView::List(items.push(v))),
            ObjectView::ListPush { target: None } => h.update(
                o,
                ObjectView::ListPush { target: list_target_of(h, v, fuel) },
            ),
            ObjectView::ListPush { target: Some(t) } => push_spec(h, t, v, fuel).0,
            ObjectView::ListPop { target: None, .. } => match list_target_of(h, v, fuel) {
                Some(t) => {
                    let (h2, r) = pop_spec(h, t, fuel);
                    h2.update(
                        o,
                        ObjectView::ListPop {
                            target: Some(t),
                            result: match r {
                                Some(x) => x,
                                None => ValueView::Null,
                            },
                        },
                    )
                },
                None => h.update(o, ObjectView::ListPop { target: None, result: ValueView::Null }),
            },
            ObjectView::ListGet { target: None, index, result } => h.update(
                o,
                ObjectView::ListGet { target: list_target_of(h, v, fuel), index, result },
            ),
            ObjectView::ListGet { target: Some(t), index: None, .. } => {
                let idx = index_of_value(h, v, fuel);
                let r = match idx {
                    Some(i) => match get_spec(h, t, i, fuel) {
                        Some(x) => x,
                        None => ValueView::Null,
                    },
                    None => ValueView::Null,
                };
                h.update(o, ObjectView::ListGet { target: Some(t), index: idx, result: r })
            },
            ObjectView::ListSet { target: None, index, has_index } => h.update(
                o,
                ObjectView::ListSet { target: list_target_of(h, v, fuel), index, has_index },
            ),
            ObjectView::ListSet { target: Some(t), has_index: false, .. } => h.update(
                o,
                ObjectView::ListSet {
                    target: Some(t),
                    index: index_of_value(h, v, fuel),
                    has_index: true,
                },
            ),
            ObjectView::ListSet { target: Some(t), index: Some(i), has_index: true } => set_spec(
                h,
                t,
                i,
                v,
                fuel,
            ).0,
            ObjectView::ListLen { consumed_target: false, .. } => h.update(
                o,
                ObjectView::ListLen {
                    consumed_target: true,
                    result: match list_target_of(h, v, fuel) {
                        Some(t) => match list_len_of(h, t, fuel) {
                            Some(n) => n,
                            None => 0,
                        },
                        None => 0,
                    },
                },
            ),
            ObjectView::Block { id, exprs, parent_scope, inbox, is_async } => match value_message(h, v) {
                Some(MessageKind::Async) => h.update(
                    o,
                    ObjectView::Block { id, exprs, parent_scope, inbox, is_async: true },
                ),
                Some(_) => h,
                None => if fuel == 0 {
                    h
                } else {
                    receive_spec(h, inbox, v, (fuel - 1) as nat)
                },
            },
            _ => h,
        }
    }
}

/// The heap after object `o` is told its message ended.
pub open spec fn end_spec(h: Seq<ObjectView>, o: int, fuel: nat) -> Seq<ObjectView>
    decreases fuel,
{
    if !(0 <= o < h.len()) {
        h
    } else {
        match h[o] {
            ObjectView::Node { strategy: Some(s) } => if fuel == 0 {
                h
            } else {
                end_spec(h, s, (fuel - 1) as nat)
            },
            ObjectView::ListPush { .. } => h.update(o, ObjectView::ListPush { target: None }),
            ObjectView::ListPop { result, .. } => h.update(o, ObjectView::ListPop { target: None, result }),
            ObjectView::ListGet { result, .. } => h.update(
                o,
                ObjectView::ListGet { target: None, index: None, result },
            ),
            ObjectView::ListSet { .. } => h.update(
                o,
                ObjectView::ListSet { target: None, index: None, has_index: false },
            ),
            ObjectView::ListLen { result, .. } => h.update(
                o,
                ObjectView::ListLen { consumed_target: false, result },
            ),
            _ => h,
        }
    }
}

proof fn lemma_push_keeps_nodes(h: Seq<ObjectView>, x: int, v: ValueView, fuel: nat, o: int)
    requires
        0 <= o < h.len(),
        h[o] is Node,
    ensures
        push_spec(h, x, v, fuel).0.len() == h.len(),
        push_spec(h, x, v, fuel).0[o] == h[o],
    decreases fuel,
{
    if 0 <= x < h.len() {
        if let ObjectView::Node { strategy: Some(s) } = h[x] {
            if fuel > 0 {
                lemma_push_keeps_nodes(h, s, v, (fuel - 1) as nat, o);
            }
        }
    }
}

proof fn lemma_pop_keeps_nodes(h: Seq<ObjectView>, x: int, fuel: nat, o: int)
    requires
        0 <= o < h.len(),
        h[o] is Node,
    ensures
        pop_spec(h, x, fuel).0.len() == h.len(),
        pop_spec(h, x, fuel).0[o] == h[o],
    decreases fuel,
{
    if 0 <= x < h.len() {
        if let ObjectView::Node { strategy: Some(s) } = h[x] {
            if fuel > 0 {
                lemma_pop_keeps_nodes(h, s, (fuel - 1) as nat, o);
            }
        }
    }
}

proof fn lemma_set_keeps_nodes(h: Seq<ObjectView>, x: int, i: nat, v: ValueView, fuel: nat, o: int)
    requires
        0 <= o < h.len(),
        h[o] is Node,
    ensures
        set_spec(h, x, i, v, fuel).0.len() == h.len(),
        set_spec(h, x, i, v, fuel).0[o] == h[o],
    decreases fuel,
{
    if 0 <= x < h.len() {
        if let ObjectView::Node { strategy: Some(s) } = h[x] {
            if fuel > 0 {
                lemma_set_keeps_nodes(h, s, i, v, (fuel - 1) as nat, o);
            }
        }
    }
}

/// A node that has its strategy is left as it is by any object receiving a
/// value: receiving changes only the object that takes the value, a node
/// without strategy, or a list.
proof fn lemma_receive_keeps_bound_node(h: Seq<ObjectView>, x: int, v: ValueView, fuel: nat, o: int)
    requires
        0 <= o < h.len(),
        h[o] matches ObjectView::Node { strategy: Some(_) },
    ensures
        receive_spec(h, x, v, fuel).len() >= h.len(),
        receive_spec(h, x, v, fuel)[o] == h[o],
    decreases fuel,
{
    if 0 <= x < h.len() {
        match h[x] {
            ObjectView::Node { strategy: Some(s) } => {
                if fuel > 0 {
                    lemma_receive_keeps_bound_node(h, s, v, (fuel - 1) as nat, o);
                }
            },
            ObjectView::Node { strategy: None } => {
                let (h2, s) = strategy_spec(h, v, fuel);
                assert(h2.len() >= h.len() && h2[o] == h[o]);
            },
            ObjectView::ListPush { target: Some(t) } => {
                lemma_push_keeps_nodes(h, t, v, fuel, o);
            },
            ObjectView::ListPop { target: None, .. } => {
                if let Some(t) = list_target_of(h, v, fuel) {
                    lemma_pop_keeps_nodes(h, t, fuel, o);
                }
            },
            ObjectView::ListSet { target: Some(t), index: Some(i), has_index: true } => {
                lemma_set_keeps_nodes(h, t, i, v, fuel, o);
            },
            ObjectView::Block { inbox, .. } => {
                if value_message(h, v) is None && fuel > 0 {
                    lemma_receive_keeps_bound_node(h, inbox, v, (fuel - 1) as nat, o);
                }
            },
            _ => {},
        }
    }
}

/// A text object that receives a value holds its old text followed by the
/// value's text, and nothing else changes.
pub proof fn law_text_appends_what_it_receives(h: Seq<ObjectView>, o: int, v: ValueView, fuel: nat, f: nat)
    requires
        0 <= o < h.len(),
        h[o] is Text,
    ensures
        receive_spec(h, o, v, fuel).len() == h.len(),
        forall|i: int| 0 <= i < h.len() && i != o ==> receive_spec(h, o, v, fuel)[i] == h[i],
        text_of(receive_spec(h, o, v, fuel), o, f) == text_of(h, o, f) + value_text(h, v, fuel),
{
}

/// A boolean object that receives a value holds the conjunction of what
/// it held and the value's truth, and nothing else changes: once false it
/// stays false, whatever it receives.
pub proof fn law_boolean_receives_conjunction(h: Seq<ObjectView>, o: int, v: ValueView, fuel: nat, f: nat)
    requires
        0 <= o < h.len(),
        h[o] is Boolean,
    ensures
        receive_spec(h, o, v, fuel).len() == h.len(),
        forall|i: int| 0 <= i < h.len() && i != o ==> receive_spec(h, o, v, fuel)[i] == h[i],
        receive_spec(h, o, v, fuel)[o] is Boolean,
        truth_of(receive_spec(h, o, v, fuel), o, f) == (truth_of(h, o, f) && value_truth(h, v, fuel)),
        !truth_of(h, o, f) ==> !truth_of(receive_spec(h, o, v, fuel), o, f),
{
}

/// A node takes its strategy from the first value it receives and keeps
/// it: whatever any object receives afterwards, the node still hands its
/// values on to the same object.
pub proof fn law_first_value_fixes_node(
    h: Seq<ObjectView>,
    o: int,
    first: ValueView,
    fuel: nat,
    x: int,
    later: ValueView,
    later_fuel: nat,
)
    requires
        0 <= o < h.len(),
        h[o] == (ObjectView::Node { strategy: None }),
    ensures
        receive_spec(h, o, first, fuel)[o] == (ObjectView::Node {
            strategy: Some(strategy_spec(h, first, fuel).1),
        }),
        receive_spec(receive_spec(h, o, first, fuel), x, later, later_fuel)[o] == receive_spec(
            h,
            o,
            first,
            fuel,
        )[o],
{
    let h1 = receive_spec(h, o, first, fuel);
    let (h2, s) = strategy_spec(h, first, fuel);
    assert(h2.len() >= h.len());
    assert(h1 == h2.update(o, ObjectView::Node { strategy: Some(s) }));
    lemma_receive_keeps_bound_node(h1, x, later, later_fuel, o);
}

/// Every reference a value holds stays inside the heap.
pub open spec fn value_in(v: ValueView, n: int) -> bool {
    v matches ValueView::Obj(o) ==> 0 <= o < n
}

pub open spec fn opt_in(o: Option<int>, n: int) -> bool {
    o matches Some(x) ==> 0 <= x < n
}

/// Every reference that object `ob` holds is below `n`.
pub open spec fn object_in(ob: ObjectView, n: int) -> bool {
    match ob {
        ObjectView::Node { strategy } => opt_in(strategy, n),
        ObjectView::List(items) => forall|i: int| 0 <= i < items.len() ==> value_in(#[trigger] items[i], n),
        ObjectView::ListPush { target } => opt_in(target, n),
        ObjectView::ListPop { target, result } => opt_in(target, n) && value_in(result, n),
        ObjectView::ListGet { target, result, .. } => opt_in(target, n) && value_in(result, n),
        ObjectView::ListSet { target, .. } => opt_in(target, n),
        ObjectView::Block { inbox, .. } => 0 <= inbox < n,
        _ => true,
    }
}

/// Every reference in the heap points into it.
pub open spec fn heap_wf(h: Seq<ObjectView>) -> bool {
    forall|i: int| 0 <= i < h.len() ==> object_in(#[trigger] h[i], h.len() as int)
}

proof fn lemma_object_in_grows(ob: ObjectView, n: int, m: int)
    requires
        object_in(ob, n),
        n <= m,
    ensures
        object_in(ob, m),
{
    if let ObjectView::List(items) = ob {
        assert forall|i: int| 0 <= i < items.len() implies value_in(#[trigger] items[i], m) by {
            assert(value_in(items[i], n));
        }
    }
}

/// Adding an object whose references point into the heap keeps it well
/// formed.
proof fn lemma_push_object_wf(h: Seq<ObjectView>, ob: ObjectView)
    requires
        heap_wf(h),
        object_in(ob, (h.len() + 1) as int),
    ensures
        heap_wf(h.push(ob)),
{
    let h2 = h.push(ob);
    assert forall|i: int| 0 <= i < h2.len() implies object_in(#[trigger] h2[i], h2.len() as int) by {
        if i < h.len() {
            assert(h2[i] == h[i]);
            lemma_object_in_grows(h[i], h.len() as int, h2.len() as int);
        }
    }
}

/// Replacing an object by one whose references point into the heap keeps
/// it well formed.
proof fn lemma_update_object_wf(h: Seq<ObjectView>, o: int, ob: ObjectView)
    requires
        heap_wf(h),
        0 <= o < h.len(),
        object_in(ob, h.len() as int),
    ensures
        heap_wf(h.update(o, ob)),
{
    let h2 = h.update(o, ob);
    assert forall|i: int| 0 <= i < h2.len() implies object_in(#[trigger] h2[i], h2.len() as int) by {
        if i != o {
            assert(h2[i] == h[i]);
        }
    }
}

proof fn lemma_list_in_range(h: Seq<ObjectView>, x: int, fuel: nat)
    requires
        list_len_of(h, x, fuel) is Some,
    ensures
        0 <= x < h.len(),
{
}

proof fn lemma_push_wf(h: Seq<ObjectView>, x: int, v: ValueView, fuel: nat)
    requires
        heap_wf(h),
        value_in(v, h.len() as int),
    ensures
        heap_wf(push_spec(h, x, v, fuel).0),
        push_spec(h, x, v, fuel).0.len() == h.len(),
    decreases fuel,
{
    if 0 <= x < h.len() {
        match h[x] {
            ObjectView::Node { strategy: Some(s) } => {
                if fuel > 0 {
                    lemma_push_wf(h, s, v, (fuel - 1) as nat);
                }
            },
            ObjectView::List(items) => {
                assert(object_in(h[x], h.len() as int));
                let ni = items.push(v);
                assert forall|i: int| 0 <= i < ni.len() implies value_in(#[trigger] ni[i], h.len() as int) by {
                    if i < items.len() {
                        assert(ni[i] == items[i]);
                    }
                }
                lemma_update_object_wf(h, x, ObjectView::List(ni));
            },
            _ => {},
        }
    }
}

proof fn lemma_pop_wf(h: Seq<ObjectView>, x: int, fuel: nat)
    requires
        heap_wf(h),
    ensures
        heap_wf(pop_spec(h, x, fuel).0),
        pop_spec(h, x, fuel).0.len() == h.len(),
        pop_spec(h, x, fuel).1 matches Some(r) ==> value_in(r, h.len() as int),
    decreases fuel,
{
    if 0 <= x < h.len() {
        match h[x] {
            ObjectView::Node { strategy: Some(s) } => {
                if fuel > 0 {
                    lemma_pop_wf(h, s, (fuel - 1) as nat);
                }
            },
            ObjectView::List(items) => {
                assert(object_in(h[x], h.len() as int));
                if items.len() > 0 {
                    let ni = items.drop_last();
                    assert(value_in(items[items.len() - 1], h.len() as int));
                    assert forall|i: int| 0 <= i < ni.len() implies value_in(#[trigger] ni[i], h.len() as int) by {
                        assert(ni[i] == items[i]);
                    }
                    lemma_update_object_wf(h, x, ObjectView::List(ni));
                }
            },
            _ => {},
        }
    }
}

proof fn lemma_get_in(h: Seq<ObjectView>, x: int, i: nat, fuel: nat)
    requires
        heap_wf(h),
    ensures
        get_spec(h, x, i, fuel) matches Some(r) ==> value_in(r, h.len() as int),
    decreases fuel,
{
    if 0 <= x < h.len() {
        match h[x] {
            ObjectView::Node { strategy: Some(s) } => {
                if fuel > 0 {
                    lemma_get_in(h, s, i, (fuel - 1) as nat);
                }
            },
            ObjectView::List(items) => {
                assert(object_in(h[x], h.len() as int));
                if i < items.len() {
                    assert(value_in(items[i as int], h.len() as int));
                }
            },
            _ => {},
        }
    }
}

proof fn lemma_set_wf(h: Seq<ObjectView>, x: int, i: nat, v: ValueView, fuel: nat)
    requires
        heap_wf(h),
        value_in(v, h.len() as int),
    ensures
        heap_wf(set_spec(h, x, i, v, fuel).0),
        set_spec(h, x, i, v, fuel).0.len() == h.len(),
    decreases fuel,
{
    if 0 <= x < h.len() {
        match h[x] {
            ObjectView::Node { strategy: Some(s) } => {
                if fuel > 0 {
                    lemma_set_wf(h, s, i, v, (fuel - 1) as nat);
                }
            },
            ObjectView::List(items) => {
                assert(object_in(h[x], h.len() as int));
                if i < items.len() {
                    let ni = items.update(i as int, v);
                    assert forall|k: int| 0 <= k < ni.len() implies value_in(#[trigger] ni[k], h.len() as int) by {
                        if k != i {
                            assert(ni[k] == items[k]);
                        }
                    }
                    lemma_update_object_wf(h, x, ObjectView::List(ni));
                }
            },
            _ => {},
        }
    }
}

proof fn lemma_strategy_wf(h: Seq<ObjectView>, v: ValueView, fuel: nat)
    requires
        heap_wf(h),
        value_in(v, h.len() as int),
    ensures
        heap_wf(strategy_spec(h, v, fuel).0),
        strategy_spec(h, v, fuel).0.len() >= h.len(),
        0 <= strategy_spec(h, v, fuel).1 < strategy_spec(h, v, fuel).0.len(),
        forall|i: int| 0 <= i < h.len() ==> #[trigger] strategy_spec(h, v, fuel).0[i] == h[i],
{
    let (h2, s) = strategy_spec(h, v, fuel);
    if h2.len() > h.len() {
        let ob = h2[h.len() as int];
        assert(h2 == h.push(ob));
        lemma_push_object_wf(h, ob);
    }
}

/// Every reference stays inside the heap when an object receives a value
/// that refers into it.
pub proof fn law_receive_keeps_heap_wf(h: Seq<ObjectView>, o: int, v: ValueView, fuel: nat)
    requires
        heap_wf(h),
        value_in(v, h.len() as int),
    ensures
        heap_wf(receive_spec(h, o, v, fuel)),
        receive_spec(h, o, v, fuel).len() >= h.len(),
    decreases fuel,
{
    if 0 <= o < h.len() {
        assert(object_in(h[o], h.len() as int));
        match h[o] {
            ObjectView::Node { strategy: Some(s) } => {
                if fuel > 0 {
                    law_receive_keeps_heap_wf(h, s, v, (fuel - 1) as nat);
                }
            },
            ObjectView::Node { strategy: None } => {
                let (h2, s) = strategy_spec(h, v, fuel);
                lemma_strategy_wf(h, v, fuel);
                lemma_update_object_wf(h2, o, ObjectView::Node { strategy: Some(s) });
            },
            ObjectView::Text(t) => {
                lemma_update_object_wf(h, o, ObjectView::Text(t + value_text(h, v, fuel)));
            },
            ObjectView::Boolean(b) => {
                lemma_update_object_wf(h, o, ObjectView::Boolean(b && value_truth(h, v, fuel)));
            },
            ObjectView::List(items) => {
                let ni = items.push(v);
                assert forall|i: int| 0 <= i < ni.len() implies value_in(#[trigger] ni[i], h.len() as int) by {
                    if i < items.len() {
                        assert(ni[i] == items[i]);
                    }
                }
                lemma_update_object_wf(h, o, ObjectView::List(ni));
            },
            ObjectView::ListPush { target: None } => {
                if let Some(t) = list_target_of(h, v, fuel) {
                    lemma_list_in_range(h, t, fuel);
                }
                lemma_update_object_wf(h, o, ObjectView::ListPush { target: list_target_of(h, v, fuel) });
            },
            ObjectView::ListPush { target: Some(t) } => {
                lemma_push_wf(h, t, v, fuel);
            },
            ObjectView::ListPop { target: None, .. } => {
                match list_target_of(h, v, fuel) {
                    Some(t) => {
                        lemma_list_in_range(h, t, fuel);
                        lemma_pop_wf(h, t, fuel);
                        let (h2, r) = pop_spec(h, t, fuel);
                        lemma_update_object_wf(
                            h2,
                            o,
                            ObjectView::ListPop {
                                target: Some(t),
                                result: match r {
                                    Some(x) => x,
                                    None => ValueView::Null,
                                },
                            },
                        );
                    },
                    None => {
                        lemma_update_object_wf(h, o, ObjectView::ListPop { target: None, result: ValueView::Null });
                    },
                }
            },
            ObjectView::ListGet { target: None, index, result } => {
                if let Some(t) = list_target_of(h, v, fuel) {
                    lemma_list_in_range(h, t, fuel);
                }
                lemma_update_object_wf(
                    h,
                    o,
                    ObjectView::ListGet { target: list_target_of(h, v, fuel), index, result },
                );
            },
            ObjectView::ListGet { target: Some(t), index: None, .. } => {
                let idx = index_of_value(h, v, fuel);
                if let Some(i) = idx {
                    lemma_get_in(h, t, i, fuel);
                }
                let r = match idx {
                    Some(i) => match get_spec(h, t, i, fuel) {
                        Some(x) => x,
                        None => ValueView::Null,
                    },
                    None => ValueView::Null,
                };
                lemma_update_object_wf(h, o, ObjectView::ListGet { target: Some(t), index: idx, result: r });
            },
            ObjectView::ListSet { target: None, index, has_index } => {
                if let Some(t) = list_target_of(h, v, fuel) {
                    lemma_list_in_range(h, t, fuel);
                }
                lemma_update_object_wf(
                    h,
                    o,
                    ObjectView::ListSet { target: list_target_of(h, v, fuel), index, has_index },
                );
            },
            ObjectView::ListSet { target: Some(t), has_index: false, .. } => {
                lemma_update_object_wf(
                    h,
                    o,
                    ObjectView::ListSet { target: Some(t), index: index_of_value(h, v, fuel), has_index: true },
                );
            },
            ObjectView::ListSet { target: Some(t), index: Some(i), has_index: true } => {
                lemma_set_wf(h, t, i, v, fuel);
            },
            ObjectView::Block { id, exprs, parent_scope, inbox, is_async } => {
                match value_message(h, v) {
                    Some(MessageKind::Async) => {
                        lemma_update_object_wf(
                            h,
                            o,
                            ObjectView::Block { id, exprs, parent_scope, inbox, is_async: true },
                        );
                    },
                    Some(_) => {},
                    None => {
                        if fuel > 0 {
                            law_receive_keeps_heap_wf(h, inbox, v, (fuel - 1) as nat);
                        }
                    },
                }
            },
            ObjectView::ListLen { consumed_target: false, .. } => {
                let r = match list_target_of(h, v, fuel) {
                    Some(t) => match list_len_of(h, t, fuel) {
                        Some(n) => n,
                        None => 0,
                    },
                    None => 0,
                };
                lemma_update_object_wf(h, o, ObjectView::ListLen { consumed_target: true, result: r });
            },
            _ => {},
        }
    }
}

/// `h2` is `h` but for the list and index that the `list_get` object `o`
/// was aimed at: the value it read is the same.
pub open spec fn same_but_get_aim(h: Seq<ObjectView>, h2: Seq<ObjectView>, o: int) -> bool {
    &&& 0 <= o < h.len()
    &&& h2.len() == h.len()
    &&& forall|i: int| 0 <= i < h.len() && i != o ==> h2[i] == h[i]
    &&& h[o] matches ObjectView::ListGet { result: r1, .. }
    &&& h2[o] matches ObjectView::ListGet { result: r2, .. }
    &&& r1 == r2
}

proof fn lemma_text_same_but_aim(h: Seq<ObjectView>, h2: Seq<ObjectView>, o: int, x: int, f: nat)
    requires
        same_but_get_aim(h, h2, o),
    ensures
        text_of(h2, x, f) == text_of(h, x, f),
    decreases f, 0nat,
{
    if 0 <= x < h.len() && f > 0 {
        if x != o {
            assert(h2[x] == h[x]);
        }
        match h[x] {
            ObjectView::Node { strategy: Some(s) } => lemma_text_same_but_aim(h, h2, o, s, (f - 1) as nat),
            ObjectView::List(items) => lemma_items_same_but_aim(h, h2, o, items, (f - 1) as nat),
            ObjectView::ListPop { result, .. } => lemma_vtext_same_but_aim(h, h2, o, result, (f - 1) as nat),
            ObjectView::ListGet { result, .. } => lemma_vtext_same_but_aim(h, h2, o, result, (f - 1) as nat),
            _ => {},
        }
    } else if 0 <= x < h.len() && x != o {
        assert(h2[x] == h[x]);
    }
}

proof fn lemma_vtext_same_but_aim(h: Seq<ObjectView>, h2: Seq<ObjectView>, o: int, v: ValueView, f: nat)
    requires
        same_but_get_aim(h, h2, o),
    ensures
        value_text(h2, v, f) == value_text(h, v, f),
        item_text(h2, v, f) == item_text(h, v, f),
    decreases f, 1nat,
{
    if let ValueView::Obj(x) = v {
        lemma_text_same_but_aim(h, h2, o, x, f);
    }
}

proof fn lemma_items_same_but_aim(h: Seq<ObjectView>, h2: Seq<ObjectView>, o: int, items: Seq<ValueView>, f: nat)
    requires
        same_but_get_aim(h, h2, o),
    ensures
        items_text(h2, items, f) == items_text(h, items, f),
    decreases f, items.len() + 2,
{
    if items.len() == 1 {
        lemma_vtext_same_but_aim(h, h2, o, items[0], f);
    } else if items.len() > 1 {
        lemma_items_same_but_aim(h, h2, o, items.drop_last(), f);
        lemma_vtext_same_but_aim(h, h2, o, items.last(), f);
    }
}

proof fn lemma_truth_same_but_aim(h: Seq<ObjectView>, h2: Seq<ObjectView>, o: int, x: int, f: nat)
    requires
        same_but_get_aim(h, h2, o),
    ensures
        truth_of(h2, x, f) == truth_of(h, x, f),
    decreases f, 0nat,
{
    if 0 <= x < h.len() {
        if x != o {
            assert(h2[x] == h[x]);
        }
        if f > 0 {
            match h[x] {
                ObjectView::Node { strategy: Some(s) } => lemma_truth_same_but_aim(h, h2, o, s, (f - 1) as nat),
                ObjectView::ListPop { result, .. } => lemma_vtruth_same_but_aim(h, h2, o, result, (f - 1) as nat),
                ObjectView::ListGet { result, .. } => lemma_vtruth_same_but_aim(h, h2, o, result, (f - 1) as nat),
                _ => {},
            }
        }
    }
}

proof fn lemma_vtruth_same_but_aim(h: Seq<ObjectView>, h2: Seq<ObjectView>, o: int, v: ValueView, f: nat)
    requires
        same_but_get_aim(h, h2, o),
    ensures
        value_truth(h2, v, f) == value_truth(h, v, f),
    decreases f, 1nat,
{
    if let ValueView::Obj(x) = v {
        lemma_truth_same_but_aim(h, h2, o, x, f);
    }
}

proof fn lemma_number_same_but_aim(h: Seq<ObjectView>, h2: Seq<ObjectView>, o: int, x: int, f: nat)
    requires
        same_but_get_aim(h, h2, o),
    ensures
        number_of(h2, x, f) == number_of(h, x, f),
    decreases f, 0nat,
{
    if 0 <= x < h.len() {
        if x != o {
            assert(h2[x] == h[x]);
        }
        if f > 0 {
            match h[x] {
                ObjectView::Node { strategy: Some(s) } => lemma_number_same_but_aim(h, h2, o, s, (f - 1) as nat),
                ObjectView::ListPop { result, .. } => lemma_vnumber_same_but_aim(h, h2, o, result, (f - 1) as nat),
                ObjectView::ListGet { result, .. } => lemma_vnumber_same_but_aim(h, h2, o, result, (f - 1) as nat),
                _ => {},
            }
        }
    }
}

proof fn lemma_vnumber_same_but_aim(h: Seq<ObjectView>, h2: Seq<ObjectView>, o: int, v: ValueView, f: nat)
    requires
        same_but_get_aim(h, h2, o),
    ensures
        value_number(h2, v, f) == value_number(h, v, f),
    decreases f, 1nat,
{
    if let ValueView::Obj(x) = v {
        lemma_number_same_but_aim(h, h2, o, x, f);
    }
}

/// Ending a `list_get` message forgets the list and index it was aimed at
/// and keeps the value it read: every object, that one included, shows
/// the same text, truth and number after the end as before it.
pub proof fn law_end_keeps_what_get_read(h: Seq<ObjectView>, o: int, fuel: nat, f: nat)
    requires
        0 <= o < h.len(),
        h[o] is ListGet,
    ensures
        end_spec(h, o, fuel).len() == h.len(),
        forall|i: int| 0 <= i < h.len() && i != o ==> end_spec(h, o, fuel)[i] == h[i],
        h[o] matches ObjectView::ListGet { result, .. } ==> end_spec(h, o, fuel)[o] == (ObjectView::ListGet {
            target: None,
            index: None,
            result,
        }),
        forall|x: int| text_of(end_spec(h, o, fuel), x, f) == #[trigger] text_of(h, x, f),
        forall|x: int| truth_of(end_spec(h, o, fuel), x, f) == #[trigger] truth_of(h, x, f),
        forall|x: int| number_of(end_spec(h, o, fuel), x, f) == #[trigger] number_of(h, x, f),
{
    let h2 = end_spec(h, o, fuel);
    assert(same_but_get_aim(h, h2, o));
    assert forall|x: int| text_of(h2, x, f) == #[trigger] text_of(h, x, f) by {
        lemma_text_same_but_aim(h, h2, o, x, f);
    }
    assert forall|x: int| truth_of(h2, x, f) == #[trigger] truth_of(h, x, f) by {
        lemma_truth_same_but_aim(h, h2, o, x, f);
    }
    assert forall|x: int| number_of(h2, x, f) == #[trigger] number_of(h, x, f) by {
        lemma_number_same_but_aim(h, h2, o, x, f);
    }
}

/// Every reference stays inside the heap when an object is told that its
/// message ended.
pub proof fn law_end_keeps_heap_wf(h: Seq<ObjectView>, o: int, fuel: nat)
    requires
        heap_wf(h),
    ensures
        heap_wf(end_spec(h, o, fuel)),
        end_spec(h, o, fuel).len() == h.len(),
    decreases fuel,
{
    if 0 <= o < h.len() {
        assert(object_in(h[o], h.len() as int));
        match h[o] {
            ObjectView::Node { strategy: Some(s) } => {
                if fuel > 0 {
                    law_end_keeps_heap_wf(h, s, (fuel - 1) as nat);
                }
            },
            ObjectView::ListPush { .. } => {
                lemma_update_object_wf(h, o, ObjectView::ListPush { target: None });
            },
            ObjectView::ListPop { result, .. } => {
                lemma_update_object_wf(h, o, ObjectView::ListPop { target: None, result });
            },
            ObjectView::ListGet { result, .. } => {
                lemma_update_object_wf(h, o, ObjectView::ListGet { target: None, index: None, result });
            },
            ObjectView::ListSet { .. } => {
                lemma_update_object_wf(h, o, ObjectView::ListSet { target: None, index: None, has_index: false });
            },
            ObjectView::ListLen { result, .. } => {
                lemma_update_object_wf(h, o, ObjectView::ListLen { consumed_target: false, result });
            },
            _ => {},
        }
    }
}


// ---------------------------------------------------------------------------
// The heap

/// The objects of a running program.
pub struct Heap {
    objects: Vec<Object>,
}

impl View for Heap {
    type V = Seq<ObjectView>;

    closed spec fn view(&self) -> Seq<ObjectView> {
        self.objects@.map_values(|o: Object| o.view())
    }
}

impl Heap {
    /// An empty heap.
    pub fn new() -> (r: Heap)
        ensures
            r@ == Seq::<ObjectView>::empty(),
    {
        let r = Heap { objects: Vec::new() };
        assert(r@ =~= Seq::<ObjectView>::empty());
        r
    }

    /// The number of objects.
    pub fn len(&self) -> (r: usize)
        ensures
            r == self@.len(),
    {
        self.objects.len()
    }

    /// Adds `object` to the heap and refers to it.
    pub fn object_ref(&mut self, object: Object) -> (r: ObjectRef)
        ensures
            final(self)@ == old(self)@.push(object.view()),
            r.0 == old(self)@.len(),
    {
        let r = ObjectRef(self.objects.len());
        let ghost before = self@;
        self.objects.push(object);
        assert(self@ =~= before.push(object.view()));
        r
    }

    fn put(&mut self, o: ObjectRef, object: Object)
        requires
            o.0 < old(self)@.len(),
        ensures
            final(self)@ == old(self)@.update(o.0 as int, object.view()),
    {
        let ghost before = self@;
        self.objects.set(o.0, object);
        assert(self@ =~= before.update(o.0 as int, object.view()));
    }

    proof fn lemma_index(&self, i: int)
        requires
            0 <= i < self.objects@.len(),
        ensures
            self@[i] == self.objects@[i].view(),
            self@.len() == self.objects@.len(),
    {
    }

    /// The type name of `o`.
    pub fn type_of(&self, o: ObjectRef, fuel: usize) -> (r: Vec<char>)
        ensures
            r@ == type_of(self@, o.0 as int, fuel as nat),
        decreases fuel,
    {
        if o.0 >= self.objects.len() {
            return chars_of("null");
        }
        proof {
            self.lemma_index(o.0 as int);
        }
        match &self.objects[o.0] {
            Object::Node { strategy: Some(s) } => if fuel == 0 {
                chars_of("null")
            } else {
                self.type_of(*s, fuel - 1)
            },
            Object::Node { strategy: None } => chars_of("null"),
            Object::Null => chars_of("null"),
            Object::Text(_) => chars_of("text"),
            Object::Boolean(_) => chars_of("boolean"),
            Object::Number(_) => chars_of("number"),
            Object::List(_) => chars_of("list"),
            Object::ListPush { .. } => chars_of("command"),
            Object::ListPop { .. } => chars_of("command"),
            Object::ListGet { .. } => chars_of("command"),
            Object::ListSet { .. } => chars_of("command"),
            Object::ListLen { .. } => chars_of("command"),
            Object::Message(_) => chars_of("message"),
            Object::Command(c) => match c {
                Command::Input => chars_of("input"),
                Command::While => chars_of("whileCommand"),
                _ => chars_of("command"),
            },
            Object::Operator(t) => match t {
                ReservedToken::Logic(_) => chars_of("logicOperator"),
                ReservedToken::Boolean(_) => chars_of("booleanOperator"),
                _ => chars_of("operator"),
            },
            Object::Block(_) => chars_of("block"),
        }
    }

    /// The length of the list that `o` is, if it is one.
    pub fn list_len(&self, o: ObjectRef, fuel: usize) -> (r: Option<usize>)
        ensures
            index_opt(r) == list_len_of(self@, o.0 as int, fuel as nat),
        decreases fuel,
    {
        if o.0 >= self.objects.len() {
            return None;
        }
        proof {
            self.lemma_index(o.0 as int);
        }
        match &self.objects[o.0] {
            Object::Node { strategy: Some(s) } => if fuel == 0 {
                None
            } else {
                self.list_len(*s, fuel - 1)
            },
            Object::List(items) => Some(items.len()),
            _ => None,
        }
    }

    /// The message that `o` carries, if any.
    pub fn message_of(&self, o: ObjectRef) -> (r: Option<MessageKind>)
        ensures
            r == message_of(self@, o.0 as int),
    {
        if o.0 >= self.objects.len() {
            return None;
        }
        proof {
            self.lemma_index(o.0 as int);
        }
        match &self.objects[o.0] {
            Object::Message(k) => Some(*k),
            _ => None,
        }
    }

    /// The object `value` refers to, when that object is a list.
    pub fn list_target(&self, value: &Value, fuel: usize) -> (r: Option<ObjectRef>)
        ensures
            ref_opt(r) == list_target_of(self@, value.view(), fuel as nat),
    {
        match value {
            Value::Obj(o) => {
                if self.list_len(*o, fuel).is_some() {
                    Some(*o)
                } else {
                    None
                }
            },
            _ => None,
        }
    }
}


fn bool_chars(b: bool) -> (r: Vec<char>)
    ensures
        r@ == bool_text(b),
{
    if b {
        chars_of("true")
    } else {
        chars_of("false")
    }
}

/// Whether the number literal `t` stands for a value other than zero.
fn number_nonzero(t: &Vec<char>) -> (r: bool)
    ensures
        r == number_is_nonzero(t@),
{
    let mut i: usize = 0;
    while i < t.len() && t[i] != 'e' && t[i] != 'E'
        invariant
            i <= t.len(),
            forall|k: int| 0 <= k < i ==> t@[k] != 'e' && t@[k] != 'E',
            forall|k: int|
                0 <= k < i ==> !(('1' <= #[trigger] t@[k] && t@[k] <= '9') || t@[k] == 'i' || t@[k]
                    == 'I' || t@[k] == 'n' || t@[k] == 'N'),
        decreases t.len() - i,
    {
        let c = t[i];
        if ('1' <= c && c <= '9') || c == 'i' || c == 'I' || c == 'n' || c == 'N' {
            return true;
        }
        i += 1;
    }
    assert forall|j: int|
        0 <= j < t@.len() && (('1' <= #[trigger] t@[j] && t@[j] <= '9') || t@[j] == 'i' || t@[j]
            == 'I' || t@[j] == 'n' || t@[j] == 'N') implies !(forall|k: int|
        0 <= k < j ==> t@[k] != 'e' && t@[k] != 'E') by {
        if j >= i {
            assert(t@[i as int] == 'e' || t@[i as int] == 'E');
        }
    }
    false
}

impl Heap {
    /// The text of `o`.
    pub fn text_of(&self, o: ObjectRef, fuel: usize) -> (r: Vec<char>)
        ensures
            r@ == text_of(self@, o.0 as int, fuel as nat),
        decreases fuel, 0nat,
    {
        if o.0 >= self.objects.len() {
            return Vec::new();
        }
        proof {
            self.lemma_index(o.0 as int);
        }
        match &self.objects[o.0] {
            Object::Node { strategy: Some(s) } => if fuel == 0 {
                Vec::new()
            } else {
                self.text_of(*s, fuel - 1)
            },
            Object::Text(t) => chars_of(t.as_str()),
            Object::Number(Some(t)) => chars_of(t.as_str()),
            Object::List(items) => if fuel == 0 {
                Vec::new()
            } else {
                let mut out = chars_of("[");
                let inner = self.items_text(items, fuel - 1);
                push_all(&mut out, &inner);
                push_str(&mut out, "]");
                out
            },
            Object::ListPop { result, .. } => if fuel == 0 {
                Vec::new()
            } else {
                self.value_text(result, fuel - 1)
            },
            Object::ListGet { result, .. } => if fuel == 0 {
                Vec::new()
            } else {
                self.value_text(result, fuel - 1)
            },
            Object::ListLen { result, .. } => decimal_chars(*result),
            _ => Vec::new(),
        }
    }

    /// A value as text.
    pub fn value_text(&self, v: &Value, fuel: usize) -> (r: Vec<char>)
        ensures
            r@ == value_text(self@, v.view(), fuel as nat),
        decreases fuel, 1nat,
    {
        match v {
            Value::Obj(o) => self.text_of(*o, fuel),
            Value::Number(t) => chars_of(t.as_str()),
            Value::Text(t) => chars_of(t.as_str()),
            Value::Bool(b) => bool_chars(*b),
            Value::Null => Vec::new(),
        }
    }

    fn format_list_value(&self, v: &Value, fuel: usize) -> (r: Vec<char>)
        ensures
            r@ == item_text(self@, v.view(), fuel as nat),
        decreases fuel, 1nat,
    {
        match v {
            Value::Obj(o) => self.text_of(*o, fuel),
            Value::Number(t) => chars_of(t.as_str()),
            Value::Text(t) => chars_of(rust_string(t.as_str()).as_str()),
            Value::Bool(b) => bool_chars(*b),
            Value::Null => chars_of("null"),
        }
    }

    fn items_text(&self, items: &Vec<Value>, fuel: usize) -> (r: Vec<char>)
        ensures
            r@ == items_text(self@, items@.map_values(|v: Value| v.view()), fuel as nat),
        decreases fuel, items@.len() + 2,
    {
        let ghost iv = items@.map_values(|v: Value| v.view());
        let mut out: Vec<char> = Vec::new();
        let mut i: usize = 0;
        while i < items.len()
            invariant
                i <= items.len(),
                iv == items@.map_values(|v: Value| v.view()),
                out@ == items_text(self@, iv.take(i as int), fuel as nat),
            decreases items.len() - i,
        {
            let t = self.format_list_value(&items[i], fuel);
            if i > 0 {
                push_str(&mut out, ", ");
            }
            push_all(&mut out, &t);
            proof {
                let tk = iv.take(i + 1);
                assert(tk.drop_last() == iv.take(i as int));
                assert(tk.last() == items@[i as int].view());
                if i == 0 {
                    assert(tk.len() == 1);
                    assert(out@ =~= items_text(self@, tk, fuel as nat));
                } else {
                    assert(out@ =~= items_text(self@, tk, fuel as nat));
                }
            }
            i += 1;
        }
        assert(iv.take(items.len() as int) == iv);
        out
    }

    /// The truth of `o`.
    pub fn truth_of(&self, o: ObjectRef, fuel: usize) -> (r: bool)
        ensures
            r == truth_of(self@, o.0 as int, fuel as nat),
        decreases fuel, 0nat,
    {
        if o.0 >= self.objects.len() {
            return false;
        }
        proof {
            self.lemma_index(o.0 as int);
        }
        match &self.objects[o.0] {
            Object::Node { strategy: Some(s) } => fuel > 0 && self.truth_of(*s, fuel - 1),
            Object::Boolean(b) => *b,
            Object::Number(Some(t)) => number_nonzero(&chars_of(t.as_str())),
            Object::List(items) => items.len() > 0,
            Object::ListPop { result, .. } => fuel > 0 && self.value_truth(result, fuel - 1),
            Object::ListGet { result, .. } => fuel > 0 && self.value_truth(result, fuel - 1),
            Object::ListLen { result, .. } => *result > 0,
            _ => false,
        }
    }

    /// The truth of a value.
    pub fn value_truth(&self, v: &Value, fuel: usize) -> (r: bool)
        ensures
            r == value_truth(self@, v.view(), fuel as nat),
        decreases fuel, 1nat,
    {
        match v {
            Value::Obj(o) => self.truth_of(*o, fuel),
            Value::Number(t) => number_nonzero(&chars_of(t.as_str())),
            Value::Text(t) => t.as_str().unicode_len() > 0,
            Value::Bool(b) => *b,
            Value::Null => false,
        }
    }

    /// The literal of the number `o` stands for.
    pub fn number_of(&self, o: ObjectRef, fuel: usize) -> (r: Vec<char>)
        ensures
            r@ == number_of(self@, o.0 as int, fuel as nat),
        decreases fuel, 0nat,
    {
        if o.0 >= self.objects.len() {
            return chars_of("0");
        }
        proof {
            self.lemma_index(o.0 as int);
        }
        match &self.objects[o.0] {
            Object::Node { strategy: Some(s) } => if fuel == 0 {
                chars_of("0")
            } else {
                self.number_of(*s, fuel - 1)
            },
            Object::Number(Some(t)) => chars_of(t.as_str()),
            Object::Text(t) => {
                let c = chars_of(t.as_str());
                if is_number_word(&c) {
                    c
                } else {
                    chars_of("0")
                }
            },
            Object::List(items) => decimal_chars(items.len()),
            Object::ListLen { result, .. } => decimal_chars(*result),
            Object::ListPop { result, .. } => if fuel == 0 {
                chars_of("0")
            } else {
                self.value_number(result, fuel - 1)
            },
            Object::ListGet { result, .. } => if fuel == 0 {
                chars_of("0")
            } else {
                self.value_number(result, fuel - 1)
            },
            _ => chars_of("0"),
        }
    }

    /// The literal of the number a value stands for.
    pub fn value_number(&self, v: &Value, fuel: usize) -> (r: Vec<char>)
        ensures
            r@ == value_number(self@, v.view(), fuel as nat),
        decreases fuel, 1nat,
    {
        match v {
            Value::Obj(o) => self.number_of(*o, fuel),
            Value::Number(t) => chars_of(t.as_str()),
            Value::Text(t) => {
                let c = chars_of(t.as_str());
                if is_number_word(&c) {
                    c
                } else {
                    chars_of("0")
                }
            },
            _ => chars_of("0"),
        }
    }
}


/// The list index that the number literal `t` stands for, if any.
fn index_of_literal_chars(t: &Vec<char>) -> (r: Option<usize>)
    ensures
        index_opt(r) == index_of_literal(t@),
{
    crate::runtime::number::literal_index_of(t)
}

impl Heap {
    /// The list index `v` stands for, if any.
    pub fn index_of_value(&self, v: &Value, fuel: usize) -> (r: Option<usize>)
        ensures
            index_opt(r) == index_of_value(self@, v.view(), fuel as nat),
    {
        match v {
            Value::Number(t) => index_of_literal_chars(&chars_of(t.as_str())),
            Value::Text(t) => {
                let c = chars_of(t.as_str());
                if is_number_word(&c) {
                    index_of_literal_chars(&c)
                } else {
                    None
                }
            },
            Value::Obj(o) => index_of_literal_chars(&self.number_of(*o, fuel)),
            _ => None,
        }
    }
}


impl Heap {
    /// Takes object `o` out, leaving a null strategy in its place.
    fn take(&mut self, o: ObjectRef) -> (r: Object)
        requires
            o.0 < old(self)@.len(),
        ensures
            final(self)@ == old(self)@.update(o.0 as int, ObjectView::Null),
            r.view() == old(self)@[o.0 as int],
    {
        let ghost before = self@;
        let mut tmp = Object::Null;
        self.objects.set_and_swap(o.0, &mut tmp);
        assert(self@ =~= before.update(o.0 as int, ObjectView::Null));
        tmp
    }

    /// Pushes `v` on the list that `x` is; whether there was one.
    pub fn list_push(&mut self, x: ObjectRef, v: Value, fuel: usize) -> (r: bool)
        ensures
            (final(self)@, r) == push_spec(old(self)@, x.0 as int, v.view(), fuel as nat),
        decreases fuel,
    {
        if x.0 >= self.objects.len() {
            return false;
        }
        proof {
            self.lemma_index(x.0 as int);
        }
        let strategy = match &self.objects[x.0] {
            Object::Node { strategy: Some(s) } => Some(*s),
            _ => None,
        };
        match strategy {
            Some(s) => {
                if fuel == 0 {
                    false
                } else {
                    self.list_push(s, v, fuel - 1)
                }
            },
            None => {
                if let Object::List(_) = &self.objects[x.0] {
                    let ghost before = self@;
                    let taken = self.take(x);
                    match taken {
                        Object::List(mut items) => {
                            let ghost iv = items@.map_values(|w: Value| w.view());
                            let ghost vv = v.view();
                            items.push(v);
                            assert(items@.map_values(|w: Value| w.view()) =~= iv.push(vv));
                            self.put(x, Object::List(items));
                            assert(self@ =~= before.update(x.0 as int, ObjectView::List(iv.push(vv))));
                            true
                        },
                        _ => {
                            proof {
                                assert(false);
                            }
                            false
                        },
                    }
                } else {
                    false
                }
            },
        }
    }

    /// Pops the last value of the list that `x` is.
    pub fn list_pop(&mut self, x: ObjectRef, fuel: usize) -> (r: Option<Value>)
        ensures
            (final(self)@, match r {
                Some(w) => Some(w.view()),
                None => None,
            }) == pop_spec(old(self)@, x.0 as int, fuel as nat),
        decreases fuel,
    {
        if x.0 >= self.objects.len() {
            return None;
        }
        proof {
            self.lemma_index(x.0 as int);
        }
        let strategy = match &self.objects[x.0] {
            Object::Node { strategy: Some(s) } => Some(*s),
            _ => None,
        };
        match strategy {
            Some(s) => {
                if fuel == 0 {
                    None
                } else {
                    self.list_pop(s, fuel - 1)
                }
            },
            None => {
                let is_nonempty_list = match &self.objects[x.0] {
                    Object::List(items) => {
                        assert(items@.map_values(|w: Value| w.view()).len() == items@.len());
                        items.len() > 0
                    },
                    _ => false,
                };
                if is_nonempty_list {
                    let ghost before = self@;
                    let taken = self.take(x);
                    match taken {
                        Object::List(mut items) => {
                            let ghost iv = items@.map_values(|w: Value| w.view());
                            assert(iv.len() == items@.len());
                            let last = items.pop().unwrap();
                            assert(items@.map_values(|w: Value| w.view()) =~= iv.drop_last());
                            self.put(x, Object::List(items));
                            assert(self@ =~= before.update(x.0 as int, ObjectView::List(iv.drop_last())));
                            Some(last)
                        },
                        _ => {
                            proof {
                                assert(false);
                            }
                            None
                        },
                    }
                } else {
                    None
                }
            },
        }
    }

    /// The value at `i` in the list that `x` is.
    pub fn list_get(&self, x: ObjectRef, i: usize, fuel: usize) -> (r: Option<Value>)
        ensures
            match r {
                Some(w) => Some(w.view()),
                None => None,
            } == get_spec(self@, x.0 as int, i as nat, fuel as nat),
        decreases fuel,
    {
        if x.0 >= self.objects.len() {
            return None;
        }
        proof {
            self.lemma_index(x.0 as int);
        }
        match &self.objects[x.0] {
            Object::Node { strategy: Some(s) } => if fuel == 0 {
                None
            } else {
                self.list_get(*s, i, fuel - 1)
            },
            Object::List(items) => if i < items.len() {
                Some(items[i].copy())
            } else {
                None
            },
            _ => None,
        }
    }

    /// Stores `v` at `i` in the list that `x` is; whether it could.
    pub fn list_set(&mut self, x: ObjectRef, i: usize, v: Value, fuel: usize) -> (r: bool)
        ensures
            (final(self)@, r) == set_spec(old(self)@, x.0 as int, i as nat, v.view(), fuel as nat),
        decreases fuel,
    {
        if x.0 >= self.objects.len() {
            return false;
        }
        proof {
            self.lemma_index(x.0 as int);
        }
        let strategy = match &self.objects[x.0] {
            Object::Node { strategy: Some(s) } => Some(*s),
            _ => None,
        };
        match strategy {
            Some(s) => {
                if fuel == 0 {
                    false
                } else {
                    self.list_set(s, i, v, fuel - 1)
                }
            },
            None => {
                let fits = match &self.objects[x.0] {
                    Object::List(items) => {
                        assert(items@.map_values(|w: Value| w.view()).len() == items@.len());
                        i < items.len()
                    },
                    _ => false,
                };
                if fits {
                    let ghost before = self@;
                    let taken = self.take(x);
                    match taken {
                        Object::List(mut items) => {
                            let ghost iv = items@.map_values(|w: Value| w.view());
                            assert(iv.len() == items@.len());
                            let ghost vv = v.view();
                            items.set(i, v);
                            assert(items@.map_values(|w: Value| w.view()) =~= iv.update(i as int, vv));
                            self.put(x, Object::List(items));
                            assert(self@ =~= before.update(
                                x.0 as int,
                                ObjectView::List(iv.update(i as int, vv)),
                            ));
                            true
                        },
                        _ => {
                            proof {
                                assert(false);
                            }
                            false
                        },
                    }
                } else {
                    false
                }
            },
        }
    }
}


/// What `receive` needs to know of an object before it changes the heap.
enum Shape {
    NodeWith(ObjectRef),
    NodeEmpty,
    Text,
    Boolean,
    List,
    PushNone,
    PushSome(ObjectRef),
    PopNone,
    GetNone,
    GetNoIndex(ObjectRef),
    SetNone,
    SetNoIndex(ObjectRef),
    SetReady(ObjectRef, usize),
    LenFresh,
    Block(ObjectRef),
    Inert,
}

impl Heap {
    /// The strategy a node takes from its first value `v`.
    pub fn strategy_factory(&mut self, v: Value, fuel: usize) -> (r: ObjectRef)
        ensures
            (final(self)@, r.0 as int) == strategy_spec(old(self)@, v.view(), fuel as nat),
    {
        match v {
            Value::Obj(obj) => {
                let k = self.type_of(obj, fuel);
                if eq_str(&k, "block") || eq_str(&k, "list") || eq_str(&k, "logicOperator") || eq_str(
                    &k,
                    "booleanOperator",
                ) {
                    obj
                } else if eq_str(&k, "boolean") {
                    let b = self.truth_of(obj, fuel);
                    self.object_ref(Object::Boolean(b))
                } else if eq_str(&k, "number") {
                    let n = self.number_of(obj, fuel);
                    let ns = string_of(&n);
                    self.object_ref(Object::Number(Some(ns)))
                } else if eq_str(&k, "operator") {
                    self.object_ref(Object::Number(None))
                } else {
                    let t = self.text_of(obj, fuel);
                    let ts = string_of(&t);
                    self.object_ref(Object::Text(ts))
                }
            },
            Value::Text(t) => self.object_ref(Object::Text(t)),
            Value::Bool(b) => self.object_ref(Object::Boolean(b)),
            Value::Number(t) => self.object_ref(Object::Number(Some(t))),
            Value::Null => self.object_ref(Object::Null),
        }
    }

    fn shape(&self, o: ObjectRef) -> (r: Shape)
        requires
            o.0 < self@.len(),
        ensures
            match r {
                Shape::NodeWith(s) => self@[o.0 as int] == ObjectView::Node { strategy: Some(s.0 as int) },
                Shape::NodeEmpty => self@[o.0 as int] == ObjectView::Node { strategy: None },
                Shape::Text => self@[o.0 as int] is Text,
                Shape::Boolean => self@[o.0 as int] is Boolean,
                Shape::List => self@[o.0 as int] is List,
                Shape::PushNone => self@[o.0 as int] == ObjectView::ListPush { target: None },
                Shape::PushSome(t) => self@[o.0 as int] == ObjectView::ListPush { target: Some(t.0 as int) },
                Shape::PopNone => self@[o.0 as int] matches ObjectView::ListPop { target: None, .. },
                Shape::GetNone => self@[o.0 as int] matches ObjectView::ListGet { target: None, .. },
                Shape::GetNoIndex(t) => self@[o.0 as int] matches ObjectView::ListGet {
                    target: Some(x),
                    index: None,
                    ..
                } && x == t.0,
                Shape::SetNone => self@[o.0 as int] matches ObjectView::ListSet { target: None, .. },
                Shape::SetNoIndex(t) => self@[o.0 as int] matches ObjectView::ListSet {
                    target: Some(x),
                    has_index: false,
                    ..
                } && x == t.0,
                Shape::SetReady(t, i) => self@[o.0 as int] == ObjectView::ListSet {
                    target: Some(t.0 as int),
                    index: Some(i as nat),
                    has_index: true,
                },
                Shape::LenFresh => self@[o.0 as int] matches ObjectView::ListLen {
                    consumed_target: false,
                    ..
                },
                Shape::Block(i) => self@[o.0 as int] matches ObjectView::Block { inbox, .. } && inbox
                    == i.0,
                Shape::Inert => receive_spec(self@, o.0 as int, ValueView::Null, 0) == self@
                    && forall|v: ValueView, f: nat| receive_spec(self@, o.0 as int, v, f) == self@,
            },
    {
        proof {
            self.lemma_index(o.0 as int);
        }
        match &self.objects[o.0] {
            Object::Node { strategy: Some(s) } => Shape::NodeWith(*s),
            Object::Node { strategy: None } => Shape::NodeEmpty,
            Object::Text(_) => Shape::Text,
            Object::Boolean(_) => Shape::Boolean,
            Object::List(_) => Shape::List,
            Object::ListPush { target: None } => Shape::PushNone,
            Object::ListPush { target: Some(t) } => Shape::PushSome(*t),
            Object::ListPop { target: None, .. } => Shape::PopNone,
            Object::ListGet { target: None, .. } => Shape::GetNone,
            Object::ListGet { target: Some(t), index: None, .. } => Shape::GetNoIndex(*t),
            Object::ListSet { target: None, .. } => Shape::SetNone,
            Object::ListSet { target: Some(t), has_index: false, .. } => Shape::SetNoIndex(*t),
            Object::ListSet { target: Some(t), index: Some(i), has_index: true } => Shape::SetReady(
                *t,
                *i,
            ),
            Object::ListLen { consumed_target: false, .. } => Shape::LenFresh,
            Object::Block(b) => Shape::Block(b.inbox),
            _ => Shape::Inert,
        }
    }

    /// What running the block that `o` is takes, when `o` is one itself or
    /// through the nodes it hands on to.
    pub fn block_snapshot(&self, o: ObjectRef, fuel: usize) -> (r: Option<BlockSnapshot>)
        ensures
            match block_of(self@, o.0 as int, fuel as nat) {
                Some(b) => r matches Some(x) && x.call() == call_of(self@[b]),
                None => r is None,
            },
        decreases fuel,
    {
        if o.0 >= self.objects.len() {
            return None;
        }
        proof {
            self.lemma_index(o.0 as int);
        }
        match &self.objects[o.0] {
            Object::Node { strategy: Some(s) } => {
                if fuel == 0 {
                    None
                } else {
                    self.block_snapshot(*s, fuel - 1)
                }
            },
            Object::Block(b) => Some(
                BlockSnapshot {
                    id: b.id,
                    expressions: share(&b.expressions),
                    parent_scope: b.parent_scope,
                    inbox: b.inbox,
                    is_async: b.is_async,
                },
            ),
            _ => None,
        }
    }

    /// Object `o` receives `v`.
    pub fn receive(&mut self, o: ObjectRef, v: Value, fuel: usize)
        ensures
            final(self)@ == receive_spec(old(self)@, o.0 as int, v.view(), fuel as nat),
        decreases fuel,
    {
        if o.0 >= self.objects.len() {
            return;
        }
        let ghost h = self@;
        let ghost vv = v.view();
        match self.shape(o) {
            Shape::NodeWith(s) => {
                if fuel > 0 {
                    self.receive(s, v, fuel - 1);
                }
            },
            Shape::NodeEmpty => {
                let s = self.strategy_factory(v, fuel);
                self.put(o, Object::Node { strategy: Some(s) });
            },
            Shape::Text => {
                let extra = self.value_text(&v, fuel);
                let taken = self.take(o);
                if let Object::Text(t) = taken {
                    let mut c = chars_of(t.as_str());
                    push_all(&mut c, &extra);
                    self.put(o, Object::Text(string_of(&c)));
                    assert(self@ =~= receive_spec(h, o.0 as int, vv, fuel as nat));
                }
            },
            Shape::Boolean => {
                let b2 = self.value_truth(&v, fuel);
                let taken = self.take(o);
                if let Object::Boolean(b) = taken {
                    self.put(o, Object::Boolean(b && b2));
                    assert(self@ =~= receive_spec(h, o.0 as int, vv, fuel as nat));
                }
            },
            Shape::List => {
                let taken = self.take(o);
                if let Object::List(mut items) = taken {
                    let ghost iv = items@.map_values(|w: Value| w.view());
                    items.push(v);
                    assert(items@.map_values(|w: Value| w.view()) =~= iv.push(vv));
                    self.put(o, Object::List(items));
                    assert(self@ =~= receive_spec(h, o.0 as int, vv, fuel as nat));
                }
            },
            Shape::PushNone => {
                let t = self.list_target(&v, fuel);
                self.put(o, Object::ListPush { target: t });
            },
            Shape::PushSome(t) => {
                self.list_push(t, v, fuel);
            },
            Shape::PopNone => {
                match self.list_target(&v, fuel) {
                    Some(t) => {
                        proof {
                            lemma_pop_len(self@, t.0 as int, fuel as nat);
                        }
                        let r = self.list_pop(t, fuel);
                        let result = match r {
                            Some(x) => x,
                            None => Value::Null,
                        };
                        self.put(o, Object::ListPop { target: Some(t), result });
                    },
                    None => {
                        self.put(o, Object::ListPop { target: None, result: Value::Null });
                    },
                }
            },
            Shape::GetNone => {
                let t = self.list_target(&v, fuel);
                let taken = self.take(o);
                if let Object::ListGet { target: _, index, result } = taken {
                    self.put(o, Object::ListGet { target: t, index, result });
                    assert(self@ =~= receive_spec(h, o.0 as int, vv, fuel as nat));
                }
            },
            Shape::GetNoIndex(t) => {
                let idx = self.index_of_value(&v, fuel);
                let result = match idx {
                    Some(i) => match self.list_get(t, i, fuel) {
                        Some(x) => x,
                        None => Value::Null,
                    },
                    None => Value::Null,
                };
                self.put(o, Object::ListGet { target: Some(t), index: idx, result });
            },
            Shape::SetNone => {
                let t = self.list_target(&v, fuel);
                let taken = self.take(o);
                if let Object::ListSet { target: _, index, has_index } = taken {
                    self.put(o, Object::ListSet { target: t, index, has_index });
                    assert(self@ =~= receive_spec(h, o.0 as int, vv, fuel as nat));
                }
            },
            Shape::SetNoIndex(t) => {
                let idx = self.index_of_value(&v, fuel);
                self.put(o, Object::ListSet { target: Some(t), index: idx, has_index: true });
            },
            Shape::SetReady(t, i) => {
                self.list_set(t, i, v, fuel);
            },
            Shape::LenFresh => {
                let n = match self.list_target(&v, fuel) {
                    Some(t) => match self.list_len(t, fuel) {
                        Some(n) => n,
                        None => 0,
                    },
                    None => 0,
                };
                self.put(o, Object::ListLen { consumed_target: true, result: n });
            },
            Shape::Block(inbox) => {
                let message = match &v {
                    Value::Obj(m) => self.message_of(*m),
                    _ => None,
                };
                match message {
                    Some(MessageKind::Async) => {
                        let taken = self.take(o);
                        if let Object::Block(b) = taken {
                            self.put(
                                o,
                                Object::Block(
                                    BlockSnapshot {
                                        id: b.id,
                                        expressions: b.expressions,
                                        parent_scope: b.parent_scope,
                                        inbox: b.inbox,
                                        is_async: true,
                                    },
                                ),
                            );
                            assert(self@ =~= receive_spec(h, o.0 as int, vv, fuel as nat));
                        }
                    },
                    Some(_) => {},
                    None => {
                        if fuel > 0 {
                            self.receive(inbox, v, fuel - 1);
                        }
                    },
                }
            },
            Shape::Inert => {},
        }
    }
}


impl Heap {
    /// Object `o` is told that the expression sending it messages ended.
    pub fn end(&mut self, o: ObjectRef, fuel: usize)
        ensures
            final(self)@ == end_spec(old(self)@, o.0 as int, fuel as nat),
        decreases fuel,
    {
        if o.0 >= self.objects.len() {
            return;
        }
        proof {
            self.lemma_index(o.0 as int);
        }
        let ghost h = self@;
        let strategy = match &self.objects[o.0] {
            Object::Node { strategy: Some(s) } => Some(*s),
            _ => None,
        };
        if let Some(s) = strategy {
            if fuel > 0 {
                self.end(s, fuel - 1);
            }
            return;
        }
        let resets = match &self.objects[o.0] {
            Object::ListPush { .. } | Object::ListPop { .. } | Object::ListGet { .. }
            | Object::ListSet { .. } | Object::ListLen { .. } => true,
            _ => false,
        };
        if !resets {
            return;
        }
        let taken = self.take(o);
        match taken {
            Object::ListPush { .. } => self.put(o, Object::ListPush { target: None }),
            Object::ListPop { result, .. } => self.put(o, Object::ListPop { target: None, result }),
            Object::ListGet { result, .. } => self.put(
                o,
                Object::ListGet { target: None, index: None, result },
            ),
            Object::ListSet { .. } => self.put(
                o,
                Object::ListSet { target: None, index: None, has_index: false },
            ),
            Object::ListLen { result, .. } => self.put(
                o,
                Object::ListLen { consumed_target: false, result },
            ),
            _ => {
                proof {
                    assert(false);
                }
            },
        }
        assert(self@ =~= end_spec(h, o.0 as int, fuel as nat));
    }
}

/// Object `receiver` receives `value`.
pub fn receive_object(heap: &mut Heap, receiver: ObjectRef, value: Value)
    ensures
        final(heap)@ == receive_spec(old(heap)@, receiver.0 as int, value.view(), old(heap)@.len()),
{
    let fuel = heap.len();
    heap.receive(receiver, value, fuel);
}

/// Object `receiver` is asked to act on what it received. None of the
/// objects this library models acts: the heap stays as it is.
pub fn exec_object(heap: &mut Heap, receiver: ObjectRef)
    ensures
        final(heap)@ == old(heap)@,
{
}

/// Object `receiver` is told that the expression sending it messages ended.
pub fn end_object(heap: &mut Heap, receiver: ObjectRef)
    ensures
        final(heap)@ == end_spec(old(heap)@, receiver.0 as int, old(heap)@.len()),
{
    let fuel = heap.len();
    heap.end(receiver, fuel);
}

/// The message `value` carries, when it is a message object.
pub fn message_kind(heap: &Heap, value: &Value) -> (r: Option<MessageKind>)
    ensures
        r == match value.view() {
            ValueView::Obj(o) => message_of(heap@, o),
            _ => None,
        },
{
    match value {
        Value::Obj(o) => heap.message_of(*o),
        _ => None,
    }
}

/// The object `value` refers to, when that object is a list.
pub fn list_target(heap: &Heap, value: &Value) -> (r: Option<ObjectRef>)
    ensures
        ref_opt(r) == list_target_of(heap@, value.view(), heap@.len()),
{
    heap.list_target(value, heap.len())
}

/// A new node, which takes its strategy from its first value.
pub fn new_node(heap: &mut Heap) -> (r: ObjectRef)
    ensures
        final(heap)@ == old(heap)@.push(ObjectView::Node { strategy: None }),
        r.0 == old(heap)@.len(),
{
    heap.object_ref(Object::Node { strategy: None })
}

/// A new text strategy holding `initial`.
pub fn new_string(heap: &mut Heap, initial: String) -> (r: ObjectRef)
    ensures
        final(heap)@ == old(heap)@.push(ObjectView::Text(initial@)),
        r.0 == old(heap)@.len(),
{
    heap.object_ref(Object::Text(initial))
}

/// A new empty list.
pub fn new_list(heap: &mut Heap) -> (r: ObjectRef)
    ensures
        final(heap)@ == old(heap)@.push(ObjectView::List(Seq::empty())),
        r.0 == old(heap)@.len(),
{
    let items: Vec<Value> = Vec::new();
    assert(items@.map_values(|v: Value| v.view()) =~= Seq::<ValueView>::empty());
    heap.object_ref(Object::List(items))
}

/// A new `list_push` command.
pub fn new_list_push(heap: &mut Heap) -> (r: ObjectRef)
    ensures
        final(heap)@ == old(heap)@.push(ObjectView::ListPush { target: None }),
        r.0 == old(heap)@.len(),
{
    heap.object_ref(Object::ListPush { target: None })
}

/// A new `list_pop` command.
pub fn new_list_pop(heap: &mut Heap) -> (r: ObjectRef)
    ensures
        final(heap)@ == old(heap)@.push(ObjectView::ListPop { target: None, result: ValueView::Null }),
        r.0 == old(heap)@.len(),
{
    heap.object_ref(Object::ListPop { target: None, result: Value::Null })
}

/// A new `list_get` command.
pub fn new_list_get(heap: &mut Heap) -> (r: ObjectRef)
    ensures
        final(heap)@ == old(heap)@.push(
            ObjectView::ListGet { target: None, index: None, result: ValueView::Null },
        ),
        r.0 == old(heap)@.len(),
{
    heap.object_ref(Object::ListGet { target: None, index: None, result: Value::Null })
}

/// A new `list_set` command.
pub fn new_list_set(heap: &mut Heap) -> (r: ObjectRef)
    ensures
        final(heap)@ == old(heap)@.push(
            ObjectView::ListSet { target: None, index: None, has_index: false },
        ),
        r.0 == old(heap)@.len(),
{
    heap.object_ref(Object::ListSet { target: None, index: None, has_index: false })
}

/// A new `list_len` command.
pub fn new_list_len(heap: &mut Heap) -> (r: ObjectRef)
    ensures
        final(heap)@ == old(heap)@.push(ObjectView::ListLen { consumed_target: false, result: 0 }),
        r.0 == old(heap)@.len(),
{
    heap.object_ref(Object::ListLen { consumed_target: false, result: 0 })
}

/// A new `run`, `async` or `else` message.
pub fn new_message(heap: &mut Heap, kind: MessageKind) -> (r: ObjectRef)
    ensures
        final(heap)@ == old(heap)@.push(ObjectView::Message(kind)),
        r.0 == old(heap)@.len(),
{
    heap.object_ref(Object::Message(kind))
}

/// A new built-in command.
pub fn new_command(heap: &mut Heap, command: Command) -> (r: ObjectRef)
    ensures
        final(heap)@ == old(heap)@.push(ObjectView::Command(command)),
        r.0 == old(heap)@.len(),
{
    heap.object_ref(Object::Command(command))
}

/// A new arithmetic operator.
pub fn new_operator(heap: &mut Heap, op: ArithmeticOp) -> (r: ObjectRef)
    ensures
        final(heap)@ == old(heap)@.push(ObjectView::Operator(ReservedToken::Arithmetic(op))),
        r.0 == old(heap)@.len(),
{
    heap.object_ref(Object::Operator(ReservedToken::Arithmetic(op)))
}

/// A new comparison operator.
pub fn new_logic_operator(heap: &mut Heap, op: LogicOp) -> (r: ObjectRef)
    ensures
        final(heap)@ == old(heap)@.push(ObjectView::Operator(ReservedToken::Logic(op))),
        r.0 == old(heap)@.len(),
{
    heap.object_ref(Object::Operator(ReservedToken::Logic(op)))
}

/// A new boolean operator.
pub fn new_boolean_operator(heap: &mut Heap, op: BooleanOp) -> (r: ObjectRef)
    ensures
        final(heap)@ == old(heap)@.push(ObjectView::Operator(ReservedToken::Boolean(op))),
        r.0 == old(heap)@.len(),
{
    heap.object_ref(Object::Operator(ReservedToken::Boolean(op)))
}

/// A new node that has already received `value`.
pub fn ensure_node_value(heap: &mut Heap, value: Value) -> (r: ObjectRef)
    ensures
        r.0 == old(heap)@.len(),
        final(heap)@ == receive_spec(
            old(heap)@.push(ObjectView::Node { strategy: None }),
            old(heap)@.len() as int,
            value.view(),
            old(heap)@.len() + 1,
        ),
{
    let node = new_node(heap);
    receive_object(heap, node, value);
    node
}

} // verus!

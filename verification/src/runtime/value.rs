//! Values that travel between objects.
use vstd::prelude::*;

verus! {

/// A reference to an object of the runtime's heap.
#[derive(Debug, Clone, Copy, PartialEq, Eq, Structural)]
pub struct ObjectRef(pub usize);

/// A reference to a scope of the runtime.
#[derive(Debug, Clone, Copy, PartialEq, Eq, Structural)]
pub struct ScopeRef(pub usize);

/// A value sent as a message. A number is held as the literal that wrote
/// it; its floating-point value is not part of this library.
#[derive(Debug)]
pub enum Value {
    Obj(ObjectRef),
    Number(String),
    Text(String),
    Bool(bool),
    Null,
}

pub ghost enum ValueView {
    Obj(int),
    Number(Seq<char>),
    Text(Seq<char>),
    Bool(bool),
    Null,
}

impl Value {
    pub open spec fn view(&self) -> ValueView {
        match self {
            Value::Obj(o) => ValueView::Obj(o.0 as int),
            Value::Number(t) => ValueView::Number(t@),
            Value::Text(t) => ValueView::Text(t@),
            Value::Bool(b) => ValueView::Bool(*b),
            Value::Null => ValueView::Null,
        }
    }

    /// A copy of this value.
    pub fn copy(&self) -> (r: Value)
        ensures
            r.view() == self.view(),
    {
        match self {
            Value::Obj(o) => Value::Obj(*o),
            Value::Number(t) => Value::Number(t.clone()),
            Value::Text(t) => Value::Text(t.clone()),
            Value::Bool(b) => Value::Bool(*b),
            Value::Null => Value::Null,
        }
    }
}

/// The message carried by the `run`, `async` and `else` words.
#[derive(Debug, Clone, Copy, PartialEq, Eq, Structural)]
pub enum MessageKind {
    Run,
    Async,
    Else,
}

/// Where `echo` writes: an alert box or the console.
#[derive(Debug, Clone, Copy, PartialEq, Eq, Structural)]
pub enum OutputMode {
    Alert,
    Console,
}

/// The output modes of a running program, each in a cell of its own that
/// every handle on it shares.
pub struct ModeCells {
    cells: Vec<OutputMode>,
}

impl View for ModeCells {
    type V = Seq<OutputMode>;

    closed spec fn view(&self) -> Seq<OutputMode> {
        self.cells@
    }
}

impl ModeCells {
    /// No cells.
    pub fn new() -> (r: Self)
        ensures
            r@ == Seq::<OutputMode>::empty(),
    {
        ModeCells { cells: Vec::new() }
    }

    /// The number of cells.
    pub fn len(&self) -> (r: usize)
        ensures
            r == self@.len(),
    {
        self.cells.len()
    }
}

/// A handle on the output mode that `stdout` sets and `echo` follows. The
/// mode lives in a cell of a `ModeCells`; handles made by `clone_ref` share
/// that cell, so a mode set through one is seen through all.
#[derive(Debug, Clone, Copy, PartialEq, Eq, Structural)]
pub struct StdoutState {
    cell: usize,
}

impl StdoutState {
    /// The cell this handle refers to.
    pub closed spec fn cell(&self) -> int {
        self.cell as int
    }

    /// A new cell holding the mode a program starts with, alerts, and a
    /// handle on it.
    pub fn new(cells: &mut ModeCells) -> (r: Self)
        ensures
            final(cells)@ == old(cells)@.push(OutputMode::Alert),
            r.cell() == old(cells)@.len(),
    {
        let cell = cells.cells.len();
        cells.cells.push(OutputMode::Alert);
        StdoutState { cell }
    }

    /// The mode in the shared cell.
    pub fn mode(&self, cells: &ModeCells) -> (r: OutputMode)
        requires
            self.cell() < cells@.len(),
        ensures
            r == cells@[self.cell()],
    {
        cells.cells[self.cell]
    }

    /// Sets the mode in the shared cell.
    pub fn set_mode(&self, cells: &mut ModeCells, mode: OutputMode)
        requires
            self.cell() < old(cells)@.len(),
        ensures
            final(cells)@ == old(cells)@.update(self.cell(), mode),
    {
        cells.cells.set(self.cell, mode);
    }

    /// Another handle on the same cell.
    pub fn clone_ref(&self) -> (r: Self)
        ensures
            r == *self,
    {
        StdoutState { cell: self.cell }
    }
}

/// Handles share their mode: after a mode is set through a handle, every
/// handle on the same cell, the one it was cloned from among them, reads
/// that mode, and handles on other cells read what they read before.
pub proof fn law_clones_share_mode(
    cells: Seq<OutputMode>,
    setter: StdoutState,
    reader: StdoutState,
    mode: OutputMode,
)
    requires
        setter.cell() < cells.len(),
        reader.cell() < cells.len(),
    ensures
        reader.cell() == setter.cell() ==> cells.update(setter.cell(), mode)[reader.cell()] == mode,
        reader.cell() != setter.cell() ==> cells.update(setter.cell(), mode)[reader.cell()]
            == cells[reader.cell()],
{
}

} // verus!

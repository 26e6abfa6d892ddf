//! Scopes: the names a block sees, each scope falling back on its parent.
use vstd::prelude::*;
use crate::runtime::object::{
    new_command, new_list_get, new_list_len, new_list_pop, new_list_push, new_list_set,
    new_message, new_node, Command, Heap, ObjectView,
};
use crate::runtime::value::{MessageKind, ObjectRef, ScopeRef, StdoutState, ValueView};
use crate::text::chars_of;

verus! {

/// The names bound in one scope, and the scope it falls back on.
pub struct Scope {
    values: Vec<(Vec<char>, ObjectRef)>,
    parent: Option<ScopeRef>,
}

/// All the scopes of a running program.
pub struct Scopes {
    scopes: Vec<Scope>,
}

pub ghost struct ScopeView {
    pub values: Seq<(Seq<char>, int)>,
    pub parent: Option<int>,
}

/// The object bound to `key` in `values`, the latest binding first.
pub open spec fn lookup(values: Seq<(Seq<char>, int)>, key: Seq<char>) -> Option<int>
    decreases values.len(),
{
    if values.len() == 0 {
        None
    } else if values.last().0 == key {
        Some(values.last().1)
    } else {
        lookup(values.drop_last(), key)
    }
}

/// The object that `key` names from scope `s`: its own binding, else its
/// parent's.
pub open spec fn find_spec(ss: Seq<ScopeView>, s: int, key: Seq<char>) -> Option<int>
    decreases s,
{
    if !(0 <= s < ss.len()) {
        None
    } else {
        match lookup(ss[s].values, key) {
            Some(o) => Some(o),
            None => match ss[s].parent {
                Some(p) => if 0 <= p < s {
                    find_spec(ss, p, key)
                } else {
                    None
                },
                None => None,
            },
        }
    }
}

/// A scope's parent was made before it.
pub open spec fn scopes_wf(ss: Seq<ScopeView>) -> bool {
    forall|i: int| 0 <= i < ss.len() ==> ((#[trigger] ss[i]).parent matches Some(p) ==> 0 <= p < i)
}

/// The names every new scope binds, in the order they are bound.
pub open spec fn builtin_names() -> Seq<Seq<char>> {
    seq![
        "input"@, "run"@, "stdout"@, "echo"@, "async"@, "if"@, "else"@, "while"@,
        "list_push"@, "list_pop"@, "list_get"@, "list_set"@, "list_len"@
    ]
}

/// The objects the built-in names are bound to, in the same order.
pub open spec fn builtin_objects(stdout: StdoutState) -> Seq<ObjectView> {
    seq![
        ObjectView::Command(Command::Input),
        ObjectView::Message(MessageKind::Run),
        ObjectView::Command(Command::Stdout(stdout)),
        ObjectView::Command(Command::Echo(stdout)),
        ObjectView::Message(MessageKind::Async),
        ObjectView::Command(Command::If),
        ObjectView::Message(MessageKind::Else),
        ObjectView::Command(Command::While),
        ObjectView::ListPush { target: None },
        ObjectView::ListPop { target: None, result: ValueView::Null },
        ObjectView::ListGet { target: None, index: None, result: ValueView::Null },
        ObjectView::ListSet { target: None, index: None, has_index: false },
        ObjectView::ListLen { consumed_target: false, result: 0 }
    ]
}

impl View for Scopes {
    type V = Seq<ScopeView>;

    closed spec fn view(&self) -> Seq<ScopeView> {
        self.scopes@.map_values(
            |s: Scope|
                ScopeView {
                    values: s.values@.map_values(|e: (Vec<char>, ObjectRef)| (e.0@, e.1.0 as int)),
                    parent: match s.parent {
                        Some(p) => Some(p.0 as int),
                        None => None,
                    },
                },
        )
    }
}

impl Scopes {
    /// No scopes.
    pub fn new() -> (r: Scopes)
        ensures
            r@ == Seq::<ScopeView>::empty(),
    {
        let r = Scopes { scopes: Vec::new() };
        assert(r@ =~= Seq::<ScopeView>::empty());
        r
    }

    /// The number of scopes.
    pub fn len(&self) -> (r: usize)
        ensures
            r == self@.len(),
    {
        self.scopes.len()
    }
}

/// The bindings of the built-in names to objects allocated from `base` on.
pub open spec fn builtin_bindings(base: int) -> Seq<(Seq<char>, int)> {
    Seq::new(13, |i: int| (builtin_names()[i], base + i))
}

fn bind(values: &mut Vec<(Vec<char>, ObjectRef)>, name: &str, o: ObjectRef)
    ensures
        final(values)@.map_values(|e: (Vec<char>, ObjectRef)| (e.0@, e.1.0 as int)) == old(
            values,
        )@.map_values(|e: (Vec<char>, ObjectRef)| (e.0@, e.1.0 as int)).push((name@, o.0 as int)),
{
    let ghost before = values@.map_values(|e: (Vec<char>, ObjectRef)| (e.0@, e.1.0 as int));
    values.push((chars_of(name), o));
    assert(values@.map_values(|e: (Vec<char>, ObjectRef)| (e.0@, e.1.0 as int)) =~= before.push(
        (name@, o.0 as int),
    ));
}

fn same_key(a: &Vec<char>, b: &Vec<char>) -> (r: bool)
    ensures
        r == (a@ == b@),
{
    if a.len() != b.len() {
        return false;
    }
    let mut i: usize = 0;
    while i < a.len()
        invariant
            a.len() == b.len(),
            i <= a.len(),
            forall|k: int| 0 <= k < i ==> a@[k] == b@[k],
        decreases a.len() - i,
    {
        if a[i] != b[i] {
            return false;
        }
        i += 1;
    }
    assert(a@ == b@);
    true
}

impl Scopes {
    proof fn lemma_view_index(&self, i: int)
        requires
            0 <= i < self.scopes@.len(),
        ensures
            self@.len() == self.scopes@.len(),
            self@[i].values == self.scopes@[i].values@.map_values(
                |e: (Vec<char>, ObjectRef)| (e.0@, e.1.0 as int),
            ),
            self@[i].parent == match self.scopes@[i].parent {
                Some(p) => Some(p.0 as int),
                None => None,
            },
    {
    }
}

impl Scope {
    /// A new scope under `parent`, binding each built-in name to a new
    /// object; `echo` and `stdout` share the output mode of `stdout`.
    pub fn new(scopes: &mut Scopes, heap: &mut Heap, parent: Option<ScopeRef>, stdout: StdoutState) -> (r: ScopeRef)
        ensures
            r.0 == old(scopes)@.len(),
            final(heap)@ == old(heap)@ + builtin_objects(stdout),
            final(scopes)@ == old(scopes)@.push(
                ScopeView {
                    values: builtin_bindings(old(heap)@.len() as int),
                    parent: match parent {
                        Some(p) => Some(p.0 as int),
                        None => None,
                    },
                },
            ),
    {
        let ghost h0 = heap@;
        let mut values: Vec<(Vec<char>, ObjectRef)> = Vec::new();
        let o = new_command(heap, Command::Input);
        bind(&mut values, "input", o);
        let o = new_message(heap, MessageKind::Run);
        bind(&mut values, "run", o);
        let o = new_command(heap, Command::Stdout(stdout.clone_ref()));
        bind(&mut values, "stdout", o);
        let o = new_command(heap, Command::Echo(stdout.clone_ref()));
        bind(&mut values, "echo", o);
        let o = new_message(heap, MessageKind::Async);
        bind(&mut values, "async", o);
        let o = new_command(heap, Command::If);
        bind(&mut values, "if", o);
        let o = new_message(heap, MessageKind::Else);
        bind(&mut values, "else", o);
        let o = new_command(heap, Command::While);
        bind(&mut values, "while", o);
        let o = new_list_push(heap);
        bind(&mut values, "list_push", o);
        let o = new_list_pop(heap);
        bind(&mut values, "list_pop", o);
        let o = new_list_get(heap);
        bind(&mut values, "list_get", o);
        let o = new_list_set(heap);
        bind(&mut values, "list_set", o);
        let o = new_list_len(heap);
        bind(&mut values, "list_len", o);
        assert(heap@ =~= h0 + builtin_objects(stdout));
        assert(values@.map_values(|e: (Vec<char>, ObjectRef)| (e.0@, e.1.0 as int)) =~= builtin_bindings(
            h0.len() as int,
        ));
        let r = ScopeRef(scopes.scopes.len());
        let ghost before = scopes@;
        scopes.scopes.push(Scope { values, parent });
        assert(scopes@ =~= before.push(
            ScopeView {
                values: builtin_bindings(h0.len() as int),
                parent: match parent {
                    Some(p) => Some(p.0 as int),
                    None => None,
                },
            },
        ));
        r
    }

    fn lookup_in(scope: &Scope, key: &Vec<char>) -> (r: Option<ObjectRef>)
        ensures
            ref_of(r) == lookup(
                scope.values@.map_values(|e: (Vec<char>, ObjectRef)| (e.0@, e.1.0 as int)),
                key@,
            ),
    {
        let ghost vs = scope.values@.map_values(|e: (Vec<char>, ObjectRef)| (e.0@, e.1.0 as int));
        let mut i = scope.values.len();
        assert(vs.take(i as int) == vs);
        while i > 0
            invariant
                i <= scope.values.len(),
                vs == scope.values@.map_values(|e: (Vec<char>, ObjectRef)| (e.0@, e.1.0 as int)),
                lookup(vs.take(i as int), key@) == lookup(vs, key@),
            decreases i,
        {
            let ghost t = vs.take(i as int);
            assert(t.drop_last() == vs.take(i - 1));
            assert(t.last() == (scope.values@[i - 1].0@, scope.values@[i - 1].1.0 as int));
            if same_key(&scope.values[i - 1].0, key) {
                return Some(scope.values[i - 1].1);
            }
            i -= 1;
        }
        assert(vs.take(scope.values.len() as int) == vs);
        None
    }

    /// The object `key` names from `scope`: its own binding, else the
    /// nearest enclosing scope's.
    pub fn find(scopes: &Scopes, scope: ScopeRef, key: &str) -> (r: Option<ObjectRef>)
        requires
            scopes_wf(scopes@),
        ensures
            ref_of(r) == find_spec(scopes@, scope.0 as int, key@),
    {
        let k = chars_of(key);
        let mut current = scope;
        let ghost want = find_spec(scopes@, scope.0 as int, key@);
        loop
            invariant
                scopes_wf(scopes@),
                k@ == key@,
                find_spec(scopes@, current.0 as int, key@) == want,
                want == find_spec(scopes@, scope.0 as int, key@),
            decreases current.0,
        {
            if current.0 >= scopes.scopes.len() {
                return None;
            }
            proof {
                scopes.lemma_view_index(current.0 as int);
            }
            let node = &scopes.scopes[current.0];
            match Scope::lookup_in(node, &k) {
                Some(o) => {
                    return Some(o);
                },
                None => {},
            }
            match node.parent {
                Some(p) => {
                    assert(scopes@[current.0 as int].parent == Some(p.0 as int));
                    if p.0 >= current.0 {
                        return None;
                    }
                    current = p;
                },
                None => {
                    return None;
                },
            }
        }
    }

    /// The object `key` names from `scope`; when no scope binds it, a new
    /// node bound to it in `scope` itself.
    pub fn get(scopes: &mut Scopes, heap: &mut Heap, scope: ScopeRef, key: &str) -> (r: ObjectRef)
        requires
            scopes_wf(old(scopes)@),
            scope.0 < old(scopes)@.len(),
        ensures
            scopes_wf(final(scopes)@),
            match find_spec(old(scopes)@, scope.0 as int, key@) {
                Some(o) => r.0 == o && final(scopes)@ == old(scopes)@ && final(heap)@ == old(heap)@,
                None => {
                    &&& r.0 == old(heap)@.len()
                    &&& final(heap)@ == old(heap)@.push(ObjectView::Node { strategy: None })
                    &&& final(scopes)@ == old(scopes)@.update(
                        scope.0 as int,
                        ScopeView {
                            values: old(scopes)@[scope.0 as int].values.push((key@, r.0 as int)),
                            ..old(scopes)@[scope.0 as int]
                        },
                    )
                },
            },
    {
        if let Some(value) = Scope::find(scopes, scope, key) {
            return value;
        }
        let created = new_node(heap);
        Scope::set(scopes, scope, key, created);
        created
    }

    /// Binds `key` to `value` in `scope` itself.
    pub fn set(scopes: &mut Scopes, scope: ScopeRef, key: &str, value: ObjectRef)
        requires
            scopes_wf(old(scopes)@),
            scope.0 < old(scopes)@.len(),
        ensures
            scopes_wf(final(scopes)@),
            final(scopes)@ == old(scopes)@.update(
                scope.0 as int,
                ScopeView {
                    values: old(scopes)@[scope.0 as int].values.push((key@, value.0 as int)),
                    ..old(scopes)@[scope.0 as int]
                },
            ),
    {
        let ghost before = scopes@;
        proof {
            scopes.lemma_view_index(scope.0 as int);
        }
        let mut tmp = Scope { values: Vec::new(), parent: None };
        scopes.scopes.set_and_swap(scope.0, &mut tmp);
        bind_key(&mut tmp.values, chars_of(key), value);
        scopes.scopes.set(scope.0, tmp);
        assert(scopes@ =~= before.update(
            scope.0 as int,
            ScopeView {
                values: before[scope.0 as int].values.push((key@, value.0 as int)),
                ..before[scope.0 as int]
            },
        ));
    }
}

fn bind_key(values: &mut Vec<(Vec<char>, ObjectRef)>, key: Vec<char>, o: ObjectRef)
    ensures
        final(values)@.map_values(|e: (Vec<char>, ObjectRef)| (e.0@, e.1.0 as int)) == old(
            values,
        )@.map_values(|e: (Vec<char>, ObjectRef)| (e.0@, e.1.0 as int)).push((key@, o.0 as int)),
{
    let ghost before = values@.map_values(|e: (Vec<char>, ObjectRef)| (e.0@, e.1.0 as int));
    let ghost kv = key@;
    values.push((key, o));
    assert(values@.map_values(|e: (Vec<char>, ObjectRef)| (e.0@, e.1.0 as int)) =~= before.push(
        (kv, o.0 as int),
    ));
}

pub open spec fn ref_of(r: Option<ObjectRef>) -> Option<int> {
    match r {
        Some(o) => Some(o.0 as int),
        None => None,
    }
}


/// The scopes after `key` is bound to `value` in scope `s`.
pub open spec fn bind_spec(ss: Seq<ScopeView>, s: int, key: Seq<char>, value: int) -> Seq<ScopeView> {
    ss.update(s, ScopeView { values: ss[s].values.push((key, value)), ..ss[s] })
}

/// A name bound in a scope is found there: the newest binding wins.
pub proof fn law_set_then_find(ss: Seq<ScopeView>, s: int, key: Seq<char>, value: int)
    requires
        scopes_wf(ss),
        0 <= s < ss.len(),
    ensures
        find_spec(bind_spec(ss, s, key, value), s, key) == Some(value),
{
    let ss2 = bind_spec(ss, s, key, value);
    assert(ss2[s].values.last() == (key, value));
}

proof fn lemma_find_below(ss: Seq<ScopeView>, s: int, key: Seq<char>, value: int, p: int, k2: Seq<char>)
    requires
        scopes_wf(ss),
        0 <= s < ss.len(),
        p < s,
    ensures
        find_spec(bind_spec(ss, s, key, value), p, k2) == find_spec(ss, p, k2),
    decreases p,
{
    let ss2 = bind_spec(ss, s, key, value);
    if 0 <= p < ss.len() {
        assert(ss2[p] == ss[p]);
        match ss[p].parent {
            Some(q) => {
                if 0 <= q < p {
                    lemma_find_below(ss, s, key, value, q, k2);
                }
            },
            None => {},
        }
    }
}

/// Binding a name in a scope changes what no other name finds from it, and
/// nothing that scopes made before it find.
pub proof fn law_set_keeps_others(ss: Seq<ScopeView>, s: int, key: Seq<char>, value: int, k2: Seq<char>, t: int)
    requires
        scopes_wf(ss),
        0 <= s < ss.len(),
        k2 != key || t < s,
        t <= s,
    ensures
        find_spec(bind_spec(ss, s, key, value), t, k2) == find_spec(ss, t, k2),
{
    let ss2 = bind_spec(ss, s, key, value);
    if t < s {
        lemma_find_below(ss, s, key, value, t, k2);
    } else {
        assert(ss2[s].values.drop_last() == ss[s].values);
        assert(lookup(ss2[s].values, k2) == lookup(ss[s].values, k2));
        match ss[s].parent {
            Some(q) => {
                if 0 <= q < s {
                    lemma_find_below(ss, s, key, value, q, k2);
                }
            },
            None => {},
        }
    }
}

/// A name a scope does not bind is found as its parent finds it.
pub proof fn law_parent_fallback(ss: Seq<ScopeView>, s: int, key: Seq<char>)
    requires
        scopes_wf(ss),
        0 <= s < ss.len(),
        lookup(ss[s].values, key) is None,
        ss[s].parent is Some,
    ensures
        find_spec(ss, s, key) == find_spec(ss, ss[s].parent->0, key),
{
}

/// A new scope finds each built-in name as the object made for it.
pub proof fn law_new_scope_binds_builtins(base: int, i: int)
    requires
        0 <= i < 13,
    ensures
        lookup(builtin_bindings(base), builtin_names()[i]) == Some(base + i),
{
    reveal_strlit("input");
    reveal_strlit("run");
    reveal_strlit("stdout");
    reveal_strlit("echo");
    reveal_strlit("async");
    reveal_strlit("if");
    reveal_strlit("else");
    reveal_strlit("while");
    reveal_strlit("list_push");
    reveal_strlit("list_pop");
    reveal_strlit("list_get");
    reveal_strlit("list_set");
    reveal_strlit("list_len");
    let b = builtin_bindings(base);
    let names = builtin_names();
    assert forall|j: int, k: int| 0 <= j < 13 && 0 <= k < 13 && j != k implies names[j] != names[k] by {
        if names[j] == names[k] {
            assert(names[j].len() == names[k].len());
            assert(names[j][0] == names[k][0]);
            assert(names[j][names[j].len() - 1] == names[k][names[k].len() - 1]);
            if names[j].len() > 5 {
                assert(names[j][5] == names[k][5]);
            }
        }
    }
    lemma_lookup_distinct(b, names, base, i, 13);
    assert(b.take(13) =~= b);
}

proof fn lemma_lookup_distinct(b: Seq<(Seq<char>, int)>, names: Seq<Seq<char>>, base: int, i: int, n: int)
    requires
        b == builtin_bindings(base),
        names == builtin_names(),
        0 <= i < n <= 13,
        forall|j: int, k: int| 0 <= j < 13 && 0 <= k < 13 && j != k ==> names[j] != names[k],
    ensures
        lookup(b.take(n), names[i]) == Some(base + i),
    decreases n,
{
    let t = b.take(n);
    assert(t.drop_last() == b.take(n - 1));
    assert(t.last() == (names[n - 1], base + n - 1));
    if i < n - 1 {
        lemma_lookup_distinct(b, names, base, i, n - 1);
    }
    if n == 13 {
        assert(b.take(13) == b);
    }
}

/// A name no binding of `values` has is not found there.
pub proof fn lemma_lookup_absent(values: Seq<(Seq<char>, int)>, key: Seq<char>)
    requires
        forall|i: int| 0 <= i < values.len() ==> (#[trigger] values[i]).0 != key,
    ensures
        lookup(values, key) is None,
    decreases values.len(),
{
    if values.len() > 0 {
        assert(values.last() == values[values.len() - 1]);
        lemma_lookup_absent(values.drop_last(), key);
    }
}

/// A scope added after the others changes nothing that the others find.
pub proof fn lemma_find_after_push(ss: Seq<ScopeView>, x: ScopeView, s: int, key: Seq<char>)
    requires
        scopes_wf(ss),
        0 <= s < ss.len(),
    ensures
        find_spec(ss.push(x), s, key) == find_spec(ss, s, key),
    decreases s,
{
    let ss2 = ss.push(x);
    assert(ss2[s] == ss[s]);
    if let Some(p) = ss[s].parent {
        if 0 <= p < s {
            lemma_find_after_push(ss, x, p, key);
        }
    }
}

} // verus!

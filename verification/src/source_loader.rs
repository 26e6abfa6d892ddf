//! Expansion of `include "path"` directives.
//!
//! The resolver is a state machine: it works on text alone and, whenever
//! it needs a file, hands back a request; the caller performs the file
//! system work and feeds the outcome back as an event.
use vstd::prelude::*;
use crate::directive::{directive_of, names_include, parse_include_directive, DirectiveError};
use crate::text::{
    chars_of, first_newline, lemma_first_newline, lemma_lines_empty, lemma_lines_last,
    lemma_lines_split, strip_cr, decimal, decimal_chars, lines_of, push_all, push_str, split_lines, string_of,
};

verus! {

/// An error found while expanding includes.
#[derive(Debug, Clone)]
pub struct IncludeError {
    pub message: String,
}

/// File-system work the resolver needs done.
#[derive(Debug, Clone)]
pub enum IncludeRequest {
    /// Resolve `target` against the directory `base_dir` (or, with no
    /// directory, `target` as given) to its canonical path.
    Resolve { base_dir: Option<String>, target: String },
    /// Read the file at the canonical path `path`.
    Read { path: String },
}

/// The outcome of a request.
#[derive(Debug, Clone)]
pub enum IncludeEvent {
    /// The canonical path of the resolved file and of its directory.
    Resolved { path: String, parent: String },
    /// The path could not be resolved; `path` is the path as asked for.
    ResolveFailed { path: String, reason: String },
    /// The file's contents.
    Read { contents: String },
    /// The file could not be read.
    ReadFailed { reason: String },
    /// The entry path names a directory; `path` is its canonical path.
    Directory { path: String },
}

/// What the resolver hands back: a request, or the expanded text or error.
#[derive(Debug)]
pub enum ResolveStep {
    Need(IncludeRequest),
    Done(Result<String, IncludeError>),
}

/// One text being expanded: a source given directly, or an included file.
pub ghost struct FrameView {
    pub lines: Seq<Seq<char>>,
    pub next: int,
    pub base_dir: Option<Seq<char>>,
    pub out: Seq<char>,
    pub ends_with_newline: bool,
    pub file: Option<Seq<char>>,
}

/// What the resolver waits for.
pub ghost enum Phase {
    Running,
    AwaitResolve,
    AwaitRead { path: Seq<char>, parent: Seq<char> },
    Finished,
}

/// The resolver's state: the texts being expanded (innermost last), the
/// files already expanded, and what it waits for.
pub ghost struct ResolverView {
    pub frames: Seq<FrameView>,
    pub included: Seq<Seq<char>>,
    pub phase: Phase,
}

pub ghost enum RequestView {
    Resolve { base_dir: Option<Seq<char>>, target: Seq<char> },
    Read { path: Seq<char> },
}

pub ghost enum EventView {
    Resolved { path: Seq<char>, parent: Seq<char> },
    ResolveFailed { path: Seq<char>, reason: Seq<char> },
    Read { contents: Seq<char> },
    ReadFailed { reason: Seq<char> },
    Directory { path: Seq<char> },
}

/// The resolver's answer: keep going, a request, or the final result.
pub ghost enum StepView {
    Continue,
    Need(RequestView),
    Done(Result<Seq<char>, Seq<char>>),
}

pub open spec fn opt_view(o: Option<String>) -> Option<Seq<char>> {
    match o {
        Some(s) => Some(s@),
        None => None,
    }
}

impl IncludeRequest {
    pub open spec fn view(&self) -> RequestView {
        match self {
            IncludeRequest::Resolve { base_dir, target } => RequestView::Resolve {
                base_dir: opt_view(*base_dir),
                target: target@,
            },
            IncludeRequest::Read { path } => RequestView::Read { path: path@ },
        }
    }
}

impl IncludeEvent {
    pub open spec fn view(&self) -> EventView {
        match self {
            IncludeEvent::Resolved { path, parent } => EventView::Resolved {
                path: path@,
                parent: parent@,
            },
            IncludeEvent::ResolveFailed { path, reason } => EventView::ResolveFailed {
                path: path@,
                reason: reason@,
            },
            IncludeEvent::Read { contents } => EventView::Read { contents: contents@ },
            IncludeEvent::ReadFailed { reason } => EventView::ReadFailed { reason: reason@ },
            IncludeEvent::Directory { path } => EventView::Directory { path: path@ },
        }
    }
}

impl ResolveStep {
    pub open spec fn view(&self) -> StepView {
        match self {
            ResolveStep::Need(r) => StepView::Need(r.view()),
            ResolveStep::Done(Ok(s)) => StepView::Done(Ok(s@)),
            ResolveStep::Done(Err(e)) => StepView::Done(Err(e.message@)),
        }
    }
}

// ---------------------------------------------------------------------------
// Messages

pub open spec fn directive_message(e: DirectiveError) -> Seq<char> {
    match e {
        DirectiveError::ReservedKeyword => "invalid use of reserved keyword 'include'"@,
        DirectiveError::Malformed => "invalid include directive, expected: include \"path.graphol\""@,
        DirectiveError::Unclosed => "invalid include directive, unclosed string literal"@,
    }
}

pub open spec fn no_base_message() -> Seq<char> {
    "include requires file-based execution context to resolve paths"@
}

/// `message` placed at line `line_no` of `file`, or of the text given
/// directly when there is no file.
pub open spec fn located(message: Seq<char>, file: Option<Seq<char>>, line_no: nat) -> Seq<char> {
    match file {
        Some(f) => message + " at "@ + f + ":"@ + decimal(line_no),
        None => message + " at line "@ + decimal(line_no),
    }
}

pub open spec fn resolve_failed_message(path: Seq<char>, reason: Seq<char>) -> Seq<char> {
    "failed to resolve include file '"@ + path + "': "@ + reason
}

pub open spec fn read_failed_message(path: Seq<char>, reason: Seq<char>) -> Seq<char> {
    "failed to read include file '"@ + path + "': "@ + reason
}

/// The paths of `paths` joined with ` -> `.
pub open spec fn join_arrows(paths: Seq<Seq<char>>) -> Seq<char>
    decreases paths.len(),
{
    if paths.len() == 0 {
        Seq::empty()
    } else if paths.len() == 1 {
        paths[0]
    } else {
        join_arrows(paths.drop_last()) + " -> "@ + paths.last()
    }
}

/// The first index of `x` in `s`, or the length of `s`.
pub open spec fn position(s: Seq<Seq<char>>, x: Seq<char>) -> int
    decreases s.len(),
{
    if s.len() == 0 {
        0
    } else if s[0] == x {
        0
    } else {
        1 + position(s.drop_first(), x)
    }
}

pub open spec fn cycle_message(stack: Seq<Seq<char>>, path: Seq<char>) -> Seq<char> {
    "include cycle detected: "@ + join_arrows(stack.skip(position(stack, path)).push(path))
}

// ---------------------------------------------------------------------------
// The transition rules

/// The files being expanded, outermost first.
pub open spec fn stack_of(frames: Seq<FrameView>) -> Seq<Seq<char>>
    decreases frames.len(),
{
    if frames.len() == 0 {
        Seq::empty()
    } else {
        match frames.last().file {
            Some(f) => stack_of(frames.drop_last()).push(f),
            None => stack_of(frames.drop_last()),
        }
    }
}

/// The text of a finished frame: a final line feed is dropped when the
/// expanded text did not end with one.
pub open spec fn finish_text(f: FrameView) -> Seq<char> {
    if !f.ends_with_newline && f.out.len() > 0 && f.out.last() == '\n' {
        f.out.drop_last()
    } else {
        f.out
    }
}

/// `out` followed by an included expansion, which is given a line feed of
/// its own when it is not empty and does not end with one.
pub open spec fn append_expansion(out: Seq<char>, x: Seq<char>) -> Seq<char> {
    if x.len() == 0 || x.last() == '\n' {
        out + x
    } else {
        out + x.push('\n')
    }
}

pub open spec fn with_top(s: ResolverView, f: FrameView) -> ResolverView {
    ResolverView { frames: s.frames.update(s.frames.len() - 1, f), ..s }
}

pub open spec fn finished(s: ResolverView) -> ResolverView {
    ResolverView { phase: Phase::Finished, ..s }
}

/// One step of expansion on the innermost frame.
pub open spec fn step_spec(s: ResolverView) -> (ResolverView, StepView) {
    let n = s.frames.len();
    let f = s.frames.last();
    if f.next < f.lines.len() {
        let line = f.lines[f.next];
        let line_no = (f.next + 1) as nat;
        match directive_of(line) {
            Err(e) => (
                finished(s),
                StepView::Done(Err(located(directive_message(e), f.file, line_no))),
            ),
            Ok(None) => (
                with_top(s, FrameView { next: f.next + 1, out: f.out + line.push('\n'), ..f }),
                StepView::Continue,
            ),
            Ok(Some(target)) => match f.base_dir {
                None => (
                    finished(s),
                    StepView::Done(Err(located(no_base_message(), f.file, line_no))),
                ),
                Some(b) => (
                    ResolverView {
                        phase: Phase::AwaitResolve,
                        ..with_top(s, FrameView { next: f.next + 1, ..f })
                    },
                    StepView::Need(RequestView::Resolve { base_dir: Some(b), target }),
                ),
            },
        }
    } else if n <= 1 {
        (finished(s), StepView::Done(Ok(finish_text(f))))
    } else {
        let rest = s.frames.drop_last();
        let p = rest.last();
        (
            ResolverView {
                frames: rest.update(
                    n - 2,
                    FrameView { out: append_expansion(p.out, finish_text(f)), ..p },
                ),
                included: match f.file {
                    Some(path) => s.included.push(path),
                    None => s.included,
                },
                phase: Phase::Running,
            },
            StepView::Continue,
        )
    }
}

/// Whether `ev` answers what `s` waits for.
pub open spec fn expects(s: ResolverView, ev: EventView) -> bool {
    match s.phase {
        Phase::AwaitResolve => ev is Resolved || ev is ResolveFailed || (ev is Directory
            && s.frames.len() == 0),
        Phase::AwaitRead { .. } => ev is Read || ev is ReadFailed,
        _ => false,
    }
}

/// The frame that expands the file at `path`, read with `contents`.
pub open spec fn file_frame(path: Seq<char>, parent: Seq<char>, contents: Seq<char>) -> FrameView {
    FrameView {
        lines: lines_of(contents),
        next: 0,
        base_dir: Some(parent),
        out: Seq::empty(),
        ends_with_newline: contents.len() > 0 && contents.last() == '\n',
        file: Some(path),
    }
}

/// The file that stands for a directory given as the entry.
pub open spec fn directory_entry() -> Seq<char> {
    "main.graphol"@
}

/// How the resolver takes the outcome of its request. An entry that is a
/// directory stands for the `main.graphol` in it.
pub open spec fn feed_spec(s: ResolverView, ev: EventView) -> (ResolverView, StepView) {
    match ev {
        EventView::Directory { path } => (
            ResolverView { phase: Phase::AwaitResolve, ..s },
            StepView::Need(RequestView::Resolve { base_dir: Some(path), target: directory_entry() }),
        ),
        EventView::ResolveFailed { path, reason } => (
            finished(s),
            StepView::Done(Err(resolve_failed_message(path, reason))),
        ),
        EventView::Resolved { path, parent } => {
            let stack = stack_of(s.frames);
            if stack.contains(path) {
                (finished(s), StepView::Done(Err(cycle_message(stack, path))))
            } else if s.included.contains(path) {
                (ResolverView { phase: Phase::Running, ..s }, StepView::Continue)
            } else {
                (
                    ResolverView { phase: Phase::AwaitRead { path, parent }, ..s },
                    StepView::Need(RequestView::Read { path }),
                )
            }
        },
        EventView::Read { contents } => match s.phase {
            Phase::AwaitRead { path, parent } => (
                ResolverView {
                    frames: s.frames.push(file_frame(path, parent, contents)),
                    phase: Phase::Running,
                    ..s
                },
                StepView::Continue,
            ),
            _ => (s, StepView::Continue),
        },
        EventView::ReadFailed { reason } => match s.phase {
            Phase::AwaitRead { path, .. } => (
                finished(s),
                StepView::Done(Err(read_failed_message(path, reason))),
            ),
            _ => (s, StepView::Continue),
        },
    }
}

/// Lines not yet expanded, plus one per frame: every step that keeps going
/// lowers it.
pub open spec fn remaining(frames: Seq<FrameView>) -> nat
    decreases frames.len(),
{
    if frames.len() == 0 {
        0
    } else {
        let f = frames.last();
        let left: nat = if f.next < f.lines.len() { (f.lines.len() - f.next) as nat } else { 0 };
        remaining(frames.drop_last()) + left + 1
    }
}

/// A step that keeps going lowers the work left.
pub proof fn lemma_step_decreases(s: ResolverView)
    requires
        s.frames.len() > 0,
        step_spec(s).1 is Continue,
    ensures
        remaining(step_spec(s).0.frames) < remaining(s.frames),
{
    let n = s.frames.len();
    let f = s.frames.last();
    let s2 = step_spec(s).0;
    if f.next < f.lines.len() {
        assert(s2.frames.len() == n);
        assert(s2.frames.drop_last() == s.frames.drop_last());
        assert(s2.frames.last().lines == f.lines && s2.frames.last().next == f.next + 1);
        assert(remaining(s2.frames) == remaining(s2.frames.drop_last()) + (f.lines.len() - f.next - 1) + 1);
        assert(remaining(s.frames) == remaining(s.frames.drop_last()) + (f.lines.len() - f.next) + 1);
    } else {
        let rest = s.frames.drop_last();
        assert(s2.frames.len() == n - 1);
        assert(s2.frames.drop_last() == rest.drop_last());
        assert(s2.frames.last().lines == rest.last().lines && s2.frames.last().next == rest.last().next);
        assert(remaining(s2.frames) == remaining(rest));
        assert(remaining(s.frames) == remaining(rest) + 1);
    }
}

/// Steps until the resolver needs a file or is done.
pub open spec fn settle(s: ResolverView) -> (ResolverView, StepView)
    decreases remaining(s.frames),
{
    if s.phase is Running && s.frames.len() > 0 {
        let (s2, out) = step_spec(s);
        if out is Continue {
            proof {
                lemma_step_decreases(s);
            }
            settle(s2)
        } else {
            (s2, out)
        }
    } else {
        (s, StepView::Continue)
    }
}

/// The state in which a source given directly starts.
pub open spec fn source_start(source: Seq<char>, base_dir: Option<Seq<char>>) -> ResolverView {
    ResolverView {
        frames: seq![FrameView {
            lines: lines_of(source),
            next: 0,
            base_dir,
            out: Seq::empty(),
            ends_with_newline: source.len() > 0 && source.last() == '\n',
            file: None,
        }],
        included: Seq::empty(),
        phase: Phase::Running,
    }
}

/// The state in which the expansion of an entry file starts.
pub open spec fn entry_start() -> ResolverView {
    ResolverView { frames: Seq::empty(), included: Seq::empty(), phase: Phase::AwaitResolve }
}

/// What the resolver hands back after taking `ev`.
pub open spec fn after_event(s: ResolverView, ev: EventView) -> (ResolverView, StepView) {
    let (s2, out) = feed_spec(s, ev);
    if out is Continue {
        settle(s2)
    } else {
        (s2, out)
    }
}


// ---------------------------------------------------------------------------
// The resolver's invariant

/// The resolver's invariant: only the outermost text may be a source given
/// directly, no file is being expanded twice at once, a file already
/// expanded is not being expanded again, and a file asked to be read is
/// neither.
pub open spec fn view_wf(s: ResolverView) -> bool {
    &&& (s.phase is Running ==> s.frames.len() > 0)
    &&& (s.included.len() > 0 ==> s.frames.len() > 0)
    &&& forall|i: int| 0 < i < s.frames.len() ==> (#[trigger] s.frames[i]).file is Some
    &&& forall|i: int|
        0 <= i < s.frames.len() ==> 0 <= (#[trigger] s.frames[i]).next <= s.frames[i].lines.len()
    &&& stack_of(s.frames).no_duplicates()
    &&& s.included.no_duplicates()
    &&& forall|p: Seq<char>| s.included.contains(p) ==> !stack_of(s.frames).contains(p)
    &&& (s.phase matches Phase::AwaitRead { path, .. } ==> !stack_of(s.frames).contains(path)
        && !s.included.contains(path))
}

proof fn lemma_stack_update_last(frames: Seq<FrameView>, f: FrameView)
    requires
        frames.len() > 0,
        f.file == frames.last().file,
    ensures
        stack_of(frames.update(frames.len() - 1, f)) == stack_of(frames),
{
    let u = frames.update(frames.len() - 1, f);
    assert(u.drop_last() == frames.drop_last());
}

proof fn lemma_stack_push(frames: Seq<FrameView>, f: FrameView, path: Seq<char>)
    requires
        f.file == Some(path),
    ensures
        stack_of(frames.push(f)) == stack_of(frames).push(path),
{
    assert(frames.push(f).drop_last() == frames);
}

proof fn lemma_push_no_dup(s: Seq<Seq<char>>, x: Seq<char>)
    requires
        s.no_duplicates(),
        !s.contains(x),
    ensures
        s.push(x).no_duplicates(),
        forall|y: Seq<char>| s.push(x).contains(y) <==> (s.contains(y) || y == x),
{
    assert forall|y: Seq<char>| s.push(x).contains(y) <==> (s.contains(y) || y == x) by {
        if s.push(x).contains(y) {
            let k = choose|k: int| 0 <= k < s.push(x).len() && s.push(x)[k] == y;
            if k < s.len() {
                assert(s[k] == y);
            }
        }
        if s.contains(y) {
            let k = choose|k: int| 0 <= k < s.len() && s[k] == y;
            assert(s.push(x)[k] == y);
        }
        if y == x {
            assert(s.push(x)[s.len() as int] == y);
        }
    }
    assert forall|i: int, j: int|
        0 <= i < s.push(x).len() && 0 <= j < s.push(x).len() && i != j implies s.push(x)[i]
        != s.push(x)[j] by {
        if i < s.len() && j == s.len() {
            assert(s.contains(s[i]));
        }
        if j < s.len() && i == s.len() {
            assert(s.contains(s[j]));
        }
    }
}

proof fn lemma_pop_no_dup(s: Seq<Seq<char>>)
    requires
        s.len() > 0,
        s.no_duplicates(),
    ensures
        s.drop_last().no_duplicates(),
        !s.drop_last().contains(s.last()),
        forall|y: Seq<char>| s.drop_last().contains(y) ==> s.contains(y),
{
    assert forall|y: Seq<char>| s.drop_last().contains(y) implies s.contains(y) by {
        let k = choose|k: int| 0 <= k < s.drop_last().len() && s.drop_last()[k] == y;
        assert(s[k] == y);
    }
    if s.drop_last().contains(s.last()) {
        let k = choose|k: int| 0 <= k < s.drop_last().len() && s.drop_last()[k] == s.last();
        assert(s[k] == s[s.len() - 1]);
    }
}

/// A step keeps the invariant.
pub proof fn lemma_step_wf(s: ResolverView)
    requires
        view_wf(s),
        s.phase is Running,
    ensures
        view_wf(step_spec(s).0),
{
    let n = s.frames.len();
    let f = s.frames.last();
    let s2 = step_spec(s).0;
    if f.next < f.lines.len() {
        let f2 = s2.frames.last();
        if s2.frames.len() == n && s2.included == s.included {
            assert(f2.file == f.file);
            lemma_stack_update_last(s.frames, f2);
            if s2.frames != s.frames {
                assert(s2.frames == s.frames.update(n - 1, f2));
                assert forall|i: int| 0 <= i < s2.frames.len() implies 0 <= (
                #[trigger] s2.frames[i]).next <= s2.frames[i].lines.len() by {
                    if i == n - 1 {
                    } else {
                        assert(s2.frames[i] == s.frames[i]);
                    }
                }
                assert forall|i: int| 0 < i < s2.frames.len() implies (
                #[trigger] s2.frames[i]).file is Some by {
                    if i != n - 1 {
                        assert(s2.frames[i] == s.frames[i]);
                    }
                }
            }
        }
    } else if n <= 1 {
    } else {
        let rest = s.frames.drop_last();
        let p = rest.last();
        let p2 = s2.frames.last();
        assert(s.frames[n - 1].file is Some);
        let path = f.file.unwrap();
        lemma_stack_push(rest, f, path);
        assert(rest.push(f) == s.frames);
        lemma_stack_update_last(rest, p2);
        lemma_pop_no_dup(stack_of(s.frames));
        assert(stack_of(s.frames).drop_last() == stack_of(rest));
        assert(stack_of(s.frames).contains(path)) by {
            assert(stack_of(s.frames)[stack_of(s.frames).len() - 1] == path);
        }
        lemma_push_no_dup(s.included, path);
        assert(s2.included == s.included.push(path));
        assert(stack_of(s2.frames) == stack_of(rest));
        assert forall|q: Seq<char>| s2.included.contains(q) implies !stack_of(s2.frames).contains(
            q,
        ) by {
            if s.included.contains(q) && stack_of(rest).contains(q) {
                assert(stack_of(s.frames).contains(q));
            }
        }
        assert forall|i: int| 0 <= i < s2.frames.len() implies 0 <= (
        #[trigger] s2.frames[i]).next <= s2.frames[i].lines.len() by {
            if i != n - 2 {
                assert(s2.frames[i] == s.frames[i]);
            } else {
                assert(s.frames[i] == p);
            }
        }
        assert forall|i: int| 0 < i < s2.frames.len() implies (#[trigger] s2.frames[i]).file is Some by {
            if i != n - 2 {
                assert(s2.frames[i] == s.frames[i]);
            } else {
                assert(s.frames[i] == p);
            }
        }
    }
}

/// Taking an expected event keeps the invariant.
pub proof fn lemma_feed_wf(s: ResolverView, ev: EventView)
    requires
        view_wf(s),
        expects(s, ev),
    ensures
        view_wf(feed_spec(s, ev).0),
{
    let s2 = feed_spec(s, ev).0;
    match ev {
        EventView::Read { contents } => {
            match s.phase {
                Phase::AwaitRead { path, parent } => {
                    let nf = file_frame(path, parent, contents);
                    lemma_stack_push(s.frames, nf, path);
                    lemma_push_no_dup(stack_of(s.frames), path);
                    assert forall|i: int| 0 <= i < s2.frames.len() implies 0 <= (
                    #[trigger] s2.frames[i]).next <= s2.frames[i].lines.len() by {
                        if i < s.frames.len() {
                            assert(s2.frames[i] == s.frames[i]);
                        }
                    }
                    assert forall|i: int| 0 < i < s2.frames.len() implies (
                    #[trigger] s2.frames[i]).file is Some by {
                        if i < s.frames.len() {
                            assert(s2.frames[i] == s.frames[i]);
                        }
                    }
                },
                _ => {},
            }
        },
        _ => {},
    }
}

/// Stepping until a request or the end keeps the invariant.
pub proof fn lemma_settle_wf(s: ResolverView)
    requires
        view_wf(s),
    ensures
        view_wf(settle(s).0),
    decreases remaining(s.frames),
{
    if s.phase is Running && s.frames.len() > 0 {
        let (s2, out) = step_spec(s);
        lemma_step_wf(s);
        if out is Continue {
            lemma_step_decreases(s);
            lemma_settle_wf(s2);
        }
    }
}

/// Taking an expected event, then stepping, keeps the invariant.
pub proof fn lemma_after_event_wf(s: ResolverView, ev: EventView)
    requires
        view_wf(s),
        expects(s, ev),
    ensures
        view_wf(after_event(s, ev).0),
{
    lemma_feed_wf(s, ev);
    lemma_settle_wf(feed_spec(s, ev).0);
}

// ---------------------------------------------------------------------------
// The resolver

struct Expansion {
    lines: Vec<Vec<char>>,
    next: usize,
    base_dir: Option<Vec<char>>,
    out: Vec<char>,
    ends_with_newline: bool,
    file: Option<Vec<char>>,
}

enum Waiting {
    Running,
    Resolve,
    Read { path: Vec<char>, parent: Vec<char> },
    Finished,
}

/// Expands the include directives of one source or entry file.
pub struct IncludeResolver {
    frames: Vec<Expansion>,
    included: Vec<Vec<char>>,
    waiting: Waiting,
}

enum StepOut {
    Continue,
    Out(ResolveStep),
}

pub open spec fn chars_opt(o: Option<Vec<char>>) -> Option<Seq<char>> {
    match o {
        Some(v) => Some(v@),
        None => None,
    }
}

impl Expansion {
    spec fn view(&self) -> FrameView {
        FrameView {
            lines: self.lines@.map_values(|l: Vec<char>| l@),
            next: self.next as int,
            base_dir: chars_opt(self.base_dir),
            out: self.out@,
            ends_with_newline: self.ends_with_newline,
            file: chars_opt(self.file),
        }
    }
}

impl Waiting {
    spec fn view(&self) -> Phase {
        match self {
            Waiting::Running => Phase::Running,
            Waiting::Resolve => Phase::AwaitResolve,
            Waiting::Read { path, parent } => Phase::AwaitRead { path: path@, parent: parent@ },
            Waiting::Finished => Phase::Finished,
        }
    }
}

impl StepOut {
    spec fn view(&self) -> StepView {
        match self {
            StepOut::Continue => StepView::Continue,
            StepOut::Out(r) => r.view(),
        }
    }
}

impl View for IncludeResolver {
    type V = ResolverView;

    closed spec fn view(&self) -> ResolverView {
        ResolverView {
            frames: self.frames@.map_values(|f: Expansion| f.view()),
            included: self.included@.map_values(|p: Vec<char>| p@),
            phase: self.waiting.view(),
        }
    }
}

/// Whether the characters of `a` and `b` are the same.
fn same_chars(a: &Vec<char>, b: &Vec<char>) -> (r: bool)
    ensures
        r == (a@ == b@),
{
    if a.len() != b.len() {
        return false;
    }
    let mut i: usize = 0;
    while i < a.len()
        invariant
            a.len() == b.len(),
            i <= a.len(),
            forall|k: int| 0 <= k < i ==> a@[k] == b@[k],
        decreases a.len() - i,
    {
        if a[i] != b[i] {
            return false;
        }
        i += 1;
    }
    assert(a@ == b@);
    true
}

fn directive_message_chars(e: DirectiveError) -> (r: Vec<char>)
    ensures
        r@ == directive_message(e),
{
    let mut r = Vec::new();
    match e {
        DirectiveError::ReservedKeyword => push_str(&mut r, "invalid use of reserved keyword 'include'"),
        DirectiveError::Malformed => push_str(
            &mut r,
            "invalid include directive, expected: include \"path.graphol\"",
        ),
        DirectiveError::Unclosed => push_str(&mut r, "invalid include directive, unclosed string literal"),
    }
    r
}

fn line_error(message: Vec<char>, file: &Option<Vec<char>>, line_no: usize) -> (r: String)
    ensures
        r@ == located(message@, chars_opt(*file), line_no as nat),
{
    let mut m = message;
    match file {
        Some(f) => {
            push_str(&mut m, " at ");
            push_all(&mut m, f);
            push_str(&mut m, ":");
        },
        None => {
            push_str(&mut m, " at line ");
        },
    }
    let digits = decimal_chars(line_no);
    push_all(&mut m, &digits);
    string_of(&m)
}

fn failure_message(head: &str, path: &Vec<char>, reason: &Vec<char>) -> (r: String)
    ensures
        r@ == head@ + path@ + "': "@ + reason@,
{
    let mut m = Vec::new();
    push_str(&mut m, head);
    push_all(&mut m, path);
    push_str(&mut m, "': ");
    push_all(&mut m, reason);
    string_of(&m)
}

fn finish_chars(f: &Expansion) -> (r: Vec<char>)
    ensures
        r@ == finish_text(f.view()),
{
    let mut r: Vec<char> = Vec::new();
    push_all(&mut r, &f.out);
    if !f.ends_with_newline && r.len() > 0 && r[r.len() - 1] == '\n' {
        r.pop();
    }
    r
}

fn done_err(message: String) -> (r: StepOut)
    ensures
        r.view() == StepView::Done(Err(message@)),
{
    StepOut::Out(ResolveStep::Done(Err(IncludeError { message })))
}

impl IncludeResolver {
    proof fn lemma_view_push(&self, f: Expansion)
        ensures
            self.frames@.push(f).map_values(|e: Expansion| e.view()) == self@.frames.push(f.view()),
    {
        assert(self.frames@.push(f).map_values(|e: Expansion| e.view()) =~= self@.frames.push(
            f.view(),
        ));
    }

    /// The files being expanded, outermost first.
    fn stack(&self) -> (r: Vec<Vec<char>>)
        ensures
            r@.map_values(|p: Vec<char>| p@) == stack_of(self@.frames),
    {
        let mut r: Vec<Vec<char>> = Vec::new();
        let mut i: usize = 0;
        while i < self.frames.len()
            invariant
                i <= self.frames.len(),
                r@.map_values(|p: Vec<char>| p@) == stack_of(self@.frames.take(i as int)),
            decreases self.frames.len() - i,
        {
            proof {
                assert(self@.frames.take(i + 1).drop_last() == self@.frames.take(i as int));
                assert(self@.frames.take(i + 1).last() == self.frames@[i as int].view());
            }
            match &self.frames[i].file {
                Some(f) => {
                    let ghost before = r@;
                    r.push(f.clone());
                    assert(r@.map_values(|p: Vec<char>| p@) =~= before.map_values(
                        |p: Vec<char>| p@,
                    ).push(f@));
                },
                None => {},
            }
            i += 1;
        }
        assert(self@.frames.take(self.frames.len() as int) == self@.frames);
        r
    }

    /// One step of expansion on the innermost frame.
    fn step(&mut self) -> (r: StepOut)
        requires
            old(self)@.phase is Running,
            old(self)@.frames.len() > 0,
        ensures
            (final(self)@, r.view()) == step_spec(old(self)@),
    {
        let ghost s = self@;
        let mut f = self.frames.pop().unwrap();
        proof {
            assert(f.view() == s.frames.last());
            assert(self@.frames =~= s.frames.drop_last());
        }
        if f.next < f.lines.len() {
            let line_no = f.next + 1;
            let parsed = parse_include_directive(&f.lines[f.next]);
            proof {
                assert(f.lines@[f.next as int]@ == s.frames.last().lines[f.next as int]);
            }
            match parsed {
                Err(e) => {
                    let msg = line_error(directive_message_chars(e), &f.file, line_no);
                    proof {
                        self.lemma_view_push(f);
                        assert(s.frames.drop_last().push(s.frames.last()) == s.frames);
                    }
                    self.frames.push(f);
                    self.waiting = Waiting::Finished;
                    return done_err(msg);
                },
                Ok(None) => {
                    let ghost old_f = f.view();
                    let mut line: Vec<char> = Vec::new();
                    push_all(&mut line, &f.lines[f.next]);
                    push_all(&mut f.out, &line);
                    f.out.push('\n');
                    f.next = f.next + 1;
                    proof {
                        self.lemma_view_push(f);
                        assert(f.view().lines == old_f.lines);
                        assert(f.view() == FrameView {
                            next: old_f.next + 1,
                            out: old_f.out + old_f.lines[old_f.next].push('\n'),
                            ..old_f
                        });
                        assert(s.frames.drop_last().push(f.view()) == s.frames.update(
                            s.frames.len() - 1,
                            f.view(),
                        ));
                    }
                    self.frames.push(f);
                    return StepOut::Continue;
                },
                Ok(Some(target)) => {
                    match &f.base_dir {
                        None => {
                            let mut m = Vec::new();
                            push_str(
                                &mut m,
                                "include requires file-based execution context to resolve paths",
                            );
                            assert(m@ =~= no_base_message());
                            let msg = line_error(m, &f.file, line_no);
                            proof {
                                self.lemma_view_push(f);
                                assert(s.frames.drop_last().push(s.frames.last()) == s.frames);
                            }
                            self.frames.push(f);
                            self.waiting = Waiting::Finished;
                            return done_err(msg);
                        },
                        Some(b) => {
                            let req = IncludeRequest::Resolve {
                                base_dir: Some(string_of(b)),
                                target: string_of(&target),
                            };
                            let ghost old_f = f.view();
                            f.next = f.next + 1;
                            proof {
                                self.lemma_view_push(f);
                                assert(f.view().lines == old_f.lines);
                                assert(f.view() == FrameView { next: old_f.next + 1, ..old_f });
                                assert(s.frames.drop_last().push(f.view()) == s.frames.update(
                                    s.frames.len() - 1,
                                    f.view(),
                                ));
                            }
                            self.frames.push(f);
                            self.waiting = Waiting::Resolve;
                            return StepOut::Out(ResolveStep::Need(req));
                        },
                    }
                },
            }
        } else {
            let text = finish_chars(&f);
            if self.frames.len() == 0 {
                proof {
                    self.lemma_view_push(f);
                    assert(s.frames.drop_last().push(s.frames.last()) == s.frames);
                }
                self.frames.push(f);
                self.waiting = Waiting::Finished;
                return StepOut::Out(ResolveStep::Done(Ok(string_of(&text))));
            } else {
                let ghost rest = self@.frames;
                let mut p = self.frames.pop().unwrap();
                let ghost old_p = p.view();
                proof {
                    assert(old_p == rest.last());
                    assert(self@.frames =~= rest.drop_last());
                }
                if text.len() == 0 || text[text.len() - 1] == '\n' {
                    push_all(&mut p.out, &text);
                } else {
                    push_all(&mut p.out, &text);
                    p.out.push('\n');
                }
                proof {
                    assert(p.view().lines == old_p.lines);
                    assert(p.view() == FrameView {
                        out: append_expansion(old_p.out, text@),
                        ..old_p
                    });
                    self.lemma_view_push(p);
                    assert(rest.drop_last().push(p.view()) == rest.update(
                        rest.len() - 1,
                        p.view(),
                    ));
                }
                self.frames.push(p);
                assert(self@.frames == rest.update(rest.len() - 1, p.view()));
                assert(rest == s.frames.drop_last());
                match f.file {
                    Some(path) => {
                        let ghost before = self.included@;
                        self.included.push(path);
                        assert(self.included@.map_values(|q: Vec<char>| q@) =~= before.map_values(
                            |q: Vec<char>| q@,
                        ).push(path@));
                    },
                    None => {},
                }
                return StepOut::Continue;
            }
        }
    }

    /// Steps until the resolver needs a file or is done.
    fn expand_source(&mut self) -> (r: ResolveStep)
        requires
            old(self)@.phase is Running,
            old(self)@.frames.len() > 0,
        ensures
            (final(self)@, r.view()) == settle(old(self)@),
    {
        loop
            invariant
                self@.phase is Running,
                self@.frames.len() > 0,
                settle(self@) == settle(old(self)@),
            decreases remaining(self@.frames),
        {
            let ghost before = self@;
            let out = self.step();
            match out {
                StepOut::Continue => {
                    proof {
                        lemma_step_frames(before);
                        lemma_step_decreases(before);
                    }
                },
                StepOut::Out(r) => {
                    return r;
                },
            }
        }
    }

    /// Starts expanding a source given directly; `base_dir` is the directory
    /// its includes are resolved against, if it has one.
    pub fn for_source(source: &str, base_dir: Option<&str>) -> (r: (IncludeResolver, ResolveStep))
        ensures
            r.0.wf(),
            (r.0@, r.1.view()) == settle(
                source_start(
                    source@,
                    match base_dir {
                        Some(b) => Some(b@),
                        None => None,
                    },
                ),
            ),
    {
        let chars = chars_of(source);
        let lines = split_lines(&chars);
        let base = match base_dir {
            Some(b) => Some(chars_of(b)),
            None => None,
        };
        let ends = chars.len() > 0 && chars[chars.len() - 1] == '\n';
        let frame = Expansion {
            lines,
            next: 0,
            base_dir: base,
            out: Vec::new(),
            ends_with_newline: ends,
            file: None,
        };
        let mut frames = Vec::new();
        frames.push(frame);
        let mut resolver = IncludeResolver {
            frames,
            included: Vec::new(),
            waiting: Waiting::Running,
        };
        proof {
            assert(frame.view().lines =~= lines_of(source@));
            assert(resolver@.frames =~= source_start(
                source@,
                match base_dir {
                    Some(b) => Some(b@),
                    None => None,
                },
            ).frames);
            assert(resolver@.included =~= Seq::<Seq<char>>::empty());
        }
        proof {
            assert(resolver@.frames.drop_last() =~= Seq::<FrameView>::empty());
            assert(resolver@.frames.last().file is None);
            assert(stack_of(Seq::<FrameView>::empty()) == Seq::<Seq<char>>::empty());
            assert(stack_of(resolver@.frames) =~= Seq::<Seq<char>>::empty());
            lemma_settle_wf(resolver@);
        }
        let step = resolver.expand_source();
        (resolver, step)
    }

    /// Starts expanding the entry file at `path`: the first request resolves
    /// it; when it names a directory, the `main.graphol` in it is the entry.
    pub fn for_entry(path: &str) -> (r: (IncludeResolver, ResolveStep))
        ensures
            r.0.wf(),
            r.0@ == entry_start(),
            r.1.view() == StepView::Need(RequestView::Resolve { base_dir: None, target: path@ }),
    {
        let resolver = IncludeResolver {
            frames: Vec::new(),
            included: Vec::new(),
            waiting: Waiting::Resolve,
        };
        proof {
            assert(resolver@.frames =~= Seq::<FrameView>::empty());
            assert(resolver@.included =~= Seq::<Seq<char>>::empty());
        }
        let p = chars_of(path);
        (resolver, ResolveStep::Need(IncludeRequest::Resolve { base_dir: None, target: string_of(&p) }))
    }

    /// Whether the resolver waits for the outcome `ev`.
    pub open spec fn expects(&self, ev: IncludeEvent) -> bool {
        expects(self@, ev.view())
    }

    /// The resolver's invariant.
    pub open spec fn wf(&self) -> bool {
        view_wf(self@)
    }

    /// Takes the outcome of the last request and goes on until the next
    /// request or the end.
    pub fn feed(&mut self, ev: IncludeEvent) -> (r: ResolveStep)
        requires
            old(self).wf(),
            old(self).expects(ev),
        ensures
            final(self).wf(),
            (final(self)@, r.view()) == after_event(old(self)@, ev.view()),
    {
        proof {
            lemma_after_event_wf(self@, ev.view());
        }
        let ghost s = self@;
        match ev {
            IncludeEvent::Directory { path } => {
                self.waiting = Waiting::Resolve;
                proof {
                    reveal_strlit("main.graphol");
                }
                let target = string_of(&chars_of("main.graphol"));
                ResolveStep::Need(IncludeRequest::Resolve { base_dir: Some(path), target })
            },
            IncludeEvent::ResolveFailed { path, reason } => {
                let msg = failure_message(
                    "failed to resolve include file '",
                    &chars_of(path.as_str()),
                    &chars_of(reason.as_str()),
                );
                self.waiting = Waiting::Finished;
                ResolveStep::Done(Err(IncludeError { message: msg }))
            },
            IncludeEvent::Resolved { path, parent } => {
                let p = chars_of(path.as_str());
                let stack = self.stack();
                let ghost sv = stack@.map_values(|q: Vec<char>| q@);
                let mut k: usize = 0;
                let mut found = false;
                while !found && k < stack.len()
                    invariant
                        k <= stack.len(),
                        sv == stack@.map_values(|q: Vec<char>| q@),
                        forall|j: int| 0 <= j < k ==> sv[j] != p@,
                        found ==> k < stack.len() && sv[k as int] == p@,
                    decreases stack.len() - k + (if found { 0int } else { 1int }),
                {
                    assert(sv[k as int] == stack@[k as int]@);
                    if same_chars(&stack[k], &p) {
                        found = true;
                    } else {
                        k += 1;
                    }
                }
                if found {
                    proof {
                        lemma_position(sv, p@, k as int);
                    }
                    let mut m: Vec<char> = Vec::new();
                    push_str(&mut m, "include cycle detected: ");
                    let ghost head = m@;
                    let mut j = k;
                    while j < stack.len()
                        invariant
                            k <= j <= stack.len(),
                            sv == stack@.map_values(|q: Vec<char>| q@),
                            m@ == head + arrows_prefix(sv.subrange(k as int, j as int)),
                        decreases stack.len() - j,
                    {
                        push_all(&mut m, &stack[j]);
                        push_str(&mut m, " -> ");
                        proof {
                            assert(sv.subrange(k as int, j + 1).drop_last() == sv.subrange(
                                k as int,
                                j as int,
                            ));
                        }
                        j += 1;
                    }
                    push_all(&mut m, &p);
                    proof {
                        assert(sv.subrange(k as int, stack.len() as int) == sv.skip(k as int));
                        lemma_join_arrows_push(sv.skip(k as int), p@);
                        assert(head =~= "include cycle detected: "@);
                        assert(m@ =~= cycle_message(sv, p@));
                    }
                    self.waiting = Waiting::Finished;
                    return ResolveStep::Done(Err(IncludeError { message: string_of(&m) }));
                }
                proof {
                    assert(!sv.contains(p@));
                }
                let ghost iv = self@.included;
                let mut i: usize = 0;
                let mut seen = false;
                while i < self.included.len()
                    invariant
                        i <= self.included.len(),
                        iv == self.included@.map_values(|q: Vec<char>| q@),
                        seen == (exists|t: int| 0 <= t < i && iv[t] == p@),
                    decreases self.included.len() - i,
                {
                    assert(iv[i as int] == self.included@[i as int]@);
                    if same_chars(&self.included[i], &p) {
                        seen = true;
                    }
                    i += 1;
                }
                if seen {
                    assert(iv.contains(p@));
                    self.waiting = Waiting::Running;
                    return self.expand_source();
                }
                let q = chars_of(parent.as_str());
                let out_path = string_of(&p);
                self.waiting = Waiting::Read { path: p, parent: q };
                ResolveStep::Need(IncludeRequest::Read { path: out_path })
            },
            IncludeEvent::Read { contents } => {
                let mut w = Waiting::Running;
                std::mem::swap(&mut w, &mut self.waiting);
                match w {
                    Waiting::Read { path, parent } => {
                        let chars = chars_of(contents.as_str());
                        let lines = split_lines(&chars);
                        let ends = chars.len() > 0 && chars[chars.len() - 1] == '\n';
                        let frame = Expansion {
                            lines,
                            next: 0,
                            base_dir: Some(parent),
                            out: Vec::new(),
                            ends_with_newline: ends,
                            file: Some(path),
                        };
                        proof {
                            assert(frame.view().lines =~= lines_of(contents@));
                            assert(frame.view() == file_frame(path@, parent@, contents@));
                            self.lemma_view_push(frame);
                        }
                        self.frames.push(frame);
                        assert(self@ == feed_spec(s, ev.view()).0);
                        self.expand_source()
                    },
                    _ => {
                        assert(false);
                        ResolveStep::Done(Ok(String::new()))
                    },
                }
            },
            IncludeEvent::ReadFailed { reason } => {
                let mut w = Waiting::Finished;
                std::mem::swap(&mut w, &mut self.waiting);
                match w {
                    Waiting::Read { path, parent: _ } => {
                        let msg = failure_message(
                            "failed to read include file '",
                            &path,
                            &chars_of(reason.as_str()),
                        );
                        ResolveStep::Done(Err(IncludeError { message: msg }))
                    },
                    _ => {
                        assert(false);
                        ResolveStep::Done(Ok(String::new()))
                    },
                }
            },
        }
    }
}

/// Each path followed by ` -> `.
pub open spec fn arrows_prefix(paths: Seq<Seq<char>>) -> Seq<char>
    decreases paths.len(),
{
    if paths.len() == 0 {
        Seq::empty()
    } else {
        arrows_prefix(paths.drop_last()) + paths.last() + " -> "@
    }
}

proof fn lemma_join_arrows_push(xs: Seq<Seq<char>>, p: Seq<char>)
    ensures
        join_arrows(xs.push(p)) == arrows_prefix(xs) + p,
    decreases xs.len(),
{
    if xs.len() == 0 {
        assert(xs.push(p).len() == 1);
        assert(arrows_prefix(xs) + p =~= p);
    } else {
        assert(xs.push(p).drop_last() == xs);
        lemma_join_arrows_push(xs.drop_last(), xs.last());
        assert(xs.drop_last().push(xs.last()) == xs);
        assert(join_arrows(xs.push(p)) =~= arrows_prefix(xs) + p);
    }
}

proof fn lemma_position(s: Seq<Seq<char>>, x: Seq<char>, k: int)
    requires
        0 <= k < s.len(),
        s[k] == x,
        forall|j: int| 0 <= j < k ==> s[j] != x,
    ensures
        position(s, x) == k,
        s.contains(x),
    decreases k,
{
    if k > 0 {
        lemma_position(s.drop_first(), x, k - 1);
    }
}

proof fn lemma_step_frames(s: ResolverView)
    requires
        s.frames.len() > 0,
        s.phase is Running,
        step_spec(s).1 is Continue,
    ensures
        step_spec(s).0.frames.len() > 0,
        step_spec(s).0.phase is Running,
{
}

/// Starts expanding `source`; `base_dir` is the directory its includes are
/// resolved against, if it has one.
pub fn resolve_source(source: &str, base_dir: Option<&str>) -> (r: (IncludeResolver, ResolveStep))
    ensures
        r.0.wf(),
        (r.0@, r.1.view()) == settle(
            source_start(
                source@,
                match base_dir {
                    Some(b) => Some(b@),
                    None => None,
                },
            ),
        ),
{
    IncludeResolver::for_source(source, base_dir)
}

/// Starts expanding the entry file at `path`: the first request resolves
/// `path` as given, and the file it names is then read and expanded.
pub fn load_entry_source(path: &str) -> (r: (IncludeResolver, ResolveStep))
    ensures
        r.0.wf(),
        r.0@ == entry_start(),
        r.1.view() == StepView::Need(RequestView::Resolve { base_dir: None, target: path@ }),
{
    IncludeResolver::for_entry(path)
}


// ---------------------------------------------------------------------------
// Laws

proof fn lemma_settle_never_reads(s: ResolverView)
    ensures
        !(settle(s).1 matches StepView::Need(RequestView::Read { .. })),
    decreases remaining(s.frames),
{
    if s.phase is Running && s.frames.len() > 0 {
        let (s2, out) = step_spec(s);
        if out is Continue {
            lemma_step_decreases(s);
            lemma_settle_never_reads(s2);
        }
    }
}

/// A file is asked to be read only when it is neither being expanded nor
/// expanded already: a file included twice is read once, and an include
/// cycle is reported instead of being followed.
pub proof fn law_reads_only_new_files(s: ResolverView, ev: EventView)
    requires
        view_wf(s),
        expects(s, ev),
    ensures
        after_event(s, ev).1 matches StepView::Need(RequestView::Read { path }) ==> !stack_of(
            s.frames,
        ).contains(path) && !s.included.contains(path),
{
    let (s2, out) = feed_spec(s, ev);
    if out is Continue {
        lemma_settle_never_reads(s2);
    }
}

/// An include of a file that is being expanded stops the expansion with a
/// cycle error that names the files from that file down to it again.
pub proof fn law_cycle_is_reported(s: ResolverView, path: Seq<char>, parent: Seq<char>)
    requires
        view_wf(s),
        s.phase is AwaitResolve,
        stack_of(s.frames).contains(path),
    ensures
        after_event(s, EventView::Resolved { path, parent }) == (
            finished(s),
            StepView::Done(Err(cycle_message(stack_of(s.frames), path))),
        ),
{
}

/// An include of a file already expanded adds nothing to the text.
pub proof fn law_repeated_include_adds_nothing(s: ResolverView, path: Seq<char>, parent: Seq<char>)
    requires
        view_wf(s),
        s.phase is AwaitResolve,
        s.included.contains(path),
    ensures
        feed_spec(s, EventView::Resolved { path, parent }).1 is Continue,
        feed_spec(s, EventView::Resolved { path, parent }).0.frames == s.frames,
        feed_spec(s, EventView::Resolved { path, parent }).0.included == s.included,
{
}

/// The text written line by line, each line followed by a line feed.
pub open spec fn joined_lines(ls: Seq<Seq<char>>) -> Seq<char>
    decreases ls.len(),
{
    if ls.len() == 0 {
        Seq::empty()
    } else {
        joined_lines(ls.drop_last()) + ls.last().push('\n')
    }
}

proof fn lemma_joined_single(a: Seq<char>)
    ensures
        joined_lines(seq![a]) == a.push('\n'),
{
    assert(seq![a].drop_last() =~= Seq::<Seq<char>>::empty());
    assert(joined_lines(seq![a]) == joined_lines(Seq::<Seq<char>>::empty()) + a.push('\n'));
    assert(joined_lines(Seq::<Seq<char>>::empty()) + a.push('\n') =~= a.push('\n'));
}

proof fn lemma_joined_prepend(a: Seq<char>, ls: Seq<Seq<char>>)
    ensures
        joined_lines(seq![a] + ls) == a.push('\n') + joined_lines(ls),
    decreases ls.len(),
{
    if ls.len() == 0 {
        assert(seq![a] + ls =~= seq![a]);
        lemma_joined_single(a);
        assert(a.push('\n') + joined_lines(ls) =~= a.push('\n'));
    } else {
        lemma_joined_prepend(a, ls.drop_last());
        assert((seq![a] + ls).drop_last() =~= seq![a] + ls.drop_last());
        assert((seq![a] + ls).last() == ls.last());
        assert(joined_lines(seq![a] + ls) =~= a.push('\n') + joined_lines(ls));
    }
}

/// Writing the lines of a text without carriage returns back, each with a
/// line feed, gives the text with a line feed at its end.
proof fn lemma_lines_rejoin(s: Seq<char>)
    requires
        forall|i: int| 0 <= i < s.len() ==> s[i] != '\r',
    ensures
        joined_lines(lines_of(s)) == (if s.len() == 0 || s.last() == '\n' {
            s
        } else {
            s.push('\n')
        }),
    decreases s.len(),
{
    if s.len() == 0 {
        lemma_lines_empty();
        assert(s =~= Seq::<char>::empty());
    } else {
        lemma_first_newline(s);
        match first_newline(s) {
            None => {
                lemma_lines_last(s);
                lemma_joined_single(s);
                assert(s[s.len() - 1] != '\n');
            },
            Some(k) => {
                let a = s.subrange(0, k);
                let b = s.subrange(k + 1, s.len() as int);
                lemma_lines_split(s, k);
                if a.len() > 0 {
                    assert(a.last() == s[k - 1]);
                }
                assert(strip_cr(a) == a);
                lemma_lines_rejoin(b);
                lemma_joined_prepend(a, lines_of(b));
                assert(joined_lines(lines_of(s)) == a.push('\n') + joined_lines(lines_of(b)));
                if b.len() == 0 {
                    assert(a.push('\n') + b =~= s);
                    assert(s.last() == '\n');
                } else if b.last() == '\n' {
                    assert(a.push('\n') + b =~= s);
                    assert(s.last() == '\n');
                } else {
                    assert(a.push('\n') + b.push('\n') =~= s.push('\n'));
                    assert(s.last() == b.last());
                }
            },
        }
    }
}


proof fn lemma_settle_plain(s: ResolverView)
    requires
        s.phase is Running,
        s.frames.len() == 1,
        0 <= s.frames[0].next <= s.frames[0].lines.len(),
        s.frames[0].out == joined_lines(s.frames[0].lines.take(s.frames[0].next)),
        forall|i: int|
            s.frames[0].next <= i < s.frames[0].lines.len() ==> !names_include(
                #[trigger] s.frames[0].lines[i],
            ),
    ensures
        settle(s).1 == StepView::Done(
            Ok(
                finish_text(
                    FrameView { next: s.frames[0].lines.len() as int, out: joined_lines(s.frames[0].lines), ..s.frames[0] },
                ),
            ),
        ),
    decreases s.frames[0].lines.len() - s.frames[0].next,
{
    let f = s.frames[0];
    if f.next < f.lines.len() {
        assert(!names_include(f.lines[f.next]));
        let s2 = step_spec(s).0;
        assert(f.lines.take(f.next + 1).drop_last() == f.lines.take(f.next));
        assert(f.lines.take(f.next + 1).last() == f.lines[f.next]);
        assert(s2.frames[0].out == joined_lines(f.lines.take(f.next + 1)));
        lemma_step_decreases(s);
        lemma_settle_plain(s2);
        assert(s2.frames[0] == FrameView { next: f.next + 1, out: s2.frames[0].out, ..f });
    } else {
        assert(f.lines.take(f.next) == f.lines);
        assert(FrameView { next: f.lines.len() as int, out: joined_lines(f.lines), ..f } == f);
    }
}

/// A source with no include directive and no carriage return comes back
/// unchanged.
pub proof fn law_plain_source_unchanged(source: Seq<char>, base_dir: Option<Seq<char>>)
    requires
        forall|i: int| 0 <= i < source.len() ==> source[i] != '\r',
        forall|i: int| 0 <= i < lines_of(source).len() ==> !names_include(#[trigger] lines_of(source)[i]),
    ensures
        settle(source_start(source, base_dir)).1 == StepView::Done(Ok(source)),
{
    let s = source_start(source, base_dir);
    assert(lines_of(source).take(0) =~= Seq::<Seq<char>>::empty());
    lemma_settle_plain(s);
    lemma_lines_rejoin(source);
    if source.len() > 0 && source.last() != '\n' {
        assert(source.push('\n').drop_last() =~= source);
    }
}

/// An entry file with no include directive and no carriage return is read
/// once and comes back unchanged.
pub proof fn law_plain_entry_unchanged(path: Seq<char>, parent: Seq<char>, contents: Seq<char>)
    requires
        forall|i: int| 0 <= i < contents.len() ==> contents[i] != '\r',
        forall|i: int|
            0 <= i < lines_of(contents).len() ==> !names_include(#[trigger] lines_of(contents)[i]),
    ensures
        after_event(entry_start(), EventView::Resolved { path, parent }).1 == StepView::Need(
            RequestView::Read { path },
        ),
        after_event(
            after_event(entry_start(), EventView::Resolved { path, parent }).0,
            EventView::Read { contents },
        ).1 == StepView::Done(Ok(contents)),
{
    let s0 = entry_start();
    assert(stack_of(s0.frames) =~= Seq::<Seq<char>>::empty());
    let s1 = after_event(s0, EventView::Resolved { path, parent }).0;
    assert(s1 == ResolverView { phase: Phase::AwaitRead { path, parent }, ..s0 });
    let s2 = feed_spec(s1, EventView::Read { contents }).0;
    assert(s2.frames =~= seq![file_frame(path, parent, contents)]);
    assert(lines_of(contents).take(0) =~= Seq::<Seq<char>>::empty());
    lemma_settle_plain(s2);
    lemma_lines_rejoin(contents);
    if contents.len() > 0 && contents.last() != '\n' {
        assert(contents.push('\n').drop_last() =~= contents);
    }
}

/// The index of the first line of `ls` at or after `i` that names
/// `include`.
pub open spec fn first_include(ls: Seq<Seq<char>>, i: int) -> Option<int>
    decreases ls.len() - i,
{
    if i < 0 || i >= ls.len() {
        None
    } else if names_include(ls[i]) {
        Some(i)
    } else {
        first_include(ls, i + 1)
    }
}

/// The error a line that names `include` gives where no directory to
/// resolve against is known.
pub open spec fn no_base_error(line: Seq<char>) -> Seq<char> {
    match directive_of(line) {
        Err(e) => directive_message(e),
        Ok(_) => no_base_message(),
    }
}

proof fn lemma_settle_no_base(s: ResolverView)
    requires
        s.phase is Running,
        s.frames.len() == 1,
        s.frames[0].base_dir is None,
        s.frames[0].file is None,
        0 <= s.frames[0].next <= s.frames[0].lines.len(),
    ensures
        settle(s).1 is Done,
        (settle(s).1 matches StepView::Done(Err(_))) <==> first_include(s.frames[0].lines, s.frames[0].next) is Some,
        first_include(s.frames[0].lines, s.frames[0].next) matches Some(k) ==> settle(s).1 == StepView::Done(
            Err(located(no_base_error(s.frames[0].lines[k]), None, (k + 1) as nat)),
        ),
    decreases s.frames[0].lines.len() - s.frames[0].next,
{
    let f = s.frames[0];
    if f.next < f.lines.len() {
        let line = f.lines[f.next];
        if names_include(line) {
            assert(directive_of(line) != Ok::<Option<Seq<char>>, DirectiveError>(None));
        } else {
            let s2 = step_spec(s).0;
            lemma_step_decreases(s);
            assert(s2.frames[0] == FrameView { next: f.next + 1, out: s2.frames[0].out, ..f });
            lemma_settle_no_base(s2);
        }
    }
}

/// A source given without a directory fails exactly when one of its lines
/// names `include`, with the error of the first such line, at its line
/// number: what is wrong with the directive, or that an include needs a
/// file to resolve against.
pub proof fn law_no_base_rejects_first_include(source: Seq<char>)
    ensures
        ({
            let r = settle(source_start(source, None)).1;
            &&& r is Done
            &&& (r matches StepView::Done(Err(_))) <==> first_include(lines_of(source), 0) is Some
            &&& first_include(lines_of(source), 0) matches Some(k) ==> r == StepView::Done(
                Err(located(no_base_error(lines_of(source)[k]), None, (k + 1) as nat)),
            )
        }),
{
    lemma_settle_no_base(source_start(source, None));
}

/// An entry that names a directory stands for the `main.graphol` in it:
/// the resolver asks for that file next.
pub proof fn law_directory_entry_reads_main(path: Seq<char>)
    ensures
        after_event(entry_start(), EventView::Directory { path }) == (
            ResolverView { phase: Phase::AwaitResolve, ..entry_start() },
            StepView::Need(RequestView::Resolve { base_dir: Some(path), target: directory_entry() }),
        ),
{
}


proof fn lemma_joined_skip(ls: Seq<Seq<char>>, i: int)
    requires
        0 <= i < ls.len(),
    ensures
        joined_lines(ls.skip(i)) == ls[i].push('\n') + joined_lines(ls.skip(i + 1)),
{
    assert(ls.skip(i) =~= seq![ls[i]] + ls.skip(i + 1));
    lemma_joined_prepend(ls[i], ls.skip(i + 1));
}

proof fn lemma_joined_range(ls: Seq<Seq<char>>, i: int, k: int)
    requires
        0 <= i < k <= ls.len(),
    ensures
        joined_lines(ls.subrange(i, k)) == ls[i].push('\n') + joined_lines(ls.subrange(i + 1, k)),
{
    assert(ls.subrange(i, k) =~= seq![ls[i]] + ls.subrange(i + 1, k));
    lemma_joined_prepend(ls[i], ls.subrange(i + 1, k));
}

/// A lone frame whose remaining lines name no `include` finishes with its
/// text followed by those lines.
proof fn lemma_settle_rest_plain(s: ResolverView)
    requires
        s.phase is Running,
        s.frames.len() == 1,
        0 <= s.frames[0].next <= s.frames[0].lines.len(),
        forall|i: int|
            s.frames[0].next <= i < s.frames[0].lines.len() ==> !names_include(
                #[trigger] s.frames[0].lines[i],
            ),
    ensures
        settle(s).1 == StepView::Done(
            Ok(
                finish_text(
                    FrameView {
                        next: s.frames[0].lines.len() as int,
                        out: s.frames[0].out + joined_lines(s.frames[0].lines.skip(s.frames[0].next)),
                        ..s.frames[0]
                    },
                ),
            ),
        ),
    decreases s.frames[0].lines.len() - s.frames[0].next,
{
    let f = s.frames[0];
    if f.next < f.lines.len() {
        let line = f.lines[f.next];
        assert(!names_include(line));
        let s2 = step_spec(s).0;
        assert(s2.frames[0] == FrameView { next: f.next + 1, out: f.out + line.push('\n'), ..f });
        lemma_step_decreases(s);
        lemma_settle_rest_plain(s2);
        lemma_joined_skip(f.lines, f.next);
        assert((f.out + line.push('\n')) + joined_lines(f.lines.skip(f.next + 1)) =~= f.out + joined_lines(
            f.lines.skip(f.next),
        ));
    } else {
        assert(f.lines.skip(f.next) =~= Seq::<Seq<char>>::empty());
        assert(f.out + joined_lines(Seq::<Seq<char>>::empty()) =~= f.out);
        assert(FrameView { next: f.lines.len() as int, out: f.out, ..f } == f);
    }
}

/// A lone frame runs through its plain lines up to the include at `k` and
/// then asks for that file.
proof fn lemma_settle_to_include(s: ResolverView, k: int, t: Seq<char>, b: Seq<char>)
    requires
        s.phase is Running,
        s.frames.len() == 1,
        0 <= s.frames[0].next <= k < s.frames[0].lines.len(),
        forall|i: int| s.frames[0].next <= i < k ==> !names_include(#[trigger] s.frames[0].lines[i]),
        directive_of(s.frames[0].lines[k]) == Ok::<Option<Seq<char>>, DirectiveError>(Some(t)),
        s.frames[0].base_dir == Some(b),
    ensures
        settle(s) == (
            ResolverView {
                frames: seq![
                    FrameView {
                        next: k + 1,
                        out: s.frames[0].out + joined_lines(s.frames[0].lines.subrange(s.frames[0].next, k)),
                        ..s.frames[0]
                    },
                ],
                included: s.included,
                phase: Phase::AwaitResolve,
            },
            StepView::Need(RequestView::Resolve { base_dir: Some(b), target: t }),
        ),
    decreases k - s.frames[0].next,
{
    let f = s.frames[0];
    if f.next < k {
        let line = f.lines[f.next];
        assert(!names_include(line));
        let s2 = step_spec(s).0;
        assert(s2.frames[0] == FrameView { next: f.next + 1, out: f.out + line.push('\n'), ..f });
        lemma_step_decreases(s);
        lemma_settle_to_include(s2, k, t, b);
        lemma_joined_range(f.lines, f.next, k);
        assert((f.out + line.push('\n')) + joined_lines(f.lines.subrange(f.next + 1, k)) =~= f.out
            + joined_lines(f.lines.subrange(f.next, k)));
    } else {
        assert(f.lines.subrange(f.next, k) =~= Seq::<Seq<char>>::empty());
        assert(f.out + joined_lines(Seq::<Seq<char>>::empty()) =~= f.out);
        let s2 = step_spec(s).0;
        assert(s2.frames =~= seq![FrameView { next: k + 1, out: f.out, ..f }]);
    }
}

/// An included file whose lines name no `include`, inside a text whose
/// remaining lines name none either: the file's text goes where the
/// directive stood, and the text goes on after it.
proof fn lemma_settle_nested_plain(s: ResolverView)
    requires
        s.phase is Running,
        s.frames.len() == 2,
        0 <= s.frames[1].next <= s.frames[1].lines.len(),
        forall|i: int|
            s.frames[1].next <= i < s.frames[1].lines.len() ==> !names_include(
                #[trigger] s.frames[1].lines[i],
            ),
        0 <= s.frames[0].next <= s.frames[0].lines.len(),
        forall|i: int|
            s.frames[0].next <= i < s.frames[0].lines.len() ==> !names_include(
                #[trigger] s.frames[0].lines[i],
            ),
    ensures
        settle(s).1 == StepView::Done(
            Ok(
                finish_text(
                    FrameView {
                        next: s.frames[0].lines.len() as int,
                        out: append_expansion(
                            s.frames[0].out,
                            finish_text(
                                FrameView {
                                    next: s.frames[1].lines.len() as int,
                                    out: s.frames[1].out + joined_lines(s.frames[1].lines.skip(s.frames[1].next)),
                                    ..s.frames[1]
                                },
                            ),
                        ) + joined_lines(s.frames[0].lines.skip(s.frames[0].next)),
                        ..s.frames[0]
                    },
                ),
            ),
        ),
    decreases s.frames[1].lines.len() - s.frames[1].next,
{
    let f = s.frames[1];
    let p = s.frames[0];
    if f.next < f.lines.len() {
        let line = f.lines[f.next];
        assert(!names_include(line));
        let s2 = step_spec(s).0;
        assert(s2.frames[1] == FrameView { next: f.next + 1, out: f.out + line.push('\n'), ..f });
        assert(s2.frames[0] == p);
        lemma_step_decreases(s);
        lemma_settle_nested_plain(s2);
        lemma_joined_skip(f.lines, f.next);
        assert((f.out + line.push('\n')) + joined_lines(f.lines.skip(f.next + 1)) =~= f.out + joined_lines(
            f.lines.skip(f.next),
        ));
    } else {
        assert(f.lines.skip(f.next) =~= Seq::<Seq<char>>::empty());
        assert(f.out + joined_lines(Seq::<Seq<char>>::empty()) =~= f.out);
        assert(FrameView { next: f.lines.len() as int, out: f.out, ..f } == f);
        let s2 = step_spec(s).0;
        assert(s2.frames.len() == 1);
        assert(s2.frames[0] == FrameView { out: append_expansion(p.out, finish_text(f)), ..p });
        lemma_settle_rest_plain(s2);
    }
}

/// An include directive is replaced, in place, by the text of the file it
/// names: a source whose only include is on line `k`, expanded with a file
/// whose lines name no `include`, gives the lines before `k`, then the
/// file's text (ended with a line feed), then the lines after `k`, in the
/// order they came; the last line feed stays only when the source had one.
pub proof fn law_include_replaces_its_line(
    source: Seq<char>,
    base_dir: Seq<char>,
    k: int,
    target: Seq<char>,
    path: Seq<char>,
    parent: Seq<char>,
    contents: Seq<char>,
)
    requires
        0 <= k < lines_of(source).len(),
        directive_of(lines_of(source)[k]) == Ok::<Option<Seq<char>>, DirectiveError>(Some(target)),
        forall|i: int| 0 <= i < lines_of(source).len() && i != k ==> !names_include(#[trigger] lines_of(source)[i]),
        forall|i: int| 0 <= i < contents.len() ==> contents[i] != '\r',
        forall|i: int|
            0 <= i < lines_of(contents).len() ==> !names_include(#[trigger] lines_of(contents)[i]),
    ensures
        ({
            let (s1, r1) = settle(source_start(source, Some(base_dir)));
            let (s2, r2) = after_event(s1, EventView::Resolved { path, parent });
            let r3 = after_event(s2, EventView::Read { contents }).1;
            let ls = lines_of(source);
            let body = if contents.len() == 0 || contents.last() == '\n' {
                contents
            } else {
                contents.push('\n')
            };
            let full = joined_lines(ls.take(k)) + body + joined_lines(ls.skip(k + 1));
            let text = if (source.len() > 0 && source.last() == '\n') || full.len() == 0 || full.last()
                != '\n' {
                full
            } else {
                full.drop_last()
            };
            &&& r1 == StepView::Need(RequestView::Resolve { base_dir: Some(base_dir), target })
            &&& r2 == StepView::Need(RequestView::Read { path })
            &&& r3 == StepView::Done(Ok(text))
        }),
{
    let ls = lines_of(source);
    let s0 = source_start(source, Some(base_dir));
    lemma_settle_to_include(s0, k, target, base_dir);
    let (s1, r1) = settle(s0);
    let f1 = s1.frames[0];
    assert(ls.subrange(0, k) =~= ls.take(k));
    assert(Seq::<char>::empty() + joined_lines(ls.take(k)) =~= joined_lines(ls.take(k)));
    assert(f1.out == joined_lines(ls.take(k)));
    assert(f1.file is None);
    assert(s1.frames.drop_last() =~= Seq::<FrameView>::empty());
    assert(s1.frames.len() == 1 && s1.frames.last().file is None);
    assert(stack_of(Seq::<FrameView>::empty()) =~= Seq::<Seq<char>>::empty());
    assert(stack_of(s1.frames) == stack_of(s1.frames.drop_last()));
    assert(stack_of(s1.frames) =~= Seq::<Seq<char>>::empty());
    let (s2, r2) = after_event(s1, EventView::Resolved { path, parent });
    assert(s2 == ResolverView { phase: Phase::AwaitRead { path, parent }, ..s1 });
    let s3 = feed_spec(s2, EventView::Read { contents }).0;
    let top = file_frame(path, parent, contents);
    assert(s3.frames =~= seq![f1, top]);
    assert(lines_of(contents).skip(0) =~= lines_of(contents));
    lemma_settle_nested_plain(s3);
    lemma_lines_rejoin(contents);
    let body = if contents.len() == 0 || contents.last() == '\n' {
        contents
    } else {
        contents.push('\n')
    };
    assert(Seq::<char>::empty() + joined_lines(lines_of(contents)) =~= body);
    let ft = finish_text(FrameView { next: lines_of(contents).len() as int, out: body, ..top });
    if contents.len() > 0 && contents.last() != '\n' {
        assert(body.drop_last() =~= contents);
    }
    assert(ft == contents);
    assert(append_expansion(f1.out, ft) == joined_lines(ls.take(k)) + body);
}

} // verus!

//! The lexical rules of `include "path"` lines.
use vstd::prelude::*;
use crate::text::{is_whitespace, is_ws, lemma_skip_ws, skip_whitespace, skip_ws, trim, trim_chars};

verus! {

/// Characters that end a name without being part of it.
pub open spec fn is_terminator(c: char) -> bool {
    c == '+' || c == '-' || c == '*' || c == '/' || c == '^' || c == ')' || c == '(' || c == '{'
        || c == '}'
}

/// The reserved word `include`.
pub open spec fn include_word() -> Seq<char> {
    seq!['i', 'n', 'c', 'l', 'u', 'd', 'e']
}

/// Whether `c` ends a name.
pub fn is_name_terminator(c: char) -> (b: bool)
    ensures
        b == is_terminator(c),
{
    c == '+' || c == '-' || c == '*' || c == '/' || c == '^' || c == ')' || c == '(' || c == '{'
        || c == '}'
}

/// The index just past the closing quote of a string literal whose body
/// starts at `i` (`escaped` tells whether the previous character was an
/// unused backslash), or the length of `s` when the literal is not closed.
pub open spec fn skip_literal(s: Seq<char>, i: int, escaped: bool) -> int
    decreases s.len() - i,
{
    if i >= s.len() || i < 0 {
        s.len() as int
    } else if escaped {
        skip_literal(s, i + 1, false)
    } else if s[i] == '\\' {
        skip_literal(s, i + 1, true)
    } else if s[i] == '"' {
        i + 1
    } else {
        skip_literal(s, i + 1, false)
    }
}

/// The end, exclusive, of the name that starts at `i`.
pub open spec fn name_end(s: Seq<char>, i: int) -> int
    decreases s.len() - i,
{
    if i >= s.len() || i < 0 {
        s.len() as int
    } else if is_terminator(s[i]) || is_ws(s[i]) || s[i] == '"' {
        i
    } else {
        name_end(s, i + 1)
    }
}

/// A string literal's end lies between its start and the end of the line.
pub proof fn lemma_skip_literal(s: Seq<char>, i: int, escaped: bool)
    requires
        0 <= i <= s.len(),
    ensures
        i <= skip_literal(s, i, escaped) <= s.len(),
    decreases s.len() - i,
{
    if i < s.len() {
        if escaped {
            lemma_skip_literal(s, i + 1, false);
        } else if s[i] == '\\' {
            lemma_skip_literal(s, i + 1, true);
        } else if s[i] != '"' {
            lemma_skip_literal(s, i + 1, false);
        }
    }
}

/// A name's end lies between its start and the end of the line.
pub proof fn lemma_name_end(s: Seq<char>, i: int)
    requires
        0 <= i <= s.len(),
    ensures
        i <= name_end(s, i) <= s.len(),
    decreases s.len() - i,
{
    if i < s.len() && !(is_terminator(s[i]) || is_ws(s[i]) || s[i] == '"') {
        lemma_name_end(s, i + 1);
    }
}

/// Whether the word `include` stands as a name in `s` at or after `i`,
/// outside string literals.
pub open spec fn names_include_from(s: Seq<char>, i: int) -> bool
    decreases s.len() - i,
{
    if i >= s.len() || i < 0 {
        false
    } else if s[i] == '"' {
        proof {
            lemma_skip_literal(s, i + 1, false);
        }
        names_include_from(s, skip_literal(s, i + 1, false))
    } else if is_terminator(s[i]) || is_ws(s[i]) {
        names_include_from(s, i + 1)
    } else {
        proof {
            lemma_name_end(s, i + 1);
        }
        let e = name_end(s, i + 1);
        s.subrange(i, e) == include_word() || names_include_from(s, e)
    }
}

/// Whether `line` uses the reserved word `include` as a name.
pub open spec fn names_include(line: Seq<char>) -> bool {
    names_include_from(line, 0)
}

/// Whether `line` uses the reserved word `include` as a name, outside
/// string literals.
pub fn contains_include_keyword(line: &Vec<char>) -> (b: bool)
    ensures
        b == names_include(line@),
{
    let n = line.len();
    let mut i: usize = 0;
    while i < n
        invariant
            n == line@.len(),
            i <= n,
            names_include_from(line@, i as int) == names_include(line@),
        decreases n - i,
    {
        let current = line[i];
        if current == '"' {
            let ghost before = i;
            i += 1;
            let mut escaped = false;
            let mut closed = false;
            proof {
                lemma_skip_literal(line@, i as int, false);
            }
            while !closed && i < n
                invariant
                    n == line@.len(),
                    before < i <= n,
                    !closed ==> skip_literal(line@, i as int, escaped) <= n,
                    !closed ==> names_include_from(line@, skip_literal(line@, i as int, escaped))
                        == names_include(line@),
                    closed ==> names_include_from(line@, i as int) == names_include(line@),
                decreases n - i,
            {
                let ch = line[i];
                if escaped {
                    escaped = false;
                } else if ch == '\\' {
                    escaped = true;
                } else if ch == '"' {
                    closed = true;
                }
                i += 1;
            }
            continue;
        }
        if is_name_terminator(current) || is_whitespace(current) {
            i += 1;
            continue;
        }
        let start = i;
        proof {
            lemma_name_end(line@, i + 1);
        }
        i += 1;
        while i < n && !is_name_terminator(line[i]) && !is_whitespace(line[i]) && line[i] != '"'
            invariant
                n == line@.len(),
                start < i <= n,
                name_end(line@, i as int) == name_end(line@, start + 1),
            decreases n - i,
        {
            i += 1;
        }
        if i - start == 7 && line[start] == 'i' && line[start + 1] == 'n' && line[start + 2] == 'c'
            && line[start + 3] == 'l' && line[start + 4] == 'u' && line[start + 5] == 'd'
            && line[start + 6] == 'e' {
            assert(line@.subrange(start as int, i as int) == include_word());
            return true;
        }
        assert(line@.subrange(start as int, i as int) != include_word()) by {
            let w = line@.subrange(start as int, i as int);
            if w == include_word() {
                assert(w.len() == 7);
                assert(w[0] == line@[start as int]);
                assert(w[1] == line@[start + 1]);
                assert(w[2] == line@[start + 2]);
                assert(w[3] == line@[start + 3]);
                assert(w[4] == line@[start + 4]);
                assert(w[5] == line@[start + 5]);
                assert(w[6] == line@[start + 6]);
            }
        }
    }
    false
}


/// Why a line that names `include` is not a well-formed directive.
#[derive(Debug, Clone, Copy, PartialEq, Eq, Structural)]
pub enum DirectiveError {
    /// `include` stands elsewhere than at the start of the line.
    ReservedKeyword,
    /// The directive is not `include "path"`.
    Malformed,
    /// The path's string literal has no closing quote.
    Unclosed,
}

/// The body of a string literal that starts at `i` (backslash escapes the
/// next character), the index after it, and whether a closing quote ended
/// it.
pub open spec fn literal_body(s: Seq<char>, i: int, escaped: bool) -> (Seq<char>, int, bool)
    decreases s.len() - i,
{
    if i >= s.len() || i < 0 {
        (Seq::empty(), s.len() as int, false)
    } else if escaped {
        let (b, e, c) = literal_body(s, i + 1, false);
        (seq![s[i]] + b, e, c)
    } else if s[i] == '\\' {
        literal_body(s, i + 1, true)
    } else if s[i] == '"' {
        (Seq::empty(), i + 1, true)
    } else {
        let (b, e, c) = literal_body(s, i + 1, false);
        (seq![s[i]] + b, e, c)
    }
}

/// A literal body ends inside the line, at its end when it is not closed.
pub proof fn lemma_literal_body(s: Seq<char>, i: int, escaped: bool)
    requires
        0 <= i <= s.len(),
    ensures
        i <= literal_body(s, i, escaped).1 <= s.len(),
        !literal_body(s, i, escaped).2 ==> literal_body(s, i, escaped).1 == s.len(),
    decreases s.len() - i,
{
    if i < s.len() {
        if escaped || s[i] != '"' {
            if escaped || s[i] != '\\' {
                lemma_literal_body(s, i + 1, false);
            } else {
                lemma_literal_body(s, i + 1, true);
            }
        }
    }
}

/// What a source line is: `Ok(None)` for an ordinary line, `Ok(Some(path))`
/// for `include "path"`, or the reason it misuses `include`.
pub open spec fn directive_of(line: Seq<char>) -> Result<Option<Seq<char>>, DirectiveError> {
    if !names_include(line) {
        Ok(None)
    } else {
        let t = trim(line);
        if !(t.len() >= 7 && t.take(7) == include_word()) {
            Err(DirectiveError::ReservedKeyword)
        } else {
            let r = t.skip(7);
            if r.len() > 0 && !is_ws(r[0]) {
                Err(DirectiveError::ReservedKeyword)
            } else {
                let p = skip_ws(r, 0);
                if p >= r.len() || r[p] != '"' {
                    Err(DirectiveError::Malformed)
                } else {
                    let (body, e, closed) = literal_body(r, p + 1, false);
                    if !closed {
                        Err(DirectiveError::Unclosed)
                    } else if skip_ws(r, e) < r.len() {
                        Err(DirectiveError::Malformed)
                    } else {
                        Ok(Some(body))
                    }
                }
            }
        }
    }
}

/// A line is an ordinary line exactly when it does not name `include`:
/// a line that names it is a directive or an error.
pub proof fn law_directive_needs_keyword(line: Seq<char>)
    ensures
        (directive_of(line) == Ok::<Option<Seq<char>>, DirectiveError>(None)) <==> !names_include(line),
{
}

/// Reads `line` as an include directive: `Ok(None)` when the line does not
/// name `include`, `Ok(Some(path))` for `include "path"`, else the error.
pub fn parse_include_directive(line: &Vec<char>) -> (r: Result<Option<Vec<char>>, DirectiveError>)
    ensures
        match r {
            Ok(None) => directive_of(line@) == Ok::<Option<Seq<char>>, DirectiveError>(None),
            Ok(Some(p)) => directive_of(line@) == Ok::<Option<Seq<char>>, DirectiveError>(Some(p@)),
            Err(e) => directive_of(line@) == Err::<Option<Seq<char>>, DirectiveError>(e),
        },
{
    if !contains_include_keyword(line) {
        return Ok(None);
    }
    let t = trim_chars(line);
    if !(t.len() >= 7 && t[0] == 'i' && t[1] == 'n' && t[2] == 'c' && t[3] == 'l' && t[4] == 'u'
        && t[5] == 'd' && t[6] == 'e') {
        assert(!(t@.len() >= 7 && t@.take(7) == include_word())) by {
            if t@.len() >= 7 && t@.take(7) == include_word() {
                assert(t@.take(7)[0] == t@[0] && t@.take(7)[1] == t@[1] && t@.take(7)[2] == t@[2]);
                assert(t@.take(7)[3] == t@[3] && t@.take(7)[4] == t@[4] && t@.take(7)[5] == t@[5]);
                assert(t@.take(7)[6] == t@[6]);
            }
        }
        return Err(DirectiveError::ReservedKeyword);
    }
    assert(t@.take(7) == include_word());
    let mut r: Vec<char> = Vec::new();
    let mut k: usize = 7;
    while k < t.len()
        invariant
            7 <= k <= t.len(),
            r@ == t@.subrange(7, k as int),
        decreases t.len() - k,
    {
        r.push(t[k]);
        k += 1;
        assert(r@ == t@.subrange(7, k as int));
    }
    assert(r@ == t@.skip(7));
    if r.len() > 0 && !is_whitespace(r[0]) {
        return Err(DirectiveError::ReservedKeyword);
    }
    let p = skip_whitespace(&r, 0);
    if p >= r.len() || r[p] != '"' {
        return Err(DirectiveError::Malformed);
    }
    let mut target: Vec<char> = Vec::new();
    let mut escaped = false;
    let mut closed = false;
    let mut i = p + 1;
    proof {
        lemma_literal_body(r@, i as int, false);
    }
    while !closed && i < r.len()
        invariant
            p < i <= r.len(),
            !closed ==> ({
                let (b, e, c) = literal_body(r@, i as int, escaped);
                literal_body(r@, p + 1, false) == (target@ + b, e, c)
            }),
            closed ==> literal_body(r@, p + 1, false) == (target@, i as int, true),
        decreases r.len() - i,
    {
        let ch = r[i];
        if escaped {
            target.push(ch);
            escaped = false;
        } else if ch == '\\' {
            escaped = true;
        } else if ch == '"' {
            closed = true;
        } else {
            target.push(ch);
        }
        i += 1;
    }
    if !closed {
        return Err(DirectiveError::Unclosed);
    }
    let q = skip_whitespace(&r, i);
    if q < r.len() {
        return Err(DirectiveError::Malformed);
    }
    Ok(Some(target))
}

} // verus!

//! Character-level helpers shared by the include resolver, the code
//! generator and the argument rules.
use vstd::prelude::*;

verus! {

/// `String::push` of std: its documentation says it appends the character
/// to the end of the string, so the string's characters gain `ch` last.
pub assume_specification[ String::push ](s: &mut String, ch: char)
    ensures
        final(s)@ == old(s)@.push(ch),
;

/// The characters of `s`, in order.
pub fn chars_of(s: &str) -> (v: Vec<char>)
    ensures
        v@ == s@,
{
    let mut v: Vec<char> = Vec::new();
    for c in it: s.chars()
        invariant
            v@ == it.seq().take(it.index() as int),
            it.seq() == s@,
    {
        v.push(c);
    }
    v
}

/// A `String` holding exactly the characters of `v`.
pub fn string_of(v: &Vec<char>) -> (s: String)
    ensures
        s@ == v@,
{
    let mut s = String::new();
    let mut i: usize = 0;
    while i < v.len()
        invariant
            i <= v.len(),
            s@ == v@.take(i as int),
        decreases v.len() - i,
    {
        s.push(v[i]);
        i += 1;
        assert(s@ == v@.take(i as int));
    }
    assert(v@.take(v.len() as int) == v@);
    s
}


/// Unicode `White_Space`, the property that `char::is_whitespace` tests.
pub open spec fn is_ws(c: char) -> bool {
    ||| ('\u{9}' <= c && c <= '\u{d}')
    ||| c == ' '
    ||| c == '\u{85}'
    ||| c == '\u{a0}'
    ||| c == '\u{1680}'
    ||| ('\u{2000}' <= c && c <= '\u{200a}')
    ||| c == '\u{2028}'
    ||| c == '\u{2029}'
    ||| c == '\u{202f}'
    ||| c == '\u{205f}'
    ||| c == '\u{3000}'
}

/// Whether `c` is white space in the sense of `char::is_whitespace`.
pub fn is_whitespace(c: char) -> (b: bool)
    ensures
        b == is_ws(c),
{
    ('\u{9}' <= c && c <= '\u{d}') || c == ' ' || c == '\u{85}' || c == '\u{a0}' || c
        == '\u{1680}' || ('\u{2000}' <= c && c <= '\u{200a}') || c == '\u{2028}' || c
        == '\u{2029}' || c == '\u{202f}' || c == '\u{205f}' || c == '\u{3000}'
}

/// The first index at or after `i` whose character is not white space, or
/// the length when there is none.
pub open spec fn skip_ws(s: Seq<char>, i: int) -> int
    decreases s.len() - i,
{
    if i >= s.len() || i < 0 {
        if i < 0 { 0 } else { s.len() as int }
    } else if is_ws(s[i]) {
        skip_ws(s, i + 1)
    } else {
        i
    }
}

/// The end, exclusive, of `s` once white space at its end is removed.
pub open spec fn trim_end_at(s: Seq<char>, j: int) -> int
    decreases j,
{
    if j <= 0 {
        0
    } else if is_ws(s[j - 1]) {
        trim_end_at(s, j - 1)
    } else {
        j
    }
}

/// `s` without leading and trailing white space, as `str::trim` gives it.
pub open spec fn trim(s: Seq<char>) -> Seq<char> {
    let start = skip_ws(s, 0);
    if start >= s.len() {
        Seq::empty()
    } else {
        s.subrange(start, trim_end_at(s, s.len() as int))
    }
}

/// Skipping whitespace stops inside the text, on no whitespace.
pub proof fn lemma_skip_ws(s: Seq<char>, i: int)
    requires
        0 <= i <= s.len(),
    ensures
        i <= skip_ws(s, i) <= s.len(),
        forall|k: int| i <= k < skip_ws(s, i) ==> is_ws(#[trigger] s[k]),
        skip_ws(s, i) < s.len() ==> !is_ws(s[skip_ws(s, i)]),
    decreases s.len() - i,
{
    if i < s.len() && is_ws(s[i]) {
        lemma_skip_ws(s, i + 1);
    }
}

/// The end of a trimmed text lies inside it.
pub proof fn lemma_trim_end_at(s: Seq<char>, j: int)
    requires
        0 <= j <= s.len(),
    ensures
        0 <= trim_end_at(s, j) <= j,
        forall|k: int| trim_end_at(s, j) <= k < j ==> is_ws(#[trigger] s[k]),
        trim_end_at(s, j) > 0 ==> !is_ws(s[trim_end_at(s, j) - 1]),
    decreases j,
{
    if j > 0 && is_ws(s[j - 1]) {
        lemma_trim_end_at(s, j - 1);
    }
}

/// The index of the first non-white-space character at or after `i`.
pub fn skip_whitespace(s: &Vec<char>, i: usize) -> (r: usize)
    requires
        i <= s.len(),
    ensures
        r == skip_ws(s@, i as int),
        i <= r <= s.len(),
{
    let mut j = i;
    proof {
        lemma_skip_ws(s@, i as int);
    }
    while j < s.len() && is_whitespace(s[j])
        invariant
            i <= j <= s.len(),
            skip_ws(s@, j as int) == skip_ws(s@, i as int),
        decreases s.len() - j,
    {
        j += 1;
    }
    j
}

/// `s` with white space removed at both ends, as `str::trim` does.
pub fn trim_chars(s: &Vec<char>) -> (r: Vec<char>)
    ensures
        r@ == trim(s@),
{
    let start = skip_whitespace(s, 0);
    if start >= s.len() {
        return Vec::new();
    }
    let mut end = s.len();
    while end > 0 && is_whitespace(s[end - 1])
        invariant
            end <= s.len(),
            trim_end_at(s@, end as int) == trim_end_at(s@, s.len() as int),
        decreases end,
    {
        end -= 1;
    }
    proof {
        lemma_skip_ws(s@, 0);
        lemma_trim_end_at(s@, s.len() as int);
    }
    let mut r: Vec<char> = Vec::new();
    let mut k = start;
    while k < end
        invariant
            start <= k <= end <= s.len(),
            r@ == s@.subrange(start as int, k as int),
        decreases end - k,
    {
        r.push(s[k]);
        k += 1;
        assert(r@ == s@.subrange(start as int, k as int));
    }
    r
}

/// `line` with one trailing carriage return removed, if it has one.
pub open spec fn strip_cr(line: Seq<char>) -> Seq<char> {
    if line.len() > 0 && line.last() == '\r' {
        line.drop_last()
    } else {
        line
    }
}

/// The index of the first line feed in `s`, or `None`.
pub open spec fn first_newline(s: Seq<char>) -> Option<int> {
    if exists|i: int| 0 <= i < s.len() && s[i] == '\n' {
        Some(choose|i: int| 0 <= i < s.len() && s[i] == '\n' && forall|k: int| 0 <= k < i ==> s[k] != '\n')
    } else {
        None
    }
}

/// The lines of `s` as `str::lines` yields them: split after each line
/// feed, the line feed and a carriage return right before it removed, and
/// no empty line after a final line feed.
#[verifier::opaque]
pub open spec fn lines_of(s: Seq<char>) -> Seq<Seq<char>>
    decreases s.len(),
{
    if s.len() == 0 {
        Seq::empty()
    } else {
        match first_newline(s) {
            None => seq![s],
            Some(i) => if 0 <= i < s.len() {
                seq![strip_cr(s.subrange(0, i))] + lines_of(s.subrange(i + 1, s.len() as int))
            } else {
                Seq::empty()
            },
        }
    }
}

/// The first line feed, when there is one, has none before it.
pub proof fn lemma_first_newline(s: Seq<char>)
    ensures
        match first_newline(s) {
            None => forall|k: int| 0 <= k < s.len() ==> s[k] != '\n',
            Some(i) => 0 <= i < s.len() && s[i] == '\n' && forall|k: int| 0 <= k < i ==> s[k] != '\n',
        },
{
    if exists|i: int| 0 <= i < s.len() && s[i] == '\n' {
        let w = choose|i: int| 0 <= i < s.len() && s[i] == '\n';
        lemma_least_newline(s, w);
    }
}

proof fn lemma_least_newline(s: Seq<char>, w: int)
    requires
        0 <= w < s.len(),
        s[w] == '\n',
    ensures
        exists|i: int| 0 <= i < s.len() && s[i] == '\n' && forall|k: int| 0 <= k < i ==> s[k] != '\n',
    decreases w,
{
    if exists|k: int| 0 <= k < w && s[k] == '\n' {
        let k = choose|k: int| 0 <= k < w && s[k] == '\n';
        lemma_least_newline(s, k);
    } else {
        assert(forall|k: int| 0 <= k < w ==> s[k] != '\n');
    }
}

/// A text splits into its first line and the lines after the first line feed.
pub proof fn lemma_lines_split(t: Seq<char>, k: int)
    requires
        0 <= k < t.len(),
        t[k] == '\n',
        forall|j: int| 0 <= j < k ==> t[j] != '\n',
    ensures
        lines_of(t) == seq![strip_cr(t.subrange(0, k))] + lines_of(t.subrange(k + 1, t.len() as int)),
{
    reveal(lines_of);
    lemma_first_newline(t);
    match first_newline(t) {
        Some(m) => {
            if m < k {
                assert(t[m] != '\n');
            }
            if m > k {
                assert(t[k] != '\n');
            }
        },
        None => {
            assert(t[k] != '\n');
        },
    }
}

/// A text without line feed is one line.
pub proof fn lemma_lines_last(t: Seq<char>)
    requires
        t.len() > 0,
        forall|j: int| 0 <= j < t.len() ==> t[j] != '\n',
    ensures
        lines_of(t) == seq![t],
{
    reveal(lines_of);
    lemma_first_newline(t);
    match first_newline(t) {
        Some(m) => {
            assert(t[m] != '\n');
        },
        None => {},
    }
}

/// An empty text has no lines.
pub proof fn lemma_lines_empty()
    ensures
        lines_of(Seq::<char>::empty()) == Seq::<Seq<char>>::empty(),
{
    reveal(lines_of);
}

/// The lines of `s`, as `str::lines` splits them.
pub fn split_lines(s: &Vec<char>) -> (r: Vec<Vec<char>>)
    ensures
        r@.len() == lines_of(s@).len(),
        forall|i: int| 0 <= i < r@.len() ==> #[trigger] r@[i]@ == lines_of(s@)[i],
{
    let mut r: Vec<Vec<char>> = Vec::new();
    let ghost mut acc: Seq<Seq<char>> = Seq::empty();
    let mut start: usize = 0;
    let mut cur: Vec<char> = Vec::new();
    let mut i: usize = 0;
    assert(s@.subrange(0, s@.len() as int) == s@);
    while i < s.len()
        invariant
            start <= i <= s.len(),
            cur@ == s@.subrange(start as int, i as int),
            forall|k: int| start <= k < i ==> s@[k] != '\n',
            acc + lines_of(s@.subrange(start as int, s.len() as int)) == lines_of(s@),
            r@.len() == acc.len(),
            forall|j: int| 0 <= j < r@.len() ==> #[trigger] r@[j]@ == acc[j],
        decreases s.len() - i,
    {
        if s[i] == '\n' {
            let ghost rest = s@.subrange(start as int, s.len() as int);
            proof {
                lemma_lines_split(rest, i - start);
                assert(rest.subrange(0, i - start) == cur@);
                assert(rest.subrange(i - start + 1, rest.len() as int) == s@.subrange(i + 1, s.len() as int));
            }
            let mut line = cur;
            if line.len() > 0 && line[line.len() - 1] == '\r' {
                line.pop();
            }
            assert(line@ == strip_cr(s@.subrange(start as int, i as int)));
            proof {
                acc = acc.push(line@);
                assert(acc + lines_of(s@.subrange(i + 1, s.len() as int)) == lines_of(s@));
            }
            r.push(line);
            cur = Vec::new();
            start = i + 1;
        } else {
            cur.push(s[i]);
        }
        i += 1;
        assert(cur@ == s@.subrange(start as int, i as int));
    }
    if start < s.len() {
        let ghost rest = s@.subrange(start as int, s.len() as int);
        proof {
            lemma_lines_last(rest);
            assert(rest == cur@);
            acc = acc.push(cur@);
        }
        r.push(cur);
        assert(acc == lines_of(s@));
    } else {
        assert(s@.subrange(start as int, s.len() as int).len() == 0);
        proof {
            reveal(lines_of);
        }
        assert(acc == lines_of(s@));
    }
    r
}

/// The decimal digits of `n`.
pub open spec fn decimal(n: nat) -> Seq<char>
    decreases n,
{
    if n < 10 {
        seq![digit_char((n % 10) as nat)]
    } else {
        decimal(n / 10).push(digit_char((n % 10) as nat))
    }
}

pub open spec fn digit_char(d: nat) -> char {
    if d == 0 { '0' } else if d == 1 { '1' } else if d == 2 { '2' } else if d == 3 { '3' }
    else if d == 4 { '4' } else if d == 5 { '5' } else if d == 6 { '6' } else if d == 7 { '7' }
    else if d == 8 { '8' } else { '9' }
}

fn digit(d: usize) -> (c: char)
    requires
        d < 10,
    ensures
        c == digit_char(d as nat),
{
    if d == 0 { '0' } else if d == 1 { '1' } else if d == 2 { '2' } else if d == 3 { '3' }
    else if d == 4 { '4' } else if d == 5 { '5' } else if d == 6 { '6' } else if d == 7 { '7' }
    else if d == 8 { '8' } else { '9' }
}

/// The decimal writing of `n`, as `usize`'s `Display` gives it.
pub fn decimal_chars(n: usize) -> (r: Vec<char>)
    ensures
        r@ == decimal(n as nat),
    decreases n,
{
    if n < 10 {
        let mut r = Vec::new();
        r.push(digit(n));
        r
    } else {
        let mut r = decimal_chars(n / 10);
        r.push(digit(n % 10));
        r
    }
}

/// Appends the characters of `s` to `out`.
pub fn push_all(out: &mut Vec<char>, s: &Vec<char>)
    ensures
        final(out)@ == old(out)@ + s@,
{
    let mut i: usize = 0;
    while i < s.len()
        invariant
            i <= s.len(),
            out@ == old(out)@ + s@.take(i as int),
        decreases s.len() - i,
    {
        out.push(s[i]);
        i += 1;
        assert(out@ == old(out)@ + s@.take(i as int));
    }
    assert(s@.take(s.len() as int) == s@);
}

/// Appends the characters of `s` to `out`.
pub fn push_str(out: &mut Vec<char>, s: &str)
    ensures
        final(out)@ == old(out)@ + s@,
{
    let v = chars_of(s);
    push_all(out, &v);
}


/// Whether `a` holds exactly the characters of `b`.
pub fn eq_str(a: &Vec<char>, b: &str) -> (r: bool)
    ensures
        r == (a@ == b@),
{
    let bv = chars_of(b);
    if a.len() != bv.len() {
        return false;
    }
    let mut i: usize = 0;
    while i < a.len()
        invariant
            a.len() == bv.len(),
            bv@ == b@,
            i <= a.len(),
            forall|k: int| 0 <= k < i ==> a@[k] == bv@[k],
        decreases a.len() - i,
    {
        if a[i] != bv[i] {
            return false;
        }
        i += 1;
    }
    assert(a@ == bv@);
    true
}

} // verus!

//! Number literals: the words that read as numbers.
use vstd::prelude::*;
use crate::runtime::object::{all_zeros, digits_value};

verus! {

pub open spec fn is_digit(c: char) -> bool {
    '0' <= c && c <= '9'
}

pub open spec fn all_digits(s: Seq<char>) -> bool {
    forall|i: int| 0 <= i < s.len() ==> is_digit(#[trigger] s[i])
}

pub open spec fn lower(c: char) -> char {
    if 'A' <= c && c <= 'Z' {
        ((c as u8) + 32) as char
    } else {
        c
    }
}

/// Whether `s` is the lower-case word `w` in any mix of cases.
pub open spec fn same_word(s: Seq<char>, w: Seq<char>) -> bool {
    s.len() == w.len() && forall|i: int| 0 <= i < s.len() ==> lower(#[trigger] s[i]) == w[i]
}

/// The index of the first `e` or `E` in `s` at or after `i`, or the length.
pub open spec fn exponent_at(s: Seq<char>, i: int) -> int
    decreases s.len() - i,
{
    if i >= s.len() || i < 0 {
        s.len() as int
    } else if s[i] == 'e' || s[i] == 'E' {
        i
    } else {
        exponent_at(s, i + 1)
    }
}

/// The index of the first `.` in `s` at or after `i`, or the length.
pub open spec fn point_at(s: Seq<char>, i: int) -> int
    decreases s.len() - i,
{
    if i >= s.len() || i < 0 {
        s.len() as int
    } else if s[i] == '.' {
        i
    } else {
        point_at(s, i + 1)
    }
}

/// `Digit+ | Digit+ '.' Digit* | Digit* '.' Digit+`
pub open spec fn is_mantissa(m: Seq<char>) -> bool {
    let d = point_at(m, 0);
    if d >= m.len() {
        m.len() > 0 && all_digits(m)
    } else {
        all_digits(m.subrange(0, d)) && all_digits(m.subrange(d + 1, m.len() as int)) && m.len() > 1
    }
}

/// `[eE] Sign? Digit+`
pub open spec fn is_exponent(x: Seq<char>) -> bool {
    x.len() >= 2 && (x[0] == 'e' || x[0] == 'E') && {
        let digits = if x[1] == '+' || x[1] == '-' { x.skip(2) } else { x.skip(1) };
        digits.len() > 0 && all_digits(digits)
    }
}

/// The grammar that `f64`'s `FromStr` accepts:
/// `Sign? ( 'inf' | 'infinity' | 'nan' | Mantissa Exponent? )`, the words
/// in any case.
pub open spec fn is_number_literal(s: Seq<char>) -> bool {
    let body = if s.len() > 0 && (s[0] == '+' || s[0] == '-') { s.skip(1) } else { s };
    ||| same_word(body, seq!['i', 'n', 'f'])
    ||| same_word(body, seq!['i', 'n', 'f', 'i', 'n', 'i', 't', 'y'])
    ||| same_word(body, seq!['n', 'a', 'n'])
    ||| {
        let e = exponent_at(body, 0);
        is_mantissa(body.subrange(0, e)) && (e == body.len() || is_exponent(body.skip(e)))
    }
}

fn lower_char(c: char) -> (r: char)
    ensures
        r == lower(c),
{
    if 'A' <= c && c <= 'Z' {
        ((c as u8) + 32) as char
    } else {
        c
    }
}

fn word_is(s: &Vec<char>, start: usize, w: &str) -> (r: bool)
    requires
        start <= s.len(),
    ensures
        r == same_word(s@.skip(start as int), w@),
{
    let wv = crate::text::chars_of(w);
    if s.len() - start != wv.len() {
        return false;
    }
    let mut i: usize = 0;
    while i < wv.len()
        invariant
            s.len() - start == wv.len(),
            wv@ == w@,
            i <= wv.len(),
            forall|k: int| 0 <= k < i ==> lower(s@.skip(start as int)[k]) == w@[k],
        decreases wv.len() - i,
    {
        if lower_char(s[start + i]) != wv[i] {
            assert(lower(s@.skip(start as int)[i as int]) != w@[i as int]);
            return false;
        }
        i += 1;
    }
    true
}

fn digits_between(s: &Vec<char>, from: usize, to: usize) -> (r: bool)
    requires
        from <= to <= s.len(),
    ensures
        r == all_digits(s@.subrange(from as int, to as int)),
{
    let mut i = from;
    while i < to
        invariant
            from <= i <= to <= s.len(),
            forall|k: int| from <= k < i ==> is_digit(s@[k]),
        decreases to - i,
    {
        if !('0' <= s[i] && s[i] <= '9') {
            assert(!is_digit(s@.subrange(from as int, to as int)[i - from]));
            return false;
        }
        i += 1;
    }
    assert forall|k: int| 0 <= k < to - from implies is_digit(
        #[trigger] s@.subrange(from as int, to as int)[k],
    ) by {
        assert(s@.subrange(from as int, to as int)[k] == s@[from + k]);
    }
    true
}

/// Whether `s` reads as a number (`f64`'s `FromStr` accepts it).
#[verifier::rlimit(40)]
pub fn is_number_word(s: &Vec<char>) -> (r: bool)
    ensures
        r == is_number_literal(s@),
{
    let start: usize = if s.len() > 0 && (s[0] == '+' || s[0] == '-') { 1 } else { 0 };
    let ghost body = if s@.len() > 0 && (s@[0] == '+' || s@[0] == '-') { s@.skip(1) } else { s@ };
    assert(body == s@.skip(start as int));
    if word_is(s, start, "inf") || word_is(s, start, "infinity") || word_is(s, start, "nan") {
        proof {
            reveal_strlit("inf");
            reveal_strlit("infinity");
            reveal_strlit("nan");
            assert("inf"@ =~= seq!['i', 'n', 'f']);
            assert("infinity"@ =~= seq!['i', 'n', 'f', 'i', 'n', 'i', 't', 'y']);
            assert("nan"@ =~= seq!['n', 'a', 'n']);
        }
        return true;
    }
    proof {
        reveal_strlit("inf");
        reveal_strlit("infinity");
        reveal_strlit("nan");
        assert("inf"@ =~= seq!['i', 'n', 'f']);
        assert("infinity"@ =~= seq!['i', 'n', 'f', 'i', 'n', 'i', 't', 'y']);
        assert("nan"@ =~= seq!['n', 'a', 'n']);
    }
    let mut e = start;
    while e < s.len() && s[e] != 'e' && s[e] != 'E'
        invariant
            start <= e <= s.len(),
            body == s@.skip(start as int),
            exponent_at(body, e - start) == exponent_at(body, 0),
        decreases s.len() - e,
    {
        e += 1;
    }
    assert(exponent_at(body, e - start) == e - start);
    let mut d = start;
    while d < e && s[d] != '.'
        invariant
            start <= d <= e,
            e <= s.len(),
            body == s@.skip(start as int),
            point_at(body.subrange(0, e - start), d - start) == point_at(
                body.subrange(0, e - start),
                0,
            ),
        decreases e - d,
    {
        d += 1;
    }
    let ghost m = body.subrange(0, e - start);
    assert(point_at(m, d - start) == d - start);
    let mantissa_ok = if d >= e {
        assert(m == s@.subrange(start as int, e as int));
        e > start && digits_between(s, start, e)
    } else {
        assert(m.subrange(0, d - start) == s@.subrange(start as int, d as int));
        assert(m.subrange(d - start + 1, m.len() as int) == s@.subrange(d + 1, e as int));
        digits_between(s, start, d) && digits_between(s, d + 1, e) && e - start > 1
    };
    if !mantissa_ok {
        return false;
    }
    if e == s.len() {
        return true;
    }
    let ghost x = body.skip(e - start);
    assert(x == s@.skip(e as int));
    if s.len() - e < 2 {
        return false;
    }
    let first = if s[e + 1] == '+' || s[e + 1] == '-' { e + 2 } else { e + 1 };
    assert(x.skip(first - e) == s@.subrange(first as int, s.len() as int));
    first < s.len() && digits_between(s, first, s.len())
}

// ---------------------------------------------------------------------------
// The whole number a literal stands for

/// `n`, held at `usize::MAX` when larger.
pub open spec fn sat(n: nat) -> nat {
    if n > usize::MAX {
        usize::MAX as nat
    } else {
        n
    }
}

/// `n` zero digits.
pub open spec fn zeros(n: nat) -> Seq<char> {
    Seq::new(n, |i: int| '0')
}

/// A literal without its sign.
pub open spec fn unsigned(t: Seq<char>) -> Seq<char> {
    if t.len() > 0 && (t[0] == '+' || t[0] == '-') {
        t.skip(1)
    } else {
        t
    }
}

/// A number literal that is neither infinity nor not-a-number.
pub open spec fn is_finite_literal(t: Seq<char>) -> bool {
    is_number_literal(t) && unsigned(t).len() > 0 && (is_digit(unsigned(t)[0]) || unsigned(t)[0] == '.')
}

/// The mantissa of a literal: what comes before its exponent.
pub open spec fn mantissa_of(t: Seq<char>) -> Seq<char> {
    unsigned(t).subrange(0, exponent_at(unsigned(t), 0))
}

/// The digits of a mantissa, the point left out.
pub open spec fn mantissa_digits(m: Seq<char>) -> Seq<char> {
    let d = point_at(m, 0);
    if d < m.len() {
        m.subrange(0, d) + m.skip(d + 1)
    } else {
        m
    }
}

/// How many digits of a mantissa follow its point.
pub open spec fn fraction_len(m: Seq<char>) -> int {
    let d = point_at(m, 0);
    if d < m.len() {
        m.len() - d - 1
    } else {
        0
    }
}

/// The exponent of a literal, zero when it has none.
pub open spec fn exponent_value(t: Seq<char>) -> int {
    let b = unsigned(t);
    let e = exponent_at(b, 0);
    if e >= b.len() {
        0
    } else {
        exponent_of_tail(b.skip(e))
    }
}

/// The exponent written by `x`, which starts with `e` or `E`.
pub open spec fn exponent_of_tail(x: Seq<char>) -> int {
    if x.len() < 2 {
        0
    } else if x[1] == '-' {
        -(digits_value(x.skip(2)) as int)
    } else if x[1] == '+' {
        digits_value(x.skip(2)) as int
    } else {
        digits_value(x.skip(1)) as int
    }
}

/// The value of the digits `ds` times ten to the power `shift`, when it is
/// a whole number.
pub open spec fn whole_value(ds: Seq<char>, shift: int) -> Option<nat> {
    if shift >= 0 {
        Some(digits_value(ds + zeros(shift as nat)))
    } else if -shift <= ds.len() {
        let k = ds.len() + shift;
        if all_zeros(ds.skip(k)) {
            Some(digits_value(ds.take(k)))
        } else {
            None
        }
    } else if all_zeros(ds) {
        Some(0)
    } else {
        None
    }
}

/// The list index a literal stands for: its value, when that is a whole
/// number and not below zero, held at `usize::MAX` when larger; `None`
/// for infinity, not-a-number and any other literal.
pub open spec fn literal_index(t: Seq<char>) -> Option<nat> {
    if !is_finite_literal(t) {
        None
    } else {
        let m = mantissa_of(t);
        match whole_value(mantissa_digits(m), exponent_value(t) - fraction_len(m)) {
            Some(v) => if t[0] == '-' && v != 0 {
                None
            } else {
                Some(sat(v))
            },
            None => None,
        }
    }
}

proof fn lemma_push_zero(s: Seq<char>)
    ensures
        digits_value(s.push('0')) == digits_value(s) * 10,
{
    assert(s.push('0').drop_last() == s);
}

proof fn lemma_zeros_next(s: Seq<char>, j: nat)
    ensures
        s + zeros(j + 1) == (s + zeros(j)).push('0'),
        digits_value(s + zeros(j + 1)) == digits_value(s + zeros(j)) * 10,
{
    assert(s + zeros(j + 1) =~= (s + zeros(j)).push('0'));
    lemma_push_zero(s + zeros(j));
}

/// More zeros never make the value smaller, and zero stays zero.
proof fn lemma_zeros_mono(s: Seq<char>, a: nat, b: nat)
    requires
        a <= b,
    ensures
        digits_value(s + zeros(a)) <= digits_value(s + zeros(b)),
        digits_value(s + zeros(a)) == 0 ==> digits_value(s + zeros(b)) == 0,
    decreases b - a,
{
    if a < b {
        lemma_zeros_mono(s, a, (b - 1) as nat);
        lemma_zeros_next(s, (b - 1) as nat);
    }
}

/// Each zero at least adds one to a value that is not zero.
proof fn lemma_zeros_grow(s: Seq<char>, j: nat)
    requires
        digits_value(s) >= 1,
    ensures
        digits_value(s + zeros(j)) >= j + 1,
    decreases j,
{
    if j == 0 {
        assert(s + zeros(0) =~= s);
    } else {
        lemma_zeros_grow(s, (j - 1) as nat);
        lemma_zeros_next(s, (j - 1) as nat);
    }
}

proof fn lemma_finite_parts(t: Seq<char>)
    requires
        is_finite_literal(t),
    ensures
        ({
            let b = unsigned(t);
            let e = exponent_at(b, 0);
            is_mantissa(b.subrange(0, e)) && (e == b.len() || is_exponent(b.skip(e)))
        }),
{
    let b = unsigned(t);
    assert(lower(b[0]) == b[0]);
    if same_word(b, seq!['i', 'n', 'f']) {
        assert(lower(b[0]) == 'i');
    }
    if same_word(b, seq!['i', 'n', 'f', 'i', 'n', 'i', 't', 'y']) {
        assert(lower(b[0]) == 'i');
    }
    if same_word(b, seq!['n', 'a', 'n']) {
        assert(lower(b[0]) == 'n');
    }
}

/// The largest exponent told apart exactly; any larger one makes every
/// index that is not zero larger than `usize::MAX`, or none whole.
pub open spec fn exponent_cap() -> nat {
    1_000_000_000_000_000_000_000
}

fn digits_sat(s: &Vec<char>, from: usize, to: usize) -> (r: usize)
    requires
        from <= to <= s.len(),
        all_digits(s@.subrange(from as int, to as int)),
    ensures
        r as nat == sat(digits_value(s@.subrange(from as int, to as int))),
{
    let mut value: usize = 0;
    let mut i = from;
    assert(s@.subrange(from as int, from as int) =~= Seq::<char>::empty());
    while i < to
        invariant
            from <= i <= to <= s.len(),
            all_digits(s@.subrange(from as int, to as int)),
            value as nat == sat(digits_value(s@.subrange(from as int, i as int))),
        decreases to - i,
    {
        let c = s[i];
        let ghost prev = s@.subrange(from as int, i as int);
        let ghost next = s@.subrange(from as int, i + 1);
        assert(next.drop_last() == prev);
        assert(next.last() == c);
        assert(s@.subrange(from as int, to as int)[i - from] == c);
        let digit = (c as u32 - '0' as u32) as usize;
        assert(digits_value(next) == digits_value(prev) * 10 + digit);
        if value == usize::MAX {
            assert(digits_value(next) >= digits_value(prev)) by (nonlinear_arith)
                requires
                    digits_value(next) == digits_value(prev) * 10 + digit,
            ;
        } else {
            match value.checked_mul(10) {
                Some(m) => match m.checked_add(digit) {
                    Some(n) => {
                        value = n;
                    },
                    None => {
                        value = usize::MAX;
                    },
                },
                None => {
                    value = usize::MAX;
                    assert(digits_value(next) > usize::MAX) by (nonlinear_arith)
                        requires
                            digits_value(next) == digits_value(prev) * 10 + digit,
                            digits_value(prev) * 10 > usize::MAX,
                    ;
                },
            }
        }
        i += 1;
    }
    value
}

fn exponent_sat(s: &Vec<char>, from: usize, to: usize) -> (r: u128)
    requires
        from <= to <= s.len(),
        all_digits(s@.subrange(from as int, to as int)),
    ensures
        r as nat == (if digits_value(s@.subrange(from as int, to as int)) > exponent_cap() {
            exponent_cap()
        } else {
            digits_value(s@.subrange(from as int, to as int))
        }),
{
    let cap: u128 = 1_000_000_000_000_000_000_000;
    let mut value: u128 = 0;
    let mut i = from;
    assert(s@.subrange(from as int, from as int) =~= Seq::<char>::empty());
    while i < to
        invariant
            from <= i <= to <= s.len(),
            cap == exponent_cap(),
            all_digits(s@.subrange(from as int, to as int)),
            value as nat == (if digits_value(s@.subrange(from as int, i as int)) > exponent_cap() {
                exponent_cap()
            } else {
                digits_value(s@.subrange(from as int, i as int))
            }),
        decreases to - i,
    {
        let c = s[i];
        let ghost prev = s@.subrange(from as int, i as int);
        let ghost next = s@.subrange(from as int, i + 1);
        assert(next.drop_last() == prev);
        assert(next.last() == c);
        assert(s@.subrange(from as int, to as int)[i - from] == c);
        let digit = (c as u32 - '0' as u32) as u128;
        assert(digits_value(next) == digits_value(prev) * 10 + digit);
        if value == cap {
            assert(digits_value(next) >= digits_value(prev)) by (nonlinear_arith)
                requires
                    digits_value(next) == digits_value(prev) * 10 + digit,
            ;
        } else {
            let n = value * 10 + digit;
            value = if n > cap {
                cap
            } else {
                n
            };
        }
        i += 1;
    }
    value
}

/// The value of the digits `ds` times ten to the power `shift`, when it is
/// a whole number, held at `usize::MAX`. The power is given as `pos - neg`,
/// exactly, or with an exponent held at `exponent_cap()`.
fn whole_sat(ds: &Vec<char>, pos: u128, neg: u128, Ghost(shift): Ghost<int>) -> (r: Option<usize>)
    requires
        all_digits(ds@),
        pos <= exponent_cap(),
        neg <= exponent_cap() + usize::MAX,
        (pos - neg == shift) || (pos == exponent_cap() && neg <= usize::MAX && shift >= pos - neg) || (
        pos == 0 && neg >= exponent_cap() && shift <= -(neg as int)),
    ensures
        match r {
            Some(v) => whole_value(ds@, shift) matches Some(x) && v as nat == sat(x),
            None => whole_value(ds@, shift) is None,
        },
{
    let len = ds.len();
    let ghost dsv = ds@;
    if pos >= neg {
        let up: u128 = pos - neg;
        let mut value = digits_sat(ds, 0, len);
        assert(ds@.subrange(0, len as int) =~= ds@);
        assert(dsv + zeros(0) =~= dsv);
        let mut j: u128 = 0;
        while j < up && value != 0 && value != usize::MAX
            invariant
                j <= up,
                ds@ == dsv,
                value as nat == sat(digits_value(dsv + zeros(j as nat))),
            decreases up - j,
        {
            proof {
                lemma_zeros_next(dsv, j as nat);
            }
            value = match value.checked_mul(10) {
                Some(n) => n,
                None => usize::MAX,
            };
            j += 1;
        }
        proof {
            lemma_zeros_mono(dsv, j as nat, up as nat);
            assert(value as nat == sat(digits_value(dsv + zeros(up as nat))));
            if shift != up {
                assert(pos == exponent_cap());
                let exact_up = shift as nat;
                lemma_zeros_mono(dsv, up as nat, exact_up);
                lemma_zeros_mono(dsv, 0, up as nat);
                if digits_value(dsv) >= 1 {
                    lemma_zeros_grow(dsv, up as nat);
                }
                assert(sat(digits_value(dsv + zeros(exact_up))) == value);
            }
        }
        Some(value)
    } else {
        let k: u128 = neg - pos;
        proof {
            if shift != -(k as int) {
                assert(-shift > len);
            }
        }
        if k <= len as u128 {
            let kk = k as usize;
            let cut = len - kk;
            assert(shift == cut - len);
            let mut z = cut;
            while z < len
                invariant
                    cut <= z <= len,
                    len == ds.len(),
                    ds@ == dsv,
                    shift == cut - len,
                    forall|q: int| cut <= q < z ==> ds@[q] == '0',
                decreases len - z,
            {
                if ds[z] != '0' {
                    assert(ds@.skip(cut as int)[z - cut] == ds@[z as int]);
                    assert(!all_zeros(dsv.skip(cut as int)));
                    return None;
                }
                z += 1;
            }
            assert(all_zeros(dsv.skip(cut as int))) by {
                assert forall|q: int| 0 <= q < dsv.skip(cut as int).len() implies #[trigger] dsv.skip(
                    cut as int,
                )[q] == '0' by {
                    assert(dsv.skip(cut as int)[q] == ds@[cut + q]);
                }
            }
            proof {
                assert(all_digits(ds@.subrange(0, cut as int))) by {
                    assert forall|q: int| 0 <= q < cut implies is_digit(#[trigger] ds@.subrange(0, cut as int)[q]) by {
                        assert(ds@.subrange(0, cut as int)[q] == dsv[q]);
                    }
                }
                assert(dsv.take(cut as int) =~= ds@.subrange(0, cut as int));
            }
            Some(digits_sat(ds, 0, cut))
        } else {
            assert(-shift > len as int);
            let mut z: usize = 0;
            while z < len
                invariant
                    z <= len,
                    len == ds.len(),
                    ds@ == dsv,
                    -shift > len as int,
                    forall|q: int| 0 <= q < z ==> ds@[q] == '0',
                decreases len - z,
            {
                if ds[z] != '0' {
                    assert(!all_zeros(dsv));
                    return None;
                }
                z += 1;
            }
            assert(-shift > len as int);
            assert(all_zeros(dsv));
            Some(0)
        }
    }
}

fn digits_without_point(t: &Vec<char>, start: usize, d: usize, e: usize) -> (ds: Vec<char>)
    requires
        start <= d <= e <= t.len(),
    ensures
        ds@ == (if d < e {
            t@.subrange(start as int, d as int) + t@.subrange(d + 1, e as int)
        } else {
            t@.subrange(start as int, e as int)
        }),
{
    let mut ds: Vec<char> = Vec::new();
    let mut i = start;
    while i < e
        invariant
            start <= i <= e <= t.len(),
            start <= d <= e,
            ds@ == (if i <= d {
                t@.subrange(start as int, i as int)
            } else {
                t@.subrange(start as int, d as int) + t@.subrange(d + 1, i as int)
            }),
        decreases e - i,
    {
        if i != d {
            ds.push(t[i]);
            proof {
                if i < d {
                    assert(ds@ =~= t@.subrange(start as int, i + 1));
                } else {
                    assert(ds@ =~= t@.subrange(start as int, d as int) + t@.subrange(d + 1, i + 1));
                }
            }
        } else {
            assert(t@.subrange(d + 1, i + 1) =~= Seq::<char>::empty());
            assert(ds@ =~= t@.subrange(start as int, d as int) + t@.subrange(d + 1, i + 1));
        }
        i += 1;
    }
    ds
}

fn exponent_part(t: &Vec<char>, e: usize) -> (r: (bool, u128))
    requires
        e < t.len(),
        is_exponent(t@.skip(e as int)),
    ensures
        r.1 <= exponent_cap(),
        r.1 < exponent_cap() ==> exponent_of_tail(t@.skip(e as int)) == (if r.0 {
            -(r.1 as int)
        } else {
            r.1 as int
        }),
        r.1 == exponent_cap() ==> (if r.0 {
            exponent_of_tail(t@.skip(e as int)) <= -(r.1 as int)
        } else {
            exponent_of_tail(t@.skip(e as int)) >= r.1 as int
        }),
{
    let ghost x = t@.skip(e as int);
    let signed = t[e + 1] == '+' || t[e + 1] == '-';
    let p: usize = if signed { e + 2 } else { e + 1 };
    let neg = t[e + 1] == '-';
    proof {
        if signed {
            assert(x.skip(2) =~= t@.subrange(p as int, t.len() as int));
        } else {
            assert(x.skip(1) =~= t@.subrange(p as int, t.len() as int));
        }
    }
    let xv = exponent_sat(t, p, t.len());
    (neg, xv)
}

/// The list index the literal `t` stands for, if any.
#[verifier::rlimit(80)]
pub fn literal_index_of(t: &Vec<char>) -> (r: Option<usize>)
    ensures
        match r {
            Some(i) => literal_index(t@) == Some(i as nat),
            None => literal_index(t@) is None,
        },
{
    if !is_number_word(t) {
        return None;
    }
    let start: usize = if t.len() > 0 && (t[0] == '+' || t[0] == '-') { 1 } else { 0 };
    let ghost b = unsigned(t@);
    assert(b == t@.skip(start as int));
    if !(start < t.len() && (('0' <= t[start] && t[start] <= '9') || t[start] == '.')) {
        return None;
    }
    assert(is_finite_literal(t@));
    proof {
        lemma_finite_parts(t@);
    }
    let mut e = start;
    while e < t.len() && t[e] != 'e' && t[e] != 'E'
        invariant
            start <= e <= t.len(),
            b == t@.skip(start as int),
            exponent_at(b, e - start) == exponent_at(b, 0),
        decreases t.len() - e,
    {
        e += 1;
    }
    assert(exponent_at(b, e - start) == e - start);
    let ghost m = b.subrange(0, e - start);
    assert(m == mantissa_of(t@));
    assert(m =~= t@.subrange(start as int, e as int));
    let mut d = start;
    while d < e && t[d] != '.'
        invariant
            start <= d <= e,
            e <= t.len(),
            b == t@.skip(start as int),
            m =~= t@.subrange(start as int, e as int),
            point_at(m, d - start) == point_at(m, 0),
        decreases e - d,
    {
        d += 1;
    }
    assert(point_at(m, d - start) == d - start);
    let ds = digits_without_point(t, start, d, e);
    let ghost dsv = mantissa_digits(m);
    proof {
        if d < e {
            assert(m.subrange(0, d - start) =~= t@.subrange(start as int, d as int));
            assert(m.skip(d - start + 1) =~= t@.subrange(d + 1, e as int));
        }
        assert(ds@ =~= dsv);
        assert(all_digits(dsv)) by {
            if d < e {
                assert forall|k: int| 0 <= k < dsv.len() implies is_digit(#[trigger] dsv[k]) by {
                    if k < d - start {
                        assert(dsv[k] == m.subrange(0, d - start)[k]);
                    } else {
                        assert(dsv[k] == m.subrange(d - start + 1, m.len() as int)[k - (d - start)]);
                    }
                }
            }
        }
    }
    let frac: usize = if d < e { e - d - 1 } else { 0 };
    assert(frac == fraction_len(m));
    let len = ds.len();
    let mut neg_exp = false;
    let mut xv: u128 = 0;
    if e < t.len() {
        assert(b.skip(e - start) =~= t@.skip(e as int));
        let (n, x) = exponent_part(t, e);
        neg_exp = n;
        xv = x;
    }
    let ghost exact: int = exponent_value(t@);
    let ghost shift: int = exact - frac;
    assert(xv as nat <= exponent_cap());
    assert(xv < exponent_cap() ==> (if neg_exp { exact == -(xv as int) } else { exact == xv as int }));
    assert(xv == exponent_cap() ==> (if neg_exp { exact <= -(xv as int) } else { exact >= xv as int }));
    let total_pos: u128 = if neg_exp { 0 } else { xv };
    let total_neg: u128 = (if neg_exp { xv } else { 0 }) + frac as u128;
    assert(ds@ == dsv);
    let w = whole_sat(&ds, total_pos, total_neg, Ghost(shift));
    let v = match w {
        Some(v) => v,
        None => {
            return None;
        },
    };
    if t[0] == '-' && v != 0 {
        return None;
    }
    Some(v)
}

} // verus!

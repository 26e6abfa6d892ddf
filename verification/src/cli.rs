//! The command line: argument rules and the source of a generated runner.
use vstd::prelude::*;
use crate::codegen::{debug_quoted, rust_string};
use crate::text::{chars_of, push_all, push_str, string_of};

verus! {

/// What the command line asks for: the program to read, and where to write
/// a compiled executable.
#[derive(Debug, Default)]
pub struct CliOptions {
    pub input: Option<String>,
    pub output: Option<String>,
}

/// A command line that cannot be used; every such error is an invalid
/// input.
#[derive(Debug)]
pub struct CliError {
    pub message: String,
}

pub open spec fn missing_output_message() -> Seq<char> {
    "missing value after -o/--output"@
}

pub open spec fn multiple_inputs_message() -> Seq<char> {
    "multiple input files provided"@
}

pub open spec fn output_needs_input_message() -> Seq<char> {
    "output option requires an input .graphol file"@
}

pub open spec fn unknown_option_message(arg: Seq<char>) -> Seq<char> {
    "unknown option: "@ + arg
}

pub open spec fn is_output_flag(a: Seq<char>) -> bool {
    a == "-o"@ || a == "--output"@
}

pub open spec fn has_output_prefix(a: Seq<char>) -> bool {
    a.len() >= 3 && a[0] == '-' && a[1] == 'o' && a[2] == '='
}

/// The options that `args` from index `i` on give, with `input` and
/// `output` found before it.
pub open spec fn options_from(
    args: Seq<Seq<char>>,
    i: int,
    input: Option<Seq<char>>,
    output: Option<Seq<char>>,
) -> Result<(Option<Seq<char>>, Option<Seq<char>>), Seq<char>>
    decreases args.len() - i,
{
    if i >= args.len() || i < 0 {
        if output is Some && input is None {
            Err(output_needs_input_message())
        } else {
            Ok((input, output))
        }
    } else {
        let a = args[i];
        if is_output_flag(a) {
            if i + 1 >= args.len() {
                Err(missing_output_message())
            } else {
                options_from(args, i + 2, input, Some(args[i + 1]))
            }
        } else if has_output_prefix(a) {
            options_from(args, i + 1, input, Some(a.skip(3)))
        } else if a.len() > 0 && a[0] == '-' {
            Err(unknown_option_message(a))
        } else if input is Some {
            Err(multiple_inputs_message())
        } else {
            options_from(args, i + 1, Some(a), output)
        }
    }
}

proof fn lemma_output_needs_input(
    args: Seq<Seq<char>>,
    i: int,
    input: Option<Seq<char>>,
    output: Option<Seq<char>>,
)
    ensures
        options_from(args, i, input, output) matches Ok((inp, out)) ==> (out is Some ==> inp is Some),
    decreases args.len() - i,
{
    if 0 <= i < args.len() {
        let a = args[i];
        if is_output_flag(a) {
            if i + 1 < args.len() {
                lemma_output_needs_input(args, i + 2, input, Some(args[i + 1]));
            }
        } else if has_output_prefix(a) {
            lemma_output_needs_input(args, i + 1, input, Some(a.skip(3)));
        } else if !(a.len() > 0 && a[0] == '-') && input is None {
            lemma_output_needs_input(args, i + 1, Some(a), output);
        }
    }
}

/// A command line that is accepted and asks for an executable also names
/// the program to compile.
pub proof fn law_output_needs_input(args: Seq<Seq<char>>)
    ensures
        options_from(args, 0, None, None) matches Ok((input, output)) ==> (output is Some
            ==> input is Some),
{
    lemma_output_needs_input(args, 0, None, None);
}

pub open spec fn string_opt(o: Option<String>) -> Option<Seq<char>> {
    match o {
        Some(s) => Some(s@),
        None => None,
    }
}

fn same_str(a: &Vec<char>, b: &str) -> (r: bool)
    ensures
        r == (a@ == b@),
{
    let bv = chars_of(b);
    if a.len() != bv.len() {
        return false;
    }
    let mut i: usize = 0;
    while i < a.len()
        invariant
            a.len() == bv.len(),
            bv@ == b@,
            i <= a.len(),
            forall|k: int| 0 <= k < i ==> a@[k] == bv@[k],
        decreases a.len() - i,
    {
        if a[i] != bv[i] {
            return false;
        }
        i += 1;
    }
    assert(a@ == bv@);
    true
}

/// Reads the command line arguments (the program name left out): a source
/// file, and `-o path`, `--output path` or `-o=path` for an executable.
pub fn parse_cli_args(args: &Vec<String>) -> (r: Result<CliOptions, CliError>)
    ensures
        match options_from(args@.map_values(|a: String| a@), 0, None, None) {
            Ok((input, output)) => r matches Ok(o) && string_opt(o.input) == input && string_opt(
                o.output,
            ) == output,
            Err(m) => r matches Err(e) && e.message@ == m,
        },
{
    let ghost av = args@.map_values(|a: String| a@);
    let mut input: Option<String> = None;
    let mut output: Option<String> = None;
    let mut i: usize = 0;
    while i < args.len()
        invariant
            i <= args.len(),
            av == args@.map_values(|a: String| a@),
            options_from(av, i as int, string_opt(input), string_opt(output)) == options_from(
                av,
                0,
                None,
                None,
            ),
        decreases args.len() - i,
    {
        let a = chars_of(args[i].as_str());
        assert(a@ == av[i as int]);
        if same_str(&a, "-o") || same_str(&a, "--output") {
            if i + 1 >= args.len() {
                return Err(CliError { message: string_of(&chars_of("missing value after -o/--output")) });
            }
            output = Some(string_of(&chars_of(args[i + 1].as_str())));
            i += 2;
        } else if a.len() >= 3 && a[0] == '-' && a[1] == 'o' && a[2] == '=' {
            let mut v: Vec<char> = Vec::new();
            let mut k: usize = 3;
            while k < a.len()
                invariant
                    3 <= k <= a.len(),
                    v@ == a@.subrange(3, k as int),
                decreases a.len() - k,
            {
                v.push(a[k]);
                k += 1;
                assert(v@ == a@.subrange(3, k as int));
            }
            assert(v@ == a@.skip(3));
            output = Some(string_of(&v));
            i += 1;
        } else if a.len() > 0 && a[0] == '-' {
            let mut m: Vec<char> = Vec::new();
            push_str(&mut m, "unknown option: ");
            push_all(&mut m, &a);
            assert(m@ =~= unknown_option_message(a@));
            return Err(CliError { message: string_of(&m) });
        } else if input.is_some() {
            return Err(CliError { message: string_of(&chars_of("multiple input files provided")) });
        } else {
            input = Some(string_of(&a));
            i += 1;
        }
    }
    if output.is_some() && input.is_none() {
        return Err(
            CliError { message: string_of(&chars_of("output option requires an input .graphol file")) },
        );
    }
    Ok(CliOptions { input, output })
}

// ---------------------------------------------------------------------------
// Raw string literals

/// `n` hash signs.
pub open spec fn hashes(n: nat) -> Seq<char> {
    Seq::new(n, |i: int| '#')
}

/// Whether `t` occurs in `s`.
pub open spec fn occurs_in(t: Seq<char>, s: Seq<char>) -> bool {
    exists|i: int| 0 <= i && i + t.len() <= s.len() && #[trigger] s.subrange(i, i + t.len()) == t
}

/// The smallest count of hash signs, from `n` up to 32, whose raw-string
/// terminator does not occur in `input`.
pub open spec fn free_hash_count(input: Seq<char>, n: nat) -> Option<nat>
    decreases 33 - n,
{
    if n > 32 {
        None
    } else if !occurs_in(seq!['"'] + hashes(n), input) {
        Some(n)
    } else {
        free_hash_count(input, n + 1)
    }
}

/// `input` as a Rust string literal: a raw string with as few hash signs as
/// keep it closed, or, when 32 are not enough, a quoted string.
pub open spec fn string_literal_text(input: Seq<char>) -> Seq<char> {
    match free_hash_count(input, 1) {
        Some(n) => seq!['r'] + hashes(n) + seq!['"'] + input + seq!['"'] + hashes(n),
        None => debug_quoted(input),
    }
}

fn occurs(t: &Vec<char>, s: &Vec<char>) -> (r: bool)
    ensures
        r == occurs_in(t@, s@),
{
    if t.len() > s.len() {
        return false;
    }
    let mut i: usize = 0;
    while i <= s.len() - t.len()
        invariant
            t.len() <= s.len(),
            i <= s.len() - t.len() + 1,
            forall|j: int| 0 <= j < i ==> #[trigger] s@.subrange(j, j + t.len()) != t@,
        decreases s.len() - i,
    {
        let mut k: usize = 0;
        let mut same = true;
        while k < t.len()
            invariant
                i + t.len() <= s.len(),
                k <= t.len(),
                same == (forall|m: int| 0 <= m < k ==> s@[i + m] == t@[m]),
            decreases t.len() - k,
        {
            if s[i + k] != t[k] {
                same = false;
            }
            k += 1;
        }
        if same {
            assert(s@.subrange(i as int, i + t.len()) =~= t@);
            return true;
        }
        assert(s@.subrange(i as int, i + t.len()) != t@) by {
            let w = choose|m: int| 0 <= m < t.len() && s@[i + m] != t@[m];
            assert(s@.subrange(i as int, i + t.len())[w] == s@[i + w]);
        }
        i += 1;
    }
    assert forall|j: int| 0 <= j && j + t@.len() <= s@.len() implies #[trigger] s@.subrange(
        j,
        j + t@.len(),
    ) != t@ by {
        assert(j < i);
    }
    false
}

/// `input` written as a Rust string literal.
pub fn string_literal(input: &str) -> (r: String)
    ensures
        r@ == string_literal_text(input@),
{
    let s = chars_of(input);
    let mut n: usize = 1;
    let mut hs: Vec<char> = Vec::new();
    hs.push('#');
    assert(hs@ =~= hashes(1));
    while n <= 32
        invariant
            1 <= n <= 33,
            s@ == input@,
            hs@ == hashes(n as nat),
            free_hash_count(s@, n as nat) == free_hash_count(s@, 1),
        decreases 33 - n,
    {
        let mut term: Vec<char> = Vec::new();
        term.push('"');
        push_all(&mut term, &hs);
        assert(term@ =~= seq!['"'] + hashes(n as nat));
        if !occurs(&term, &s) {
            let mut out: Vec<char> = Vec::new();
            out.push('r');
            push_all(&mut out, &hs);
            out.push('"');
            push_all(&mut out, &s);
            out.push('"');
            push_all(&mut out, &hs);
            assert(free_hash_count(s@, n as nat) == Some(n as nat));
            assert(free_hash_count(input@, 1) == Some(n as nat));
            let ghost want = seq!['r'] + hashes(n as nat) + seq!['"'] + input@ + seq!['"'] + hashes(
                n as nat,
            );
            assert(string_literal_text(input@) == want);
            assert(out@ =~= want);
            return string_of(&out);
        }
        hs.push('#');
        assert(hs@ =~= hashes((n + 1) as nat));
        n += 1;
    }
    rust_string(input)
}

/// The source of a program that runs `source` with the Graphol runtime.
pub open spec fn runner_text(literal: Seq<char>) -> Seq<char> {
    "use graphol_rs::runtime::StdIo;\n\nfn main() {\n    const SOURCE: &str = "@ + literal
        + ";\n    if let Err(err) = graphol_rs::run_graphol(SOURCE, Box::new(StdIo)) {\n        eprintln!(\"error: {:?}\", err);\n        std::process::exit(1);\n    }\n}\n"@
}

/// The source of a program that runs `source` with the Graphol runtime.
pub fn build_runner_source(source: &str) -> (r: String)
    ensures
        r@ == runner_text(string_literal_text(source@)),
{
    let literal = string_literal(source);
    let mut out: Vec<char> = Vec::new();
    push_str(&mut out, "use graphol_rs::runtime::StdIo;\n\nfn main() {\n    const SOURCE: &str = ");
    push_str(&mut out, literal.as_str());
    push_str(
        &mut out,
        ";\n    if let Err(err) = graphol_rs::run_graphol(SOURCE, Box::new(StdIo)) {\n        eprintln!(\"error: {:?}\", err);\n        std::process::exit(1);\n    }\n}\n",
    );
    assert(out@ =~= runner_text(string_literal_text(source@)));
    string_of(&out)
}

} // verus!

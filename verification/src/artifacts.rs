//! Which runtime library a compiled program links against.
//!
//! A build directory may hold several hashed copies of the runtime library
//! (`<prefix><hash>.rlib`); the first of them in name order is the one used.
use vstd::prelude::*;
use crate::text::chars_of;

verus! {

/// Whether `name` is a hashed runtime library: it starts with `prefix` and
/// ends with `.rlib`.
pub open spec fn is_hashed_rlib(name: Seq<char>, prefix: Seq<char>) -> bool {
    &&& name.len() >= prefix.len()
    &&& name.subrange(0, prefix.len() as int) == prefix
    &&& name.len() >= 5
    &&& name.subrange(name.len() - 5, name.len() as int) == ".rlib"@
}

/// Lexicographic order on names, character by character; a name comes
/// before every longer name it begins.
pub open spec fn name_le(a: Seq<char>, b: Seq<char>) -> bool
    decreases a.len(),
{
    if a.len() == 0 {
        true
    } else if b.len() == 0 {
        false
    } else if (a[0] as int) < (b[0] as int) {
        true
    } else if (a[0] as int) > (b[0] as int) {
        false
    } else {
        name_le(a.drop_first(), b.drop_first())
    }
}

proof fn lemma_name_le_total(a: Seq<char>, b: Seq<char>)
    ensures
        name_le(a, b) || name_le(b, a),
    decreases a.len(),
{
    if a.len() > 0 && b.len() > 0 && a[0] == b[0] {
        lemma_name_le_total(a.drop_first(), b.drop_first());
    }
}

proof fn lemma_name_le_trans(a: Seq<char>, b: Seq<char>, c: Seq<char>)
    requires
        name_le(a, b),
        name_le(b, c),
    ensures
        name_le(a, c),
    decreases a.len(),
{
    if a.len() > 0 && b.len() > 0 && c.len() > 0 && a[0] == b[0] && b[0] == c[0] {
        lemma_name_le_trans(a.drop_first(), b.drop_first(), c.drop_first());
    }
}

proof fn lemma_name_le_refl(a: Seq<char>)
    ensures
        name_le(a, a),
    decreases a.len(),
{
    if a.len() > 0 {
        lemma_name_le_refl(a.drop_first());
    }
}

fn le_names(a: &Vec<char>, b: &Vec<char>) -> (r: bool)
    ensures
        r == name_le(a@, b@),
{
    let mut i: usize = 0;
    assert(a@.skip(0) =~= a@);
    assert(b@.skip(0) =~= b@);
    while i < a.len() && i < b.len()
        invariant
            i <= a.len(),
            i <= b.len(),
            name_le(a@, b@) == name_le(a@.skip(i as int), b@.skip(i as int)),
        decreases a.len() - i,
    {
        let x = a[i];
        let y = b[i];
        proof {
            assert(a@.skip(i as int)[0] == a@[i as int]);
            assert(b@.skip(i as int)[0] == b@[i as int]);
        }
        if x < y {
            return true;
        }
        if x > y {
            return false;
        }
        proof {
            assert(a@.skip(i as int).drop_first() =~= a@.skip(i + 1));
            assert(b@.skip(i as int).drop_first() =~= b@.skip(i + 1));
        }
        i += 1;
    }
    i == a.len()
}

fn is_hashed_rlib_name(name: &Vec<char>, prefix: &Vec<char>) -> (r: bool)
    ensures
        r == is_hashed_rlib(name@, prefix@),
{
    if name.len() < prefix.len() || name.len() < 5 {
        return false;
    }
    let mut i: usize = 0;
    while i < prefix.len()
        invariant
            i <= prefix.len() <= name.len(),
            forall|k: int| 0 <= k < i ==> name@[k] == prefix@[k],
        decreases prefix.len() - i,
    {
        if name[i] != prefix[i] {
            assert(name@.subrange(0, prefix.len() as int)[i as int] != prefix@[i as int]);
            return false;
        }
        i += 1;
    }
    assert(name@.subrange(0, prefix.len() as int) =~= prefix@);
    let suffix = chars_of(".rlib");
    proof {
        reveal_strlit(".rlib");
        assert(suffix@.len() == 5);
    }
    let start = name.len() - 5;
    let mut j: usize = 0;
    while j < 5
        invariant
            start == name.len() - 5,
            suffix@ == ".rlib"@,
            suffix.len() == 5,
            j <= 5,
            forall|k: int| 0 <= k < j ==> name@[start + k] == suffix@[k],
        decreases 5 - j,
    {
        if name[start + j] != suffix[j] {
            assert(name@.subrange(start as int, name.len() as int)[j as int] != suffix@[j as int]);
            return false;
        }
        j += 1;
    }
    assert(name@.subrange(start as int, name.len() as int) =~= ".rlib"@);
    true
}

/// The index of the hashed runtime library that comes first in name
/// order among `names`, or `None` when no name is one.
pub fn pick_hashed_rlib(names: &Vec<String>, prefix: &str) -> (r: Option<usize>)
    ensures
        match r {
            Some(i) => {
                &&& i < names.len()
                &&& is_hashed_rlib(names@[i as int]@, prefix@)
                &&& forall|j: int|
                    0 <= j < names.len() && is_hashed_rlib(#[trigger] names@[j]@, prefix@) ==> name_le(
                        names@[i as int]@,
                        names@[j]@,
                    )
            },
            None => forall|j: int| 0 <= j < names.len() ==> !is_hashed_rlib(#[trigger] names@[j]@, prefix@),
        },
{
    let p = chars_of(prefix);
    let mut best: Option<usize> = None;
    let mut best_chars: Vec<char> = Vec::new();
    let mut i: usize = 0;
    while i < names.len()
        invariant
            i <= names.len(),
            p@ == prefix@,
            match best {
                Some(b) => {
                    &&& b < i
                    &&& best_chars@ == names@[b as int]@
                    &&& is_hashed_rlib(names@[b as int]@, prefix@)
                    &&& forall|j: int|
                        0 <= j < i && is_hashed_rlib(#[trigger] names@[j]@, prefix@) ==> name_le(
                            names@[b as int]@,
                            names@[j]@,
                        )
                },
                None => forall|j: int| 0 <= j < i ==> !is_hashed_rlib(#[trigger] names@[j]@, prefix@),
            },
        decreases names.len() - i,
    {
        let c = chars_of(names[i].as_str());
        if is_hashed_rlib_name(&c, &p) {
            let take = match best {
                None => true,
                Some(_) => !le_names(&best_chars, &c),
            };
            if take {
                proof {
                    lemma_name_le_refl(c@);
                    if let Some(b) = best {
                        lemma_name_le_total(best_chars@, c@);
                        assert forall|j: int|
                            0 <= j < i + 1 && is_hashed_rlib(#[trigger] names@[j]@, prefix@) implies name_le(
                                c@,
                                names@[j]@,
                            ) by {
                            if j < i {
                                lemma_name_le_trans(c@, best_chars@, names@[j]@);
                            }
                        }
                    }
                }
                best = Some(i);
                best_chars = c;
            } else {
                proof {
                    if let Some(b) = best {
                        assert forall|j: int|
                            0 <= j < i + 1 && is_hashed_rlib(#[trigger] names@[j]@, prefix@) implies name_le(
                                names@[b as int]@,
                                names@[j]@,
                            ) by {
                        }
                    }
                }
            }
        }
        i += 1;
    }
    best
}

/// Whether index `i` names the hashed runtime library that comes first in
/// name order among `names`.
pub open spec fn is_first_hashed(names: Seq<Seq<char>>, prefix: Seq<char>, i: int) -> bool {
    &&& 0 <= i < names.len()
    &&& is_hashed_rlib(names[i], prefix)
    &&& forall|j: int| 0 <= j < names.len() && is_hashed_rlib(#[trigger] names[j], prefix) ==> name_le(names[i], names[j])
}

/// Whether some name of `names` is a hashed runtime library.
pub open spec fn has_hashed(names: Seq<Seq<char>>, prefix: Seq<char>) -> bool {
    exists|j: int| 0 <= j < names.len() && is_hashed_rlib(#[trigger] names[j], prefix)
}

/// The runtime library chosen: the plain one, or the hashed one at an index
/// of the names read from the dependency directory.
#[derive(Debug, Clone, Copy, PartialEq, Eq, Structural)]
pub enum ArtifactChoice {
    Plain,
    Hashed(usize),
}

/// Why no runtime library can be chosen.
#[derive(Debug, Clone, Copy, PartialEq, Eq, Structural)]
pub enum ArtifactError {
    /// The build directory has no dependency directory.
    MissingDeps,
    /// Neither a plain nor a hashed runtime library is there.
    NoLibrary,
}

pub open spec fn artifact_message(e: ArtifactError) -> Seq<char> {
    match e {
        ArtifactError::MissingDeps => "missing runtime artifacts in target dir; run `cargo build` first"@,
        ArtifactError::NoLibrary => "could not find graphol runtime library; run `cargo build` first"@,
    }
}

impl ArtifactError {
    /// What the error says.
    pub fn message(&self) -> (r: &'static str)
        ensures
            r@ == artifact_message(*self),
    {
        match self {
            ArtifactError::MissingDeps => "missing runtime artifacts in target dir; run `cargo build` first",
            ArtifactError::NoLibrary => "could not find graphol runtime library; run `cargo build` first",
        }
    }
}

/// The runtime library of a build directory: an error when it has no
/// dependency directory; else the plain library when it is there; else the
/// hashed library that comes first in name order among `names`, the names
/// in the dependency directory; else an error.
pub fn choose_runtime_artifacts(deps_exists: bool, plain_exists: bool, names: &Vec<String>, prefix: &str) -> (r:
    Result<ArtifactChoice, ArtifactError>)
    ensures
        ({
            let ns = names@.map_values(|n: String| n@);
            &&& !deps_exists ==> r == Err::<ArtifactChoice, ArtifactError>(ArtifactError::MissingDeps)
            &&& (deps_exists && plain_exists) ==> r == Ok::<ArtifactChoice, ArtifactError>(ArtifactChoice::Plain)
            &&& (deps_exists && !plain_exists) ==> match r {
                Ok(ArtifactChoice::Hashed(i)) => is_first_hashed(ns, prefix@, i as int),
                Ok(ArtifactChoice::Plain) => false,
                Err(e) => e == ArtifactError::NoLibrary && !has_hashed(ns, prefix@),
            }
        }),
{
    if !deps_exists {
        return Err(ArtifactError::MissingDeps);
    }
    if plain_exists {
        return Ok(ArtifactChoice::Plain);
    }
    hashed_choice(names, prefix)
}

fn hashed_choice(names: &Vec<String>, prefix: &str) -> (r: Result<ArtifactChoice, ArtifactError>)
    ensures
        ({
            let ns = names@.map_values(|n: String| n@);
            match r {
                Ok(ArtifactChoice::Hashed(i)) => is_first_hashed(ns, prefix@, i as int),
                Ok(ArtifactChoice::Plain) => false,
                Err(e) => e == ArtifactError::NoLibrary && !has_hashed(ns, prefix@),
            }
        }),
{
    let ghost ns = names@.map_values(|n: String| n@);
    match pick_hashed_rlib(names, prefix) {
        Some(i) => {
            assert forall|j: int| 0 <= j < ns.len() && is_hashed_rlib(#[trigger] ns[j], prefix@) implies name_le(
                ns[i as int],
                ns[j],
            ) by {
                assert(ns[j] == names@[j]@);
            }
            Ok(ArtifactChoice::Hashed(i))
        },
        None => {
            assert(!has_hashed(ns, prefix@)) by {
                if has_hashed(ns, prefix@) {
                    let j = choose|j: int| 0 <= j < ns.len() && is_hashed_rlib(#[trigger] ns[j], prefix@);
                    assert(ns[j] == names@[j]@);
                }
            }
            Err(ArtifactError::NoLibrary)
        },
    }
}

/// The runtime library found in a candidate directory: the plain library
/// when it is a file there, with the dependency directory when that is a
/// directory; else, when the dependency directory is one, the hashed
/// library that comes first in name order among its `names`, with it;
/// else none. The second component says whether the dependency directory
/// goes with the library.
pub fn resolve_runtime_choice(plain_is_file: bool, deps_is_dir: bool, names: &Vec<String>, prefix: &str) -> (r:
    Option<(ArtifactChoice, bool)>)
    ensures
        ({
            let ns = names@.map_values(|n: String| n@);
            &&& plain_is_file ==> r == Some((ArtifactChoice::Plain, deps_is_dir))
            &&& (!plain_is_file && !deps_is_dir) ==> r is None
            &&& (!plain_is_file && deps_is_dir) ==> match r {
                Some((ArtifactChoice::Hashed(i), with_deps)) => with_deps && is_first_hashed(ns, prefix@, i as int),
                Some((ArtifactChoice::Plain, _)) => false,
                None => !has_hashed(ns, prefix@),
            }
        }),
{
    if plain_is_file {
        return Some((ArtifactChoice::Plain, deps_is_dir));
    }
    if !deps_is_dir {
        return None;
    }
    match hashed_choice(names, prefix) {
        Ok(c) => Some((c, true)),
        Err(_) => None,
    }
}

/// Whether a candidate directory is itself the dependency directory: its
/// name is `deps`.
pub fn is_deps_dir(name: Option<&str>) -> (r: bool)
    ensures
        r == (name matches Some(n) && n@ == "deps"@),
{
    match name {
        Some(n) => {
            let c = chars_of(n);
            proof {
                reveal_strlit("deps");
            }
            c.len() == 4 && c[0] == 'd' && c[1] == 'e' && c[2] == 'p' && c[3] == 's' && {
                assert(c@ =~= "deps"@);
                true
            }
        },
        None => false,
    }
}

/// The directories searched for the runtime library, in order: the one
/// the user names, if any, then the executable's directory, then the build
/// directory of the source tree.
pub fn runtime_candidates(custom: Option<String>, exe_dir: String, build_dir: String) -> (r: Vec<String>)
    ensures
        r@.map_values(|d: String| d@) == (match custom {
            Some(c) => seq![c@],
            None => Seq::empty(),
        }) + seq![exe_dir@, build_dir@],
{
    let mut r: Vec<String> = Vec::new();
    let ghost first: Seq<Seq<char>> = if custom is Some {
        seq![custom->0@]
    } else {
        Seq::empty()
    };
    match custom {
        Some(c) => {
            r.push(c);
        },
        None => {},
    }
    assert(r@.map_values(|d: String| d@) =~= first);
    r.push(exe_dir);
    r.push(build_dir);
    assert(r@.map_values(|d: String| d@) =~= first + seq![exe_dir@, build_dir@]);
    r
}

} // verus!

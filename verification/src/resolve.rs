//! Choosing among the functions of one name by the types of a call's arguments: a function
//! takes the call when each argument has the declared type or is declared `String`, to which
//! any value converts; the fewer conversions it needs, the closer the match.

use vstd::prelude::*;
use crate::ast::GenType;

verus! {

/// A function that may take a call: its name, the types of its declared arguments, and
/// whether the last of them may be repeated.
pub struct Candidate {
    pub name: String,
    pub arg_types: Vec<GenType>,
    pub variadic: bool,
}

/// The name, declared argument types and repetition of a candidate.
pub open spec fn candidate_view(c: Candidate) -> (Seq<char>, Seq<GenType>, bool) {
    (c.name@, c.arg_types@, c.variadic)
}

/// The views of a list of candidates.
pub open spec fn candidates_view(cs: Seq<Candidate>) -> Seq<(Seq<char>, Seq<GenType>, bool)> {
    Seq::new(cs.len(), |k: int| candidate_view(cs[k]))
}

/// A function that takes a call, and how many conversions to `String` it needs for it.
#[derive(Debug, Clone, Copy, PartialEq, Eq, Structural)]
pub struct FunctionMatch {
    pub candidate: usize,
    pub num_coerced: usize,
    pub variadic: bool,
}

/// Why no function was chosen for a call.
#[derive(Debug, Clone, Copy, PartialEq, Eq, Structural)]
pub enum ResolveError {
    /// No function has the name of the call.
    NoSuchFunctionName,
    /// Two functions of the name match the call equally closely.
    AmbiguousFunctionCall,
    /// No function of the name takes arguments of these types.
    MismatchedFunctionArgs,
}

/// The number of positions before `n` at which the actual type is not the declared one.
pub open spec fn mismatches(expected: Seq<GenType>, actual: Seq<GenType>, n: int) -> nat
    decreases n,
{
    if n <= 0 {
        0
    } else {
        mismatches(expected, actual, n - 1) + if actual[n - 1] != expected[n - 1] {
            1nat
        } else {
            0nat
        }
    }
}

/// Each declared argument is given a value of its type, or is declared `String`.
pub open spec fn fixed_args_fit(expected: Seq<GenType>, actual: Seq<GenType>) -> bool {
    forall|k: int| 0 <= k < expected.len() ==> actual[k] == expected[k] || expected[k] == GenType::String
}

/// Each argument after the declared ones has the type of the last declared one, or that one
/// is declared `String`.
pub open spec fn extra_args_fit(expected: Seq<GenType>, actual: Seq<GenType>) -> bool {
    forall|k: int| expected.len() <= k < actual.len() ==> actual[k] == expected.last() || expected.last() == GenType::String
}

/// Some argument after the declared ones has to be converted.
pub open spec fn extra_arg_converted(expected: Seq<GenType>, actual: Seq<GenType>) -> bool {
    exists|k: int| expected.len() <= k < actual.len() && actual[k] != expected.last()
}

/// The conversions that a function declared with the argument types `expected` (the last one
/// repeated when `variadic`) needs to take arguments of the types `actual`, counting those of
/// the repeated arguments as one; none when it cannot take them.
pub open spec fn coercions(expected: Seq<GenType>, variadic: bool, actual: Seq<GenType>) -> Option<nat> {
    let e = expected.len();
    let a = actual.len();
    if e > a || (a > e && !variadic) {
        None
    } else if e == 0 {
        if a > 0 {
            None
        } else {
            Some(0nat)
        }
    } else if fixed_args_fit(expected, actual) && extra_args_fit(expected, actual) {
        Some(mismatches(expected, actual, e as int) + if extra_arg_converted(expected, actual) {
            1nat
        } else {
            0nat
        })
    } else {
        None
    }
}

/// How far a match is from the call: its conversions, and one more for a repeated argument.
pub open spec fn match_distance(coerced: nat, variadic: bool) -> nat {
    coerced + if variadic {
        1nat
    } else {
        0nat
    }
}

/// A repeated argument always costs one more than the conversions: a variadic match is
/// strictly farther than a fixed one with as many conversions, so an exact fixed match is
/// preferred to an exact variadic one.
pub proof fn lemma_variadic_farther(k: nat)
    ensures
        match_distance(k, false) == k,
        match_distance(k, true) == k + 1,
        match_distance(k, false) < match_distance(k, true),
{
}

/// A fixed candidate that takes the arguments without conversions, listed before a variadic
/// one of the same name that also takes them without conversions, is chosen over it.
pub proof fn lemma_fixed_exact_beats_variadic_exact(expected_fixed: Seq<GenType>, expected_var: Seq<GenType>, name: Seq<char>, actual: Seq<GenType>)
    requires
        coercions(expected_fixed, false, actual) == Some(0nat),
        coercions(expected_var, true, actual) == Some(0nat),
    ensures
        resolution(seq![(name, expected_fixed, false), (name, expected_var, true)], name, actual) == Ok::<usize, ResolveError>(0),
{
    let cands = seq![(name, expected_fixed, false), (name, expected_var, true)];
    assert(cands[0].0 == name);
    assert(has_name(cands, name));
    assert(scan(cands, name, actual, 0) == Some(None::<(int, nat)>));
    assert(scan(cands, name, actual, 1) == Some(Some((0int, 0nat))));
    assert(scan(cands, name, actual, 2) == Some(Some((0int, 0nat))));
}

/// Going through the first `n` candidates in order, the closest match so far with its
/// distance (none yet, or `None` for two equally close matches, where the search stops).
/// A later match replaces the best one only when it is strictly closer.
pub open spec fn scan(cands: Seq<(Seq<char>, Seq<GenType>, bool)>, name: Seq<char>, actual: Seq<GenType>, n: int) -> Option<
    Option<(int, nat)>,
>
    decreases n,
{
    if n <= 0 {
        Some(None)
    } else {
        match scan(cands, name, actual, n - 1) {
            None => None,
            Some(best) => {
                let c = cands[n - 1];
                if c.0 != name {
                    Some(best)
                } else {
                    match coercions(c.1, c.2, actual) {
                        None => Some(best),
                        Some(k) => {
                            let d = match_distance(k, c.2);
                            match best {
                                None => Some(Some((n - 1, d))),
                                Some((b, bd)) => if d < bd {
                                    Some(Some((n - 1, d)))
                                } else if d == bd {
                                    None
                                } else {
                                    Some(best)
                                },
                            }
                        },
                    }
                }
            },
        }
    }
}

/// How far candidate `c` is from a call of `name` with arguments of the types `actual`: none
/// when it has another name or cannot take the arguments.
pub open spec fn candidate_distance(cands: Seq<(Seq<char>, Seq<GenType>, bool)>, name: Seq<char>, actual: Seq<GenType>, c: int) -> Option<nat> {
    if cands[c].0 != name {
        None
    } else {
        match coercions(cands[c].1, cands[c].2, actual) {
            None => None,
            Some(k) => Some(match_distance(k, cands[c].2)),
        }
    }
}

/// What the scan of the first `n` candidates knows: no candidate matched, or the one kept
/// matches at the distance kept, strictly closer than every other that matched.
proof fn lemma_scan_best(cands: Seq<(Seq<char>, Seq<GenType>, bool)>, name: Seq<char>, actual: Seq<GenType>, n: int)
    requires
        0 <= n <= cands.len(),
    ensures
        scan(cands, name, actual, n) == Some(None::<(int, nat)>) ==> forall|c: int|
            0 <= c < n ==> #[trigger] candidate_distance(cands, name, actual, c) is None,
        scan(cands, name, actual, n) matches Some(Some((b, d))) ==> {
            &&& 0 <= b < n
            &&& candidate_distance(cands, name, actual, b) == Some(d)
            &&& forall|c: int|
                0 <= c < n && c != b && #[trigger] candidate_distance(cands, name, actual, c) is Some ==> d
                    < candidate_distance(cands, name, actual, c).unwrap()
        },
    decreases n,
{
    if n > 0 {
        lemma_scan_best(cands, name, actual, n - 1);
    }
}

/// The function chosen for a call is the strictly closest one of its name that takes the
/// arguments; no function is chosen for lack of a match only when none of them takes them.
pub proof fn lemma_resolution_closest(cands: Seq<(Seq<char>, Seq<GenType>, bool)>, name: Seq<char>, actual: Seq<GenType>)
    requires
        cands.len() <= usize::MAX,
    ensures
        resolution(cands, name, actual) matches Ok(b) ==> {
            &&& (b as int) < cands.len()
            &&& cands[b as int].0 == name
            &&& candidate_distance(cands, name, actual, b as int) is Some
            &&& forall|c: int|
                0 <= c < cands.len() && c != b && #[trigger] candidate_distance(cands, name, actual, c) is Some
                    ==> candidate_distance(cands, name, actual, b as int).unwrap() < candidate_distance(
                    cands,
                    name,
                    actual,
                    c,
                ).unwrap()
        },
        resolution(cands, name, actual) == Err::<usize, ResolveError>(ResolveError::MismatchedFunctionArgs) ==> forall|c: int|
            0 <= c < cands.len() ==> #[trigger] candidate_distance(cands, name, actual, c) is None,
{
    lemma_scan_best(cands, name, actual, cands.len() as int);
    if let Some(Some((b, d))) = scan(cands, name, actual, cands.len() as int) {
        assert((b as usize) as int == b);
    }
}

/// Once the scan has stopped at two equally close matches, it stays stopped.
proof fn lemma_scan_stops(cands: Seq<(Seq<char>, Seq<GenType>, bool)>, name: Seq<char>, actual: Seq<GenType>, k: int, n: int)
    requires
        k <= n,
        scan(cands, name, actual, k) is None,
    ensures
        scan(cands, name, actual, n) is None,
    decreases n - k,
{
    if k < n {
        lemma_scan_stops(cands, name, actual, k, n - 1);
    }
}

/// Some candidate has the name `name`.
pub open spec fn has_name(cands: Seq<(Seq<char>, Seq<GenType>, bool)>, name: Seq<char>) -> bool {
    exists|k: int| 0 <= k < cands.len() && (#[trigger] cands[k]).0 == name
}

/// The function chosen for a call of `name` with arguments of types `actual`: an error when no
/// candidate has the name, when the scan stops at two equally close matches, or when none
/// matches; else the closest match.
pub open spec fn resolution(cands: Seq<(Seq<char>, Seq<GenType>, bool)>, name: Seq<char>, actual: Seq<GenType>) -> Result<
    usize,
    ResolveError,
> {
    if !has_name(cands, name) {
        Err(ResolveError::NoSuchFunctionName)
    } else {
        match scan(cands, name, actual, cands.len() as int) {
            None => Err(ResolveError::AmbiguousFunctionCall),
            Some(None) => Err(ResolveError::MismatchedFunctionArgs),
            Some(Some((b, _))) => Ok(b as usize),
        }
    }
}

/// The mismatches before `n` are at most `n`.
proof fn lemma_mismatches_bound(expected: Seq<GenType>, actual: Seq<GenType>, n: int)
    ensures
        mismatches(expected, actual, n) <= if n < 0 {
            0
        } else {
            n
        },
    decreases n,
{
    if n > 0 {
        lemma_mismatches_bound(expected, actual, n - 1);
    }
}

impl FunctionMatch {
    /// How far the match is from the call.
    pub fn distance(&self) -> (d: usize)
        requires
            self.num_coerced < usize::MAX,
        ensures
            d == match_distance(self.num_coerced as nat, self.variadic),
            d == self.num_coerced + if self.variadic {
                1int
            } else {
                0int
            },
    {
        let addl: usize = if self.variadic {
            1
        } else {
            0
        };
        self.num_coerced + addl
    }

    /// Whether candidate `candidate`, declared with the argument types `expected` (the last one
    /// repeated when `variadic`), takes arguments of the types `actual`, and with how many
    /// conversions.
    pub fn create(candidate: usize, expected: &Vec<GenType>, variadic: bool, actual: &Vec<GenType>) -> (r: Option<FunctionMatch>)
        ensures
            match coercions(expected@, variadic, actual@) {
                None => r is None,
                Some(n) => r == Some(FunctionMatch { candidate, num_coerced: n as usize, variadic }),
            },
            r matches Some(m) ==> m.num_coerced <= actual@.len(),
    {
        let e = expected.len();
        let a = actual.len();
        if e > a || (a > e && !variadic) {
            return None;
        }
        if e == 0 {
            if a > 0 {
                return None;
            }
            return Some(FunctionMatch { candidate, num_coerced: 0, variadic });
        }
        let mut num_coerced: usize = 0;
        let mut i: usize = 0;
        while i < e
            invariant
                e == expected@.len(),
                a == actual@.len(),
                0 < e <= a,
                0 <= i <= e,
                num_coerced == mismatches(expected@, actual@, i as int),
                num_coerced <= i,
                forall|k: int| 0 <= k < i ==> actual@[k] == expected@[k] || expected@[k] == GenType::String,
            decreases e - i,
        {
            if actual[i] != expected[i] {
                if expected[i] == GenType::String {
                    num_coerced = num_coerced + 1;
                } else {
                    return None;
                }
            }
            i = i + 1;
        }
        assert(fixed_args_fit(expected@, actual@));
        let last = expected[e - 1];
        let mut variadic_conversion_done = false;
        let mut j: usize = e;
        while j < a
            invariant
                e == expected@.len(),
                a == actual@.len(),
                0 < e <= a,
                e <= j <= a,
                last == expected@.last(),
                a > e ==> variadic,
                num_coerced == mismatches(expected@, actual@, e as int) + if variadic_conversion_done {
                    1nat
                } else {
                    0nat
                },
                num_coerced <= j,
                variadic_conversion_done <==> exists|k: int| e <= k < j && actual@[k] != last,
                forall|k: int| e <= k < j ==> actual@[k] == last || last == GenType::String,
            decreases a - j,
        {
            if actual[j] != last {
                if last == GenType::String {
                    if !variadic_conversion_done {
                        num_coerced = num_coerced + 1;
                        variadic_conversion_done = true;
                    }
                } else {
                    return None;
                }
            }
            j = j + 1;
        }
        assert(extra_args_fit(expected@, actual@));
        assert(variadic_conversion_done == extra_arg_converted(expected@, actual@));
        Some(FunctionMatch { candidate, num_coerced, variadic })
    }
}

/// Chooses the function for a call of `function_name` with arguments of the types `actual`
/// among `candidates`: those whose name is the call's, in order, keeping the closest match and
/// failing on two equally close ones.
pub fn call_function_creator(function_name: &String, candidates: &Vec<Candidate>, actual: &Vec<GenType>) -> (r: Result<usize, ResolveError>)
    requires
        actual@.len() < usize::MAX,
    ensures
        r == resolution(candidates_view(candidates@), function_name@, actual@),
        r matches Ok(b) ==> b < candidates@.len(),
{
    let ghost cands = candidates_view(candidates@);
    let mut found = false;
    let mut k: usize = 0;
    while k < candidates.len()
        invariant
            0 <= k <= candidates@.len(),
            cands == candidates_view(candidates@),
            found <==> exists|j: int| 0 <= j < k && (#[trigger] cands[j]).0 == function_name@,
        decreases candidates@.len() - k,
    {
        if candidates[k].name == *function_name {
            assert(cands[k as int].0 == function_name@);
            found = true;
        }
        k = k + 1;
    }
    if !found {
        return Err(ResolveError::NoSuchFunctionName);
    }
    let mut best: Option<(usize, usize)> = None;
    let mut i: usize = 0;
    while i < candidates.len()
        invariant
            0 <= i <= candidates@.len(),
            cands == candidates_view(candidates@),
            has_name(cands, function_name@),
            scan(cands, function_name@, actual@, i as int) == Some(
                match best {
                    None => None::<(int, nat)>,
                    Some((b, d)) => Some((b as int, d as nat)),
                },
            ),
            actual@.len() < usize::MAX,
            best matches Some((b, d)) ==> b < i && d <= actual@.len() + 1,
        decreases candidates@.len() - i,
    {
        let c = &candidates[i];
        assert(candidate_view(*c) == cands[i as int]);
        if c.name == *function_name {
            match FunctionMatch::create(i, &c.arg_types, c.variadic, actual) {
                Some(m) => {
                    proof {
                        lemma_mismatches_bound(c.arg_types@, actual@, c.arg_types@.len() as int);
                    }
                    let d = m.distance();
                    match best {
                        None => {
                            best = Some((i, d));
                        },
                        Some((b, bd)) => {
                            if d < bd {
                                best = Some((i, d));
                            } else if d == bd {
                                proof {
                                    assert(scan(cands, function_name@, actual@, i + 1) is None);
                                    lemma_scan_stops(cands, function_name@, actual@, i + 1, cands.len() as int);
                                }
                                return Err(ResolveError::AmbiguousFunctionCall);
                            }
                        },
                    }
                },
                None => {},
            }
        }
        i = i + 1;
    }
    match best {
        None => Err(ResolveError::MismatchedFunctionArgs),
        Some((b, _)) => Ok(b),
    }
}

} // verus!

//! The functions that the interpreter provides, and how a call of one becomes program nodes.

use vstd::prelude::*;
use crate::ast::GenType;
use crate::prototype::{args_match, proto_arg_types, BuiltinFunctionPrototype, BuiltinKind, FunctionPrototype};
use crate::runtime::{Node, NodeView, Runtime, node_ok};

verus! {

/// The type of the values a builtin generates.
pub open spec fn result_type(kind: BuiltinKind) -> GenType {
    match kind {
        BuiltinKind::BinLength => GenType::Uint,
        BuiltinKind::ToBinary { .. } => GenType::Bin,
        BuiltinKind::Char => GenType::Char,
        BuiltinKind::Env => GenType::String,
        BuiltinKind::String => GenType::String,
        BuiltinKind::StringLength => GenType::Uint,
        BuiltinKind::StringBytes => GenType::Bin,
        BuiltinKind::Concat(t) => t,
        BuiltinKind::Select(t) => t,
        BuiltinKind::StableSelect(t) => t,
        BuiltinKind::RepeatDelimited(t) => t,
        BuiltinKind::Range(t) => t,
        BuiltinKind::Words => GenType::String,
        BuiltinKind::SelectFromFile => GenType::String,
        BuiltinKind::ToString(_) => GenType::String,
        BuiltinKind::Sequence { element, .. } => element,
    }
}

/// The declared argument types of a builtin of kind `kind`.
pub open spec fn kind_args(kind: BuiltinKind) -> Seq<GenType> {
    match kind {
        BuiltinKind::BinLength => seq![GenType::Bin],
        BuiltinKind::ToBinary { number, .. } => seq![number],
        BuiltinKind::Char => seq![GenType::Uint, GenType::Uint],
        BuiltinKind::Env => seq![GenType::String],
        BuiltinKind::String => seq![GenType::Uint, GenType::Uint, GenType::Uint],
        BuiltinKind::StringLength => seq![GenType::String],
        BuiltinKind::StringBytes => seq![GenType::String, GenType::String],
        BuiltinKind::Concat(t) => seq![t],
        BuiltinKind::Select(t) => seq![t],
        BuiltinKind::StableSelect(t) => seq![t],
        BuiltinKind::RepeatDelimited(t) => seq![GenType::Uint, t, t, t, t],
        BuiltinKind::Range(t) => seq![t, t],
        BuiltinKind::Words => seq![],
        BuiltinKind::SelectFromFile => seq![GenType::String, GenType::String],
        BuiltinKind::ToString(t) => seq![t],
        BuiltinKind::Sequence { element, .. } => seq![element],
    }
}

/// Whether a builtin of kind `kind` repeats its last argument.
pub open spec fn kind_variadic(kind: BuiltinKind) -> bool {
    match kind {
        BuiltinKind::Concat(_) => true,
        BuiltinKind::Select(_) => true,
        BuiltinKind::StableSelect(_) => true,
        BuiltinKind::Sequence { .. } => true,
        _ => false,
    }
}

/// Concatenation and repetition are of strings or binaries, and only numbers have an 8-byte
/// binary form.
pub open spec fn well_kinded(kind: BuiltinKind) -> bool {
    match kind {
        BuiltinKind::ToBinary { number, .. } => number == GenType::Uint || number == GenType::Int || number == GenType::Decimal,
        BuiltinKind::Concat(t) => t == GenType::String || t == GenType::Bin,
        BuiltinKind::RepeatDelimited(t) => t == GenType::String || t == GenType::Bin,
        _ => true,
    }
}

/// A builtin prototype declares the arguments and variadicity that its kind is built from.
pub open spec fn builtin_ok(p: BuiltinFunctionPrototype) -> bool {
    &&& proto_arg_types(FunctionPrototype::Builtin(p)) == kind_args(p.kind)
    &&& p.variadic == kind_variadic(p.kind)
    &&& well_kinded(p.kind)
}

/// A call whose arguments match the signature of a builtin can be built, unless the builtin
/// works on decimals.
pub proof fn lemma_matching_call_builds(kind: BuiltinKind, ts: Seq<GenType>)
    requires
        well_kinded(kind),
        !unsupported_kind(kind),
        args_match(kind_args(kind), ts, kind_variadic(kind)),
    ensures
        builds(kind, ts),
{
    let e = kind_args(kind);
    assert(forall|k: int| 0 <= k < e.len() ==> #[trigger] ts[k] == e[k]);
    if kind_variadic(kind) {
        let t = e[0];
        assert(e.len() == 1 && e.last() == t);
        assert forall|j: int| 0 <= j < ts.len() implies #[trigger] ts[j] == t by {
            if j >= 1 {
                assert(ts[j] == e.last());
            } else {
                assert(ts[j] == e[j]);
            }
        }
        assert(all_are(ts, t));
    } else {
        assert(e.len() > 0 ==> ts[0] == e[0]);
        assert(e.len() > 1 ==> ts[1] == e[1]);
        assert(e.len() > 2 ==> ts[2] == e[2]);
        assert(e.len() > 3 ==> ts[3] == e[3]);
        assert(e.len() > 4 ==> ts[4] == e[4]);
    }
}

/// The declared argument types of a builtin of kind `kind`.
fn kind_arg_types(kind: BuiltinKind) -> (v: Vec<GenType>)
    ensures
        v@ == kind_args(kind),
{
    match kind {
        BuiltinKind::BinLength => vec![GenType::Bin],
        BuiltinKind::ToBinary { number, .. } => vec![number],
        BuiltinKind::Char => vec![GenType::Uint, GenType::Uint],
        BuiltinKind::Env => vec![GenType::String],
        BuiltinKind::String => vec![GenType::Uint, GenType::Uint, GenType::Uint],
        BuiltinKind::StringLength => vec![GenType::String],
        BuiltinKind::StringBytes => vec![GenType::String, GenType::String],
        BuiltinKind::Concat(t) => vec![t],
        BuiltinKind::Select(t) => vec![t],
        BuiltinKind::StableSelect(t) => vec![t],
        BuiltinKind::RepeatDelimited(t) => vec![GenType::Uint, t, t, t, t],
        BuiltinKind::Range(t) => vec![t, t],
        BuiltinKind::Words => vec![],
        BuiltinKind::SelectFromFile => vec![GenType::String, GenType::String],
        BuiltinKind::ToString(t) => vec![t],
        BuiltinKind::Sequence { element, .. } => vec![element],
    }
}

/// The prototype of a builtin of kind `kind`, whose arguments are named `names`.
fn proto(
    function_name: &'static str,
    description: &'static str,
    names: Vec<&'static str>,
    kind: BuiltinKind,
) -> (p: BuiltinFunctionPrototype)
    requires
        names@.len() == kind_args(kind).len(),
        well_kinded(kind),
    ensures
        p.function_name == function_name,
        p.description == description,
        p.kind == kind,
        builtin_ok(p),
{
    let types = kind_arg_types(kind);
    let mut arguments: Vec<(&'static str, GenType)> = Vec::new();
    let mut k: usize = 0;
    while k < types.len()
        invariant
            types@ == kind_args(kind),
            names@.len() == types@.len(),
            0 <= k <= types@.len(),
            arguments@.map_values(|a: (&'static str, GenType)| a.1) == types@.take(k as int),
        decreases types@.len() - k,
    {
        let ghost before = arguments@;
        arguments.push((names[k], types[k]));
        assert(arguments@.map_values(|a: (&'static str, GenType)| a.1) =~= before.map_values(
            |a: (&'static str, GenType)| a.1,
        ).push(types@[k as int]));
        assert(types@.take(k as int + 1) =~= types@.take(k as int).push(types@[k as int]));
        k = k + 1;
    }
    assert(types@.take(types@.len() as int) =~= types@);
    BuiltinFunctionPrototype { function_name, description, arguments, variadic: kind_variadic_flag(kind), kind }
}

/// Whether a builtin of kind `kind` repeats its last argument.
fn kind_variadic_flag(kind: BuiltinKind) -> (b: bool)
    ensures
        b == kind_variadic(kind),
{
    match kind {
        BuiltinKind::Concat(_) | BuiltinKind::Select(_) | BuiltinKind::StableSelect(_) | BuiltinKind::Sequence { .. } => true,
        _ => false,
    }
}

const LE_DESCRIPTION: &'static str = "converts the input number into binary with little endian byte order. The binary returned will always be exactly 8 bytes long";

const BE_DESCRIPTION: &'static str = "converts the input number into binary with big endian byte order. The binary returned will always be exactly 8 bytes long";

const SELECT_DESCRIPTION: &'static str = "Randomly selects one of its inputs each time a value is generated";

const STABLE_SELECT_DESCRIPTION: &'static str = "Randomly selects one of its inputs, and then continues to select the same one forever. Note that whichever input is selected may still generate different values.";

const SEQ_DESCRIPTION: &'static str = "Iterates over the given generators in sequence. After it reaches the end, the final generator will continue to be selected forever";

const WRAPPING_SEQ_DESCRIPTION: &'static str = "Iterates over the given generators in sequence, wrapping around after it reaches the end";

const RANGE_DESCRIPTION: &'static str = "Generates a number between the given given minimum (inclusive) and maximum (exclusive)";

const REPEAT_DESCRIPTION: &'static str = "Formats the output by repeating the given generator separated by the delimiter";

/// The prototypes of all builtin functions, in the order in which calls are matched against
/// them; each declares the arguments that its kind is built from.
pub fn builtin_prototypes() -> (fns: Vec<BuiltinFunctionPrototype>)
    ensures
        fns@.len() == 52,
        forall|k: int| 0 <= k < fns@.len() ==> builtin_ok(#[trigger] fns@[k]),
{
    let mut fns: Vec<BuiltinFunctionPrototype> = Vec::new();
    fns.push(proto("bin_length", "returns the length of the given binary as a Uint. Mostly useful in mapped functions", vec!["binary"], BuiltinKind::BinLength));
    fns.push(proto("little_endian", LE_DESCRIPTION, vec!["number"], BuiltinKind::ToBinary { number: GenType::Uint, big_endian: false }));
    fns.push(proto("big_endian", BE_DESCRIPTION, vec!["number"], BuiltinKind::ToBinary { number: GenType::Uint, big_endian: true }));
    fns.push(proto("little_endian", LE_DESCRIPTION, vec!["number"], BuiltinKind::ToBinary { number: GenType::Int, big_endian: false }));
    fns.push(proto("big_endian", BE_DESCRIPTION, vec!["number"], BuiltinKind::ToBinary { number: GenType::Int, big_endian: true }));
    fns.push(proto("little_endian", LE_DESCRIPTION, vec!["number"], BuiltinKind::ToBinary { number: GenType::Decimal, big_endian: false }));
    fns.push(proto("big_endian", BE_DESCRIPTION, vec!["number"], BuiltinKind::ToBinary { number: GenType::Decimal, big_endian: true }));
    fns.push(proto("char", "selects a single random character from within the provided range of unicode codepoints", vec!["min_inclusive", "max_inclusive"], BuiltinKind::Char));
    fns.push(proto("env", "Returns the value of the given env variable, throws an error if the env var is not set", vec!["env_var_name"], BuiltinKind::Env));
    fns.push(proto("string", "constructs a string using the given length and min and max code point values inclusive", vec!["length", "min_codepoint_inclusive", "max_codepoint_inclusive"], BuiltinKind::String));
    fns.push(proto("string_length", "returns the length in utf8-encoded bytes of the generated string", vec!["string"], BuiltinKind::StringLength));
    fns.push(proto("string_bytes", "encodes strings using the given encoding, provided as a WHATWG encoding label", vec!["encoding", "string"], BuiltinKind::StringBytes));
    fns.push(proto("concat", "concatenates the input strings into a single output string", vec!["string_value"], BuiltinKind::Concat(GenType::String)));
    fns.push(proto("concat", "concatenates the input bytes into a single output", vec!["string_value"], BuiltinKind::Concat(GenType::Bin)));
    let selectable = [GenType::Char, GenType::String, GenType::Boolean, GenType::Decimal, GenType::Uint, GenType::Int, GenType::Bin];
    let mut k: usize = 0;
    while k < 7
        invariant
            0 <= k <= 7,
            fns@.len() == 14 + k,
            forall|j: int| 0 <= j < fns@.len() ==> builtin_ok(#[trigger] fns@[j]),
        decreases 7 - k,
    {
        fns.push(proto("select", SELECT_DESCRIPTION, vec!["option"], BuiltinKind::Select(selectable[k])));
        k = k + 1;
    }
    k = 0;
    while k < 7
        invariant
            0 <= k <= 7,
            fns@.len() == 21 + k,
            forall|j: int| 0 <= j < fns@.len() ==> builtin_ok(#[trigger] fns@[j]),
        decreases 7 - k,
    {
        fns.push(proto("stable_select", STABLE_SELECT_DESCRIPTION, vec!["option"], BuiltinKind::StableSelect(selectable[k])));
        k = k + 1;
    }
    fns.push(proto("repeat_delimited", REPEAT_DESCRIPTION, vec!["count", "prefix", "to_repeat", "delimiter", "suffix"], BuiltinKind::RepeatDelimited(GenType::String)));
    fns.push(proto("repeat_delimited", REPEAT_DESCRIPTION, vec!["count", "prefix", "to_repeat", "delimiter", "suffix"], BuiltinKind::RepeatDelimited(GenType::Bin)));
    fns.push(proto("uint", RANGE_DESCRIPTION, vec!["min_inclusive", "max_inclusive"], BuiltinKind::Range(GenType::Uint)));
    fns.push(proto("int", RANGE_DESCRIPTION, vec!["min_inclusive", "max_inclusive"], BuiltinKind::Range(GenType::Int)));
    fns.push(proto("decimal", RANGE_DESCRIPTION, vec!["min_inclusive", "max_inclusive"], BuiltinKind::Range(GenType::Decimal)));
    fns.push(proto("words", "Selects a random word from the unix words file (/usr/share/dict/words or /usr/dict/words)", vec![], BuiltinKind::Words));
    fns.push(proto("select_from_file", "Selects random regions from the given file, using the given delimiter (most commonly a newline)", vec!["filepath", "delimiter"], BuiltinKind::SelectFromFile));
    let printable = [GenType::Boolean, GenType::Char, GenType::Decimal, GenType::Int, GenType::Uint];
    k = 0;
    while k < 5
        invariant
            0 <= k <= 5,
            fns@.len() == 35 + k,
            forall|j: int| 0 <= j < fns@.len() ==> builtin_ok(#[trigger] fns@[j]),
        decreases 5 - k,
    {
        fns.push(proto("to_string", "Converts its input to a string using the default formating", vec!["fun"], BuiltinKind::ToString(printable[k])));
        k = k + 1;
    }
    let sequenced = [GenType::Char, GenType::String, GenType::Bin, GenType::Uint, GenType::Int, GenType::Decimal];
    k = 0;
    while k < 6
        invariant
            0 <= k <= 6,
            fns@.len() == 40 + 2 * k,
            forall|j: int| 0 <= j < fns@.len() ==> builtin_ok(#[trigger] fns@[j]),
        decreases 6 - k,
    {
        fns.push(proto("wrapping_sequence", WRAPPING_SEQ_DESCRIPTION, vec!["generator"], BuiltinKind::Sequence { element: sequenced[k], wrapping: true }));
        fns.push(proto("sequence", SEQ_DESCRIPTION, vec!["generator"], BuiltinKind::Sequence { element: sequenced[k], wrapping: false }));
        k = k + 1;
    }
    fns
}

/// Argument `k` when it exists and has type `t`.
fn arg_of(rt: &Runtime, args: &Vec<usize>, k: usize, t: GenType) -> (r: Option<usize>)
    requires
        rt.wf(),
        forall|j: int| 0 <= j < args@.len() ==> #[trigger] args@[j] < rt.node_views().len(),
    ensures
        r is Some <==> arg_is(types_of(*rt, args@), k as int, t),
        r matches Some(i) ==> k < args@.len() && i == args@[k as int] && rt.node_types()[i as int] == t,
{
    if k < args.len() && rt.type_of(args[k]) == t {
        Some(args[k])
    } else {
        None
    }
}

/// All the arguments, when there is at least one and all have type `t`.
fn all_args_of(rt: &Runtime, args: &Vec<usize>, t: GenType) -> (r: Option<Vec<usize>>)
    requires
        rt.wf(),
        forall|j: int| 0 <= j < args@.len() ==> #[trigger] args@[j] < rt.node_views().len(),
    ensures
        r is Some <==> all_are(types_of(*rt, args@), t),
        r matches Some(v) ==> v@ == args@ && v@.len() > 0 && forall|j: int|
            0 <= j < v@.len() ==> rt.node_types()[(#[trigger] v@[j]) as int] == t,
{
    let ghost ts = types_of(*rt, args@);
    if args.len() == 0 {
        return None;
    }
    let mut v: Vec<usize> = Vec::new();
    let mut k: usize = 0;
    while k < args.len()
        invariant
            rt.wf(),
            forall|j: int| 0 <= j < args@.len() ==> #[trigger] args@[j] < rt.node_views().len(),
            0 <= k <= args@.len(),
            v@ == args@.take(k as int),
            ts == types_of(*rt, args@),
            forall|j: int| 0 <= j < v@.len() ==> rt.node_types()[(#[trigger] v@[j]) as int] == t,
        decreases args@.len() - k,
    {
        if rt.type_of(args[k]) != t {
            assert(ts[k as int] != t);
            return None;
        }
        v.push(args[k]);
        k = k + 1;
        assert(v@ =~= args@.take(k as int));
    }
    assert(args@.take(args@.len() as int) =~= args@);
    assert forall|j: int| 0 <= j < ts.len() implies #[trigger] ts[j] == t by {
        assert(v@[j] == args@[j]);
    }
    Some(v)
}

/// The refusal of arguments that do not fit a builtin.
pub open spec fn bad_arguments_text(name: Seq<char>) -> Seq<char> {
    "Invalid arguments for builtin function '"@ + name + "'"@
}

/// The refusal of a builtin that works on decimals, which have no values here.
pub open spec fn unsupported_text() -> Seq<char> {
    "Decimal values are not supported"@
}

/// The builtin cannot be built whatever its arguments: it works on decimals (or on a type it
/// has no form for).
pub open spec fn unsupported_kind(kind: BuiltinKind) -> bool {
    match kind {
        BuiltinKind::ToBinary { number, .. } => number == GenType::Decimal,
        BuiltinKind::Select(t) => t == GenType::Decimal,
        BuiltinKind::StableSelect(t) => t == GenType::Decimal,
        BuiltinKind::Range(t) => t != GenType::Uint && t != GenType::Int,
        BuiltinKind::ToString(t) => t != GenType::Boolean && t != GenType::Char && t != GenType::Int && t != GenType::Uint,
        BuiltinKind::Sequence { element, .. } => element == GenType::Decimal,
        _ => false,
    }
}

/// Argument `k` exists and has type `t`.
pub open spec fn arg_is(ts: Seq<GenType>, k: int, t: GenType) -> bool {
    k < ts.len() && ts[k] == t
}

/// There is at least one argument, and all have type `t`.
pub open spec fn all_are(ts: Seq<GenType>, t: GenType) -> bool {
    ts.len() > 0 && forall|j: int| 0 <= j < ts.len() ==> #[trigger] ts[j] == t
}

/// The builtin `kind` can be built on arguments of types `ts`.
pub open spec fn builds(kind: BuiltinKind, ts: Seq<GenType>) -> bool {
    !unsupported_kind(kind) && match kind {
        BuiltinKind::BinLength => arg_is(ts, 0, GenType::Bin),
        BuiltinKind::ToBinary { number, .. } => (number == GenType::Uint || number == GenType::Int) && arg_is(ts, 0, number),
        BuiltinKind::Char => arg_is(ts, 0, GenType::Uint) && arg_is(ts, 1, GenType::Uint),
        BuiltinKind::Env => arg_is(ts, 0, GenType::String),
        BuiltinKind::String => arg_is(ts, 0, GenType::Uint) && arg_is(ts, 1, GenType::Uint) && arg_is(ts, 2, GenType::Uint),
        BuiltinKind::StringLength => arg_is(ts, 0, GenType::String),
        BuiltinKind::StringBytes => arg_is(ts, 0, GenType::String) && arg_is(ts, 1, GenType::String),
        BuiltinKind::Concat(t) => (t == GenType::String || t == GenType::Bin) && all_are(ts, t),
        BuiltinKind::Select(t) => all_are(ts, t),
        BuiltinKind::StableSelect(t) => all_are(ts, t),
        BuiltinKind::RepeatDelimited(t) => (t == GenType::String || t == GenType::Bin) && arg_is(ts, 0, GenType::Uint)
            && arg_is(ts, 1, t) && arg_is(ts, 2, t) && arg_is(ts, 3, t) && arg_is(ts, 4, t),
        BuiltinKind::Range(t) => arg_is(ts, 0, t) && arg_is(ts, 1, t),
        BuiltinKind::Words => true,
        BuiltinKind::SelectFromFile => arg_is(ts, 0, GenType::String) && arg_is(ts, 1, GenType::String),
        BuiltinKind::ToString(t) => arg_is(ts, 0, t),
        BuiltinKind::Sequence { element, .. } => all_are(ts, element),
    }
}

/// The node that builds the builtin `kind` on the argument nodes `a`.
pub open spec fn built_node(kind: BuiltinKind, a: Seq<usize>) -> NodeView {
    match kind {
        BuiltinKind::BinLength => NodeView::BinLength(a[0]),
        BuiltinKind::ToBinary { big_endian, .. } => NodeView::ToBinary { number: a[0], big_endian },
        BuiltinKind::Char => NodeView::CharGen { min: a[0], max: a[1] },
        BuiltinKind::Env => NodeView::Env(a[0]),
        BuiltinKind::String => NodeView::StringGen { length: a[0], min: a[1], max: a[2] },
        BuiltinKind::StringLength => NodeView::StringLength(a[0]),
        BuiltinKind::StringBytes => NodeView::StringBytes { encoding: a[0], string: a[1] },
        BuiltinKind::Concat(_) => NodeView::Concat(a),
        BuiltinKind::Select(_) => NodeView::Select(a),
        BuiltinKind::StableSelect(_) => NodeView::StableSelect(a),
        BuiltinKind::RepeatDelimited(_) => NodeView::RepeatDelimited {
            count: a[0],
            prefix: a[1],
            repeated: a[2],
            delimiter: a[3],
            suffix: a[4],
        },
        BuiltinKind::Range(t) => if t == GenType::Uint {
            NodeView::UintRange { min: a[0], max: a[1] }
        } else {
            NodeView::IntRange { min: a[0], max: a[1] }
        },
        BuiltinKind::Words => NodeView::Words,
        BuiltinKind::SelectFromFile => NodeView::SelectFromFile { path: a[0], delimiter: a[1] },
        BuiltinKind::ToString(_) => NodeView::ToString(a[0]),
        BuiltinKind::Sequence { wrapping, .. } => NodeView::Sequence { values: a, wrapping },
    }
}

/// The types of the nodes `a`.
pub open spec fn types_of(rt: Runtime, a: Seq<usize>) -> Seq<GenType> {
    a.map_values(|i: usize| rt.node_types()[i as int])
}

fn bad_arguments(name: &str) -> (s: String)
    ensures
        s@ == bad_arguments_text(name@),
{
    let mut s = String::from_str("Invalid arguments for builtin function '");
    s.append(name);
    s.append("'");
    s
}

/// Adds the nodes of a call of the builtin `kind` on the argument nodes `args`, and gives the
/// node that the call generates from. Arguments of the wrong number or type are refused.
#[verifier::rlimit(60)]
pub fn create_builtin(kind: BuiltinKind, name: &str, args: &Vec<usize>, rt: &mut Runtime) -> (r: Result<usize, String>)
    requires
        old(rt).wf(),
        forall|j: int| 0 <= j < args@.len() ==> #[trigger] args@[j] < old(rt).node_views().len(),
        old(rt).node_views().len() + 1 < usize::MAX,
    ensures
        final(rt).wf(),
        final(rt).extends(old(rt)),
        r is Ok <==> builds(kind, types_of(*old(rt), args@)),
        r matches Ok(i) ==> i < final(rt).node_views().len() && final(rt).node_types()[i as int] == result_type(kind),
        r matches Ok(i) ==> i == old(rt).node_views().len() && final(rt).node_views() == old(rt).node_views().push(
            built_node(kind, args@),
        ),
        r matches Err(m) ==> *final(rt) == *old(rt) && m@ == if unsupported_kind(kind) {
            unsupported_text()
        } else {
            bad_arguments_text(name@)
        },
{
    proof {
        rt.lemma_wf();
    }
    match kind {
        BuiltinKind::BinLength => {
            match arg_of(rt, args, 0, GenType::Bin) {
                Some(b) => Ok(rt.add(Node::BinLength(b), GenType::Uint)),
                None => Err(bad_arguments(name)),
            }
        },
        BuiltinKind::ToBinary { number, big_endian } => {
            if number == GenType::Decimal {
                return Err(String::from_str("Decimal values are not supported"));
            }
            if number != GenType::Uint && number != GenType::Int {
                return Err(bad_arguments(name));
            }
            match arg_of(rt, args, 0, number) {
                Some(x) => Ok(rt.add(Node::ToBinary { number: x, big_endian }, GenType::Bin)),
                None => Err(bad_arguments(name)),
            }
        },
        BuiltinKind::Char => {
            match (arg_of(rt, args, 0, GenType::Uint), arg_of(rt, args, 1, GenType::Uint)) {
                (Some(a), Some(b)) => Ok(rt.add(Node::CharGen { min: a, max: b }, GenType::Char)),
                _ => Err(bad_arguments(name)),
            }
        },
        BuiltinKind::Env => {
            match arg_of(rt, args, 0, GenType::String) {
                Some(a) => Ok(rt.add(Node::Env(a), GenType::String)),
                None => Err(bad_arguments(name)),
            }
        },
        BuiltinKind::String => {
            match (arg_of(rt, args, 0, GenType::Uint), arg_of(rt, args, 1, GenType::Uint), arg_of(rt, args, 2, GenType::Uint)) {
                (Some(l), Some(a), Some(b)) => Ok(rt.add(Node::StringGen { length: l, min: a, max: b }, GenType::String)),
                _ => Err(bad_arguments(name)),
            }
        },
        BuiltinKind::StringLength => {
            match arg_of(rt, args, 0, GenType::String) {
                Some(a) => Ok(rt.add(Node::StringLength(a), GenType::Uint)),
                None => Err(bad_arguments(name)),
            }
        },
        BuiltinKind::StringBytes => {
            match (arg_of(rt, args, 0, GenType::String), arg_of(rt, args, 1, GenType::String)) {
                (Some(e), Some(s)) => Ok(rt.add(Node::StringBytes { encoding: e, string: s }, GenType::Bin)),
                _ => Err(bad_arguments(name)),
            }
        },
        BuiltinKind::Concat(t) => {
            if t != GenType::String && t != GenType::Bin {
                return Err(bad_arguments(name));
            }
            match all_args_of(rt, args, t) {
                Some(ps) => Ok(rt.add(Node::Concat(ps), t)),
                None => Err(bad_arguments(name)),
            }
        },
        BuiltinKind::Select(t) | BuiltinKind::StableSelect(t) => {
            if t == GenType::Decimal {
                return Err(String::from_str("Decimal values are not supported"));
            }
            match all_args_of(rt, args, t) {
                Some(os) => {
                    let stable = match kind {
                        BuiltinKind::StableSelect(_) => true,
                        _ => false,
                    };
                    let node = if stable { Node::StableSelect(os) } else { Node::Select(os) };
                    Ok(rt.add(node, t))
                },
                None => Err(bad_arguments(name)),
            }
        },
        BuiltinKind::RepeatDelimited(t) => {
            if t != GenType::String && t != GenType::Bin {
                return Err(bad_arguments(name));
            }
            match (
                arg_of(rt, args, 0, GenType::Uint),
                arg_of(rt, args, 1, t),
                arg_of(rt, args, 2, t),
                arg_of(rt, args, 3, t),
                arg_of(rt, args, 4, t),
            ) {
                (Some(c), Some(p), Some(x), Some(d), Some(s)) => Ok(rt.add(
                    Node::RepeatDelimited { count: c, prefix: p, repeated: x, delimiter: d, suffix: s },
                    t,
                )),
                _ => Err(bad_arguments(name)),
            }
        },
        BuiltinKind::Range(t) => {
            if t == GenType::Uint {
                match (arg_of(rt, args, 0, t), arg_of(rt, args, 1, t)) {
                    (Some(a), Some(b)) => Ok(rt.add(Node::UintRange { min: a, max: b }, t)),
                    _ => Err(bad_arguments(name)),
                }
            } else if t == GenType::Int {
                match (arg_of(rt, args, 0, t), arg_of(rt, args, 1, t)) {
                    (Some(a), Some(b)) => Ok(rt.add(Node::IntRange { min: a, max: b }, t)),
                    _ => Err(bad_arguments(name)),
                }
            } else {
                Err(String::from_str("Decimal values are not supported"))
            }
        },
        BuiltinKind::Words => Ok(rt.add(Node::Words, GenType::String)),
        BuiltinKind::SelectFromFile => {
            match (arg_of(rt, args, 0, GenType::String), arg_of(rt, args, 1, GenType::String)) {
                (Some(p), Some(d)) => Ok(rt.add(Node::SelectFromFile { path: p, delimiter: d }, GenType::String)),
                _ => Err(bad_arguments(name)),
            }
        },
        BuiltinKind::ToString(t) => {
            if t != GenType::Boolean && t != GenType::Char && t != GenType::Int && t != GenType::Uint {
                return Err(String::from_str("Decimal values are not supported"));
            }
            match arg_of(rt, args, 0, t) {
                Some(a) => Ok(rt.add(Node::ToString(a), GenType::String)),
                None => Err(bad_arguments(name)),
            }
        },
        BuiltinKind::Sequence { element, wrapping } => {
            if element == GenType::Decimal {
                return Err(String::from_str("Decimal values are not supported"));
            }
            match all_args_of(rt, args, element) {
                Some(vs) => Ok(rt.add(Node::Sequence { values: vs, wrapping }, element)),
                None => Err(bad_arguments(name)),
            }
        },
    }
}

} // verus!

use std::sync::Arc;

use dgen::ast::{GenType, Span};
use dgen::choice::{
    create_arg, create_either, create_one_of, create_stable_select, EitherFreqFun, EitherFun, OneOfString, OneOfUint,
    StableSelectFun,
};
use dgen::context::{ProgramContext, Verbosity};
use dgen::errors::SourceRef;
use dgen::program::RAND_SEED;
use dgen::resolve::{call_function_creator, Candidate, FunctionMatch, ResolveError};
use dgen::runtime::{Node, Runtime};
use dgen::source::{Source, UnreadSource};
use dgen::value::Value;

fn cand(name: &str, arg_types: Vec<GenType>, variadic: bool) -> Candidate {
    Candidate { name: String::from(name), arg_types, variadic }
}

#[test]
fn exact_arguments_match_without_conversions() {
    let m = FunctionMatch::create(0, &vec![GenType::Uint, GenType::Char], false, &vec![GenType::Uint, GenType::Char]);
    assert_eq!(m, Some(FunctionMatch { candidate: 0, num_coerced: 0, variadic: false }));
    assert_eq!(m.unwrap().distance(), 0);
}

#[test]
fn string_arguments_take_any_type_by_conversion() {
    let m = FunctionMatch::create(3, &vec![GenType::String, GenType::String], false, &vec![GenType::Uint, GenType::String]);
    assert_eq!(m, Some(FunctionMatch { candidate: 3, num_coerced: 1, variadic: false }));
}

#[test]
fn mismatched_or_missing_arguments_do_not_match() {
    assert_eq!(FunctionMatch::create(0, &vec![GenType::Uint], false, &vec![GenType::Char]), None);
    assert_eq!(FunctionMatch::create(0, &vec![GenType::Uint, GenType::Uint], false, &vec![GenType::Uint]), None);
    assert_eq!(FunctionMatch::create(0, &vec![GenType::Uint], false, &vec![GenType::Uint, GenType::Uint]), None);
    assert_eq!(FunctionMatch::create(0, &vec![], true, &vec![GenType::Uint]), None);
    assert!(FunctionMatch::create(0, &vec![], false, &vec![]).is_some());
}

#[test]
fn repeated_arguments_count_one_conversion_at_most() {
    let m = FunctionMatch::create(
        1,
        &vec![GenType::String],
        true,
        &vec![GenType::Uint, GenType::Char, GenType::Boolean, GenType::String],
    )
    .unwrap();
    assert_eq!(m.num_coerced, 2);
    assert_eq!(m.distance(), 3);
}

#[test]
fn closest_function_is_chosen() {
    let cands = vec![
        cand("f", vec![GenType::String], false),
        cand("g", vec![GenType::Uint], false),
        cand("f", vec![GenType::Uint], false),
    ];
    assert_eq!(call_function_creator(&String::from("f"), &cands, &vec![GenType::Uint]), Ok(2));
    assert_eq!(call_function_creator(&String::from("f"), &cands, &vec![GenType::Char]), Ok(0));
}

#[test]
fn unknown_name_ambiguity_and_mismatch_are_errors() {
    let cands = vec![cand("f", vec![GenType::String], false), cand("f", vec![GenType::String], false)];
    assert_eq!(
        call_function_creator(&String::from("h"), &cands, &vec![GenType::Uint]),
        Err(ResolveError::NoSuchFunctionName)
    );
    assert_eq!(
        call_function_creator(&String::from("f"), &cands, &vec![GenType::Uint]),
        Err(ResolveError::AmbiguousFunctionCall)
    );
    let cands2 = vec![cand("f", vec![GenType::Uint], false)];
    assert_eq!(
        call_function_creator(&String::from("f"), &cands2, &vec![GenType::Char]),
        Err(ResolveError::MismatchedFunctionArgs)
    );
}

fn constants(rt: &mut Runtime) -> (usize, usize, usize) {
    let a = rt.add(Node::Const(Value::Uint(5)), GenType::Uint);
    let b = rt.add(Node::Const(Value::String(String::from("x"))), GenType::String);
    let c = rt.add(Node::Const(Value::Uint(7)), GenType::Uint);
    (a, b, c)
}

#[test]
fn one_of_arguments_of_one_type_keeps_the_type() {
    let mut rt = Runtime::new();
    let (a, _, c) = constants(&mut rt);
    let i = create_one_of(&vec![a, c], &mut rt).unwrap();
    assert_eq!(rt.type_of(i), GenType::Uint);
    let mut ctx = ProgramContext::from_seed(RAND_SEED, Verbosity::normal());
    let mut seen = Vec::new();
    for _ in 0..40 {
        match rt.gen(i, &mut ctx) {
            Ok(Value::Uint(n)) => seen.push(n),
            _ => panic!("expected a number"),
        }
    }
    assert!(seen.iter().all(|n| *n == 5 || *n == 7));
    assert!(seen.contains(&5) && seen.contains(&7));
}

#[test]
fn one_of_arguments_of_different_types_gives_text() {
    let mut rt = Runtime::new();
    let (a, b, _) = constants(&mut rt);
    let i = create_one_of(&vec![a, b], &mut rt).unwrap();
    assert_eq!(rt.type_of(i), GenType::String);
    let mut ctx = ProgramContext::from_seed(RAND_SEED, Verbosity::normal());
    for _ in 0..20 {
        match rt.gen(i, &mut ctx) {
            Ok(Value::String(s)) => assert!(s == "5" || s == "x"),
            _ => panic!("expected text"),
        }
    }
}

#[test]
fn one_of_nothing_or_binaries_as_text_is_refused() {
    let mut rt = Runtime::new();
    assert!(create_one_of(&vec![], &mut rt).is_err());
    let (a, _, _) = constants(&mut rt);
    let bin = rt.add(Node::Const(Value::Bin(vec![1, 2])), GenType::Bin);
    assert!(create_one_of(&vec![a, bin], &mut rt).is_err());
    assert!(create_one_of(&vec![bin, bin], &mut rt).is_ok());
}

#[test]
fn stable_select_of_mixed_types_keeps_one_option() {
    let mut rt = Runtime::new();
    let (a, b, _) = constants(&mut rt);
    let i = create_stable_select(&vec![a, b], &mut rt).unwrap();
    assert_eq!(rt.type_of(i), GenType::String);
    let mut ctx = ProgramContext::from_seed(RAND_SEED, Verbosity::normal());
    let first = match rt.gen(i, &mut ctx) {
        Ok(Value::String(s)) => s,
        _ => panic!("expected text"),
    };
    for _ in 0..20 {
        match rt.gen(i, &mut ctx) {
            Ok(Value::String(s)) => assert_eq!(s, first),
            _ => panic!("expected text"),
        }
    }
}

#[test]
fn either_takes_two_arguments() {
    let mut rt = Runtime::new();
    let (a, b, c) = constants(&mut rt);
    let i = create_either(&vec![a, c], &mut rt).unwrap();
    assert_eq!(rt.type_of(i), GenType::Uint);
    let j = create_either(&vec![a, b], &mut rt).unwrap();
    assert_eq!(rt.type_of(j), GenType::String);
    assert_eq!(create_either(&vec![a, b, c], &mut rt), Err(String::from("Decimal values are not supported")));
    assert!(create_either(&vec![a], &mut rt).is_err());
}

#[test]
fn mapped_argument_holds_one_value_until_reset() {
    let mut rt = Runtime::new();
    let (a, _, _) = constants(&mut rt);
    let n = rt.len();
    let m = create_arg(&mut rt, a).unwrap();
    assert_eq!(m, n);
    assert_eq!(rt.type_of(m), GenType::Uint);
    let mut ctx = ProgramContext::from_seed(RAND_SEED, Verbosity::normal());
    assert!(matches!(rt.gen(m, &mut ctx), Ok(Value::Uint(5))));
}

fn source_ref() -> SourceRef {
    let source = match Source::read(UnreadSource::String(String::from("f(1)"))) {
        Ok(s) => s,
        Err(_) => panic!("a string source is always read"),
    };
    SourceRef { source: Arc::new(source), span: Span { start: 0, end: 4 } }
}

#[test]
fn first_error_message_is_kept_and_frames_stack_up() {
    let mut ctx = ProgramContext::from_seed(RAND_SEED, Verbosity::normal());
    let r = source_ref();
    ctx.error(&String::from("inner"), &r, "first");
    ctx.error(&String::from("outer"), &r, "second");
    let e = ctx.reset_error().expect("an error was recorded");
    assert_eq!(e.error_message, "Program Runtime Error: first");
    let names: Vec<&str> = e.stacktrace.iter().map(|f| f.function_name.as_str()).collect();
    assert_eq!(names, vec!["inner", "outer"]);
    assert!(ctx.reset_error().is_none());
    ctx.error(&String::from("again"), &r, "third");
    assert_eq!(ctx.reset_error().unwrap().error_message, "Program Runtime Error: third");
}

#[test]
fn choosing_functions_declare_their_signatures() {
    assert_eq!(OneOfUint.get_name(), "one_of");
    assert_eq!(OneOfUint.get_arg_types(), (vec![GenType::Uint], true));
    assert_eq!(OneOfString.get_arg_types(), (vec![GenType::String], true));
    assert_eq!(EitherFun.get_name(), "either");
    assert_eq!(EitherFun.get_arg_types(), (vec![GenType::String, GenType::String], false));
    assert_eq!(EitherFreqFun.get_arg_types(), (vec![GenType::Decimal, GenType::String, GenType::String], false));
    assert_eq!(StableSelectFun.get_name(), "stable_select");
    assert!(StableSelectFun.get_description().starts_with("Randomly selects one of it's inputs"));
}

#[test]
fn choosing_functions_resolve_by_closeness() {
    let cands = vec![
        Candidate { name: String::from(OneOfUint.get_name()), arg_types: OneOfUint.get_arg_types().0, variadic: true },
        Candidate { name: String::from(OneOfString.get_name()), arg_types: OneOfString.get_arg_types().0, variadic: true },
    ];
    let name = String::from("one_of");
    assert_eq!(call_function_creator(&name, &cands, &vec![GenType::Uint, GenType::Uint]), Ok(0));
    assert_eq!(call_function_creator(&name, &cands, &vec![GenType::Uint, GenType::Char]), Ok(1));
    let mut rt = Runtime::new();
    let (a, b, c) = constants(&mut rt);
    let i = OneOfUint.create(&vec![a, c], &mut rt).unwrap();
    assert_eq!(rt.type_of(i), GenType::Uint);
    let j = OneOfString.create(&vec![a, b], &mut rt).unwrap();
    assert_eq!(rt.type_of(j), GenType::String);
    let k = StableSelectFun.create(&vec![b, c], &mut rt).unwrap();
    assert_eq!(rt.type_of(k), GenType::String);
    let l = EitherFun.create(&vec![a, c], &mut rt).unwrap();
    assert_eq!(rt.type_of(l), GenType::Uint);
    let n = rt.len();
    assert_eq!(EitherFreqFun.create(&vec![a, b, c], &mut rt), Err(String::from("Decimal values are not supported")));
    assert_eq!(rt.len(), n);
}

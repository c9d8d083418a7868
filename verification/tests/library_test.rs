use dgen::ast::{process_string_escapes, Expr, GenType, Span, WithSpan};
use dgen::parser::{parse_program, ExprParser};
use dgen::cli::{seed_from_text, CliOptions};
use dgen::compiler::split_module_and_function;
use dgen::context::{ProgramContext, Verbosity};
use dgen::csv::CsvFormatter;
use dgen::files::{find_region_offsets, region_bounds};
use dgen::interpreter::{DgenError, Interpreter};
use dgen::lexer::{Delimiter, Lexer, Token};
use dgen::program::{run_program, Runner, RAND_SEED};
use dgen::prototype::do_arguments_match;
use dgen::runtime::sequence_index;
use dgen::source::UnreadSource;

fn output(iterations: u64, program: &str) -> String {
    let bytes = run_program(iterations, program).map_err(|e| e.message()).expect("Failed to run program");
    String::from_utf8(bytes).expect("program results were not valid utf8")
}

fn error_of(program: &str) -> DgenError {
    match run_program(1, program) {
        Ok(_) => panic!("expected the program to fail: {}", program),
        Err(e) => e,
    }
}

fn run_with_context(iterations: u64, program: &str, context: ProgramContext) -> Result<Vec<u8>, DgenError> {
    let mut runner = Runner::new(iterations, String::from(program), context, Interpreter::new());
    runner.add_std_lib()?;
    let mut out = Vec::new();
    runner.run(&mut out)?;
    Ok(out)
}

#[test]
fn sequence_gives_its_options_in_order_then_the_last_forever() {
    assert_eq!(output(5, r#"sequence("a", "b", "c")"#), "abccc");
}

#[test]
fn wrapping_sequence_starts_over_after_the_last_option() {
    assert_eq!(output(7, r#"wrapping_sequence("a", "b", "c")"#), "abcabca");
}

#[test]
fn sequence_positions() {
    assert_eq!(sequence_index(0, 3, false), 0);
    assert_eq!(sequence_index(1, 3, false), 1);
    assert_eq!(sequence_index(7, 3, false), 2);
    assert_eq!(sequence_index(7, 3, true), 1);
    assert_eq!(sequence_index(3, 3, true), 0);
}

#[test]
fn stable_select_keeps_the_option_it_chose() {
    let s = output(20, r#"stable_select("a", "b", "c", "d")"#);
    let first = &s[0..1];
    assert_eq!(s, first.repeat(20));
}

#[test]
fn big_endian_bytes_are_little_endian_bytes_reversed() {
    let be = run_program(1, "big_endian(258)").map_err(|e| e.message()).unwrap();
    let mut le = run_program(1, "little_endian(258)").map_err(|e| e.message()).unwrap();
    assert_eq!(le, vec![2, 1, 0, 0, 0, 0, 0, 0]);
    le.reverse();
    assert_eq!(be, le);
}

#[test]
fn a_mapper_sees_one_value_in_every_use() {
    let s = output(10, r#"uint(0, 1000000) { x -> concat(to_string(x), "=", to_string(x), ";") }"#);
    let parts: Vec<&str> = s.split(';').filter(|p| !p.is_empty()).collect();
    assert_eq!(parts.len(), 10);
    for part in parts {
        let halves: Vec<&str> = part.split('=').collect();
        assert_eq!(halves.len(), 2);
        assert_eq!(halves[0], halves[1]);
    }
}

#[test]
fn string_length_counts_utf8_bytes() {
    assert_eq!(output(1, r#"string_length("é€")"#), "5");
}

#[test]
fn to_string_writes_booleans_and_numbers() {
    assert_eq!(output(1, "to_string(true)"), "true");
    assert_eq!(output(1, "to_string(-42)"), "-42");
}

#[test]
fn concat_joins_its_parts() {
    assert_eq!(output(1, r#"concat("ab", "cd", "e")"#), "abcde");
}

#[test]
fn repeat_delimited_writes_prefix_items_and_suffix() {
    assert_eq!(output(1, r#"repeat_delimited(3, "[", "x", ",", "]")"#), "[x,x,x]");
    assert_eq!(output(1, r#"repeat_delimited(0, "[", "x", ",", "]")"#), "[]");
}

#[test]
fn uint_range_with_equal_bounds_gives_that_number() {
    assert_eq!(output(3, "uint(7, 7)"), "777");
}

#[test]
fn int_range_stays_between_its_bounds() {
    let s = output(50, r#"concat(to_string(int(-5, +5)), ",")"#);
    for part in s.split(',').filter(|p| !p.is_empty()) {
        let n: i64 = part.parse().expect("not a number");
        assert!(-5 <= n && n <= 5);
    }
}

#[test]
fn char_range_stays_between_its_bounds() {
    let s = output(50, "char(97, 99)");
    assert_eq!(s.chars().count(), 50);
    assert!(s.chars().all(|c| 'a' <= c && c <= 'c'));
}

#[test]
fn random_string_value_has_the_drawn_number_of_chars() {
    assert_eq!(output(1, "string(5, 97, 97)"), "aaaaa");
    assert_eq!(output(1, "string_length(string(4, 233, 233))"), "8");
}

#[test]
fn written_random_string_has_the_drawn_number_of_chars() {
    assert_eq!(output(1, "string(4, 233, 233)"), "éééé");
    assert_eq!(output(1, "string(3, 233, 233)"), "ééé");
    assert_eq!(output(1, "string(0, 233, 233)"), "");
}

#[test]
fn string_bytes_encodes_with_the_labelled_encoding() {
    let utf8 = run_program(1, r#"string_bytes("utf-8", "é")"#).map_err(|e| e.message()).unwrap();
    assert_eq!(utf8, vec![0xC3, 0xA9]);
    let utf16 = run_program(1, r#"string_bytes("utf-16be", "a")"#).map_err(|e| e.message()).unwrap();
    assert_eq!(utf16, vec![0x00, 0x61]);
}

#[test]
fn unknown_function_is_a_compile_error() {
    let e = error_of("no_such_function(1)");
    assert!(matches!(e, DgenError::Compile(_)));
    assert!(e.message().contains("No such method with signature: no_such_function(Uint)"));
}

#[test]
fn unknown_argument_is_a_compile_error() {
    let e = error_of("def f(a: Uint) = b; f(1)");
    assert!(matches!(e, DgenError::Compile(_)));
    assert!(e.message().contains("No such argument 'b' is in scope here"));
}

#[test]
fn unknown_module_is_a_compile_error() {
    let e = error_of("nomodule.foo(1)");
    assert!(matches!(e, DgenError::Compile(_)));
    assert!(e.message().contains("No such module: 'nomodule'"));
}

#[test]
fn decimal_literal_is_refused() {
    let e = error_of("1.5");
    assert!(matches!(e, DgenError::Compile(_)));
    assert!(e.message().contains("Decimal values are not supported"));
}

#[test]
fn invalid_code_point_is_a_runtime_error() {
    let e = error_of("char(55296, 55296)");
    assert!(matches!(e, DgenError::Runtime(_)));
    assert!(e.message().contains("Invalid unicode codepoint: 55296, generated from range: min_inclusive: 55296, max_inclusive: 55296"));
}

#[test]
fn missing_env_var_is_a_runtime_error() {
    let e = error_of(r#"env("DGEN_NO_SUCH_VARIABLE")"#);
    assert!(matches!(e, DgenError::Runtime(_)));
    assert!(e.message().contains("No such env variable: 'DGEN_NO_SUCH_VARIABLE'"));
}

#[test]
fn unknown_encoding_label_is_a_runtime_error() {
    let e = error_of(r#"string_bytes("no-such-encoding", "x")"#);
    assert!(matches!(e, DgenError::Runtime(_)));
    assert!(e.message().contains("Invalid encoding label: 'no-such-encoding'"));
}

#[test]
fn words_without_a_words_file_is_a_runtime_error() {
    let e = error_of("words()");
    assert!(matches!(e, DgenError::Runtime(_)));
    assert!(e.message().contains("Could not find a words file"));
}

#[test]
fn syntax_error_is_a_parse_error() {
    let e = error_of("concat(");
    assert!(matches!(e, DgenError::Parse(_)));
    assert!(e.message().starts_with("Error parsing '"));
}

#[test]
fn program_without_an_expression_is_refused() {
    let e = error_of("def f() = 1;");
    assert!(matches!(e, DgenError::NoExpression));
}

#[test]
fn two_definitions_with_one_signature_are_refused() {
    let e = error_of("def f() = 1; def f() = 2; f()");
    assert!(matches!(e, DgenError::Module(_)));
    assert!(e.message().contains("contains multiple functions with the same signature"));
}

#[test]
fn env_reads_the_variables_of_the_context() {
    let mut context = ProgramContext::from_seed(RAND_SEED, Verbosity::normal());
    context.set_env_vars(vec![(String::from("MY_VAR"), String::from("value"))]);
    let out = run_with_context(2, r#"env("MY_VAR")"#, context).map_err(|e| e.message()).unwrap();
    assert_eq!(String::from_utf8(out).unwrap(), "valuevalue");
}

#[test]
fn select_from_file_gives_regions_of_the_file() {
    let mut context = ProgramContext::from_seed(RAND_SEED, Verbosity::normal());
    context.set_files(vec![(String::from("/data/f"), b"one\ntwo\nthree".to_vec())]);
    let out = run_with_context(30, r#"concat(select_from_file("/data/f", "\n"), ";")"#, context)
        .map_err(|e| e.message())
        .unwrap();
    let text = String::from_utf8(out).unwrap();
    let regions: Vec<&str> = text.split(';').filter(|p| !p.is_empty()).collect();
    assert_eq!(regions.len(), 30);
    assert!(regions.iter().all(|r| *r == "one" || *r == "two" || *r == "three"));
}

#[test]
fn missing_file_is_a_runtime_error() {
    let context = ProgramContext::from_seed(RAND_SEED, Verbosity::normal());
    match run_with_context(1, r#"select_from_file("/data/none", "\n")"#, context) {
        Err(e) => assert!(e.message().contains("No such file or directory: '/data/none'")),
        Ok(_) => panic!("expected an error"),
    }
}

#[test]
fn region_offsets_are_the_delimiter_positions() {
    let offsets = find_region_offsets(b"a\nb\nc", b"\n");
    assert_eq!(offsets, vec![1, 3]);
    assert_eq!(region_bounds(&offsets, 5, 1, 0), Some((0, 1)));
    assert_eq!(region_bounds(&offsets, 5, 1, 1), Some((2, 1)));
    assert_eq!(region_bounds(&offsets, 5, 1, 2), Some((4, 1)));
    assert_eq!(region_bounds(&offsets, 5, 1, 3), None);
    assert_eq!(find_region_offsets(b"abc", b""), Vec::<u64>::new());
}

#[test]
fn a_file_without_the_delimiter_is_one_region() {
    assert_eq!(region_bounds(&Vec::new(), 3, 1, 0), Some((0, 3)));
    assert_eq!(region_bounds(&Vec::new(), 3, 1, 1), None);
    let mut context = ProgramContext::from_seed(RAND_SEED, Verbosity::normal());
    context.set_files(vec![(String::from("/data/g"), b"abc".to_vec())]);
    let out = run_with_context(2, r#"select_from_file("/data/g", ",")"#, context).map_err(|e| e.message()).unwrap();
    assert_eq!(out, b"abcabc".to_vec());
}

#[test]
fn adjacent_delimiters_give_empty_regions() {
    let offsets = find_region_offsets(b"a,,b", b",");
    assert_eq!(offsets, vec![1, 2]);
    assert_eq!(region_bounds(&offsets, 4, 1, 1), Some((2, 0)));
    assert_eq!(region_bounds(&offsets, 4, 1, 2), Some((3, 1)));
}

#[test]
fn words_reads_the_lines_of_the_words_file() {
    let mut context = ProgramContext::from_seed(RAND_SEED, Verbosity::normal());
    context.set_files(vec![(String::from("/usr/dict/words"), b"apple\nbanana\ncherry".to_vec())]);
    let out = run_with_context(20, r#"concat(words(), ";")"#, context).map_err(|e| e.message()).unwrap();
    let text = String::from_utf8(out).unwrap();
    let parts: Vec<&str> = text.split(';').filter(|p| !p.is_empty()).collect();
    assert_eq!(parts.len(), 20);
    assert!(parts.iter().all(|w| *w == "apple" || *w == "banana" || *w == "cherry"));
}

#[test]
fn module_and_function_split_at_the_last_dot() {
    assert_eq!(split_module_and_function("a.b.c"), Some((String::from("a.b"), String::from("c"))));
    assert_eq!(split_module_and_function("abc"), None);
}

#[test]
fn argument_types_match_declared_types() {
    let uint = GenType::Uint;
    assert!(do_arguments_match(&vec![uint], &vec![uint], false));
    assert!(!do_arguments_match(&vec![uint], &vec![uint, uint], false));
    assert!(do_arguments_match(&vec![uint], &vec![uint, uint, uint], true));
    assert!(!do_arguments_match(&vec![uint], &vec![], true));
    assert!(do_arguments_match(&vec![], &vec![], true));
    assert!(!do_arguments_match(&vec![uint], &vec![GenType::String], false));
}

#[test]
fn seed_is_the_first_sixteen_bytes_of_its_text() {
    let mut short = [0u8; 16];
    short[0] = b'a';
    short[1] = b'b';
    assert_eq!(seed_from_text("ab"), short);
    assert_eq!(seed_from_text("0123456789abcdefXYZ"), *b"0123456789abcdef");
}

#[test]
fn csv_formatter_writes_the_separator_where_a_row_starts() {
    let mut f = CsvFormatter::new(true, String::from(","), String::from("\n"), String::from("\""), String::from("NULL"));
    f.write_file_start();
    f.write_column_header("a");
    f.write_column_header("b");
    f.write_row_end();
    f.write_row_start();
    f.write_column_start("a");
    f.write_str("x");
    f.write_column_end("a");
    f.write_column_start("b");
    f.write_null();
    f.write_column_end("b");
    f.write_row_end();
    f.write_file_end();
    assert_eq!(f.output(), "ab\n,\"x\"NULL\n");
}

fn all_tokens(input: &str) -> Vec<(usize, Token, usize)> {
    let mut lexer = Lexer::new(input);
    let mut tokens = Vec::new();
    while let Some(t) = lexer.next_token() {
        tokens.push(t.expect("a token"));
    }
    tokens
}

#[test]
fn lexer_reads_an_identifier_up_to_whitespace() {
    let tokens = all_tokens("foo(1)");
    assert_eq!(tokens, vec![(0, Token::Ident(String::from("foo(1")), 5)]);
}

#[test]
fn lexer_reads_punctuation() {
    let tokens = all_tokens("(,)->;");
    assert_eq!(
        tokens,
        vec![
            (0, Token::OpenDelimiter(Delimiter::Paren), 0),
            (1, Token::Comma, 1),
            (2, Token::CloseDelimiter(Delimiter::Paren), 2),
            (3, Token::RightSkinnyArrow, 4),
            (5, Token::Semicolon, 5),
        ]
    );
}

#[test]
fn sources_are_named_after_their_file() {
    assert_eq!(UnreadSource::file(String::from("/libs/my_lib.dgen")).get_name(), "my_lib");
    assert_eq!(UnreadSource::string(String::from("x")).get_name(), "default");
    assert_eq!(UnreadSource::string(String::from("x")).get_description(), "<command line input>");
    assert_eq!(UnreadSource::stdin().get_description(), "<stdin>");
}

#[test]
fn command_line_options_name_the_program_and_libraries() {
    let options = CliOptions {
        verbose: 1,
        quiet: 0,
        files: vec![String::from("b.dgen"), String::from("c.dgen")],
        program: None,
        program_file: None,
        stdin: false,
        iteration_count: 1,
        libraries: vec![String::from("a.dgen")],
        no_std_lib: false,
        seed: None,
        subcommand: None,
    };
    assert!(options.get_verbosity().is_verbose());
    match options.get_program_source() {
        Some(UnreadSource::File(p)) => assert_eq!(p, "c.dgen"),
        _ => panic!("expected the last file"),
    }
    let libs = options.get_library_sources();
    assert_eq!(libs.len(), 2);
    assert!(matches!(&libs[0], UnreadSource::File(p) if p == "a.dgen"));
    assert!(matches!(&libs[1], UnreadSource::File(p) if p == "b.dgen"));
}

#[test]
fn a_fixed_signature_is_preferred_to_a_variadic_one() {
    assert_eq!(output(1, r#"def concat(s: String) = "X"; concat("a")"#), "X");
    assert_eq!(output(1, r#"concat("a", "b")"#), "ab");
}

#[test]
fn a_qualified_call_resolves_in_the_named_module() {
    assert_eq!(output(1, r#"def f() = "A"; default.f()"#), "A");
}

#[test]
fn decimal_literal_with_a_long_integer_part_is_read() {
    let text = "123456789012345678901234.5";
    let result = ExprParser::new().parse(text);
    assert_eq!(
        Ok(WithSpan { span: Span { start: 0, end: 26 }, value: Expr::DecimalLiteral(text.into()) }),
        result
    );
}

#[test]
fn integer_literal_too_large_is_refused() {
    assert!(ExprParser::new().parse("123456789012345678901234").is_err());
    assert!(ExprParser::new().parse("0x1FFFFFFFFFFFFFFFF").is_err());
    assert!(ExprParser::new().parse("-9223372036854775809").is_err());
    assert!(ExprParser::new().parse("-9223372036854775808").is_ok());
}

#[test]
fn keyword_prefix_is_part_of_a_longer_name() {
    // `deff` is one name, so this is not a definition of `f`.
    assert!(parse_program("test".into(), "deff(x: Uint) = x;").is_err());
    assert!(parse_program("test".into(), "def f(x: Uint) = x;").is_ok());
}

#[test]
fn escaped_text_reads_back_as_the_text() {
    assert_eq!(process_string_escapes(r#"a\\b\"c\td\ne\rf"#), Ok(String::from("a\\b\"c\td\ne\rf")));
    assert_eq!(process_string_escapes("plain text"), Ok(String::from("plain text")));
    assert_eq!(process_string_escapes(r"\q"), Err("invalid escape sequence"));
}

#[test]
fn sequence_inside_a_call_still_advances_per_iteration() {
    assert_eq!(output(5, "sequence('a', 'b', 'c')"), "abccc");
    assert_eq!(output(5, "wrapping_sequence('a', 'b')"), "ababa");
}

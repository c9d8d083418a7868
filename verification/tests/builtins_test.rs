use dgen::program::run_program;

fn assert_bin_output_is_expected(program: &str, expected: &[u8]) {
    let results = run_program(1, program).map_err(|e| e.message()).expect("Failed to run program");
    assert_eq!(results.as_slice(), expected);
}

fn test_program_success(iterations: u64, input: &str, expected_output: &str) {
    let results = run_program(iterations, input).map_err(|e| e.message()).expect("Failed to run program");
    let as_str = String::from_utf8(results).expect("program results were not valid utf8");
    if expected_output != as_str.as_str() {
        panic!(
            "Incorrect program output, expected: '{}', actual: '{}', actual_debug: '{:?}'",
            expected_output, as_str, as_str
        );
    }
}

#[test]
fn bin_length_returns_length_of_binary() {
    let program = "bin_length(sequence([0x00, 0x01, 0x02], [0xFF, 0xFF], [0x00]))";
    let expected = "321";
    test_program_success(3, program, expected);
}

#[test]
fn int_is_converted_to_big_endian_binary() {
    let program = r##"big_endian(+123)"##;
    let expected = &[0x00, 0x00, 0x00, 0x00, 0x00, 0x00, 0x00, 0x7B];
    assert_bin_output_is_expected(program, expected);
}

#[test]
fn int_is_converted_to_little_endian_binary() {
    let program = r##"little_endian(+123)"##;
    let expected = &[0x7B, 0x00, 0x00, 0x00, 0x00, 0x00, 0x00, 0x00];
    assert_bin_output_is_expected(program, expected);
}

#[test]
fn uint_is_converted_to_big_endian_binary() {
    let program = r##"big_endian(123)"##;
    let expected = &[0x00, 0x00, 0x00, 0x00, 0x00, 0x00, 0x00, 0x7B];
    assert_bin_output_is_expected(program, expected);
}

#[test]
fn uint_is_converted_to_little_endian_binary() {
    let program = r##"little_endian(123)"##;
    let expected = &[0x7B, 0x00, 0x00, 0x00, 0x00, 0x00, 0x00, 0x00];
    assert_bin_output_is_expected(program, expected);
}

#[test]
fn binary_is_concatenated() {
    let program = r##"
        concat([0x05], [], [0x01, 0xff])
        "##;
    let expected = &[0x05, 0x01, 0xff];
    assert_bin_output_is_expected(program, expected);
}

#[test]
fn strings_are_concatenated() {
    let program = r##"
        concat("foo", "", "bar", "baz")
        "##;
    let expected = "foobarbaz";
    test_program_success(1, program, expected);
}

#[test]
fn repeat_delimited_creates_string_output() {
    let program = r##"repeat_delimited(3, "start: ", "R", ", ", " :end") "##;
    let expected = "start: R, R, R :end";
    test_program_success(1, program, expected);
}

#[test]
fn repeat_delimited_creates_binary_output() {
    let program = r#"repeat_delimited(3, [0x01, 0x02], [0xFF], [0xAA, 0xAF], [0x06])"#;
    let expected = &[0x01, 0x02, 0xff, 0xaa, 0xaf, 0xff, 0xaa, 0xaf, 0xff, 0x06];
    assert_bin_output_is_expected(program, expected);
}

#[test]
fn char_wrapping_sequence() {
    let program = r##"
        wrapping_sequence('a', 'b', 'c')
        "##;
    let expected = "abcab";
    test_program_success(5, program, expected);
}

#[test]
fn char_sequence() {
    let program = r##"
        sequence('a', 'b', 'c')
        "##;
    let expected = "abccc";
    test_program_success(5, program, expected);
}

#[test]
fn bin_sequence() {
    let program = r##"
        repeat(5, sequence([0x01, 0x02], [0x03, 0x04, 0x05], [0x06]))
        "##;
    let expected = &[1, 2, 3, 4, 5, 6, 6, 6];
    assert_bin_output_is_expected(program, expected);
}

#[test]
fn bin_wrapping_sequence() {
    let program = r##"
        repeat(5, wrapping_sequence([0x01, 0x02], [0x03, 0x04, 0x05], [0x06]))
        "##;
    let expected = &[1, 2, 3, 4, 5, 6, 1, 2, 3, 4, 5];
    assert_bin_output_is_expected(program, expected);
}

#[test]
fn utf8_bytes_returns_encoded_string() {
    let program = r#"utf8_bytes("foo")"#;
    let expected = &[0x66, 0x6F, 0x6F];
    assert_bin_output_is_expected(program, expected);
}

#[test]
fn string_bytes_supports_a_lot_of_encodings() {
    let program = r##"
        # This is not a 100% complete list of supported encodings, but it ought to cover most of what folks 
        # are likely to use.
        def encodings() = select(
            "unicode-1-1-utf-8",
            "utf-8",
            "utf8" ,
            "866",
            "cp866",
            "csibm866",
            "ibm866" ,
            "csisolatin2",
            "iso-8859-2",
            "iso-ir-101",
            "iso8859-2",
            "iso88592",
            "iso_8859-2",
            "iso_8859-2:1987",
            "l2",
            "latin2" ,
            "csisolatin3",
            "iso-8859-3",
            "iso-ir-109",
            "iso8859-3",
            "iso88593",
            "iso_8859-3",
            "iso_8859-3:1988",
            "l3",
            "latin3" ,
            "csisolatin4",
            "iso-8859-4",
            "iso-ir-110",
            "iso8859-4",
            "iso88594",
            "iso_8859-4",
            "iso_8859-4:1988",
            "l4",
            "latin4" ,
            "csisolatincyrillic",
            "cyrillic",
            "iso-8859-5",
            "iso-ir-144",
            "iso8859-5",
            "iso88595",
            "iso_8859-5",
            "iso_8859-5:1988" ,
            "arabic",
            "asmo-708",
            "csiso88596e",
            "csiso88596i",
            "csisolatinarabic",
            "ecma-114",
            "iso-8859-6",
            "iso-8859-6-e",
            "iso-8859-6-i",
            "iso-ir-127",
            "iso8859-6",
            "iso88596",
            "iso_8859-6",
            "iso_8859-6:1987" ,
            "ansi_x3.4-1968",
            "ascii",
            "cp1252",
            "cp819",
            "csisolatin1",
            "ibm819",
            "iso-8859-1",
            "iso-ir-100",
            "iso8859-1",
            "iso88591",
            "iso_8859-1",
            "iso_8859-1:1987",
            "l1",
            "latin1",
            "us-ascii",
            "windows-1252",
            "x-cp1252" ,
            "utf-16be",
            "utf-16",
            "utf-16le"
        );
        string_bytes(encodings(), "foo")
        "##;
    run_program(900, program).map_err(|e| e.message()).expect("Failed to run program");
}

#[test]
fn string_length_returns_length_of_string() {
    let program = r#"string_length(ascii_alphanumeric_chars(13))"#;
    let expected = "13";
    test_program_success(1, program, expected);
}

#[test]
fn generate_ascii_strings() {
    let expected_output = "a6OqR822C3hoTTf1";
    let input = "ascii_alphanumeric_chars(uint(0, 10))";
    test_program_success(4, input, expected_output);
}

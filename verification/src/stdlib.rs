//! The standard libraries: functions written in the dgen language itself.

use vstd::prelude::*;
use crate::source::UnreadSource;

verus! {

/// Characters.
pub const CHARS: &'static str = "
# a random ASCII letter or digit
def ascii_alphanumeric_char() = select(char(97, 122), char(65, 90), char(48, 57));

# a random character from the Unicode Basic Multilingual Plane
def unicode_bmp_char() = char(0x20, 0xD7FF);

# a random Unicode scalar value above the ASCII control characters
def unicode_char() = select(char(0x20, 0xD7FF), char(0xE000, 0x10FFFF));
";

/// Strings.
pub const STRINGS: &'static str = "
# a string of the given number of random ASCII letters and digits
def ascii_alphanumeric_chars(length: Uint) = repeat(length, to_string(ascii_alphanumeric_char()));

# a string of the given number of random Unicode characters
def unicode_chars(length: Uint) = repeat(length, to_string(unicode_char()));

# a string of the given number of random characters from the Basic Multilingual Plane
def unicode_bmp_chars(length: Uint) = repeat(length, to_string(unicode_bmp_char()));

# the UTF-8 encoding of the string
def utf8_bytes(string: String) = string_bytes(\"utf-8\", string);

# the string in single quotes
def single_quote(string: String) = concat(\"'\", string, \"'\");

# the string in double quotes
def double_quote(string: String) = concat(\"\\\"\", string, \"\\\"\");
";

/// Numbers.
pub const NUMBERS: &'static str = "
# a random Uint
def uint() = uint(0, 0xFFFFFFFFFFFFFFFF);

# a random Int
def int() = int(-9223372036854775807, +9223372036854775807);
";

/// Booleans.
pub const BOOLEAN: &'static str = "
# true or false, at random
def boolean() = select(true, false);
";

/// Repetitions.
pub const REPEATS: &'static str = "
# the output of the string function, the given number of times
def repeat(count: Uint, to_repeat: String) = repeat_delimited(count, \"\", to_repeat, \"\", \"\");

# the output of the binary function, the given number of times
def repeat(count: Uint, to_repeat: Bin) = repeat_delimited(count, [], to_repeat, [], []);

# the output of the string function, the given number of times, separated by the delimiter
def repeat_delimited(count: Uint, to_repeat: String, delimiter: String) = repeat_delimited(count, \"\", to_repeat, delimiter, \"\");

# the output of the binary function, the given number of times, separated by the delimiter
def repeat_delimited(count: Uint, to_repeat: Bin, delimiter: Bin) = repeat_delimited(count, [], to_repeat, delimiter, []);
";

/// The sources of the standard libraries, in the order in which they are added.
pub open spec fn std_sources() -> Seq<UnreadSource> {
    seq![
        UnreadSource::Builtin("std.chars", CHARS),
        UnreadSource::Builtin("std.strings", STRINGS),
        UnreadSource::Builtin("std.numbers", NUMBERS),
        UnreadSource::Builtin("std.boolean", BOOLEAN),
        UnreadSource::Builtin("std.repeats", REPEATS),
    ]
}

/// The standard libraries, in the order in which they are added.
pub fn std_libs() -> (libs: Vec<UnreadSource>)
    ensures
        libs@ == std_sources(),
{
    let mut libs = Vec::new();
    libs.push(UnreadSource::Builtin("std.chars", CHARS));
    libs.push(UnreadSource::Builtin("std.strings", STRINGS));
    libs.push(UnreadSource::Builtin("std.numbers", NUMBERS));
    libs.push(UnreadSource::Builtin("std.boolean", BOOLEAN));
    libs.push(UnreadSource::Builtin("std.repeats", REPEATS));
    libs
}

} // verus!

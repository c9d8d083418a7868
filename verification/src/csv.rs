//! Formats values as CSV text.

use vstd::prelude::*;
use vstd::string::StringExecFns;

verus! {

/// Writes CSV text into a string. The column separator is written when a column starts right
/// after a row has started.
#[derive(Debug)]
pub struct CsvFormatter {
    write_column_headers: bool,
    column_separator: String,
    line_separator: String,
    quote_character: String,
    null_representation: String,
    row_start: bool,
    sink: String,
}

/// Appends `value` to the sink.
fn write_str(sink: &mut String, value: &str)
    ensures
        final(sink)@ == old(sink)@ + value@,
{
    sink.append(value);
}

impl CsvFormatter {
    /// The text written so far.
    pub closed spec fn written(&self) -> Seq<char> {
        self.sink@
    }

    /// Whether a row has just started.
    pub closed spec fn at_row_start(&self) -> bool {
        self.row_start
    }

    pub closed spec fn separator(&self) -> Seq<char> {
        self.column_separator@
    }

    pub closed spec fn line_end(&self) -> Seq<char> {
        self.line_separator@
    }

    pub closed spec fn quote(&self) -> Seq<char> {
        self.quote_character@
    }

    pub closed spec fn null_text(&self) -> Seq<char> {
        self.null_representation@
    }

    pub fn new(
        write_column_headers: bool,
        column_separator: String,
        line_separator: String,
        quote_character: String,
        null_representation: String,
    ) -> (f: CsvFormatter)
        ensures
            f.written().len() == 0,
            !f.at_row_start(),
            f.separator() == column_separator@,
            f.line_end() == line_separator@,
            f.quote() == quote_character@,
            f.null_text() == null_representation@,
    {
        CsvFormatter {
            write_column_headers,
            column_separator,
            line_separator,
            quote_character,
            null_representation,
            row_start: false,
            sink: String::new(),
        }
    }

    /// The text written so far.
    pub fn output(&self) -> (s: &str)
        ensures
            s@ == self.written(),
    {
        self.sink.as_str()
    }

    /// Writes the column separator if a row has just started, and ends the row's start.
    fn write_column_separator(&mut self)
        ensures
            final(self).written() == old(self).written() + (if old(self).at_row_start() { old(self).separator() } else { Seq::empty() }),
            !final(self).at_row_start(),
            final(self).separator() == old(self).separator(),
            final(self).line_end() == old(self).line_end(),
            final(self).quote() == old(self).quote(),
            final(self).null_text() == old(self).null_text(),
    {
        if self.row_start {
            self.row_start = false;
            write_str(&mut self.sink, self.column_separator.as_str());
        } else {
            assert(self.sink@ =~= self.sink@ + Seq::<char>::empty());
        }
    }

    pub fn write_file_start(&mut self)
        ensures
            *final(self) == *old(self),
    {
    }

    /// Writes a column's name, after the separator when the row has just started.
    pub fn write_column_header(&mut self, column_name: &str)
        ensures
            final(self).written() == old(self).written() + (if old(self).at_row_start() { old(self).separator() } else { Seq::empty() }) + column_name@,
            !final(self).at_row_start(),
    {
        self.write_column_separator();
        write_str(&mut self.sink, column_name);
    }

    pub fn write_row_start(&mut self)
        ensures
            final(self).written() == old(self).written(),
            final(self).at_row_start(),
    {
        self.row_start = true;
    }

    /// Starts a column: the separator when the row has just started.
    pub fn write_column_start(&mut self, column_name: &str)
        ensures
            final(self).written() == old(self).written() + (if old(self).at_row_start() { old(self).separator() } else { Seq::empty() }),
            !final(self).at_row_start(),
    {
        self.write_column_separator();
    }

    pub fn write_column_end(&mut self, column_name: &str)
        ensures
            *final(self) == *old(self),
    {
    }

    /// Ends a row with the line separator.
    pub fn write_row_end(&mut self)
        ensures
            final(self).written() == old(self).written() + old(self).line_end(),
            final(self).at_row_start() == old(self).at_row_start(),
    {
        write_str(&mut self.sink, self.line_separator.as_str());
    }

    pub fn write_file_end(&mut self)
        ensures
            *final(self) == *old(self),
    {
    }

    /// Writes a value between quote characters.
    pub fn write_str(&mut self, value: &str)
        ensures
            final(self).written() == old(self).written() + old(self).quote() + value@ + old(self).quote(),
            final(self).at_row_start() == old(self).at_row_start(),
    {
        write_str(&mut self.sink, self.quote_character.as_str());
        write_str(&mut self.sink, value);
        write_str(&mut self.sink, self.quote_character.as_str());
    }

    /// Writes the representation of a missing value.
    pub fn write_null(&mut self)
        ensures
            final(self).written() == old(self).written() + old(self).null_text(),
            final(self).at_row_start() == old(self).at_row_start(),
    {
        write_str(&mut self.sink, self.null_representation.as_str());
    }
}

} // verus!

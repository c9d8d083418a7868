use dgen::errors::SourceErrRegion;
use dgen::source::UnreadSource;

#[test]
fn parse_err_is_displayed_correctly() {
    let source = r##"

    foo

    bar

    baz

"##;

    let location_offset = 17; // the 'r' at the end of "bar" (offset includes the indentation spaces)
    assert_eq!("r", &source[location_offset..(location_offset + 1)]);

    {
        let subject = SourceErrRegion::new(source, location_offset);
        let rendered = subject.render();
        let expected = "line    5|     bar\n                 ^\n";
        assert_eq!(expected, rendered.as_str());
    }

    let location_offset = 6; // the 'f' in "foo"
    let subject = SourceErrRegion::new(source, location_offset);
    let rendered = subject.render();
    let expected = "line    3|     foo\n               ^\n";
    assert_eq!(expected, rendered.as_str());
}

#[test]
fn filename_minus_extension_is_used_as_module_name() {
    let source = UnreadSource::file("/foo/bar/baz.dgen".to_owned());

    let name = source.get_name();
    assert_eq!("baz", &*name);
}

use upstate::fmt::Format;

fn state(fmt: &Format) -> Option<(usize, bool, bool)> {
    match fmt {
        Format::Text => None,
        Format::Json { indent, nl, sep } => Some((*indent, *nl, *sep)),
    }
}

#[test]
fn json_starts_at_depth_zero() {
    assert_eq!(state(&Format::json()), Some((0, true, false)));
}

#[test]
fn json_document_is_written_piece_by_piece() {
    let mut fmt = Format::json();
    let mut out = String::new();
    out += &fmt.json_open("", false, true);
    assert_eq!(out, "{");
    assert_eq!(state(&fmt), Some((2, true, false)));
    assert_eq!(fmt.json_key_val("cores", "4"), "\n  \"cores\": 4");
    assert_eq!(state(&fmt), Some((2, true, true)));
    assert_eq!(fmt.json_key_val("uptime", "100"), ",\n  \"uptime\": 100");
    assert_eq!(fmt.json_open("memory", false, true), ",\n  \"memory\": {");
    assert_eq!(state(&fmt), Some((4, true, false)));
    assert_eq!(fmt.json_key_val("total", "1"), "\n    \"total\": 1");
    assert_eq!(fmt.json_close(false), "\n  }");
    assert_eq!(state(&fmt), Some((2, true, true)));
    assert_eq!(fmt.json_open("services", true, true), ",\n  \"services\": [");
    assert_eq!(fmt.json_open("", false, false), "\n    {");
    assert_eq!(state(&fmt), Some((6, false, false)));
    assert_eq!(fmt.json_key_val("pid", "10"), " \"pid\": 10");
    assert_eq!(fmt.json_key_str("name", "web"), ", \"name\": \"web\"");
    assert_eq!(fmt.json_close(false), " }");
    assert_eq!(state(&fmt), Some((4, true, true)));
    assert_eq!(fmt.json_open("", false, false), ",\n    {");
    assert_eq!(fmt.json_close(false), " }");
    assert_eq!(fmt.json_close(true), "\n  ]");
    assert_eq!(fmt.json_close(false), "\n}\n");
    // The object closed last had no members, so no separator is due.
    assert_eq!(state(&fmt), Some((0, true, false)));
}

#[test]
fn empty_array_on_one_line() {
    let mut fmt = Format::Json { indent: 2, nl: true, sep: true };
    assert_eq!(fmt.json_open("list", true, false), ",\n  \"list\": [");
    assert_eq!(state(&fmt), Some((4, false, false)));
    assert_eq!(fmt.json_close(true), " ]");
    assert_eq!(state(&fmt), Some((2, true, false)));
}

#[test]
fn top_level_open_has_no_separator() {
    let mut fmt = Format::Json { indent: 0, nl: false, sep: false };
    assert_eq!(fmt.json_open("", true, true), "[");
    let mut fmt = Format::Json { indent: 0, nl: true, sep: true };
    assert_eq!(fmt.json_open("x", false, true), ",\"x\": {");
}

#[test]
fn separator_text() {
    let fmt = Format::json();
    assert_eq!(fmt.json_sep(false, false, false, 4), "");
    assert_eq!(fmt.json_sep(true, false, false, 4), ",");
    assert_eq!(fmt.json_sep(true, true, true, 3), ",\n   ");
    assert_eq!(fmt.json_sep(false, true, false, 0), "\n");
    assert_eq!(fmt.json_sep(true, false, true, 9), ", ");
}

#[test]
fn text_form_emits_no_json() {
    let mut fmt = Format::Text;
    assert_eq!(fmt.json_open("services", true, true), "");
    assert_eq!(fmt.json_key_val("pid", "1"), "");
    assert_eq!(fmt.json_key_str("name", "x"), "");
    assert_eq!(fmt.json_close(true), "");
    assert_eq!(state(&fmt), None);
}

use plinject::helpers::failure;
use plinject::helpers::fmt_abs_path;
use plinject::helpers::fmt_rel_path;
use plinject::helpers::get_doctype_str;
use plinject::helpers::into_plist;
use plinject::helpers::into_xml;
use plinject::helpers::try_format;
use plinject::helpers::FailureFmt;
use plinject::helpers::FormatAction;
use plinject::helpers::FormatState;
use plinject::helpers::PathInfo;

fn info(path: &str, exists: bool, is_file: bool, ext: Option<&str>, abs: Option<&str>) -> PathInfo {
    PathInfo {
        path: String::from(path),
        exists,
        is_file,
        extension: ext.map(String::from),
        absolute: abs.map(String::from),
    }
}

#[test]
fn doctype_line_is_found() {
    assert_eq!(
        get_doctype_str("<?xml version=\"1.0\"?>\n<!DOCTYPE plist PUBLIC \"x\">\n<plist/>\n"),
        Some(String::from("<!DOCTYPE plist PUBLIC \"x\">"))
    );
}

#[test]
fn doctype_line_is_the_first_of_several() {
    assert_eq!(
        get_doctype_str("a\nb DOCTYPE 1\nc DOCTYPE 2\n"),
        Some(String::from("b DOCTYPE 1"))
    );
}

#[test]
fn doctype_line_loses_its_line_ending_only() {
    assert_eq!(get_doctype_str("x\r\n DOCTYPE \r\ny"), Some(String::from(" DOCTYPE ")));
    assert_eq!(get_doctype_str("DOCTYPE\r\r\n"), Some(String::from("DOCTYPE\r")));
    assert_eq!(get_doctype_str("x\nDOCTYPE\r"), Some(String::from("DOCTYPE\r")));
    assert_eq!(get_doctype_str("x\nDOCTYPE"), Some(String::from("DOCTYPE")));
    assert_eq!(get_doctype_str("DOCTYPE"), Some(String::from("DOCTYPE")));
}

#[test]
fn doctype_tag_is_matched_exactly() {
    assert_eq!(get_doctype_str(""), None);
    assert_eq!(get_doctype_str("\n\n"), None);
    assert_eq!(get_doctype_str("<plist>\n<dict/>\n</plist>"), None);
    assert_eq!(get_doctype_str("doctype\nDOCTYP\nOCTYPE\n"), None);
    assert_eq!(get_doctype_str("DOC\nTYPE"), None);
    assert_eq!(get_doctype_str("DOCTYPDOCTYPE"), Some(String::from("DOCTYPDOCTYPE")));
}

#[test]
fn doctype_line_may_hold_any_characters() {
    assert_eq!(
        get_doctype_str("\u{e9}\u{4e2d}\n\u{1f600} DOCTYPE \u{e9}\r\n\u{4e2d}"),
        Some(String::from("\u{1f600} DOCTYPE \u{e9}"))
    );
}

#[test]
fn failure_message_follows_the_format() {
    let usage = "Usage:\n  $ plinject [destination .plist file] [source .xml file to inject] [optional output .plist file]\n\nNote: the destination .plist file is overwritten if no output file is provided";
    let examples = "Examples:\n  $ plinject Example.app/Contents/Info.plist injection.xml\n  $ plinject source.plist injection.xml output.plist";
    assert_eq!(failure("Error: e", FailureFmt::ErrorOnly), "Error: e");
    assert_eq!(failure("Error: e", FailureFmt::WithUsage), format!("Error: e\n\n{usage}"));
    assert_eq!(failure("Error: e", FailureFmt::WithExample), format!("Error: e\n\n{examples}"));
    assert_eq!(
        failure("Error: e", FailureFmt::WithUsageAndExample),
        format!("Error: e\n\n{usage}\n\n{examples}")
    );
    assert_eq!(failure("", FailureFmt::ErrorOnly), "");
}

#[test]
fn absolute_form_of_a_path() {
    assert_eq!(fmt_abs_path(&info("a.plist", true, true, Some("plist"), Some("/w/a.plist"))), "/w/a.plist");
    assert_eq!(fmt_abs_path(&info("a.plist", true, true, Some("plist"), None)), "[unknown path]");
    assert_eq!(fmt_abs_path(&info("a.plist", false, false, Some("plist"), Some("/w/a.plist"))), "a.plist");
    assert_eq!(fmt_abs_path(&info("a.plist", false, false, None, None)), "a.plist");
}

#[test]
fn relative_form_of_a_path() {
    assert_eq!(fmt_rel_path(&info("d/a.plist", true, true, Some("plist"), Some("/w/d/a.plist"))), "d/a.plist");
    assert_eq!(fmt_rel_path(&info("d/a.plist", false, false, Some("plist"), None)), "[unknown path]");
}

#[test]
fn plist_file_is_checked() {
    assert_eq!(into_plist(&info("a.plist", true, true, Some("plist"), Some("/w/a.plist"))), Ok(()));
    assert_eq!(
        into_plist(&info("a.plist", false, false, Some("plist"), Some("/w/a.plist"))),
        Err(String::from("Error: failed to locate file \"a.plist\""))
    );
    assert_eq!(
        into_plist(&info("d.plist", true, false, Some("plist"), Some("/w/d.plist"))),
        Err(String::from("Error: invalid file provided: \"/w/d.plist\""))
    );
    assert_eq!(
        into_plist(&info("d.plist", true, false, Some("plist"), None)),
        Err(String::from("Error: invalid file provided: \"[unknown path]\""))
    );
    assert_eq!(
        into_plist(&info("a.xml", true, true, Some("xml"), Some("/w/a.xml"))),
        Err(String::from("Error: first argument is not a .plist file"))
    );
    assert_eq!(
        into_plist(&info("a", true, true, None, Some("/w/a"))),
        Err(String::from("Error: first argument is not a .plist file"))
    );
    assert_eq!(
        into_plist(&info("a.PLIST", true, true, Some("PLIST"), Some("/w/a.PLIST"))),
        Err(String::from("Error: first argument is not a .plist file"))
    );
}

#[test]
fn xml_file_is_checked() {
    assert_eq!(into_xml(&info("a.xml", true, true, Some("xml"), Some("/w/a.xml"))), Ok(()));
    assert_eq!(
        into_xml(&info("a.xml", false, true, Some("xml"), None)),
        Err(String::from("Error: failed to locate file \"a.xml\""))
    );
    assert_eq!(
        into_xml(&info("a.xml", true, false, Some("xml"), Some("/w/a.xml"))),
        Err(String::from("Error: invalid file provided: \"/w/a.xml\""))
    );
    assert_eq!(
        into_xml(&info("a.plist", true, true, Some("plist"), Some("/w/a.plist"))),
        Err(String::from("Error: second argument is not a .xml file"))
    );
}

fn run_of(action: FormatAction) -> Option<(String, Vec<String>)> {
    match action {
        FormatAction::Run(invocation) => Some((invocation.program, invocation.arguments)),
        FormatAction::Finish(_) => None,
    }
}

fn finish_of(action: FormatAction) -> Option<bool> {
    match action {
        FormatAction::Run(_) => None,
        FormatAction::Finish(done) => Some(done),
    }
}

#[test]
fn formatting_starts_by_looking_for_the_tool() {
    let target = info("out.plist", true, true, Some("plist"), Some("/w/out.plist"));
    for succeeded in [false, true] {
        let (next, action) = try_format(FormatState::Start, succeeded, &target);
        assert!(matches!(next, FormatState::Locating));
        assert_eq!(
            run_of(action),
            Some((String::from("which"), vec![String::from("xmlformat")]))
        );
    }
}

#[test]
fn formatting_ends_where_the_tool_is_not_found() {
    let target = info("out.plist", true, true, Some("plist"), Some("/w/out.plist"));
    let (_, action) = try_format(FormatState::Locating, false, &target);
    assert_eq!(finish_of(action), Some(false));
}

#[test]
fn found_tool_is_run_on_the_absolute_path() {
    let target = info("out.plist", true, true, Some("plist"), Some("/w/out.plist"));
    let (next, action) = try_format(FormatState::Locating, true, &target);
    assert!(matches!(next, FormatState::Formatting));
    assert_eq!(
        run_of(action),
        Some((
            String::from("xmlformat"),
            vec![String::from("--overwrite"), String::from("/w/out.plist")]
        ))
    );
}

#[test]
fn formatting_succeeds_where_the_run_does() {
    let target = info("out.plist", true, true, Some("plist"), Some("/w/out.plist"));
    let (_, action) = try_format(FormatState::Formatting, true, &target);
    assert_eq!(finish_of(action), Some(true));
    let (_, action) = try_format(FormatState::Formatting, false, &target);
    assert_eq!(finish_of(action), Some(false));
}

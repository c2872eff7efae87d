use plinject::injector::copy_error;
use plinject::injector::find_declaration;
use plinject::injector::XMLInjector;
use plinject::plan::Phase;
use plinject::reader::tokens;
use xml::reader::XmlEvent;
use xml::EventReader;

fn inject_text(base: &str, injection: &str) -> String {
    let mut injector = XMLInjector::new(Vec::new());
    let outcome = injector.inject(base.as_bytes(), injection.as_bytes());
    assert_eq!(outcome, Ok(()));
    String::from_utf8(injector.buffer().to_vec()).unwrap()
}

fn count_of(text: &str, pattern: &str) -> usize {
    text.matches(pattern).count()
}

#[test]
fn round_trip_splices_fragment_into_dict() {
    let text = inject_text(
        "<plist><dict><key>a</key></dict></plist>",
        "<key>b</key><string>c</string>",
    );
    assert_eq!(
        text,
        "<?xml version=\"1.0\" encoding=\"UTF-8\"?>\n<plist>\n  <dict>\n    <key>a</key>\n    <key>b</key>\n    <string>c</string>\n  </dict>\n</plist>"
    );
}

#[test]
fn round_trip_output_reparses_to_one_dict_in_order() {
    let text = inject_text(
        "<plist><dict><key>a</key></dict></plist>",
        "<key>b</key><string>c</string>",
    );
    let mut seen: Vec<String> = Vec::new();
    let mut dicts = 0;
    for event in EventReader::new(text.as_bytes()) {
        match event.unwrap() {
            XmlEvent::StartElement { name, .. } => {
                if name.local_name == "dict" {
                    dicts += 1;
                }
                seen.push(format!("<{}>", name.local_name));
            }
            XmlEvent::EndElement { name } => seen.push(format!("</{}>", name.local_name)),
            XmlEvent::Characters(data) => seen.push(data),
            _ => {}
        }
    }
    assert_eq!(dicts, 1);
    assert_eq!(
        seen,
        vec![
            "<plist>", "<dict>", "<key>", "a", "</key>", "<key>", "b", "</key>", "<string>", "c",
            "</string>", "</dict>", "</plist>"
        ]
    );
}

#[test]
fn empty_fragment_changes_nothing_but_layout() {
    let base = "<plist version=\"1.0\"><dict><key>a</key><true/></dict></plist>";
    let expected = "<?xml version=\"1.0\" encoding=\"UTF-8\"?>\n<plist version=\"1.0\">\n  <dict>\n    <key>a</key>\n    <true />\n  </dict>\n</plist>";
    assert_eq!(inject_text(base, ""), expected);
    assert_eq!(inject_text(base, "<?xml version=\"1.0\" encoding=\"UTF-8\"?>"), expected);
}

#[test]
fn fragment_goes_before_the_first_closing_dict_only() {
    let text = inject_text(
        "<plist><dict><key>a</key></dict><dict><key>z</key></dict></plist>",
        "<key>b</key>",
    );
    assert_eq!(
        text,
        "<?xml version=\"1.0\" encoding=\"UTF-8\"?>\n<plist>\n  <dict>\n    <key>a</key>\n    <key>b</key>\n  </dict>\n  <dict>\n    <key>z</key>\n  </dict>\n</plist>"
    );
    assert_eq!(count_of(&text, "<key>b</key>"), 1);
}

#[test]
fn fragment_goes_into_the_innermost_dict_that_closes_first() {
    let text = inject_text(
        "<plist><dict><key>o</key><dict><key>i</key></dict></dict></plist>",
        "<key>b</key>",
    );
    assert_eq!(
        text,
        "<?xml version=\"1.0\" encoding=\"UTF-8\"?>\n<plist>\n  <dict>\n    <key>o</key>\n    <dict>\n      <key>i</key>\n      <key>b</key>\n    </dict>\n  </dict>\n</plist>"
    );
}

#[test]
fn marker_is_matched_by_local_name() {
    let text = inject_text(
        "<p:plist xmlns:p=\"urn:p\"><p:dict><p:key>a</p:key></p:dict></p:plist>",
        "<key>b</key>",
    );
    assert_eq!(count_of(&text, "<key>b</key>"), 1);
    assert!(text.find("<key>b</key>").unwrap() < text.find("</p:dict>").unwrap());
    assert!(text.find("<p:key>a</p:key>").unwrap() < text.find("<key>b</key>").unwrap());
}

#[test]
fn declaration_line_is_kept_directly_after_the_header() {
    let doctype = "<!DOCTYPE plist PUBLIC \"-//Apple//DTD PLIST 1.0//EN\" \"http://www.apple.com/DTDs/PropertyList-1.0.dtd\">";
    let base = format!(
        "<?xml version=\"1.0\" encoding=\"UTF-8\"?>\n{doctype}\n<plist version=\"1.0\">\n<dict>\n</dict>\n</plist>\n"
    );
    let text = inject_text(&base, "<key>b</key>");
    let header = "<?xml version=\"1.0\" encoding=\"UTF-8\"?>";
    assert!(text.starts_with(header));
    assert!(text[header.len()..].starts_with(doctype));
    assert!(text[header.len() + doctype.len()..].starts_with("\n<plist version=\"1.0\">"));
    assert_eq!(count_of(&text, "DOCTYPE"), 1);
}

#[test]
fn no_declaration_line_gives_no_declaration() {
    let text = inject_text("<plist><dict></dict></plist>", "<key>b</key>");
    assert_eq!(count_of(&text, "DOCTYPE"), 0);
    assert_eq!(count_of(&text, "<!"), 0);
}

#[test]
fn declaration_is_the_whole_line_that_holds_the_tag() {
    let base = "<?xml version=\"1.0\"?>\r\n  <!DOCTYPE plist>  \r\n<plist><dict/></plist>";
    let text = inject_text(base, "");
    assert!(text.starts_with(
        "<?xml version=\"1.0\" encoding=\"UTF-8\"?>  <!DOCTYPE plist>  \n<plist>"
    ));
}

#[test]
fn header_of_the_fragment_is_left_out() {
    let text = inject_text(
        "<?xml version=\"1.0\" encoding=\"UTF-8\"?><plist><dict><key>a</key></dict></plist>",
        "<?xml version=\"1.1\" encoding=\"UTF-8\"?><key>b</key>",
    );
    assert_eq!(count_of(&text, "<?xml"), 1);
    assert!(text.starts_with("<?xml version=\"1.0\" encoding=\"UTF-8\"?>"));
    assert_eq!(count_of(&text, "<key>b</key>"), 1);
}

#[test]
fn unclosed_marker_means_no_injection_and_no_error() {
    let text = inject_text("<plist><dict><key>a</key>", "<key>b</key>");
    assert_eq!(
        text,
        "<?xml version=\"1.0\" encoding=\"UTF-8\"?>\n<plist>\n  <dict>\n    <key>a</key>"
    );
    assert_eq!(count_of(&text, "<key>b</key>"), 0);
}

#[test]
fn document_without_marker_is_copied_without_injection() {
    let text = inject_text("<plist><array><string>a</string></array></plist>", "<key>b</key>");
    assert_eq!(
        text,
        "<?xml version=\"1.0\" encoding=\"UTF-8\"?>\n<plist>\n  <array>\n    <string>a</string>\n  </array>\n</plist>"
    );
}

#[test]
fn malformed_fragment_is_injected_up_to_its_error() {
    let text = inject_text("<plist><dict></dict></plist>", "<key>b</key><oops");
    assert_eq!(count_of(&text, "<key>b</key>"), 1);
    assert_eq!(count_of(&text, "oops"), 0);
}

#[test]
fn instructions_and_text_pass_through_and_comments_do_not() {
    let text = inject_text(
        "<plist><?pi data?><!--note--><dict><key>a &amp; b</key><![CDATA[<raw>]]></dict></plist>",
        "<!-- in --><?in put?>",
    );
    assert_eq!(
        text,
        "<?xml version=\"1.0\" encoding=\"UTF-8\"?>\n<plist>\n  <?pi data?>\n  <dict>\n    <key>a &amp; b</key><![CDATA[<raw>]]><?in put?>\n  </dict>\n</plist>"
    );
}

#[test]
fn refused_write_is_reported_with_the_phase() {
    let base = b"<plist><dict><key>a</key></dict></plist>";
    let mut injector = XMLInjector::new(Vec::new());
    assert_eq!(injector.inject(base, b"<key>b</key>"), Ok(()));
    let complete = injector.buffer().to_vec();
    let outcome = injector.inject(base, b"<key>b</key>");
    assert_eq!(
        outcome,
        Err(String::from(
            "Error: failed to copy XML from source file\nDetails: \"emitter error: document start event has already been emitted\""
        ))
    );
    assert!(injector.buffer().starts_with(&complete));
}

#[test]
fn fragment_left_open_makes_the_source_copy_fail() {
    let mut injector = XMLInjector::new(Vec::new());
    let outcome = injector.inject(b"<plist><dict></dict></plist>", b"<a><b>");
    assert_eq!(
        outcome,
        Err(String::from(
            "Error: failed to copy XML from source file\nDetails: \"emitter error: end element name is not equal to last start element name\""
        ))
    );
}

#[test]
fn copy_error_names_each_phase() {
    assert_eq!(
        copy_error(Phase::Source, "x"),
        "Error: failed to copy XML from source file\nDetails: \"x\""
    );
    assert_eq!(
        copy_error(Phase::Injection, "y z"),
        "Error: failed to copy from injection file\nDetails: \"y z\""
    );
    assert_eq!(
        copy_error(Phase::Declaration, ""),
        "Error: failed to inject DOCTYPE property\nDetails: \"\""
    );
}

#[test]
fn new_injector_has_an_empty_buffer_whatever_the_destination_holds() {
    let injector = XMLInjector::new(Vec::new());
    assert_eq!(injector.buffer(), b"");
    assert!(!injector.wrote_declaration());
    let injector = XMLInjector::new(b"kept".to_vec());
    assert_eq!(injector.buffer(), b"");
}

#[test]
fn buffer_holds_what_the_injector_wrote_and_nothing_else() {
    let mut injector = XMLInjector::new(b"kept\n".to_vec());
    assert_eq!(injector.inject(b"<a/>", b""), Ok(()));
    assert_eq!(injector.buffer(), b"<?xml version=\"1.0\" encoding=\"UTF-8\"?>\n<a />");
}

#[test]
fn output_is_indented_by_two_spaces_on_lines_of_their_own() {
    let text = inject_text("<a><b><c>t</c></b></a>", "");
    assert_eq!(
        text,
        "<?xml version=\"1.0\" encoding=\"UTF-8\"?>\n<a>\n  <b>\n    <c>t</c>\n  </b>\n</a>"
    );
    assert!(!text.contains('\r'));
    assert!(!text.contains('\t'));
}

#[test]
fn injector_tells_whether_it_wrote_a_declaration() {
    let mut injector = XMLInjector::new(Vec::new());
    assert_eq!(injector.inject(b"<plist><dict/></plist>", b"<!DOCTYPE x>"), Ok(()));
    assert!(!injector.wrote_declaration());
    let mut injector = XMLInjector::new(Vec::new());
    assert_eq!(injector.inject(b"<!DOCTYPE plist>\n<plist><dict/></plist>", b""), Ok(()));
    assert!(injector.wrote_declaration());
    let mut injector = XMLInjector::new(Vec::new());
    assert_eq!(injector.inject(b"", b""), Ok(()));
    assert!(!injector.wrote_declaration());
    let mut injector = XMLInjector::new(Vec::new());
    assert_eq!(injector.inject(b"no markup, but DOCTYPE", b""), Ok(()));
    assert!(!injector.wrote_declaration());
    assert_eq!(injector.buffer(), b"");
}

#[test]
fn declaration_stays_noted_when_a_later_token_is_refused() {
    let mut injector = XMLInjector::new(Vec::new());
    let outcome = injector.inject(b"<!DOCTYPE plist>\n<plist><dict></dict></plist>", b"<a><b>");
    assert!(outcome.is_err());
    assert!(injector.wrote_declaration());
}

#[test]
fn empty_source_gives_empty_output() {
    let mut injector = XMLInjector::new(Vec::new());
    assert_eq!(injector.inject(b"", b"<key>b</key>"), Ok(()));
    assert_eq!(injector.buffer(), b"");
}

#[test]
fn find_declaration_reads_text_only() {
    assert_eq!(
        find_declaration(b"<?xml?>\n<!DOCTYPE plist>\n<plist/>"),
        Some(String::from("<!DOCTYPE plist>"))
    );
    assert_eq!(find_declaration(b"<plist/>"), None);
    assert_eq!(find_declaration(b"\xff\n<!DOCTYPE plist>\n"), None);
    assert_eq!(find_declaration(b""), None);
}

#[test]
fn source_that_is_no_text_is_copied_without_declaration() {
    let mut injector = XMLInjector::new(Vec::new());
    let base = b"<?xml version=\"1.0\" encoding=\"ISO-8859-1\"?>\n<!DOCTYPE plist>\n<plist><dict><key>\xe9</key></dict></plist>";
    assert_eq!(injector.inject(base, b""), Ok(()));
    let text = String::from_utf8(injector.buffer().to_vec()).unwrap();
    assert_eq!(count_of(&text, "DOCTYPE"), 0);
    assert!(text.contains("<key>\u{e9}</key>"));
}

fn inject_read(base: &str, injection: &str) -> String {
    let mut injector = XMLInjector::new(Vec::new());
    let outcome = injector.inject_tokens(
        &tokens(base.as_bytes()),
        &tokens(injection.as_bytes()),
        &find_declaration(base.as_bytes()),
    );
    assert_eq!(outcome, Ok(()));
    String::from_utf8(injector.buffer().to_vec()).unwrap()
}

#[test]
fn documents_read_beforehand_give_the_same_output() {
    let cases = [
        ("<plist><dict><key>a</key></dict></plist>", "<key>b</key><string>c</string>"),
        ("<plist><dict><key>a</key></dict><dict/></plist>", "<?xml version=\"1.0\"?><key>b</key>"),
        ("<?xml version=\"1.0\"?>\n<!DOCTYPE plist>\n<plist><dict/></plist>", "<key>b</key>"),
        ("<plist><dict><key>a</key>", "<key>b</key>"),
        ("<plist><array/></plist>", "<key>b</key>"),
        ("", ""),
    ];
    for (base, injection) in cases {
        assert_eq!(inject_read(base, injection), inject_text(base, injection));
    }
}

#[test]
fn tokens_are_injected_before_the_first_closing_dict() {
    assert_eq!(
        inject_read("<plist><dict><key>a</key></dict><dict/></plist>", "<key>b</key>"),
        "<?xml version=\"1.0\" encoding=\"UTF-8\"?>\n<plist>\n  <dict>\n    <key>a</key>\n    <key>b</key>\n  </dict>\n  <dict />\n</plist>"
    );
}

#[test]
fn given_line_is_put_behind_the_start() {
    let mut injector = XMLInjector::new(Vec::new());
    let outcome = injector.inject_tokens(&tokens(b"<a/>"), &[], &Some(String::from("<!-- l -->")));
    assert_eq!(outcome, Ok(()));
    assert_eq!(
        injector.buffer(),
        b"<?xml version=\"1.0\" encoding=\"UTF-8\"?><!-- l -->\n<a />"
    );
}

#[test]
fn refused_token_is_reported_for_documents_read_beforehand() {
    let base = tokens(b"<plist><dict></dict></plist>");
    let mut injector = XMLInjector::new(Vec::new());
    assert_eq!(injector.inject_tokens(&base, &[], &None), Ok(()));
    assert_eq!(
        injector.inject_tokens(&base, &[], &None),
        Err(String::from(
            "Error: failed to copy XML from source file\nDetails: \"emitter error: document start event has already been emitted\""
        ))
    );
}

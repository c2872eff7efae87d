use plinject::helpers::same_text;
use plinject::reader::tokens;
use plinject::reader::Token;
use plinject::reader::TokenKind;

fn kinds(text: &str) -> Vec<TokenKind> {
    tokens(text.as_bytes()).into_iter().map(kind_of).collect()
}

fn kind_of(token: Token) -> TokenKind {
    match token.kind() {
        TokenKind::StartDocument => TokenKind::StartDocument,
        TokenKind::EndDocument => TokenKind::EndDocument,
        TokenKind::ProcessingInstruction => TokenKind::ProcessingInstruction,
        TokenKind::StartElement(name) => TokenKind::StartElement(String::from(name.as_str())),
        TokenKind::EndElement(name) => TokenKind::EndElement(String::from(name.as_str())),
        TokenKind::CData => TokenKind::CData,
        TokenKind::Comment => TokenKind::Comment,
        TokenKind::Characters => TokenKind::Characters,
        TokenKind::Whitespace => TokenKind::Whitespace,
    }
}

#[test]
fn tokens_of_a_small_document() {
    assert_eq!(
        kinds("<?xml version=\"1.0\"?><a><!--c--><b>t</b> <?p d?><![CDATA[x]]></a>"),
        vec![
            TokenKind::StartDocument,
            TokenKind::StartElement(String::from("a")),
            TokenKind::StartElement(String::from("b")),
            TokenKind::Characters,
            TokenKind::EndElement(String::from("b")),
            TokenKind::Whitespace,
            TokenKind::ProcessingInstruction,
            TokenKind::CData,
            TokenKind::EndElement(String::from("a")),
            TokenKind::EndDocument,
        ]
    );
}

#[test]
fn document_without_header_still_starts_with_a_start() {
    assert_eq!(
        kinds("<a/>"),
        vec![
            TokenKind::StartDocument,
            TokenKind::StartElement(String::from("a")),
            TokenKind::EndElement(String::from("a")),
            TokenKind::EndDocument,
        ]
    );
}

#[test]
fn tokens_end_before_the_first_error() {
    assert_eq!(
        kinds("<a><b></c>"),
        vec![
            TokenKind::StartDocument,
            TokenKind::StartElement(String::from("a")),
            TokenKind::StartElement(String::from("b")),
        ]
    );
    assert_eq!(kinds(""), vec![]);
}

#[test]
fn element_tokens_carry_the_local_name() {
    assert_eq!(
        kinds("<p:a xmlns:p=\"urn:p\"></p:a>"),
        vec![
            TokenKind::StartDocument,
            TokenKind::StartElement(String::from("a")),
            TokenKind::EndElement(String::from("a")),
            TokenKind::EndDocument,
        ]
    );
}

#[test]
fn token_tells_what_it_is() {
    let all = tokens(b"<dict><key>a</key></dict>");
    assert_eq!(all.len(), 7);
    assert!(all[0].is_start_document());
    assert!(all[0].is_writable());
    assert!(!all[0].closes("dict"));
    assert!(!all[1].is_start_document());
    assert!(!all[1].closes("dict"));
    assert!(all[4].closes("key"));
    assert!(!all[4].closes("dict"));
    assert!(!all[4].closes("ke"));
    assert!(!all[4].closes("keys"));
    assert!(all[5].closes("dict"));
    assert!(all[5].is_writable());
    assert!(!all[6].is_writable());
    assert!(!all[6].is_start_document());
    assert!(!all[6].closes("dict"));
}

#[test]
fn same_text_compares_characters() {
    assert!(same_text("", ""));
    assert!(same_text("dict", "dict"));
    assert!(!same_text("dict", "dicT"));
    assert!(!same_text("dict", "dic"));
    assert!(!same_text("", "d"));
    assert!(same_text("\u{e9}t\u{e9}", "\u{e9}t\u{e9}"));
    assert!(!same_text("\u{e9}", "e"));
}

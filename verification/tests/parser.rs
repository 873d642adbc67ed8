use nasir::parser::{parse_html, transform_text};
use nasir::types::doc_element::DocElement;

#[test]
fn parser_transform() {
    assert_eq!(transform_text("&lt;&gt;"), String::from("<>"));
    assert_eq!(transform_text("&#60;&#62;"), String::from("<>"));
    assert_eq!(transform_text("&#xae;"), transform_text("&reg;"));
}

#[test]
fn entity_decoding() {
    assert_eq!(transform_text("&#60;&#62;"), String::from("<>"));
    assert_eq!(transform_text("&#xae;"), transform_text("&reg;"));
    assert_eq!(transform_text("&#xZZ;"), String::from("&#xZZ;"));
    assert_eq!(transform_text("&#x110000;x"), String::from("&#x110000;x"));
    assert_eq!(transform_text("a&nbsp;b"), String::from("a b"));
}

#[test]
fn parse_simple_element() {
    let doc = parse_html("<p>hello</p>").unwrap();
    match doc {
        DocElement::HtmlElement { name, children, .. } => {
            assert_eq!(name, String::from("p"));
            assert_eq!(children.len(), 1);
            match &children[0] {
                DocElement::Text(t) => assert_eq!(*t, String::from("hello")),
                other => panic!("expected text, got {other:?}"),
            }
        }
        other => panic!("expected element, got {other:?}"),
    }
}

#[test]
fn parse_drops_comments_and_whitespace() {
    let doc = parse_html("<div> <!-- gone --> <b>x</b> </div>").unwrap();
    match doc {
        DocElement::HtmlElement { name, children, .. } => {
            assert_eq!(name, String::from("div"));
            assert_eq!(children.len(), 1);
            match &children[0] {
                DocElement::HtmlElement { name, .. } => assert_eq!(*name, String::from("b")),
                other => panic!("expected element, got {other:?}"),
            }
        }
        other => panic!("expected element, got {other:?}"),
    }
}

#[test]
fn parse_doctype_and_attrs() {
    let doc = parse_html("<!DOCTYPE html><a href=\"/p\" id=z>t</a>").unwrap();
    match doc {
        DocElement::HtmlElement { name, properties, .. } => {
            assert_eq!(name, String::from("a"));
            assert_eq!(properties.get("href"), Some(&String::from("/p")));
            assert_eq!(properties.get("id"), Some(&String::from("z")));
        }
        other => panic!("expected element, got {other:?}"),
    }
}

#[test]
fn parse_void_element_takes_no_children() {
    let doc = parse_html("<div><br>tail</div>").unwrap();
    match doc {
        DocElement::HtmlElement { children, .. } => {
            assert_eq!(children.len(), 2);
            match &children[0] {
                DocElement::HtmlElement { name, children, .. } => {
                    assert_eq!(*name, String::from("br"));
                    assert!(children.is_empty());
                }
                other => panic!("expected element, got {other:?}"),
            }
        }
        other => panic!("expected element, got {other:?}"),
    }
}

#[test]
fn parse_unterminated_quote_fails() {
    let err = parse_html("<a href=\"oops>t</a>").unwrap_err();
    assert_eq!(err, String::from("Unexpected end of file"));
}

#[test]
fn parse_missing_bracket_fails() {
    let err = parse_html("</a").unwrap_err();
    assert_eq!(err, String::from("Missing `>`"));
}

fn sample_tree() -> DocElement {
    parse_html("<div>  <b> x </b><i></i>y  </div>").unwrap()
}

#[test]
fn minify_idempotent() {
    // parse_html already minifies once; a second pass changes nothing
    let once = sample_tree();
    let twice = sample_tree().minify();
    assert_eq!(once, twice);
}

#[test]
fn minify_no_whitespace_leaves() {
    fn check(e: &DocElement) {
        match e {
            DocElement::HtmlElement { children, .. } => {
                for c in children {
                    if let DocElement::Text(t) = c {
                        assert!(!t.chars().all(char::is_whitespace));
                    }
                    check(c);
                }
            }
            DocElement::ClosingTag(_) => panic!("closing marker survived minification"),
            DocElement::Text(_) => {}
        }
    }
    check(&sample_tree());
}

#[test]
fn minify_trims_root_text() {
    assert_eq!(
        DocElement::Text(String::from("  a  ")).minify(),
        DocElement::Text(String::from("a"))
    );
    // a whitespace-only root becomes the empty text leaf
    assert_eq!(
        DocElement::Text(String::from("   ")).minify(),
        DocElement::Text(String::new())
    );
}

#[test]
fn stray_closing_tag_is_erased() {
    let doc = parse_html("<div>a</b>c</div>").unwrap();
    match doc {
        DocElement::HtmlElement { children, .. } => {
            assert_eq!(children.len(), 2);
            assert_eq!(children[0], DocElement::Text(String::from("a")));
            assert_eq!(children[1], DocElement::Text(String::from("c")));
        }
        other => panic!("expected element, got {other:?}"),
    }
}

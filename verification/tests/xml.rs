//! XML text, written and read back.
use geosetta::xml::parser::parse;
use geosetta::xml::writer::to_document;
use geosetta::xml::XmlElement;

fn sentence(text: &str) -> String {
    parse(text).unwrap_err().message()
}

#[test]
fn a_document_is_read_back() {
    let root = XmlElement::with_children(
        "kml",
        vec![
            XmlElement::leaf("name", "a < b & \"c\" > 'd' é".to_string()),
            XmlElement::with_children("empty", vec![]),
        ],
    )
    .with_attr("xmlns", "http://x?a=1&b=\"2\"");
    let text = to_document(&root);
    assert!(text.starts_with("<?xml version=\"1.0\" encoding=\"UTF-8\"?>\n<kml xmlns="), "{text}");
    let back = parse(&text).unwrap();
    assert_eq!(back.attr("xmlns"), Some("http://x?a=1&b=\"2\""));
    assert_eq!(back.child("name").unwrap().text, "a < b & \"c\" > 'd' é");
    assert!(back.child("empty").unwrap().children.is_empty());
    assert!(back.child("other").is_none());
    assert!(back.attr("other").is_none());
}

#[test]
fn entities_sections_and_comments_are_read() {
    let e = parse("<?xml version=\"1.0\"?><!-- c --><a>1 &lt;&gt;&amp;&quot;&apos;&#65;&#x42;<![CDATA[<&>]]><!-- d --></a>")
        .unwrap();
    assert_eq!(e.text, "1 <>&\"'AB<&>");
    assert_eq!(parse("<a>  x\n </a>").unwrap().text_trimmed(), "x");
}

#[test]
fn broken_documents_are_errors() {
    assert_eq!(sentence(""), "conversion error: xml: no root element");
    assert_eq!(sentence("<a></b>"), "conversion error: xml: mismatched closing tag");
    assert_eq!(sentence("<a>&nope;</a>"), "conversion error: xml: unknown entity");
    assert_eq!(sentence("<a>&amp</a>"), "conversion error: xml: unterminated entity");
    assert_eq!(sentence("<a><!-- x</a>"), "conversion error: xml: unterminated comment");
    assert_eq!(sentence("<a><![CDATA[x</a>"), "conversion error: xml: unterminated CDATA section");
    assert_eq!(sentence("<a"), "conversion error: xml: unexpected end of input");
}

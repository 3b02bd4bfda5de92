use rustorrent::xml::parse_document;

#[test]
fn documents_list_their_elements_in_order() {
    let doc = "<?xml version=\"1.0\"?>\n<!-- feed -->\n<rss:root a='1' xmlns:rss=\"urn:x\"><item>One &amp; two</item><empty/><item><![CDATA[<b>]]> &#65;&#x42;</item></rss:root>\n";
    let nodes = parse_document(doc).expect("a well-formed document");
    assert_eq!(nodes.len(), 5);
    assert!(!nodes[0].element);
    assert_eq!(nodes[0].parent, None);
    assert_eq!(nodes[1].name, "root");
    assert_eq!(nodes[1].parent, Some(0));
    assert_eq!(nodes[1].attrs, vec![("a".to_string(), "1".to_string()), ("rss".to_string(), "urn:x".to_string())]);
    assert_eq!(nodes[2].name, "item");
    assert_eq!(nodes[2].parent, Some(1));
    assert_eq!(nodes[2].text, "One & two");
    assert_eq!(nodes[3].name, "empty");
    assert_eq!(nodes[3].text, "");
    assert_eq!(nodes[4].text, "<b> AB");
}

#[test]
fn malformed_documents_are_refused() {
    assert!(parse_document("").is_none());
    assert!(parse_document("just text").is_none());
    assert!(parse_document("<a><b></a></b>").is_none());
    assert!(parse_document("<a>").is_none());
    assert!(parse_document("<a>&bogus;</a>").is_none());
    assert!(parse_document("<a>&#xD800;</a>").is_none());
    assert!(parse_document("<a x=\"<\"/>").is_none());
    assert!(parse_document("<a/><b/>").is_none());
    assert!(parse_document("<a/>trailing").is_none());
    assert!(parse_document("<!DOCTYPE a><a/>").is_some());
    assert!(parse_document("<a/><!-- done --> ").is_some());
}

#[test]
fn nesting_is_bounded() {
    let deep = format!("{}{}", "<a>".repeat(300), "</a>".repeat(300));
    assert!(parse_document(&deep).is_none());
    let fine = format!("{}{}", "<a>".repeat(100), "</a>".repeat(100));
    assert_eq!(parse_document(&fine).map(|n| n.len()), Some(101));
}

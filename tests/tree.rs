use xml_decode::document::tokenize;
use xml_decode::node::{BuildError, ParseEvent, XmlNode};

fn start(n: &str) -> ParseEvent {
    ParseEvent::StartElement { name: n.to_string(), attributes: Vec::new() }
}

fn end(n: &str) -> ParseEvent {
    ParseEvent::EndElement { name: n.to_string() }
}

fn chars(s: &str) -> ParseEvent {
    ParseEvent::Characters(s.to_string())
}

fn tag(n: &str, children: Vec<XmlNode>) -> XmlNode {
    XmlNode::Tag { name: n.to_string(), attributes: Vec::new(), children }
}

fn text(s: &str) -> XmlNode {
    XmlNode::Text(s.to_string())
}

#[test]
fn builds_nested_tree() {
    let evs = vec![
        ParseEvent::StartDocument,
        start("a"),
        chars("x"),
        ParseEvent::Whitespace(" ".to_string()),
        start("b"),
        ParseEvent::CData("y".to_string()),
        end("b"),
        ParseEvent::Comment("c".to_string()),
        ParseEvent::ProcessingInstruction,
        end("a"),
        ParseEvent::EndDocument,
    ];
    let r = XmlNode::build(evs).unwrap();
    assert_eq!(r, tag("a", vec![text("x"), tag("b", vec![text("y")])]));
}

#[test]
fn top_level_nodes_in_order() {
    let evs = vec![start("a"), end("a"), start("b"), end("b")];
    let top = XmlNode::from_xml(evs).unwrap();
    assert_eq!(top, vec![tag("a", vec![]), tag("b", vec![])]);
}

#[test]
fn underflow_is_fatal() {
    let evs = vec![start("a"), end("a"), end("a")];
    assert_eq!(XmlNode::build(evs), Err(BuildError::Underflow));
}

#[test]
fn events_after_end_document_are_ignored() {
    let evs = vec![start("a"), end("a"), ParseEvent::EndDocument, end("x"), end("y")];
    assert_eq!(XmlNode::build(evs), Ok(tag("a", vec![])));
}

#[test]
fn no_element_gives_unnamed_root() {
    let evs = vec![chars("t")];
    assert_eq!(XmlNode::build(evs), Ok(tag("", vec![text("t")])));
    assert_eq!(XmlNode::build(Vec::new()), Ok(XmlNode::empty()));
}

#[test]
fn trailing_siblings_leave_first_element() {
    let evs = vec![start("a"), chars("1"), end("a"), start("b"), chars("2"), end("b"), start("c")];
    assert_eq!(XmlNode::build(evs), Ok(tag("a", vec![text("1")])));
}

#[test]
fn upstream_error_stops_build() {
    let evs = tokenize("<a><b></a>");
    let last = evs.into_iter().last().unwrap();
    let e = match last {
        ParseEvent::Error(e) => e,
        other => panic!("expected an error event, got {:?}", other),
    };
    let evs = vec![start("a"), ParseEvent::Error(e.clone()), end("a")];
    assert_eq!(XmlNode::build(evs), Err(BuildError::Upstream(e)));
    assert!(matches!(XmlNode::from_str("<a><b></a>"), Err(BuildError::Upstream(_))));
}

#[test]
fn tokenizer_gives_names_attributes_and_text() {
    let evs = tokenize("<a k=\"v\">t<![CDATA[c]]><!-- x --></a>");
    let r = XmlNode::from_str("<a k=\"v\">t<![CDATA[c]]></a>").unwrap();
    assert_eq!(
        r,
        XmlNode::Tag {
            name: "a".to_string(),
            attributes: vec![("k".to_string(), "v".to_string())],
            children: vec![text("t"), text("c")],
        }
    );
    assert!(matches!(evs.last(), Some(ParseEvent::EndDocument)));
    assert_eq!(r.text(), "tc");
}

#[test]
fn text_collects_direct_and_nested_text() {
    let r = tag("a", vec![text("1"), tag("b", vec![text("2"), tag("c", vec![text("3")])]), text("4")]);
    assert_eq!(r.text(), "14");
    assert_eq!(r.text_rec(), "1234");
    assert_eq!(text("z").text(), "z");
    assert_eq!(text("z").text_rec(), "z");
}

#[test]
fn writes_tree_as_markup() {
    let r = XmlNode::Tag {
        name: "a".to_string(),
        attributes: vec![("k".to_string(), "v".to_string()), ("n".to_string(), "1".to_string())],
        children: vec![text("x"), tag("b", vec![]), tag("c", vec![text("y")])],
    };
    assert_eq!(r.to_string(), "<a k=\"v\" n=\"1\">x<b /><c>y</c></a>");
    assert_eq!(XmlNode::empty().to_string(), "< />");
    assert_eq!(text("t&").to_string(), "t&");
}

#[test]
fn attributes_are_kept_by_ascending_name() {
    let r = XmlNode::from_str("<a z=\"1\" b=\"2\" m=\"3\"/>").unwrap();
    assert_eq!(
        r,
        XmlNode::Tag {
            name: "a".to_string(),
            attributes: vec![
                ("b".to_string(), "2".to_string()),
                ("m".to_string(), "3".to_string()),
                ("z".to_string(), "1".to_string()),
            ],
            children: vec![],
        }
    );
    assert_eq!(r.to_string(), "<a b=\"2\" m=\"3\" z=\"1\" />");
}

#[test]
fn markup_writes_attributes_by_name_last_value_winning() {
    let r = XmlNode::Tag {
        name: "e".to_string(),
        attributes: vec![
            ("b".to_string(), "1".to_string()),
            ("a".to_string(), "2".to_string()),
            ("b".to_string(), "3".to_string()),
            ("ab".to_string(), "4".to_string()),
        ],
        children: vec![],
    };
    assert_eq!(r.to_string(), "<e a=\"2\" ab=\"4\" b=\"3\" />");
}

#[test]
fn built_attributes_keep_last_value_of_a_name() {
    let evs = vec![
        ParseEvent::StartElement {
            name: "e".to_string(),
            attributes: vec![("y".to_string(), "1".to_string()), ("x".to_string(), "2".to_string()), ("y".to_string(), "3".to_string())],
        },
        end("e"),
    ];
    assert_eq!(
        XmlNode::build(evs),
        Ok(XmlNode::Tag {
            name: "e".to_string(),
            attributes: vec![("x".to_string(), "2".to_string()), ("y".to_string(), "3".to_string())],
            children: vec![],
        })
    );
}

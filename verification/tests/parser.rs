use svgopt::node::{ChildlessNodeType, Node, QualifiedName, RegularNodeType};
use svgopt::parser::{ParseError, ParseEvent, Parser};
use xml::namespace::Namespace;

#[test]
fn test_parse_tag() -> Result<(), ParseError> {
    let test_string =
        r#"<svg width="320" height="130" xmlns="http://www.w3.org/2000/svg"></svg>"#;

    let mut parser = Parser::new(test_string.as_bytes())?;

    let nodes = parser.parse_document()?;

    assert_eq!(nodes.len(), 1);

    Ok(())
}

#[test]
fn test_parse_nested_svg_tag() -> Result<(), ParseError> {
    let test_string = r#"<svg width="320" height="130" xmlns="http://www.w3.org/2000/svg">
                             <svg width="320" height="130"><circle cx="50" cy="50" r="5"/></svg>
                             </svg>"#;

    let mut parser = Parser::new(test_string.as_bytes())?;

    let nodes = parser.parse_document()?;

    assert_eq!(nodes.len(), 1);
    let only_node = nodes.into_iter().next().unwrap();
    match only_node {
        Node::RegularNode {
            node_type,
            namespace,
            attributes,
            children,
        } => {
            let mut element_namespace = Namespace::empty();
            element_namespace.put("", "http://www.w3.org/2000/svg");
            element_namespace.put("xml", "http://www.w3.org/XML/1998/namespace");
            element_namespace.put("xmlns", "http://www.w3.org/2000/xmlns/");
            let element_namespace: Vec<(String, String)> =
                element_namespace.0.into_iter().collect();
            assert_eq!(node_type, RegularNodeType::Svg);
            assert_eq!(namespace.element_namespace, element_namespace);
            assert_eq!(attributes.len(), 2);
            assert_eq!(children.len(), 3); // 2 whitespace children
        }
        Node::ChildlessNode { .. } => {
            panic!();
        }
    }

    Ok(())
}

#[test]
fn test_parse_oneline_tag() -> Result<(), ParseError> {
    let test_string = r#"<svg width="320" height="130" xmlns="http://www.w3.org/2000/svg"/>"#;

    let mut parser = Parser::new(test_string.as_bytes())?;

    let nodes = parser.parse_document()?;

    assert_eq!(nodes.len(), 1);

    Ok(())
}

#[test]
fn test_no_start_tag() -> Result<(), ParseError> {
    let test_string = r"
            </svg>
            ";

    let mut parser = Parser::new(test_string.as_bytes())?;

    assert!(parser.parse_document().is_err());

    Ok(())
}

#[test]
fn test_no_end_tag() -> Result<(), ParseError> {
    let test_string = r#"
            <svg width="320" height="130" xmlns="http://www.w3.org/2000/svg">
            "#;

    let mut parser = Parser::new(test_string.as_bytes())?;

    let nodes = parser.parse_document();

    assert!(nodes.is_err());
    Ok(())
}

#[test]
fn test_badly_nested_tags() -> Result<(), ParseError> {
    let test_string = r#"
            <svg width="320" height="130" xmlns="http://www.w3.org/2000/svg">
            <circle cx="100" cy="50" r="50">
            <rect x="10" y="10" width="100" height="100">
            </circle>
            </rect>
            </svg>
            "#;

    let mut parser = Parser::new(test_string.as_bytes())?;

    let nodes = parser.parse_document();

    assert!(nodes.is_err());
    Ok(())
}

#[test]
fn test_parse_non_tag() -> Result<(), ParseError> {
    let test_string = r#"
            <!--Generator: Adobe Illustrator 15.1.0, SVG Export Plug-In .SVG Version: 6.00 Build 0)-->
            <!DOCTYPE svg PUBLIC "-//W3C//DTD SVG 1.1//EN" "http://www.w3.org/Graphics/SVG/1.1/DTD/svg11.dtd">
            <svg/>
            "#
    .trim();

    let mut parser = Parser::new(test_string.as_bytes())?;

    let nodes = parser.parse_document()?;

    assert_eq!(nodes.len(), 4); // 2 whitespace children

    Ok(())
}

fn name(local: &str) -> QualifiedName {
    QualifiedName {
        local_name: local.to_string(),
        namespace: None,
        prefix: None,
    }
}

#[test]
fn test_element_kind_and_namespace_come_from_end_tag() {
    let events = vec![
        Ok(ParseEvent::StartDocument),
        Ok(ParseEvent::StartElement {
            name: name("ellipse"),
            attributes: Vec::new(),
            namespace: vec![("".to_string(), "uri".to_string())],
        }),
        Ok(ParseEvent::Comment("note".to_string())),
        Ok(ParseEvent::EndElement {
            name: QualifiedName {
                local_name: "g".to_string(),
                namespace: Some("ns".to_string()),
                prefix: Some("p".to_string()),
            },
        }),
        Ok(ParseEvent::EndDocument),
    ];
    let mut parser = Parser::from_events(events);
    let nodes = parser.parse_document().unwrap();
    assert_eq!(nodes.len(), 1);
    match &nodes[0] {
        Node::RegularNode { node_type, namespace, children, .. } => {
            assert_eq!(*node_type, RegularNodeType::Group);
            assert_eq!(namespace.parent_namespace, Some("ns".to_string()));
            assert_eq!(namespace.prefix, Some("p".to_string()));
            assert_eq!(namespace.element_namespace, vec![("".to_string(), "uri".to_string())]);
            assert_eq!(children.len(), 1);
            assert!(matches!(
                &children[0],
                Node::ChildlessNode { node_type: ChildlessNodeType::Comment(t) } if t == "note"
            ));
        }
        Node::ChildlessNode { .. } => panic!(),
    }
    // The events are consumed: a second call builds nothing.
    assert_eq!(parser.parse_document().unwrap().len(), 0);
}

#[test]
fn test_unclosed_element_at_end_of_events() {
    let events = vec![
        Ok(ParseEvent::StartElement {
            name: name("svg"),
            attributes: Vec::new(),
            namespace: Vec::new(),
        }),
        Ok(ParseEvent::EndDocument),
    ];
    let result = Parser::from_events(events).parse_document();
    assert!(matches!(result, Err(ParseError::UnexpectedEnd)));

    let events = vec![Ok(ParseEvent::StartElement {
        name: name("svg"),
        attributes: Vec::new(),
        namespace: Vec::new(),
    })];
    let result = Parser::from_events(events).parse_document();
    assert!(matches!(result, Err(ParseError::UnexpectedEnd)));
}

#[test]
fn test_misplaced_events() {
    let events = vec![
        Ok(ParseEvent::StartElement {
            name: name("svg"),
            attributes: Vec::new(),
            namespace: Vec::new(),
        }),
        Ok(ParseEvent::Doctype { syntax: "<!DOCTYPE svg>".to_string() }),
        Ok(ParseEvent::EndElement { name: name("svg") }),
    ];
    let result = Parser::from_events(events).parse_document();
    assert!(matches!(result, Err(ParseError::UnexpectedEvent)));

    let events = vec![Ok(ParseEvent::Whitespace(" ".to_string()))];
    let result = Parser::from_events(events).parse_document();
    assert!(matches!(result, Err(ParseError::UnexpectedEvent)));
}

#[test]
fn test_stray_end_tag_and_declarations_are_skipped() {
    let events = vec![
        Ok(ParseEvent::StartDocument),
        Ok(ParseEvent::Doctype { syntax: "<!DOCTYPE svg>".to_string() }),
        Ok(ParseEvent::EndElement { name: name("g") }),
        Ok(ParseEvent::CData("x".to_string())),
        Ok(ParseEvent::ProcessingInstruction { name: "pi".to_string(), data: None }),
        Ok(ParseEvent::EndDocument),
        Ok(ParseEvent::Characters("after the end".to_string())),
    ];
    let nodes = Parser::from_events(events).parse_document().unwrap();
    assert_eq!(nodes.len(), 2);
    assert!(matches!(
        &nodes[0],
        Node::ChildlessNode { node_type: ChildlessNodeType::Text(t, true) } if t == "x"
    ));
    assert!(matches!(
        &nodes[1],
        Node::ChildlessNode { node_type: ChildlessNodeType::ProcessingInstruction(n, None) } if n == "pi"
    ));
}

#[test]
fn test_reader_error_is_reported() {
    let mut parser = Parser::new(b"<svg><g></svg>").unwrap();
    assert!(matches!(parser.parse_document(), Err(ParseError::Xml(_))));
}

#[test]
fn test_events_of_a_document_read_back() {
    let attribute = svgopt::node::Attribute { name: name("r"), value: "5".to_string() };
    let events = vec![
        Ok(ParseEvent::StartDocument),
        Ok(ParseEvent::Comment("top".to_string())),
        Ok(ParseEvent::StartElement { name: name("svg"), attributes: Vec::new(), namespace: Vec::new() }),
        Ok(ParseEvent::StartElement {
            name: name("circle"),
            attributes: vec![attribute],
            namespace: Vec::new(),
        }),
        Ok(ParseEvent::EndElement { name: name("circle") }),
        Ok(ParseEvent::Characters("text".to_string())),
        Ok(ParseEvent::EndElement { name: name("svg") }),
        Ok(ParseEvent::EndDocument),
    ];
    let nodes = Parser::from_events(events).parse_document().unwrap();
    assert_eq!(nodes.len(), 2);
    assert!(matches!(
        &nodes[0],
        Node::ChildlessNode { node_type: ChildlessNodeType::Comment(t) } if t == "top"
    ));
    match &nodes[1] {
        Node::RegularNode { node_type, attributes, children, .. } => {
            assert_eq!(*node_type, RegularNodeType::Svg);
            assert!(attributes.is_empty());
            assert_eq!(children.len(), 2);
            match &children[0] {
                Node::RegularNode { node_type, attributes, children, .. } => {
                    assert_eq!(*node_type, RegularNodeType::Circle);
                    assert_eq!(attributes.len(), 1);
                    assert_eq!(attributes[0].name.local_name, "r");
                    assert_eq!(attributes[0].value, "5");
                    assert!(children.is_empty());
                }
                Node::ChildlessNode { .. } => panic!(),
            }
            assert!(matches!(
                &children[1],
                Node::ChildlessNode { node_type: ChildlessNodeType::Text(t, false) } if t == "text"
            ));
        }
        Node::ChildlessNode { .. } => panic!(),
    }
}

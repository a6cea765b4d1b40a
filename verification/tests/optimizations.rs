use svgopt::attributes::find_attribute;
use svgopt::id_usage::find_ids_for_subtree;
use svgopt::node::{Attribute, ChildlessNodeType, Node, NodeNamespace, QualifiedName, RegularNodeType};
use svgopt::optimizations::ellipses_to_circles::{ellipses_to_circles, ellipses_to_circles_from_node};
use svgopt::optimizations::extract_common_attributes::{
    extract_common_attributes, extract_common_attributes_from_node,
};
use svgopt::optimizations::remove_useless_groups::{
    is_only_child_used, remove_useless_groups, remove_useless_groups_from_node,
};
use svgopt::optimizations::remove_useless_stroke_and_fill::{
    remove_useless_stroke_and_fill, remove_useless_stroke_and_fill_from_node,
};
use svgopt::parser::Parser;

fn parse(text: &str) -> Vec<Node> {
    Parser::new(text.as_bytes()).unwrap().parse_document().unwrap()
}

/// The element children of the only top-level element.
fn root_elements(nodes: &[Node]) -> Vec<&Node> {
    let root = nodes
        .iter()
        .find(|n| matches!(n, Node::RegularNode { .. }))
        .expect("a root element");
    match root {
        Node::RegularNode { children, .. } => children
            .iter()
            .filter(|n| matches!(n, Node::RegularNode { .. }))
            .collect(),
        Node::ChildlessNode { .. } => unreachable!(),
    }
}

fn kind(node: &Node) -> &RegularNodeType {
    match node {
        Node::RegularNode { node_type, .. } => node_type,
        Node::ChildlessNode { .. } => panic!("not an element"),
    }
}

/// The attributes of an element as (local name, value) pairs, in order.
fn attrs(node: &Node) -> Vec<(String, String)> {
    match node {
        Node::RegularNode { attributes, .. } => attributes
            .iter()
            .map(|a| (a.name.local_name.clone(), a.value.clone()))
            .collect(),
        Node::ChildlessNode { .. } => panic!("not an element"),
    }
}

fn pairs(list: &[(&str, &str)]) -> Vec<(String, String)> {
    list.iter().map(|(n, v)| (n.to_string(), v.to_string())).collect()
}

fn element_children(node: &Node) -> Vec<&Node> {
    match node {
        Node::RegularNode { children, .. } => children
            .iter()
            .filter(|n| matches!(n, Node::RegularNode { .. }))
            .collect(),
        Node::ChildlessNode { .. } => Vec::new(),
    }
}

fn attribute(local: &str, value: &str) -> Attribute {
    Attribute {
        name: QualifiedName { local_name: local.to_string(), namespace: None, prefix: None },
        value: value.to_string(),
    }
}

fn element(node_type: RegularNodeType, attributes: Vec<Attribute>, children: Vec<Node>) -> Node {
    Node::RegularNode {
        node_type,
        namespace: NodeNamespace { parent_namespace: None, prefix: None, element_namespace: Vec::new() },
        attributes,
        children,
    }
}

#[test]
fn test_ellipses_to_circles() {
    let nodes = parse(
        r#"
        <svg viewBox="0 0 200 100" xmlns="http://www.w3.org/2000/svg">
        <ellipse cx="100" cy="50" rx="50" ry="50"/>
        <ellipse cx="100" cy="50" rx="50" ry="50"> Text in here </ellipse>
        <ellipse cx="100" cy="50" rx="60" ry="50"/>
        <ellipse cx="100" cy="50" rx="60"/>
        <ellipse/>
        </svg>
        "#,
    );
    let nodes = ellipses_to_circles(nodes);
    let shapes = root_elements(&nodes);
    assert_eq!(shapes.len(), 5);
    assert_eq!(*kind(shapes[0]), RegularNodeType::Circle);
    assert_eq!(attrs(shapes[0]), pairs(&[("cx", "100"), ("cy", "50"), ("r", "50")]));
    assert_eq!(*kind(shapes[1]), RegularNodeType::Circle);
    assert_eq!(attrs(shapes[1]), pairs(&[("cx", "100"), ("cy", "50"), ("r", "50")]));
    match shapes[1] {
        Node::RegularNode { children, .. } => assert!(matches!(
            &children[0],
            Node::ChildlessNode { node_type: ChildlessNodeType::Text(t, false) } if t == " Text in here "
        )),
        Node::ChildlessNode { .. } => panic!(),
    }
    assert_eq!(*kind(shapes[2]), RegularNodeType::Ellipse);
    assert_eq!(attrs(shapes[2]), pairs(&[("cx", "100"), ("cy", "50"), ("rx", "60"), ("ry", "50")]));
    assert_eq!(*kind(shapes[3]), RegularNodeType::Ellipse);
    assert_eq!(attrs(shapes[3]), pairs(&[("cx", "100"), ("cy", "50"), ("rx", "60")]));
    assert_eq!(*kind(shapes[4]), RegularNodeType::Ellipse);
    assert!(attrs(shapes[4]).is_empty());
}

#[test]
fn test_circle_takes_namespace_of_rx() {
    let rx = Attribute {
        name: QualifiedName {
            local_name: "rx".to_string(),
            namespace: Some("urn:a".to_string()),
            prefix: Some("a".to_string()),
        },
        value: "7".to_string(),
    };
    let node = element(
        RegularNodeType::Ellipse,
        vec![attribute("ry", "7"), rx, attribute("rx", "9")],
        Vec::new(),
    );
    let node = ellipses_to_circles_from_node(node);
    assert_eq!(*kind(&node), RegularNodeType::Circle);
    match &node {
        Node::RegularNode { attributes, .. } => {
            assert_eq!(attributes.len(), 1);
            assert_eq!(attributes[0].name.local_name, "r");
            assert_eq!(attributes[0].name.namespace, Some("urn:a".to_string()));
            assert_eq!(attributes[0].name.prefix, Some("a".to_string()));
            assert_eq!(attributes[0].value, "7");
        }
        Node::ChildlessNode { .. } => panic!(),
    }
}

#[test]
fn test_ellipses_to_circles_twice_is_once() {
    let text = r#"<svg><g><ellipse rx="3" ry="3"/><ellipse rx="3" ry="4"/></g></svg>"#;
    let once = ellipses_to_circles(parse(text));
    let twice = ellipses_to_circles(ellipses_to_circles(parse(text)));
    assert_eq!(format!("{:?}", once), format!("{:?}", twice));
}

#[test]
fn test_extract_common_attributes() {
    let nodes = parse(
        r#"
        <svg viewBox="0 0 200 100" xmlns="http://www.w3.org/2000/svg">
        <g fill="white">
        <circle cx="40" cy="40" r="25" stroke-width="5" stroke="green"/>
        <circle cx="60" cy="60" r="25" stroke-width="5" stroke="green"/>
        </g>
        </svg>
        "#,
    );
    let nodes = extract_common_attributes(nodes);
    let groups = root_elements(&nodes);
    assert_eq!(attrs(groups[0]), pairs(&[("fill", "white"), ("stroke-width", "5"), ("stroke", "green")]));
    let circles = element_children(groups[0]);
    assert_eq!(attrs(circles[0]), pairs(&[("cx", "40"), ("cy", "40"), ("r", "25")]));
    assert_eq!(attrs(circles[1]), pairs(&[("cx", "60"), ("cy", "60"), ("r", "25")]));
}

#[test]
fn test_extract_common_attributes_overwrite() {
    let nodes = parse(
        r#"
        <svg viewBox="0 0 200 100" xmlns="http://www.w3.org/2000/svg">
        <g fill="white" stroke="red">
        <circle cx="40" cy="40" r="25" stroke-width="5" stroke="green"/>
        <circle cx="60" cy="60" r="25" stroke-width="5" stroke="green"/>
        </g>
        </svg>
        "#,
    );
    let nodes = extract_common_attributes(nodes);
    let groups = root_elements(&nodes);
    assert_eq!(attrs(groups[0]), pairs(&[("fill", "white"), ("stroke-width", "5"), ("stroke", "green")]));
    let circles = element_children(groups[0]);
    assert_eq!(attrs(circles[0]), pairs(&[("cx", "40"), ("cy", "40"), ("r", "25")]));
    assert_eq!(attrs(circles[1]), pairs(&[("cx", "60"), ("cy", "60"), ("r", "25")]));
}

#[test]
fn test_extract_common_attributes_no_extraction() {
    let nodes = parse(
        r#"
        <svg viewBox="0 0 200 100" xmlns="http://www.w3.org/2000/svg">
        <g fill="white">
        <circle cx="40" cy="40" r="25"/>
        <circle cx="60" cy="60" r="25"/>
        <circle cx="60" cy="60" r="25"/>
        </g>
        </svg>
        "#,
    );
    let nodes = extract_common_attributes(nodes);
    let groups = root_elements(&nodes);
    assert_eq!(attrs(groups[0]), pairs(&[("fill", "white")]));
    let circles = element_children(groups[0]);
    assert_eq!(attrs(circles[2]), pairs(&[("cx", "60"), ("cy", "60"), ("r", "25")]));
}

#[test]
fn test_extract_common_attributes_group_without_elements() {
    let group = element(
        RegularNodeType::Group,
        vec![attribute("fill", "red")],
        vec![Node::ChildlessNode { node_type: ChildlessNodeType::Comment("c".to_string()) }],
    );
    let group = extract_common_attributes_from_node(group);
    assert_eq!(attrs(&group), pairs(&[("fill", "red")]));
}

#[test]
fn test_extract_common_attributes_twice_is_once() {
    let text = r#"<svg><g opacity="1"><rect x="1" fill="red" stroke="blue"/><rect x="1" fill="red" stroke="blue"/></g></svg>"#;
    let once = extract_common_attributes(parse(text));
    let twice = extract_common_attributes(extract_common_attributes(parse(text)));
    assert_eq!(format!("{:?}", once), format!("{:?}", twice));
    let groups = root_elements(&once);
    assert_eq!(attrs(groups[0]), pairs(&[("opacity", "1"), ("fill", "red"), ("stroke", "blue")]));
    assert_eq!(attrs(element_children(groups[0])[0]), pairs(&[("x", "1")]));
}

#[test]
fn test_remove_useless_groups_removed() {
    let nodes = parse(
        r#"
        <svg xmlns="http://www.w3.org/2000/svg">
        <g fill="white" stroke="green" stroke-width="5"><circle cx="40" cy="40" r="25"/></g>
        <g><g/><g/></g></svg>
        "#,
    );
    let nodes = remove_useless_groups(nodes);
    let shapes = root_elements(&nodes);
    assert_eq!(shapes.len(), 1);
    assert_eq!(*kind(shapes[0]), RegularNodeType::Circle);
    assert_eq!(
        attrs(shapes[0]),
        pairs(&[
            ("cx", "40"),
            ("cy", "40"),
            ("r", "25"),
            ("fill", "white"),
            ("stroke", "green"),
            ("stroke-width", "5")
        ])
    );
}

#[test]
fn test_remove_useless_groups_not_removed() {
    let nodes = parse(
        r#"
        <svg xmlns="http://www.w3.org/2000/svg">
        <g fill="white" stroke="green" stroke-width="5">
        <circle cx="40" cy="40" r="25"/>
        <circle cx="80" cy="80" r="25"/>
        </g>
        <g fill="white" stroke="green" stroke-width="5">
        some text
        </g>
        </svg>
        "#,
    );
    let nodes = remove_useless_groups(nodes);
    let groups = root_elements(&nodes);
    assert_eq!(groups.len(), 2);
    assert_eq!(*kind(groups[0]), RegularNodeType::Group);
    assert_eq!(element_children(groups[0]).len(), 2);
    assert_eq!(*kind(groups[1]), RegularNodeType::Group);
    assert_eq!(attrs(groups[1]), pairs(&[("fill", "white"), ("stroke", "green"), ("stroke-width", "5")]));
}

#[test]
fn test_remove_useless_groups_item_used_via_id() {
    let nodes = parse(
        r##"<svg viewBox="-40 0 150 100">
        <g transform="rotate(-10 50 100)"><path id="heart" d="M 10,30 A 20,20 0,0,1 50,30 A 20,20 0,0,1 90,30 Q 90,60 50,90 Q 10,60 10,30 z"/></g>
        <use href="#heart" fill="none" stroke="red"/>
        </svg>
        "##,
    );
    let nodes = remove_useless_groups(nodes);
    let elements = root_elements(&nodes);
    assert_eq!(elements.len(), 2);
    assert_eq!(*kind(elements[0]), RegularNodeType::Group);
    assert_eq!(attrs(elements[0]), pairs(&[("transform", "rotate(-10 50 100)")]));
    assert_eq!(*kind(element_children(elements[0])[0]), RegularNodeType::Path);
}

#[test]
fn test_ids_referenced_by_url_and_hash() {
    let nodes = parse(
        r##"<svg><rect fill="url(#grad)"/><g><use href="#shape"/></g><text>#not-an-attribute</text><rect id="x" fill="#fff"/></svg>"##,
    );
    let mut ids = find_ids_for_subtree(&nodes);
    ids.sort();
    assert_eq!(ids, vec!["fff".to_string(), "grad".to_string(), "shape".to_string()]);
}

#[test]
fn test_only_child_used() {
    let used = vec!["a".to_string()];
    let with_id = element(RegularNodeType::Path, vec![attribute("id", "a")], Vec::new());
    let other_id = element(RegularNodeType::Path, vec![attribute("id", "b")], Vec::new());
    let text = Node::ChildlessNode { node_type: ChildlessNodeType::Text("t".to_string(), false) };
    assert!(is_only_child_used(&with_id, &used));
    assert!(!is_only_child_used(&other_id, &used));
    assert!(!is_only_child_used(&text, &used));
}

#[test]
fn test_group_with_used_only_child_is_kept_and_empty_group_removed() {
    let used = vec!["a".to_string()];
    let group = element(
        RegularNodeType::Group,
        vec![attribute("fill", "red")],
        vec![element(RegularNodeType::Path, vec![attribute("id", "a")], Vec::new())],
    );
    let kept = remove_useless_groups_from_node(group, &used).unwrap();
    assert_eq!(*kind(&kept), RegularNodeType::Group);
    let empty = element(RegularNodeType::Group, vec![attribute("fill", "red")], Vec::new());
    assert!(remove_useless_groups_from_node(empty, &used).is_none());
    let nested = element(
        RegularNodeType::Group,
        vec![attribute("stroke", "blue")],
        vec![element(RegularNodeType::Group, vec![attribute("fill", "red")], Vec::new())],
    );
    assert!(remove_useless_groups_from_node(nested, &used).is_none());
}

#[test]
fn test_collapsed_group_keeps_child_attributes_first() {
    let group = element(
        RegularNodeType::Group,
        vec![attribute("fill", "red"), attribute("stroke", "blue"), attribute("stroke", "green")],
        vec![element(RegularNodeType::Circle, vec![attribute("fill", "black")], Vec::new())],
    );
    let node = remove_useless_groups_from_node(group, &[]).unwrap();
    assert_eq!(*kind(&node), RegularNodeType::Circle);
    assert_eq!(attrs(&node), pairs(&[("fill", "black"), ("stroke", "blue")]));
    let text_group = element(
        RegularNodeType::Group,
        vec![attribute("fill", "red")],
        vec![Node::ChildlessNode { node_type: ChildlessNodeType::Text("t".to_string(), false) }],
    );
    let node = remove_useless_groups_from_node(text_group, &[]).unwrap();
    assert_eq!(*kind(&node), RegularNodeType::Group);
    assert_eq!(attrs(&node), pairs(&[("fill", "red")]));
}

#[test]
fn test_remove_useless_stroke_and_fill() {
    let nodes = parse(
        r#"
        <svg xmlns="http://www.w3.org/2000/svg" width="200" height="200">
        <circle cx="150" cy="50" r="40" fill="none" fill-width="10" fill-opacity="1"/>
        <circle cx="150" cy="50" r="40" fill="red" fill-width="10" fill-opacity="0"/>
        <circle cx="150" cy="50" r="40" stroke-width="0" stroke-opacity="1" stroke-linecap="round"/>
        <circle cx="150" cy="50" r="40" stroke-width="0pt" stroke-opacity="1" stroke-linecap="round"/>
        <circle cx="150" cy="50" r="40" stroke-width="3" stroke-opacity="0" stroke-linecap="round"/>
        </svg>
        "#,
    );
    let nodes = remove_useless_stroke_and_fill(nodes);
    let shapes = root_elements(&nodes);
    let base = [("cx", "150"), ("cy", "50"), ("r", "40")];
    assert_eq!(attrs(shapes[0]), pairs(&[base[0], base[1], base[2], ("fill", "none")]));
    assert_eq!(attrs(shapes[1]), pairs(&[base[0], base[1], base[2], ("fill", "red")]));
    assert_eq!(attrs(shapes[2]), pairs(&base));
    assert_eq!(attrs(shapes[3]), pairs(&base));
    assert_eq!(attrs(shapes[4]), pairs(&base));
}

#[test]
fn test_visible_stroke_and_fill_are_kept() {
    let node = element(
        RegularNodeType::Circle,
        vec![attribute("stroke-width", "0.5"), attribute("stroke", "red"), attribute("fill-opacity", "0.5")],
        Vec::new(),
    );
    let node = remove_useless_stroke_and_fill_from_node(node);
    assert_eq!(attrs(&node), pairs(&[("stroke-width", "0.5"), ("stroke", "red"), ("fill-opacity", "0.5")]));
}

#[test]
fn test_remove_useless_stroke_and_fill_twice_is_once() {
    let text = r#"<svg><circle fill="none" fill-rule="evenodd" stroke-width="-0.0mm" stroke="red"/><circle fill-opacity="0" fill="red"/></svg>"#;
    let once = remove_useless_stroke_and_fill(parse(text));
    let twice = remove_useless_stroke_and_fill(remove_useless_stroke_and_fill(parse(text)));
    assert_eq!(format!("{:?}", once), format!("{:?}", twice));
    let shapes = root_elements(&once);
    assert_eq!(attrs(shapes[0]), pairs(&[("fill", "none")]));
    assert_eq!(attrs(shapes[1]), pairs(&[("fill", "red")]));
}

#[test]
fn test_find_attribute_gives_first_match() {
    let attributes = vec![attribute("x", "1"), attribute("id", "a"), attribute("id", "b")];
    assert_eq!(find_attribute(&attributes, "id").unwrap().value, "a");
    assert!(find_attribute(&attributes, "y").is_none());
}

#[test]
fn test_extracted_attributes_keep_effective_values() {
    let group = element(
        RegularNodeType::Group,
        vec![attribute("fill", "blue"), attribute("stroke", "black")],
        vec![
            element(RegularNodeType::Circle, vec![attribute("fill", "red"), attribute("r", "1")], Vec::new()),
            element(RegularNodeType::Circle, vec![attribute("fill", "red"), attribute("r", "2")], Vec::new()),
        ],
    );
    let result = extract_common_attributes_from_node(group);
    assert_eq!(attrs(&result), pairs(&[("stroke", "black"), ("fill", "red")]));
    let kids = element_children(&result);
    assert_eq!(attrs(kids[0]), pairs(&[("r", "1")]));
    assert_eq!(attrs(kids[1]), pairs(&[("r", "2")]));
}

#[test]
fn test_no_circular_ellipse_left() {
    let nodes = vec![element(
        RegularNodeType::Group,
        Vec::new(),
        vec![
            element(RegularNodeType::Ellipse, vec![attribute("rx", "3"), attribute("ry", "3")], Vec::new()),
            element(RegularNodeType::Ellipse, vec![attribute("rx", "3"), attribute("ry", "4")], Vec::new()),
        ],
    )];
    let result = ellipses_to_circles(nodes);
    let kids = element_children(&result[0]);
    assert_eq!(*kind(kids[0]), RegularNodeType::Circle);
    assert_eq!(*kind(kids[1]), RegularNodeType::Ellipse);
}

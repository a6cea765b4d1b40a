use svgopt::node::{Attribute, ChildlessNodeType, Node, NodeNamespace, QualifiedName, RegularNodeType};
use svgopt::optimizations::remove_rough_style::{
    canonical_form, canonicalize_command, commands_are_similar, deduplicate_path_data,
    parse_coords, read_numbers, remove_rough_style, remove_rough_style_from_node,
};
use svgopt::parser::Parser;

/// The number written in `text`, written out again, if it reads as one.
fn number(text: &String) -> Option<String> {
    text.parse::<f64>().ok().map(|x| format!("{}", x))
}

/// Whether two numbers lie less than the tolerance apart.
fn close(a: &String, b: &String) -> bool {
    match (a.parse::<f64>(), b.parse::<f64>()) {
        (Ok(x), Ok(y)) => (x - y).abs() < 0.1,
        _ => false,
    }
}

fn parse(text: &str) -> Vec<Node> {
    Parser::new(text.as_bytes()).unwrap().parse_document().unwrap()
}

fn attribute(local: &str, value: &str) -> Attribute {
    Attribute {
        name: QualifiedName { local_name: local.to_string(), namespace: None, prefix: None },
        value: value.to_string(),
    }
}

fn element(node_type: RegularNodeType, attributes: Vec<Attribute>, children: Vec<Node>) -> Node {
    Node::RegularNode {
        node_type,
        namespace: NodeNamespace { parent_namespace: None, prefix: None, element_namespace: Vec::new() },
        attributes,
        children,
    }
}

fn path(d: &str) -> Node {
    element(RegularNodeType::Path, vec![attribute("d", d)], Vec::new())
}

/// The value of the `d` attribute of each node, `None` for nodes without one.
fn path_data(nodes: &[Node]) -> Vec<Option<String>> {
    nodes
        .iter()
        .map(|n| match n {
            Node::RegularNode { attributes, .. } => {
                attributes.iter().find(|a| a.name.local_name == "d").map(|a| a.value.clone())
            }
            Node::ChildlessNode { .. } => None,
        })
        .collect()
}

fn children(node: &Node) -> &Vec<Node> {
    match node {
        Node::RegularNode { children, .. } => children,
        Node::ChildlessNode { .. } => panic!("not an element"),
    }
}

#[test]
fn test_removes_rough_style_duplicate_paths() {
    let nodes = parse(
        r#"
        <svg xmlns="http://www.w3.org/2000/svg"><g class="outer-path"><path d="M0"/><path d="M1"/></g></svg>
        "#,
    );
    let result = remove_rough_style(nodes, &number, &close);
    let elements: Vec<&Node> =
        result.iter().filter(|n| matches!(n, Node::RegularNode { .. })).collect();
    assert_eq!(elements.len(), 1);
    let svg = elements[0];
    assert!(matches!(svg, Node::RegularNode { node_type: RegularNodeType::Svg, .. }));
    let groups = children(svg);
    assert_eq!(groups.len(), 1);
    match &groups[0] {
        Node::RegularNode { node_type, attributes, children, .. } => {
            assert_eq!(*node_type, RegularNodeType::Group);
            assert_eq!(attributes.len(), 1);
            assert_eq!(attributes[0].name.local_name, "class");
            assert_eq!(attributes[0].value, "outer-path");
            assert_eq!(path_data(children), vec![Some("M0".to_string())]);
            assert!(matches!(&children[0], Node::RegularNode { node_type: RegularNodeType::Path, .. }));
        }
        Node::ChildlessNode { .. } => panic!("not an element"),
    }
}

#[test]
fn test_similar_consecutive_commands_are_dropped() {
    let d = "M 10 10 C 1 2 3 4 20 20 C 5 6 7 8 20.05 20.01 L 30 30";
    assert_eq!(deduplicate_path_data(d, &number, &close), "M 10 10  L20 20 L 30 30");
}

#[test]
fn test_run_is_compared_with_its_first_command() {
    // The third command is within the tolerance of the second, but not of the
    // first, which starts the run: it starts a run of its own.
    let d = "L0 0L0.06 0L0.12 0";
    assert_eq!(deduplicate_path_data(d, &number, &close), "L0 0 L0.12 0");
}

#[test]
fn test_empty_path_data_stays_empty() {
    assert_eq!(deduplicate_path_data("", &number, &close), "");
}

#[test]
fn test_text_before_the_first_command_is_kept() {
    assert_eq!(deduplicate_path_data("m0,0l10,10", &number, &close), "m0,0l10,10");
    assert_eq!(deduplicate_path_data("10 20", &number, &close), "10 20");
    assert_eq!(deduplicate_path_data(" m1 1 L2 2 L2 2.05", &number, &close), " m1 1 L2 2 ");
    assert_eq!(deduplicate_path_data("M0 0 l1 1 l1 1", &number, &close), "M0 0 l1 1 l1 1");
}

#[test]
fn test_canonicalize_command() {
    assert_eq!(canonicalize_command("C 1 2 3 4 5.5 6", &number), "L5.5 6");
    assert_eq!(canonicalize_command("C 1 2 3 4 5.50 06", &number), "L5.5 6");
    assert_eq!(canonicalize_command("S1 2 3 4", &number), "L3 4");
    assert_eq!(canonicalize_command("Q1 2 3 4", &number), "L3 4");
    assert_eq!(canonicalize_command("T7 8", &number), "L7 8");
    assert_eq!(canonicalize_command("Q1 2", &number), "Q1 2");
    assert_eq!(canonicalize_command("M 3 4 ", &number), "M 3 4 ");
    assert_eq!(canonicalize_command("Z", &number), "Z");
    assert_eq!(canonicalize_command("", &number), "M");
}

#[test]
fn test_parse_coords() {
    assert_eq!(
        parse_coords("C 1 -2.5 3. 007", &number),
        ('C', vec!["1".to_string(), "-2.5".to_string(), "3".to_string(), "7".to_string()])
    );
    assert_eq!(parse_coords("Z", &number), ('Z', Vec::new()));
    assert_eq!(parse_coords("", &number), ('M', Vec::new()));
    // A number that `number` cannot read is left out.
    let only_small = |text: &String| if text.len() < 3 { Some(text.clone()) } else { None };
    assert_eq!(parse_coords("L 10 200 30", &only_small), ('L', vec!["10".to_string(), "30".to_string()]));
}

#[test]
fn test_commands_are_similar() {
    assert!(commands_are_similar("L0 0", "L0.05 0.09", &number, &close));
    assert!(!commands_are_similar("L0 0", "L0 0.1", &number, &close));
    assert!(!commands_are_similar("L0 0", "L0.2 0", &number, &close));
    assert!(!commands_are_similar("L0 0", "M0 0", &number, &close));
    assert!(!commands_are_similar("L0 0", "L0 0 1", &number, &close));
    assert!(commands_are_similar("C 1 2 3 4 5 6", "C 9 9 9 9 5 6", &number, &close));
    assert!(!commands_are_similar("M0", "M1", &number, &close));
    assert!(!commands_are_similar("H10", "H20", &number, &close));
    assert!(commands_are_similar("H10", "H10.05", &number, &close));
    assert!(commands_are_similar("Z", "Z", &number, &close));
    assert!(commands_are_similar("", "M", &number, &close));
}

#[test]
fn test_sibling_paths_of_other_shapes_are_kept() {
    // The second path has other commands than the first, the third one
    // coordinate more than the second; the fourth has the shape of the third.
    let nodes = vec![path("M0 0 L10 10"), path("M0 0 H20"), path("M0 0 L20 20"), path("M5 5 L30 30")];
    let result = remove_rough_style(nodes, &number, &close);
    assert_eq!(
        path_data(&result),
        vec![
            Some("M0 0  L10 10".to_string()),
            Some("M0 0  H20".to_string()),
            Some("M0 0  L20 20".to_string()),
        ]
    );
}

#[test]
fn test_other_node_between_paths_ends_the_run() {
    let comment = Node::ChildlessNode { node_type: ChildlessNodeType::Comment("c".to_string()) };
    let nodes = vec![path("M0"), comment, path("M1"), path("M2")];
    let result = remove_rough_style(nodes, &number, &close);
    assert_eq!(result.len(), 3);
    assert_eq!(path_data(&result), vec![Some("M0".to_string()), None, Some("M1".to_string())]);
}

#[test]
fn test_path_data_of_other_elements_is_untouched() {
    let group = element(
        RegularNodeType::Group,
        vec![attribute("d", "C 1 2 3 4 5 6"), attribute("fill", "red")],
        vec![path("C 1 2 3 4 5 6 C 1 2 3 4 5 6")],
    );
    let result = remove_rough_style_from_node(group, &number, &close).unwrap();
    match &result {
        Node::RegularNode { attributes, children, .. } => {
            assert_eq!(attributes[0].value, "C 1 2 3 4 5 6");
            assert_eq!(attributes[1].value, "red");
            assert_eq!(path_data(children), vec![Some("L5 6".to_string())]);
        }
        Node::ChildlessNode { .. } => panic!("not an element"),
    }
}

#[test]
fn test_childless_node_is_kept() {
    let text = Node::ChildlessNode { node_type: ChildlessNodeType::Text("t".to_string(), false) };
    let result = remove_rough_style_from_node(text, &number, &close).unwrap();
    assert!(matches!(
        result,
        Node::ChildlessNode { node_type: ChildlessNodeType::Text(t, false) } if t == "t"
    ));
}

#[test]
fn test_canonical_form() {
    let coords = |list: &[&str]| list.iter().map(|c| c.to_string()).collect::<Vec<String>>();
    assert_eq!(canonical_form("C 1 2 3 4 5.50 6", 'C', &coords(&["1", "2", "3", "4", "5.5", "6"])), "L5.5 6");
    assert_eq!(canonical_form("C 1 2 3 4", 'C', &coords(&["1", "2", "3", "4"])), "C 1 2 3 4");
    assert_eq!(canonical_form("T 1 2 3", 'T', &coords(&["1", "2", "3"])), "L2 3");
    assert_eq!(canonical_form("H 5", 'H', &coords(&["5"])), "H 5");
    assert_eq!(canonical_form("Z ", 'Z', &coords(&[])), "Z");
    assert_eq!(canonical_form("", 'M', &coords(&[])), "M");
}

#[test]
fn test_read_numbers_keeps_order_and_skips_unread() {
    let texts: Vec<String> = vec!["1.50".to_string(), "x".to_string(), "-0".to_string()];
    assert_eq!(read_numbers(&texts, &number), vec!["1.5".to_string(), "-0".to_string()]);
    assert_eq!(read_numbers(&Vec::new(), &number), Vec::<String>::new());
}

#[test]
fn test_renderings_differing_in_control_points_come_out_alike() {
    let first = vec![element(
        RegularNodeType::Group,
        vec![attribute("class", "outer-path")],
        vec![
            path("M0 0 C 1 2 3 4 10 10 C 5 5 5 5 10.05 10 Q 1 1 20 20"),
            path("M0 0 C 1 1 2 2 10 10"),
        ],
    )];
    let second = vec![element(
        RegularNodeType::Group,
        vec![attribute("class", "outer-path")],
        vec![
            path("M0 0 C 7 8 9 1 10 10 C 2 2 2 2 10.05 10 Q 9 9 20 20"),
            path("M0 0 C 6 6 7 7 10 10"),
        ],
    )];
    let first = remove_rough_style(first, &number, &close);
    let second = remove_rough_style(second, &number, &close);
    let first_data = path_data(children(&first[0]));
    assert_eq!(first_data, path_data(children(&second[0])));
    assert_eq!(
        first_data,
        vec![Some("M0 0  L10 10 L20 20".to_string()), Some("M0 0  L10 10".to_string())]
    );
}

#[test]
fn test_commands_are_similar_either_way_round() {
    let pairs = [("L0 0", "L0.05 0"), ("L0 0", "L0.2 0"), ("C1 2 3 4 5 6", "C9 9 9 9 5.01 6"), ("M0", "L0")];
    for (a, b) in pairs {
        assert_eq!(
            commands_are_similar(a, b, &number, &close),
            commands_are_similar(b, a, &number, &close)
        );
    }
}

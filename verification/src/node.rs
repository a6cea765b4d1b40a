//! The document tree: element nodes with their attributes and children, and
//! childless nodes (text, comments, processing instructions), together with
//! the mathematical model (`NodeView`) that every contract is stated over.
use vstd::prelude::*;

verus! {

/// A name qualified by an optional namespace URI and prefix.
#[derive(Debug)]
pub struct QualifiedName {
    pub local_name: String,
    pub namespace: Option<String>,
    pub prefix: Option<String>,
}

/// Model of a `QualifiedName`.
#[verifier::ext_equal]
pub struct NameView {
    pub local_name: Seq<char>,
    pub namespace: Option<Seq<char>>,
    pub prefix: Option<Seq<char>>,
}

pub open spec fn option_string_view(o: Option<String>) -> Option<Seq<char>> {
    match o {
        Some(s) => Some(s@),
        None => None,
    }
}

impl View for QualifiedName {
    type V = NameView;

    open spec fn view(&self) -> NameView {
        NameView {
            local_name: self.local_name@,
            namespace: option_string_view(self.namespace),
            prefix: option_string_view(self.prefix),
        }
    }
}

/// An attribute of an element: a qualified name and its value.
#[derive(Debug)]
pub struct Attribute {
    pub name: QualifiedName,
    pub value: String,
}

/// Model of an `Attribute`.
#[verifier::ext_equal]
pub struct AttributeView {
    pub name: NameView,
    pub value: Seq<char>,
}

impl View for Attribute {
    type V = AttributeView;

    open spec fn view(&self) -> AttributeView {
        AttributeView { name: self.name@, value: self.value@ }
    }
}

/// The models of a sequence of attributes, in order.
pub open spec fn attributes_view(attrs: Seq<Attribute>) -> Seq<AttributeView> {
    attrs.map_values(|a: Attribute| a@)
}

/// Namespace information of an element: the namespace and prefix of its own
/// name, and the prefix-to-URI mappings in scope at the element, in key order.
#[derive(Debug)]
pub struct NodeNamespace {
    pub parent_namespace: Option<String>,
    pub prefix: Option<String>,
    pub element_namespace: Vec<(String, String)>,
}

/// The models of prefix-to-URI mappings.
pub open spec fn mappings_view(m: Seq<(String, String)>) -> Seq<(Seq<char>, Seq<char>)> {
    m.map_values(|p: (String, String)| (p.0@, p.1@))
}

/// Model of a `NodeNamespace`.
#[verifier::ext_equal]
pub struct NamespaceView {
    pub parent_namespace: Option<Seq<char>>,
    pub prefix: Option<Seq<char>>,
    pub element_namespace: Seq<(Seq<char>, Seq<char>)>,
}

impl View for NodeNamespace {
    type V = NamespaceView;

    open spec fn view(&self) -> NamespaceView {
        NamespaceView {
            parent_namespace: option_string_view(self.parent_namespace),
            prefix: option_string_view(self.prefix),
            element_namespace: mappings_view(self.element_namespace@),
        }
    }
}

/// The kind of an element, by its local name.
#[derive(Debug, PartialEq, Eq)]
pub enum RegularNodeType {
    Svg,
    Group,
    Ellipse,
    Circle,
    Path,
    Other(String),
}

/// Model of a `RegularNodeType`.
#[verifier::ext_equal]
pub enum NodeKind {
    Svg,
    Group,
    Ellipse,
    Circle,
    Path,
    Other(Seq<char>),
}

impl View for RegularNodeType {
    type V = NodeKind;

    open spec fn view(&self) -> NodeKind {
        match self {
            RegularNodeType::Svg => NodeKind::Svg,
            RegularNodeType::Group => NodeKind::Group,
            RegularNodeType::Ellipse => NodeKind::Ellipse,
            RegularNodeType::Circle => NodeKind::Circle,
            RegularNodeType::Path => NodeKind::Path,
            RegularNodeType::Other(name) => NodeKind::Other(name@),
        }
    }
}

/// The kind that an element with local name `name` has.
pub open spec fn kind_of_name(name: Seq<char>) -> NodeKind {
    if name == "svg"@ {
        NodeKind::Svg
    } else if name == "g"@ {
        NodeKind::Group
    } else if name == "ellipse"@ {
        NodeKind::Ellipse
    } else if name == "circle"@ {
        NodeKind::Circle
    } else if name == "path"@ {
        NodeKind::Path
    } else {
        NodeKind::Other(name)
    }
}

/// The local name of an element of kind `kind`.
pub open spec fn name_of_kind(kind: NodeKind) -> Seq<char> {
    match kind {
        NodeKind::Svg => "svg"@,
        NodeKind::Group => "g"@,
        NodeKind::Ellipse => "ellipse"@,
        NodeKind::Circle => "circle"@,
        NodeKind::Path => "path"@,
        NodeKind::Other(name) => name,
    }
}

impl RegularNodeType {
    /// The kind of an element with the given local name.
    pub fn from_name(name: String) -> (kind: RegularNodeType)
        ensures
            kind@ == kind_of_name(name@),
    {
        if crate::text::string_is(&name, "svg") {
            RegularNodeType::Svg
        } else if crate::text::string_is(&name, "g") {
            RegularNodeType::Group
        } else if crate::text::string_is(&name, "ellipse") {
            RegularNodeType::Ellipse
        } else if crate::text::string_is(&name, "circle") {
            RegularNodeType::Circle
        } else if crate::text::string_is(&name, "path") {
            RegularNodeType::Path
        } else {
            RegularNodeType::Other(name)
        }
    }

    /// The local name of elements of this kind.
    pub fn name(&self) -> (name: String)
        ensures
            name@ == name_of_kind(self@),
    {
        match self {
            RegularNodeType::Svg => "svg".to_owned(),
            RegularNodeType::Group => "g".to_owned(),
            RegularNodeType::Ellipse => "ellipse".to_owned(),
            RegularNodeType::Circle => "circle".to_owned(),
            RegularNodeType::Path => "path".to_owned(),
            RegularNodeType::Other(name) => name.clone(),
        }
    }
}

/// Content of a node that has no children.
#[derive(Debug)]
pub enum ChildlessNodeType {
    /// Target and optional data of a processing instruction.
    ProcessingInstruction(String, Option<String>),
    /// Character data; the flag is set for CDATA sections.
    Text(String, bool),
    Comment(String),
}

/// Model of a `ChildlessNodeType`.
#[verifier::ext_equal]
pub enum ChildlessView {
    ProcessingInstruction(Seq<char>, Option<Seq<char>>),
    Text(Seq<char>, bool),
    Comment(Seq<char>),
}

impl View for ChildlessNodeType {
    type V = ChildlessView;

    open spec fn view(&self) -> ChildlessView {
        match self {
            ChildlessNodeType::ProcessingInstruction(target, data) => ChildlessView::ProcessingInstruction(
                target@,
                option_string_view(*data),
            ),
            ChildlessNodeType::Text(text, cdata) => ChildlessView::Text(text@, *cdata),
            ChildlessNodeType::Comment(text) => ChildlessView::Comment(text@),
        }
    }
}

/// A node of the document tree.
#[allow(inconsistent_fields)]
#[derive(Debug)]
pub enum Node {
    RegularNode {
        node_type: RegularNodeType,
        namespace: NodeNamespace,
        attributes: Vec<Attribute>,
        children: Vec<Node>,
    },
    ChildlessNode { node_type: ChildlessNodeType },
}

/// Model of a `Node`.
#[verifier::ext_equal]
pub enum NodeView {
    Regular {
        kind: NodeKind,
        namespace: NamespaceView,
        attributes: Seq<AttributeView>,
        children: Seq<NodeView>,
    },
    Childless { content: ChildlessView },
}

/// Stands where an index lies outside a sequence; never observed.
pub open spec fn no_node() -> NodeView {
    NodeView::Childless { content: ChildlessView::Comment(Seq::empty()) }
}

impl Node {
    pub open spec fn view(&self) -> NodeView
        decreases self,
    {
        match self {
            Node::RegularNode { node_type, namespace, attributes, children } => NodeView::Regular {
                kind: node_type@,
                namespace: namespace@,
                attributes: attributes_view(attributes@),
                children: Seq::new(
                    children@.len(),
                    |i: int|
                        if 0 <= i < children@.len() {
                            children@[i].view()
                        } else {
                            no_node()
                        },
                ),
            },
            Node::ChildlessNode { node_type } => NodeView::Childless { content: node_type@ },
        }
    }
}

/// The models of a sequence of nodes, in order.
pub open spec fn nodes_view(nodes: Seq<Node>) -> Seq<NodeView> {
    Seq::new(nodes.len(), |i: int| if 0 <= i < nodes.len() { nodes[i].view() } else { no_node() })
}

/// The children of an element node model are the models of its children.
pub proof fn lemma_children_view(n: Node)
    requires
        n is RegularNode,
    ensures
        n.view()->children =~= nodes_view(n->children@),
        n.view()->attributes == attributes_view(n->attributes@),
{
}

} // verus!

//! Rewrites ellipses whose two radii are equal as circles.
use vstd::prelude::*;
use crate::attributes::{R_NAME, RX_NAME, RY_NAME, clone_option_string, filter_attributes, find_attribute, first_named};
use crate::node::{
    Attribute, AttributeView, NameView, NamespaceView, Node, NodeKind, NodeNamespace, NodeView,
    QualifiedName, RegularNodeType, attributes_view, lemma_children_view, no_node, nodes_view,
};
use crate::text::string_is;

verus! {

/// Whether an attribute is one of the two radii of an ellipse.
pub open spec fn is_radius(a: AttributeView) -> bool {
    a.name.local_name == RX_NAME@ || a.name.local_name == RY_NAME@
}

/// The `r` attribute that replaces the radius `rx` of a circular ellipse.
pub open spec fn radius_attribute(rx: AttributeView) -> AttributeView {
    AttributeView {
        name: NameView { local_name: R_NAME@, namespace: rx.name.namespace, prefix: rx.name.prefix },
        value: rx.value,
    }
}

/// An ellipse with the given parts: a circle when its first `rx` and first
/// `ry` attributes have equal values (both radii are then replaced by one
/// `r` attribute at the end), the ellipse unchanged otherwise. Its children
/// are kept as they are.
pub open spec fn ellipse_as_circle(
    namespace: NamespaceView,
    attributes: Seq<AttributeView>,
    children: Seq<NodeView>,
) -> NodeView {
    let rx = first_named(attributes, RX_NAME@);
    let ry = first_named(attributes, RY_NAME@);
    if rx is Some && ry is Some && rx->0.value == ry->0.value {
        NodeView::Regular {
            kind: NodeKind::Circle,
            namespace,
            attributes: attributes.filter(|a: AttributeView| !is_radius(a)).push(
                radius_attribute(rx->0),
            ),
            children,
        }
    } else {
        NodeView::Regular { kind: NodeKind::Ellipse, namespace, attributes, children }
    }
}

/// A node with every circular ellipse in it turned into a circle.
pub open spec fn ellipses_to_circles_node(n: NodeView) -> NodeView
    decreases n,
{
    match n {
        NodeView::Regular { kind, namespace, attributes, children } => {
            if kind is Ellipse {
                ellipse_as_circle(namespace, attributes, children)
            } else {
                NodeView::Regular {
                    kind,
                    namespace,
                    attributes,
                    children: Seq::new(
                        children.len(),
                        |i: int|
                            if 0 <= i < children.len() {
                                ellipses_to_circles_node(children[i])
                            } else {
                                no_node()
                            },
                    ),
                }
            }
        },
        NodeView::Childless { .. } => n,
    }
}

/// A sequence of nodes with every circular ellipse in it turned into a circle.
pub open spec fn ellipses_to_circles_spec(nodes: Seq<NodeView>) -> Seq<NodeView> {
    Seq::new(
        nodes.len(),
        |i: int| if 0 <= i < nodes.len() { ellipses_to_circles_node(nodes[i]) } else { no_node() },
    )
}

/// Turns the node into a circle if it is a circular ellipse, and processes
/// the children of any other element.
pub fn ellipses_to_circles_from_node(node: Node) -> (r: Node)
    ensures
        r.view() == ellipses_to_circles_node(node.view()),
    decreases node,
{
    let ghost old_node = node;
    match node {
        Node::RegularNode { node_type: RegularNodeType::Ellipse, namespace, attributes, children } => {
            let r = get_new_node(namespace, attributes, children);
            proof {
                lemma_children_view(old_node);
            }
            r
        },
        Node::RegularNode { node_type, namespace, attributes, children } => {
            proof {
                assert(decreases_to!(old_node => children));
            }
            let ghost old_children = children@;
            let new_children = ellipses_to_circles(children);
            let r = Node::RegularNode { node_type, namespace, attributes, children: new_children };
            proof {
                lemma_children_view(old_node);
                lemma_children_view(r);
                let ov = old_node.view();
                assert(r.view()->children =~= ellipses_to_circles_node(ov)->children);
                assert(r.view() =~= ellipses_to_circles_node(ov));
            }
            r
        },
        childless_node => childless_node,
    }
}

/// The first `rx` and the first `ry` attribute, where present.
pub fn get_radii(attributes: &Vec<Attribute>) -> (r: (Option<&Attribute>, Option<&Attribute>))
    ensures
        match r.0 {
            Some(a) => first_named(attributes_view(attributes@), RX_NAME@) == Some(a@),
            None => first_named(attributes_view(attributes@), RX_NAME@) is None,
        },
        match r.1 {
            Some(a) => first_named(attributes_view(attributes@), RY_NAME@) == Some(a@),
            None => first_named(attributes_view(attributes@), RY_NAME@) is None,
        },
{
    (find_attribute(attributes, RX_NAME), find_attribute(attributes, RY_NAME))
}

/// The node for an ellipse with the given parts (see `ellipse_as_circle`).
pub fn get_new_node(namespace: NodeNamespace, attributes: Vec<Attribute>, children: Vec<Node>) -> (r:
    Node)
    ensures
        r.view() == ellipse_as_circle(namespace@, attributes_view(attributes@), nodes_view(children@)),
{
    let ghost attrs = attributes_view(attributes@);
    let (rx, ry) = get_radii(&attributes);
    let radius = match (rx, ry) {
        (Some(rx), Some(ry)) => {
            if rx.value == ry.value {
                Some(
                    Attribute {
                        name: QualifiedName {
                            local_name: R_NAME.to_owned(),
                            namespace: clone_option_string(&rx.name.namespace),
                            prefix: clone_option_string(&rx.name.prefix),
                        },
                        value: rx.value.clone(),
                    },
                )
            } else {
                None
            }
        },
        _ => None,
    };
    match radius {
        Some(radius) => {
            let keep = |attr: &Attribute| -> (k: bool)
                ensures
                    k == !is_radius(attr@),
                {
                    let name = &attr.name.local_name;
                    !string_is(name, RX_NAME) && !string_is(name, RY_NAME)
                };
            let mut attributes = filter_attributes(
                attributes,
                keep,
                Ghost(|a: AttributeView| !is_radius(a)),
            );
            attributes.push(radius);
            let r = Node::RegularNode {
                node_type: RegularNodeType::Circle,
                namespace,
                attributes,
                children,
            };
            proof {
                lemma_children_view(r);
                assert(attributes_view(attributes@) =~= attrs.filter(|a: AttributeView| !is_radius(a)).push(
                    radius_attribute(first_named(attrs, RX_NAME@)->0),
                ));
                assert(r.view() =~= ellipse_as_circle(namespace@, attrs, nodes_view(children@)));
            }
            r
        },
        None => {
            let r = Node::RegularNode {
                node_type: RegularNodeType::Ellipse,
                namespace,
                attributes,
                children,
            };
            proof {
                lemma_children_view(r);
                assert(r.view() =~= ellipse_as_circle(namespace@, attrs, nodes_view(children@)));
            }
            r
        },
    }
}

/// Turns every circular ellipse in the nodes into a circle.
pub fn ellipses_to_circles(nodes: Vec<Node>) -> (r: Vec<Node>)
    ensures
        nodes_view(r@) == ellipses_to_circles_spec(nodes_view(nodes@)),
    decreases nodes,
{
    let ghost old_nodes = nodes@;
    proof {
        assert(decreases_to!(nodes => nodes@));
    }
    let mut out: Vec<Node> = Vec::new();
    #[verifier::loop_isolation(false)]
    for node in it: nodes.into_iter()
        invariant
            it.seq() == old_nodes,
            out@.len() == it.index(),
            forall|j: int|
                0 <= j < out@.len() ==> #[trigger] out@[j].view() == ellipses_to_circles_node(
                    old_nodes[j].view(),
                ),
    {
        proof {
            let i = it.index() as int;
            assert(old_nodes[i] == node);
            assert(decreases_to!(old_nodes => old_nodes[i]));
        }
        out.push(ellipses_to_circles_from_node(node));
    }
    assert(nodes_view(out@) =~= ellipses_to_circles_spec(nodes_view(old_nodes)));
    out
}

/// Whether the first `rx` and first `ry` attributes exist and have equal values.
pub open spec fn is_circular(attributes: Seq<AttributeView>) -> bool {
    let rx = first_named(attributes, RX_NAME@);
    let ry = first_named(attributes, RY_NAME@);
    rx is Some && ry is Some && rx->0.value == ry->0.value
}

/// Whether every circular ellipse that the rewrite reaches in `n` has
/// children that the rewrite leaves as they are.
pub open spec fn converts_stably(n: NodeView) -> bool
    decreases n,
{
    match n {
        NodeView::Regular { kind, attributes, children, .. } => if kind is Ellipse {
            is_circular(attributes) ==> ellipses_to_circles_spec(children) == children
        } else {
            forall|i: int| 0 <= i < children.len() ==> converts_stably(#[trigger] children[i])
        },
        NodeView::Childless { .. } => true,
    }
}

proof fn lemma_node_converts_once(n: NodeView)
    requires
        converts_stably(n),
    ensures
        ellipses_to_circles_node(ellipses_to_circles_node(n)) == ellipses_to_circles_node(n),
    decreases n,
{
    match n {
        NodeView::Regular { kind, namespace, attributes, children } => {
            let once = ellipses_to_circles_node(n);
            let twice = ellipses_to_circles_node(once);
            if kind is Ellipse {
                if is_circular(attributes) {
                    assert(once->children == children);
                    assert(twice->children =~= ellipses_to_circles_spec(children));
                    assert(twice =~= once);
                } else {
                    assert(once == n);
                    assert(twice =~= once);
                }
            } else {
                assert forall|i: int| 0 <= i < children.len() implies ellipses_to_circles_node(
                    ellipses_to_circles_node(#[trigger] children[i]),
                ) == ellipses_to_circles_node(children[i]) by {
                    lemma_node_converts_once(children[i]);
                }
                assert(twice->children =~= once->children);
                assert(twice =~= once);
            }
        },
        NodeView::Childless { .. } => {},
    }
}

/// Turning ellipses into circles a second time changes nothing, unless a
/// circular ellipse has children that the rewrite would change (the children
/// of an ellipse are only reached once it has become a circle).
pub proof fn lemma_ellipses_to_circles_idempotent(nodes: Seq<NodeView>)
    requires
        forall|i: int| 0 <= i < nodes.len() ==> converts_stably(#[trigger] nodes[i]),
    ensures
        ellipses_to_circles_spec(ellipses_to_circles_spec(nodes)) == ellipses_to_circles_spec(nodes),
{
    assert forall|i: int| 0 <= i < nodes.len() implies ellipses_to_circles_node(
        ellipses_to_circles_node(#[trigger] nodes[i]),
    ) == ellipses_to_circles_node(nodes[i]) by {
        lemma_node_converts_once(nodes[i]);
    }
    assert(ellipses_to_circles_spec(ellipses_to_circles_spec(nodes)) =~= ellipses_to_circles_spec(nodes));
}

/// No ellipse in `n`, at any depth, has its first `rx` and first `ry` equal.
pub open spec fn no_circular_ellipse(n: NodeView) -> bool
    decreases n,
{
    match n {
        NodeView::Regular { kind, attributes, children, .. } => {
            &&& !(kind is Ellipse && is_circular(attributes))
            &&& forall|i: int| 0 <= i < children.len() ==> no_circular_ellipse(#[trigger] children[i])
        },
        NodeView::Childless { .. } => true,
    }
}

/// No ellipse in `n` holds, at any depth below it, a circular ellipse (the
/// children of an ellipse are left as they are).
pub open spec fn no_circular_ellipse_in_ellipse(n: NodeView) -> bool
    decreases n,
{
    match n {
        NodeView::Regular { kind, children, .. } => if kind is Ellipse {
            forall|i: int| 0 <= i < children.len() ==> no_circular_ellipse(#[trigger] children[i])
        } else {
            forall|i: int|
                0 <= i < children.len() ==> no_circular_ellipse_in_ellipse(#[trigger] children[i])
        },
        NodeView::Childless { .. } => true,
    }
}

proof fn lemma_node_leaves_no_circular_ellipse(n: NodeView)
    requires
        no_circular_ellipse_in_ellipse(n),
    ensures
        no_circular_ellipse(ellipses_to_circles_node(n)),
    decreases n,
{
    match n {
        NodeView::Regular { kind, children, .. } => {
            if !(kind is Ellipse) {
                let out = ellipses_to_circles_node(n);
                assert forall|i: int| 0 <= i < out->children.len() implies no_circular_ellipse(
                    #[trigger] out->children[i],
                ) by {
                    lemma_node_leaves_no_circular_ellipse(children[i]);
                }
            }
        },
        NodeView::Childless { .. } => {},
    }
}

/// After ellipses are turned into circles, no ellipse anywhere has its first
/// `rx` and first `ry` equal, as long as no ellipse holds a circular ellipse
/// below it (the children of an ellipse are not rewritten).
pub proof fn lemma_no_circular_ellipse_left(nodes: Seq<NodeView>)
    requires
        forall|i: int| 0 <= i < nodes.len() ==> no_circular_ellipse_in_ellipse(#[trigger] nodes[i]),
    ensures
        forall|i: int|
            0 <= i < nodes.len() ==> no_circular_ellipse(#[trigger] ellipses_to_circles_spec(nodes)[i]),
{
    assert forall|i: int| 0 <= i < nodes.len() implies no_circular_ellipse(
        #[trigger] ellipses_to_circles_spec(nodes)[i],
    ) by {
        lemma_node_leaves_no_circular_ellipse(nodes[i]);
    }
}

} // verus!

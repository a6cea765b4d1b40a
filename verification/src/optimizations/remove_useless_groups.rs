//! Removes groups that have no content and merges a group that has a single
//! child into that child.
use vstd::prelude::*;
use crate::attributes::{ID_NAME, contains_name, find_attribute, first_named, has_name};
use crate::id_usage::{find_ids_for_subtree, nodes_refer_to, strings_view};
use crate::node::{
    Attribute, AttributeView, NamespaceView, Node, NodeKind, NodeNamespace, NodeView,
    RegularNodeType, attributes_view, lemma_children_view, nodes_view,
};

verus! {

/// Whether `n` is an element whose `id` attribute names an identifier in `used`.
pub open spec fn only_child_used(n: NodeView, used: Set<Seq<char>>) -> bool {
    match n {
        NodeView::Regular { attributes, .. } => match first_named(attributes, ID_NAME@) {
            Some(id) => used.contains(id.value),
            None => false,
        },
        NodeView::Childless { .. } => false,
    }
}

/// `child` followed by the attributes of `parent`, in order, whose name is not
/// yet present when each is considered: the child's attributes win.
pub open spec fn merged_attributes(parent: Seq<AttributeView>, child: Seq<AttributeView>) -> Seq<
    AttributeView,
>
    decreases parent.len(),
{
    if parent.len() == 0 {
        child
    } else {
        let m = merged_attributes(parent.drop_last(), child);
        if has_name(m, parent.last().name) {
            m
        } else {
            m.push(parent.last())
        }
    }
}

/// The node that replaces a group (namespace `namespace`, attributes
/// `attributes`) whose only child is `only_child`: the child element with the
/// group's attributes merged into its own, or the group unchanged when the
/// child is not an element.
pub open spec fn collapsed(
    only_child: NodeView,
    namespace: NamespaceView,
    attributes: Seq<AttributeView>,
) -> NodeView {
    match only_child {
        NodeView::Regular { kind, namespace: child_namespace, attributes: child_attributes, children } =>
            NodeView::Regular {
            kind,
            namespace: child_namespace,
            attributes: merged_attributes(attributes, child_attributes),
            children,
        },
        NodeView::Childless { .. } => NodeView::Regular {
            kind: NodeKind::Group,
            namespace,
            attributes,
            children: seq![only_child],
        },
    }
}

/// What becomes of `n` when useless groups are removed: children are
/// processed first; a group left without children disappears, a group left
/// with one child that is not an element whose identifier is in `used` is
/// collapsed into it, and every other node stays.
pub open spec fn remove_groups_node(n: NodeView, used: Set<Seq<char>>) -> Option<NodeView>
    decreases n,
{
    match n {
        NodeView::Regular { kind, namespace, attributes, children } => {
            let kids = remove_groups_nodes(children, used);
            if kind is Group {
                if kids.len() == 0 {
                    None
                } else if kids.len() == 1 && !only_child_used(kids[0], used) {
                    Some(collapsed(kids[0], namespace, attributes))
                } else {
                    Some(NodeView::Regular { kind, namespace, attributes, children: kids })
                }
            } else {
                Some(NodeView::Regular { kind, namespace, attributes, children: kids })
            }
        },
        NodeView::Childless { .. } => Some(n),
    }
}

/// The nodes that remain of `nodes`, in order, when useless groups are removed.
pub open spec fn remove_groups_nodes(nodes: Seq<NodeView>, used: Set<Seq<char>>) -> Seq<NodeView>
    decreases nodes,
{
    if nodes.len() == 0 {
        Seq::empty()
    } else {
        let rest = remove_groups_nodes(nodes.drop_last(), used);
        match remove_groups_node(nodes.last(), used) {
            Some(x) => rest.push(x),
            None => rest,
        }
    }
}

/// The identifiers referred to anywhere in `nodes`.
pub open spec fn referenced_ids(nodes: Seq<NodeView>) -> Set<Seq<char>> {
    Set::new(|id: Seq<char>| nodes_refer_to(nodes, id))
}

/// The model of an optional node.
pub open spec fn option_node_view(o: Option<Node>) -> Option<NodeView> {
    match o {
        Some(n) => Some(n.view()),
        None => None,
    }
}

fn contains_string(strings: &[String], s: &String) -> (r: bool)
    ensures
        r == strings_view(strings@).contains(s@),
{
    let ghost v = strings_view(strings@);
    for i in 0..strings.len()
        invariant
            v == strings_view(strings@),
            forall|j: int| 0 <= j < i ==> #[trigger] v[j] != s@,
    {
        if strings[i] == *s {
            assert(v[i as int] == s@);
            return true;
        }
    }
    false
}

/// Whether the node is an element whose `id` is among `used_ids`.
pub fn is_only_child_used(only_child: &Node, used_ids: &[String]) -> (r: bool)
    ensures
        r == only_child_used(only_child.view(), strings_view(used_ids@).to_set()),
{
    if let Node::RegularNode { attributes, .. } = only_child {
        proof {
            lemma_children_view(*only_child);
        }
        if let Some(id) = find_attribute(attributes, ID_NAME) {
            if contains_string(used_ids, &id.value) {
                return true;
            }
        }
    }
    false
}

/// Removes useless groups from the node and below it; `None` when the node
/// itself disappears.
pub fn remove_useless_groups_from_node(node: Node, used_ids: &[String]) -> (r: Option<Node>)
    ensures
        option_node_view(r) == remove_groups_node(node.view(), strings_view(used_ids@).to_set()),
    decreases node,
{
    let ghost old_node = node;
    let ghost used = strings_view(used_ids@).to_set();
    match node {
        Node::RegularNode { node_type, namespace, attributes, children } => {
            proof {
                assert(decreases_to!(old_node => children));
                lemma_children_view(old_node);
            }
            let mut new_children = remove_useless_groups_from_children(children, used_ids);
            let ghost kids = nodes_view(new_children@);
            match node_type {
                RegularNodeType::Group => {
                    if new_children.len() == 0 {
                        None
                    } else if new_children.len() == 1 && !is_only_child_used(&new_children[0], used_ids) {
                        assert(kids[0] == new_children@[0].view());
                        let only_child = new_children.remove(0);
                        Some(collapse_group(only_child, namespace, attributes))
                    } else {
                        let r = Node::RegularNode {
                            node_type: RegularNodeType::Group,
                            namespace,
                            attributes,
                            children: new_children,
                        };
                        proof {
                            lemma_children_view(r);
                            assert(r.view() =~= remove_groups_node(old_node.view(), used)->0);
                        }
                        Some(r)
                    }
                },
                node_type => {
                    let r = Node::RegularNode { node_type, namespace, attributes, children: new_children };
                    proof {
                        lemma_children_view(r);
                        assert(r.view() =~= remove_groups_node(old_node.view(), used)->0);
                    }
                    Some(r)
                },
            }
        },
        other => Some(other),
    }
}

/// The nodes that remain of `children` when useless groups are removed.
fn remove_useless_groups_from_children(children: Vec<Node>, used_ids: &[String]) -> (r: Vec<Node>)
    ensures
        nodes_view(r@) == remove_groups_nodes(nodes_view(children@), strings_view(used_ids@).to_set()),
    decreases children,
{
    let ghost old = nodes_view(children@);
    let ghost old_children = children@;
    let ghost used = strings_view(used_ids@).to_set();
    proof {
        assert(decreases_to!(children => children@));
    }
    let mut out: Vec<Node> = Vec::new();
    #[verifier::loop_isolation(false)]
    for child in it: children.into_iter()
        invariant
            it.seq() == old_children,
            old == nodes_view(old_children),
            nodes_view(out@) == remove_groups_nodes(old.take(it.index() as int), used),
    {
        let ghost i = it.index() as int;
        proof {
            assert(old_children[i] == child);
            assert(decreases_to!(old_children => old_children[i]));
            assert(old.take(i + 1).drop_last() =~= old.take(i));
            assert(old.take(i + 1).last() == child.view());
        }
        let ghost before = nodes_view(out@);
        match remove_useless_groups_from_node(child, used_ids) {
            Some(n) => {
                out.push(n);
                assert(nodes_view(out@) =~= before.push(n.view()));
            },
            None => {},
        }
    }
    assert(old.take(old.len() as int) =~= old);
    out
}

/// The node replacing a group whose only child is `only_child` (see `collapsed`).
pub fn collapse_group(only_child: Node, group_namespace: NodeNamespace, group_attributes: Vec<Attribute>) -> (r:
    Node)
    ensures
        r.view() == collapsed(only_child.view(), group_namespace@, attributes_view(group_attributes@)),
{
    let ghost old_child = only_child;
    if let Node::RegularNode { node_type, namespace, attributes, children } = only_child {
        let r = Node::RegularNode {
            node_type,
            namespace,
            attributes: merge_attributes(group_attributes, attributes),
            children,
        };
        proof {
            lemma_children_view(old_child);
            lemma_children_view(r);
            assert(r.view() =~= collapsed(old_child.view(), group_namespace@, attributes_view(group_attributes@)));
        }
        r
    } else {
        let mut children: Vec<Node> = Vec::new();
        children.push(only_child);
        let r = Node::RegularNode {
            node_type: RegularNodeType::Group,
            namespace: group_namespace,
            attributes: group_attributes,
            children,
        };
        proof {
            lemma_children_view(r);
            assert(nodes_view(r->children@) =~= seq![old_child.view()]);
            assert(r.view() =~= collapsed(old_child.view(), group_namespace@, attributes_view(group_attributes@)));
        }
        r
    }
}

/// Appends to `child` the attributes of `parent` whose names it lacks (see
/// `merged_attributes`).
pub fn merge_attributes(parent: Vec<Attribute>, child: Vec<Attribute>) -> (r: Vec<Attribute>)
    ensures
        attributes_view(r@) == merged_attributes(attributes_view(parent@), attributes_view(child@)),
{
    let ghost p = attributes_view(parent@);
    let ghost c = attributes_view(child@);
    let ghost old_parent = parent@;
    let mut child = child;
    for parent_attr in it: parent.into_iter()
        invariant
            it.seq() == old_parent,
            p == attributes_view(old_parent),
            attributes_view(child@) == merged_attributes(p.take(it.index() as int), c),
    {
        let ghost i = it.index() as int;
        proof {
            assert(p.take(i + 1).drop_last() =~= p.take(i));
            assert(p.take(i + 1).last() == parent_attr@);
        }
        if !contains_name(&child, &parent_attr.name) {
            child.push(parent_attr);
            assert(attributes_view(child@) =~= merged_attributes(p.take(i + 1), c));
        }
    }
    assert(p.take(p.len() as int) =~= p);
    child
}

/// Removes useless groups from the nodes; groups whose only child carries an
/// identifier that the document refers to are kept.
pub fn remove_useless_groups(nodes: Vec<Node>) -> (r: Vec<Node>)
    ensures
        nodes_view(r@) == remove_groups_nodes(nodes_view(nodes@), referenced_ids(nodes_view(nodes@))),
{
    let used_ids = find_ids_for_subtree(&nodes);
    proof {
        let s = strings_view(used_ids@).to_set();
        assert forall|id: Seq<char>| #[trigger] s.contains(id) == referenced_ids(nodes_view(nodes@)).contains(id) by {
            assert(s.contains(id) == strings_view(used_ids@).contains(id));
        }
        assert(s =~= referenced_ids(nodes_view(nodes@)));
    }
    remove_useless_groups_from_children(nodes, used_ids.as_slice())
}

/// Whether no group in `n`, `n` included, is left without children.
pub open spec fn no_empty_group(n: NodeView) -> bool
    decreases n,
{
    match n {
        NodeView::Regular { kind, children, .. } => !(kind is Group && children.len() == 0) && forall|i: int|
            0 <= i < children.len() ==> no_empty_group(#[trigger] children[i]),
        NodeView::Childless { .. } => true,
    }
}

proof fn lemma_removal_leaves_no_empty_group(n: NodeView, used: Set<Seq<char>>)
    ensures
        remove_groups_node(n, used) matches Some(m) ==> no_empty_group(m),
    decreases n,
{
    match n {
        NodeView::Regular { kind, namespace, attributes, children } => {
            lemma_removal_all_leaves_no_empty_group(children, used);
            let kids = remove_groups_nodes(children, used);
            if kind is Group && kids.len() == 1 && !only_child_used(kids[0], used) {
                let kid = kids[0];
                assert(no_empty_group(kid));
                match kid {
                    NodeView::Regular { .. } => {},
                    NodeView::Childless { .. } => {
                        assert(seq![kid][0] == kid);
                    },
                }
            }
        },
        NodeView::Childless { .. } => {},
    }
}

proof fn lemma_removal_all_leaves_no_empty_group(nodes: Seq<NodeView>, used: Set<Seq<char>>)
    ensures
        forall|i: int|
            0 <= i < remove_groups_nodes(nodes, used).len() ==> no_empty_group(
                #[trigger] remove_groups_nodes(nodes, used)[i],
            ),
    decreases nodes,
{
    if nodes.len() > 0 {
        lemma_removal_all_leaves_no_empty_group(nodes.drop_last(), used);
        lemma_removal_leaves_no_empty_group(nodes.last(), used);
        let rest = remove_groups_nodes(nodes.drop_last(), used);
        let all = remove_groups_nodes(nodes, used);
        assert forall|i: int| 0 <= i < all.len() implies no_empty_group(#[trigger] all[i]) by {
            if i < rest.len() {
                assert(all[i] == rest[i]);
            }
        }
    }
}

/// After useless groups are removed, no group anywhere is left without children.
pub proof fn lemma_no_empty_group_left(nodes: Seq<NodeView>, used: Set<Seq<char>>)
    ensures
        forall|i: int|
            0 <= i < remove_groups_nodes(nodes, used).len() ==> no_empty_group(
                #[trigger] remove_groups_nodes(nodes, used)[i],
            ),
{
    lemma_removal_all_leaves_no_empty_group(nodes, used);
}

/// Every group in `n`, at any depth, that has a single child has it because
/// the child is not an element or its identifier is in `used`.
pub open spec fn no_lonely_group(n: NodeView, used: Set<Seq<char>>) -> bool
    decreases n,
{
    match n {
        NodeView::Regular { kind, children, .. } => {
            &&& (kind is Group && children.len() == 1) ==> (children[0] is Childless || only_child_used(
                children[0],
                used,
            ))
            &&& forall|i: int| 0 <= i < children.len() ==> no_lonely_group(#[trigger] children[i], used)
        },
        NodeView::Childless { .. } => true,
    }
}

proof fn lemma_removal_leaves_no_lonely_group(n: NodeView, used: Set<Seq<char>>)
    ensures
        remove_groups_node(n, used) matches Some(m) ==> no_lonely_group(m, used),
    decreases n,
{
    match n {
        NodeView::Regular { kind, namespace, attributes, children } => {
            lemma_removal_all_leaves_no_lonely_group(children, used);
            let kids = remove_groups_nodes(children, used);
            if kind is Group && kids.len() == 1 && !only_child_used(kids[0], used) {
                let kid = kids[0];
                assert(no_lonely_group(kid, used));
                match kid {
                    NodeView::Regular { .. } => {},
                    NodeView::Childless { .. } => {
                        assert(seq![kid][0] == kid);
                    },
                }
            }
        },
        NodeView::Childless { .. } => {},
    }
}

proof fn lemma_removal_all_leaves_no_lonely_group(nodes: Seq<NodeView>, used: Set<Seq<char>>)
    ensures
        forall|i: int|
            0 <= i < remove_groups_nodes(nodes, used).len() ==> no_lonely_group(
                #[trigger] remove_groups_nodes(nodes, used)[i],
                used,
            ),
    decreases nodes,
{
    if nodes.len() > 0 {
        lemma_removal_all_leaves_no_lonely_group(nodes.drop_last(), used);
        lemma_removal_leaves_no_lonely_group(nodes.last(), used);
        let rest = remove_groups_nodes(nodes.drop_last(), used);
        let all = remove_groups_nodes(nodes, used);
        assert forall|i: int| 0 <= i < all.len() implies no_lonely_group(#[trigger] all[i], used) by {
            if i < rest.len() {
                assert(all[i] == rest[i]);
            }
        }
    }
}

/// After useless groups are removed, a group anywhere that has a single child
/// keeps it only because the child is not an element or carries an
/// identifier in `used` (the identifiers the document refers to).
pub proof fn lemma_no_lonely_group_left(nodes: Seq<NodeView>, used: Set<Seq<char>>)
    ensures
        forall|i: int|
            0 <= i < remove_groups_nodes(nodes, used).len() ==> no_lonely_group(
                #[trigger] remove_groups_nodes(nodes, used)[i],
                used,
            ),
{
    lemma_removal_all_leaves_no_lonely_group(nodes, used);
}

/// Merging a group's attributes `parent` into its child's attributes `child`
/// keeps the child's attributes first and in order, brings in every name the
/// group has, and adds after them only attributes of the group whose names
/// the child does not carry.
pub proof fn lemma_merged_attributes_law(parent: Seq<AttributeView>, child: Seq<AttributeView>)
    ensures
        merged_attributes(parent, child).len() >= child.len(),
        merged_attributes(parent, child).subrange(0, child.len() as int) == child,
        forall|j: int|
            0 <= j < parent.len() ==> has_name(merged_attributes(parent, child), #[trigger] parent[j].name),
        forall|k: int|
            child.len() <= k < merged_attributes(parent, child).len() ==> parent.contains(
                #[trigger] merged_attributes(parent, child)[k],
            ) && !has_name(child, merged_attributes(parent, child)[k].name),
    decreases parent.len(),
{
    let m = merged_attributes(parent, child);
    if parent.len() == 0 {
        assert(m.subrange(0, child.len() as int) =~= child);
    } else {
        let d = parent.drop_last();
        let m0 = merged_attributes(d, child);
        lemma_merged_attributes_law(d, child);
        let last = parent.last();
        assert(parent[parent.len() - 1] == last);
        if has_name(m0, last.name) {
            assert(m == m0);
        } else {
            assert(m == m0.push(last));
            assert(m.subrange(0, child.len() as int) =~= m0.subrange(0, child.len() as int));
            if has_name(child, last.name) {
                let l = choose|l: int| 0 <= l < child.len() && (#[trigger] child[l]).name == last.name;
                assert(m0.subrange(0, child.len() as int)[l] == m0[l]);
                assert(m0[l].name == last.name);
            }
            assert(m[m.len() - 1] == last);
        }
        assert forall|j: int| 0 <= j < parent.len() implies has_name(m, #[trigger] parent[j].name) by {
            if j < parent.len() - 1 {
                assert(d[j] == parent[j]);
                assert(has_name(m0, d[j].name));
                let l = choose|l: int| 0 <= l < m0.len() && (#[trigger] m0[l]).name == d[j].name;
                assert(m[l] == m0[l]);
            } else if has_name(m0, last.name) {
            } else {
                assert(m[m.len() - 1].name == parent[j].name);
            }
        }
        assert forall|k: int| child.len() <= k < m.len() implies parent.contains(#[trigger] m[k])
            && !has_name(child, m[k].name) by {
            if k < m0.len() {
                assert(m[k] == m0[k]);
                assert(d.contains(m0[k]));
                let l = choose|l: int| 0 <= l < d.len() && d[l] == m0[k];
                assert(parent[l] == d[l]);
            } else {
                assert(m[k] == last);
                assert(parent[parent.len() - 1] == last);
            }
        }
    }
}

} // verus!

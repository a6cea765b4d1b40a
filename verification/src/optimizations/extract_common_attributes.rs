//! Moves the attributes that all element children of a group share onto the
//! group itself.
use vstd::prelude::*;
use crate::attributes::{
    CX_NAME, CY_NAME, HEIGHT_NAME, ID_NAME, PATH_DATA_NAME, R_NAME, RX_NAME, RY_NAME, WIDTH_NAME,
    X_NAME, Y_NAME, clone_attributes, contains_attribute, contains_name, filter_attributes, has_name,
    lemma_filter_agree, lemma_filter_contains, lemma_filter_filter, lemma_filter_keeps_all,
    lemma_filter_keeps_none,
};
use crate::node::{
    Attribute, AttributeView, NameView, Node, NodeKind, NodeView, RegularNodeType, attributes_view,
    lemma_children_view, no_node, nodes_view,
};
use crate::text::string_is;

verus! {

/// Whether the attribute is one that is never moved onto a group.
pub open spec fn is_no_group_attribute(a: AttributeView) -> bool {
    let n = a.name.local_name;
    n == ID_NAME@ || n == CX_NAME@ || n == CY_NAME@ || n == HEIGHT_NAME@ || n == WIDTH_NAME@ || n
        == X_NAME@ || n == Y_NAME@ || n == R_NAME@ || n == RX_NAME@ || n == RY_NAME@ || n
        == PATH_DATA_NAME@
}

/// The attributes of the first element among `nodes`, if there is one.
pub open spec fn first_element_attributes(nodes: Seq<NodeView>) -> Option<Seq<AttributeView>>
    decreases nodes.len(),
{
    if nodes.len() == 0 {
        None
    } else {
        match first_element_attributes(nodes.drop_last()) {
            Some(attrs) => Some(attrs),
            None => match nodes.last() {
                NodeView::Regular { attributes, .. } => Some(attributes),
                NodeView::Childless { .. } => None,
            },
        }
    }
}

/// Whether every element among `nodes` carries an attribute equal to `a`.
pub open spec fn in_every_element(nodes: Seq<NodeView>, a: AttributeView) -> bool {
    forall|j: int|
        0 <= j < nodes.len() && (#[trigger] nodes[j]) is Regular ==> nodes[j]->attributes.contains(
            a,
        )
}

/// The attributes, in the order of the first element among `nodes`, that
/// every element among `nodes` carries, apart from those never moved onto a
/// group. Empty when there is no element.
pub open spec fn common_attributes(nodes: Seq<NodeView>) -> Seq<AttributeView> {
    match first_element_attributes(nodes) {
        Some(attrs) => attrs.filter(|a: AttributeView| in_every_element(nodes, a) && !is_no_group_attribute(a)),
        None => Seq::empty(),
    }
}

/// A node with the attributes equal to one of `common` removed, if it is an element.
pub open spec fn without_common(n: NodeView, common: Seq<AttributeView>) -> NodeView {
    match n {
        NodeView::Regular { kind, namespace, attributes, children } => NodeView::Regular {
            kind,
            namespace,
            attributes: attributes.filter(|a: AttributeView| !common.contains(a)),
            children,
        },
        NodeView::Childless { .. } => n,
    }
}

/// `nodes` with the attributes equal to one of `common` removed from each element.
pub open spec fn without_common_all(nodes: Seq<NodeView>, common: Seq<AttributeView>) -> Seq<
    NodeView,
> {
    Seq::new(
        nodes.len(),
        |i: int| if 0 <= i < nodes.len() { without_common(nodes[i], common) } else { no_node() },
    )
}

/// A node in which every group outside any other group has the attributes
/// common to its element children moved onto it: they are removed from the
/// children, the group's own attributes of the same names are dropped, and the
/// common attributes are appended to the group's attributes.
pub open spec fn extract_common_attributes_node(n: NodeView) -> NodeView
    decreases n,
{
    match n {
        NodeView::Regular { kind, namespace, attributes, children } => {
            if kind is Group {
                let common = common_attributes(children);
                NodeView::Regular {
                    kind,
                    namespace,
                    attributes: attributes.filter(|a: AttributeView| !has_name(common, a.name))
                        + common,
                    children: without_common_all(children, common),
                }
            } else {
                NodeView::Regular {
                    kind,
                    namespace,
                    attributes,
                    children: Seq::new(
                        children.len(),
                        |i: int|
                            if 0 <= i < children.len() {
                                extract_common_attributes_node(children[i])
                            } else {
                                no_node()
                            },
                    ),
                }
            }
        },
        NodeView::Childless { .. } => n,
    }
}

/// `nodes` with `extract_common_attributes_node` applied to each.
pub open spec fn extract_common_attributes_spec(nodes: Seq<NodeView>) -> Seq<NodeView> {
    Seq::new(
        nodes.len(),
        |i: int|
            if 0 <= i < nodes.len() {
                extract_common_attributes_node(nodes[i])
            } else {
                no_node()
            },
    )
}

/// When no element is found among `nodes`, none of them is an element.
proof fn lemma_no_first_element(nodes: Seq<NodeView>)
    requires
        first_element_attributes(nodes) is None,
    ensures
        forall|j: int| 0 <= j < nodes.len() ==> !(#[trigger] nodes[j] is Regular),
    decreases nodes.len(),
{
    if nodes.len() > 0 {
        lemma_no_first_element(nodes.drop_last());
        assert forall|j: int| 0 <= j < nodes.len() implies !(#[trigger] nodes[j] is Regular) by {
            if j < nodes.len() - 1 {
                assert(nodes.drop_last()[j] == nodes[j]);
            }
        }
    }
}

fn is_no_group_attribute_exec(attr: &Attribute) -> (r: bool)
    ensures
        r == is_no_group_attribute(attr@),
{
    let n = &attr.name.local_name;
    string_is(n, ID_NAME) || string_is(n, CX_NAME) || string_is(n, CY_NAME) || string_is(
        n,
        HEIGHT_NAME,
    ) || string_is(n, WIDTH_NAME) || string_is(n, X_NAME) || string_is(n, Y_NAME) || string_is(
        n,
        R_NAME,
    ) || string_is(n, RX_NAME) || string_is(n, RY_NAME) || string_is(n, PATH_DATA_NAME)
}

/// The attributes common to all element nodes (see `common_attributes`).
pub fn find_common_attributes(nodes: &Vec<Node>) -> (r: Vec<Attribute>)
    ensures
        attributes_view(r@) == common_attributes(nodes_view(nodes@)),
{
    let ghost vs = nodes_view(nodes@);
    let mut common_attributes: Vec<Attribute> = Vec::new();
    let mut found_regular_node = false;
    for i in 0..nodes.len()
        invariant
            vs == nodes_view(nodes@),
            !found_regular_node ==> first_element_attributes(vs.take(i as int)) is None
                && common_attributes@.len() == 0,
            found_regular_node ==> first_element_attributes(vs.take(i as int)) is Some
                && attributes_view(common_attributes@) == first_element_attributes(
                vs.take(i as int),
            )->0.filter(|a: AttributeView| in_every_element(vs.take(i as int), a)),
    {
        let ghost prefix = vs.take(i as int);
        let ghost next = vs.take(i + 1);
        proof {
            assert(next.drop_last() =~= prefix);
            assert(next.last() == vs[i as int]);
            assert(vs[i as int] == nodes@[i as int].view());
        }
        match &nodes[i] {
            Node::RegularNode { attributes, .. } => {
                proof {
                    lemma_children_view(nodes@[i as int]);
                }
                let ghost own = attributes_view(attributes@);
                if found_regular_node {
                    let ghost first = first_element_attributes(prefix)->0;
                    let ghost p = |a: AttributeView| in_every_element(prefix, a);
                    let ghost q = |a: AttributeView| own.contains(a);
                    let keep = |a: &Attribute| -> (k: bool)
                        ensures
                            k == attributes_view(attributes@).contains(a@),
                        { contains_attribute(attributes, a) };
                    common_attributes = filter_attributes(common_attributes, keep, Ghost(q));
                    proof {
                        lemma_filter_filter(first, p, q);
                        let pq = |a: AttributeView| p(a) && q(a);
                        let pn = |a: AttributeView| in_every_element(next, a);
                        assert forall|a: AttributeView| #[trigger] pq(a) == pn(a) by {
                            if pq(a) {
                                assert forall|j: int|
                                    0 <= j < next.len() && (#[trigger] next[j]) is Regular implies next[j]->attributes.contains(a) by {
                                    if j < i {
                                        assert(prefix[j] == next[j]);
                                    }
                                }
                            }
                            if pn(a) {
                                assert(next[i as int] is Regular);
                                assert forall|j: int|
                                    0 <= j < prefix.len() && (#[trigger] prefix[j]) is Regular implies prefix[j]->attributes.contains(a) by {
                                    assert(prefix[j] == next[j]);
                                }
                            }
                        }
                        assert(pq =~= pn);
                    }
                } else {
                    common_attributes = clone_attributes(attributes);
                    found_regular_node = true;
                    proof {
                        lemma_no_first_element(prefix);
                        assert(first_element_attributes(next) == Some(own));
                        assert forall|j: int| 0 <= j < own.len() implies in_every_element(next, #[trigger] own[j]) by {
                            assert forall|k: int|
                                0 <= k < next.len() && (#[trigger] next[k]) is Regular implies next[k]->attributes.contains(own[j]) by {
                                if k < i {
                                    assert(prefix[k] == next[k]);
                                }
                            }
                        }
                        lemma_filter_keeps_all(own, |a: AttributeView| in_every_element(next, a));
                    }
                }
            },
            Node::ChildlessNode { .. } => {
                proof {
                    if found_regular_node {
                        let first = first_element_attributes(prefix)->0;
                        lemma_filter_agree(
                            first,
                            |a: AttributeView| in_every_element(prefix, a),
                            |a: AttributeView| in_every_element(next, a),
                        );
                        let p = |a: AttributeView| in_every_element(prefix, a);
                        let pn = |a: AttributeView| in_every_element(next, a);
                        assert forall|a: AttributeView| #[trigger] p(a) == pn(a) by {
                            if p(a) {
                                assert forall|j: int|
                                    0 <= j < next.len() && (#[trigger] next[j]) is Regular implies next[j]->attributes.contains(a) by {
                                    if j < i {
                                        assert(prefix[j] == next[j]);
                                    }
                                }
                            }
                            if pn(a) {
                                assert forall|j: int|
                                    0 <= j < prefix.len() && (#[trigger] prefix[j]) is Regular implies prefix[j]->attributes.contains(a) by {
                                    assert(prefix[j] == next[j]);
                                }
                            }
                        }
                        assert(p =~= pn);
                    }
                }
            },
        }
    }
    proof {
        assert(vs.take(nodes.len() as int) =~= vs);
    }
    let ghost before = attributes_view(common_attributes@);
    let keep = |a: &Attribute| -> (k: bool)
        ensures
            k == !is_no_group_attribute(a@),
        { !is_no_group_attribute_exec(a) };
    let r = filter_attributes(common_attributes, keep, Ghost(|a: AttributeView| !is_no_group_attribute(a)));
    proof {
        if found_regular_node {
            let n = vs.len() as int;
            let first = first_element_attributes(vs)->0;
            let p_take = |a: AttributeView| in_every_element(vs.take(n), a);
            let p = |a: AttributeView| in_every_element(vs, a);
            let q = |a: AttributeView| !is_no_group_attribute(a);
            assert(p_take =~= p);
            assert(before == first.filter(p));
            lemma_filter_filter(first, p, q);
            assert(attributes_view(r@) == first.filter(|a: AttributeView| p(a) && q(a)));
            assert((|a: AttributeView| p(a) && q(a)) =~= (|a: AttributeView| in_every_element(vs, a) && !is_no_group_attribute(a)));
        } else {
            reveal(Seq::filter);
            assert(attributes_view(r@) =~= Seq::<AttributeView>::empty());
        }
    }
    r
}

/// Removes from each element the attributes equal to one of `common_attributes`.
pub fn remove_common_attributes(nodes: Vec<Node>, common_attributes: &Vec<Attribute>) -> (r: Vec<Node>)
    ensures
        nodes_view(r@) == without_common_all(nodes_view(nodes@), attributes_view(common_attributes@)),
{
    let ghost old_nodes = nodes@;
    let ghost common = attributes_view(common_attributes@);
    let mut out: Vec<Node> = Vec::new();
    for node in it: nodes.into_iter()
        invariant
            it.seq() == old_nodes,
            common == attributes_view(common_attributes@),
            out@.len() == it.index(),
            forall|j: int|
                0 <= j < out@.len() ==> #[trigger] out@[j].view() == without_common(
                    old_nodes[j].view(),
                    common,
                ),
    {
        let ghost old_node = node;
        let new_node = match node {
            Node::RegularNode { node_type, namespace, attributes, children } => {
                let keep = |a: &Attribute| -> (k: bool)
                    ensures
                        k == !attributes_view(common_attributes@).contains(a@),
                    { !contains_attribute(common_attributes, a) };
                let attributes = filter_attributes(
                    attributes,
                    keep,
                    Ghost(|a: AttributeView| !common.contains(a)),
                );
                let r = Node::RegularNode { node_type, namespace, attributes, children };
                proof {
                    lemma_children_view(old_node);
                    lemma_children_view(r);
                    assert(r.view() =~= without_common(old_node.view(), common));
                }
                r
            },
            other => other,
        };
        out.push(new_node);
    }
    assert(nodes_view(out@) =~= without_common_all(nodes_view(old_nodes), common));
    out
}

/// Moves the attributes common to the element children of a group onto the
/// group (see `extract_common_attributes_node`).
pub fn extract_common_attributes_from_node(node: Node) -> (r: Node)
    ensures
        r.view() == extract_common_attributes_node(node.view()),
    decreases node,
{
    let ghost old_node = node;
    match node {
        Node::RegularNode { node_type: RegularNodeType::Group, namespace, attributes, children } => {
            let common_attributes = find_common_attributes(&children);
            let ghost common = attributes_view(common_attributes@);
            let children = remove_common_attributes(children, &common_attributes);
            let keep = |a: &Attribute| -> (k: bool)
                ensures
                    k == !has_name(attributes_view(common_attributes@), a@.name),
                { !contains_name(&common_attributes, &a.name) };
            let mut attributes = filter_attributes(
                attributes,
                keep,
                Ghost(|a: AttributeView| !has_name(common, a.name)),
            );
            let mut common_attributes = common_attributes;
            attributes.append(&mut common_attributes);
            let r = Node::RegularNode {
                node_type: RegularNodeType::Group,
                namespace,
                attributes,
                children,
            };
            proof {
                lemma_children_view(old_node);
                lemma_children_view(r);
                assert(attributes_view(attributes@) =~= attributes_view(old_node->attributes@).filter(
                    |a: AttributeView| !has_name(common, a.name),
                ) + common);
                assert(r.view() =~= extract_common_attributes_node(old_node.view()));
            }
            r
        },
        Node::RegularNode { node_type, namespace, attributes, children } => {
            proof {
                assert(decreases_to!(old_node => children));
            }
            let new_children = extract_common_attributes(children);
            let r = Node::RegularNode { node_type, namespace, attributes, children: new_children };
            proof {
                lemma_children_view(old_node);
                lemma_children_view(r);
                let ov = old_node.view();
                assert(r.view()->children =~= extract_common_attributes_node(ov)->children);
                assert(r.view() =~= extract_common_attributes_node(ov));
            }
            r
        },
        other => other,
    }
}

/// Moves, in every group outside any other group, the attributes common to
/// its element children onto the group.
pub fn extract_common_attributes(nodes: Vec<Node>) -> (r: Vec<Node>)
    ensures
        nodes_view(r@) == extract_common_attributes_spec(nodes_view(nodes@)),
    decreases nodes,
{
    let ghost old_nodes = nodes@;
    proof {
        assert(decreases_to!(nodes => nodes@));
    }
    let mut out: Vec<Node> = Vec::new();
    #[verifier::loop_isolation(false)]
    for node in it: nodes.into_iter()
        invariant
            it.seq() == old_nodes,
            out@.len() == it.index(),
            forall|j: int|
                0 <= j < out@.len() ==> #[trigger] out@[j].view()
                    == extract_common_attributes_node(old_nodes[j].view()),
    {
        proof {
            let i = it.index() as int;
            assert(old_nodes[i] == node);
            assert(decreases_to!(old_nodes => old_nodes[i]));
        }
        out.push(extract_common_attributes_from_node(node));
    }
    assert(nodes_view(out@) =~= extract_common_attributes_spec(nodes_view(old_nodes)));
    out
}

/// Removing attributes from elements does not change which node is the first
/// element; its attributes lose those in `common`.
proof fn lemma_first_element_without_common(nodes: Seq<NodeView>, common: Seq<AttributeView>)
    ensures
        first_element_attributes(without_common_all(nodes, common)) == match first_element_attributes(nodes) {
            Some(attrs) => Some(attrs.filter(|a: AttributeView| !common.contains(a))),
            None => None::<Seq<AttributeView>>,
        },
    decreases nodes.len(),
{
    if nodes.len() > 0 {
        lemma_first_element_without_common(nodes.drop_last(), common);
        assert(without_common_all(nodes, common).drop_last() =~= without_common_all(nodes.drop_last(), common));
        assert(without_common_all(nodes, common).last() == without_common(nodes.last(), common));
    }
}

/// Removing common attributes from the children leaves none in common.
proof fn lemma_no_common_left(children: Seq<NodeView>)
    ensures
        common_attributes(without_common_all(children, common_attributes(children))) =~= Seq::<AttributeView>::empty(),
{
    let c = common_attributes(children);
    let after = without_common_all(children, c);
    let not_c = |a: AttributeView| !c.contains(a);
    lemma_first_element_without_common(children, c);
    match first_element_attributes(children) {
        Some(first) => {
            let first2 = first.filter(not_c);
            let p = |a: AttributeView| in_every_element(children, a) && !is_no_group_attribute(a);
            let p2 = |a: AttributeView| in_every_element(after, a) && !is_no_group_attribute(a);
            assert forall|j: int| 0 <= j < first2.len() implies !p2(#[trigger] first2[j]) by {
                let a = first2[j];
                assert(first2.contains(a));
                lemma_filter_contains(first, not_c, a);
                if p2(a) {
                    assert forall|k: int| 0 <= k < children.len() && (#[trigger] children[k]) is Regular implies children[k]->attributes.contains(a) by {
                        assert(after[k] == without_common(children[k], c));
                        assert(after[k] is Regular);
                        assert(after[k]->attributes.contains(a));
                        lemma_filter_contains(children[k]->attributes, not_c, a);
                    }
                    assert(p(a));
                    lemma_filter_contains(first, p, a);
                    assert(c.contains(a));
                }
            }
            lemma_filter_keeps_none(first2, p2);
        },
        None => {},
    }
}

proof fn lemma_extract_node_idempotent(n: NodeView)
    ensures
        extract_common_attributes_node(extract_common_attributes_node(n)) == extract_common_attributes_node(n),
    decreases n,
{
    match n {
        NodeView::Regular { kind, namespace, attributes, children } => {
            let once = extract_common_attributes_node(n);
            let twice = extract_common_attributes_node(once);
            if kind is Group {
                let c = common_attributes(children);
                let after = without_common_all(children, c);
                lemma_no_common_left(children);
                let empty = Seq::<AttributeView>::empty();
                let attrs1 = attributes.filter(|a: AttributeView| !has_name(c, a.name)) + c;
                lemma_filter_keeps_all(attrs1, |a: AttributeView| !has_name(empty, a.name));
                assert(attrs1 + empty =~= attrs1);
                assert forall|i: int| 0 <= i < after.len() implies without_common(#[trigger] after[i], empty) == after[i] by {
                    match after[i] {
                        NodeView::Regular { attributes: at, .. } => {
                            lemma_filter_keeps_all(at, |a: AttributeView| !empty.contains(a));
                            assert(without_common(after[i], empty) =~= after[i]);
                        },
                        NodeView::Childless { .. } => {},
                    }
                }
                assert(without_common_all(after, empty) =~= after);
                assert(twice =~= once);
            } else {
                assert forall|i: int| 0 <= i < children.len() implies extract_common_attributes_node(
                    extract_common_attributes_node(#[trigger] children[i]),
                ) == extract_common_attributes_node(children[i]) by {
                    lemma_extract_node_idempotent(children[i]);
                }
                assert(twice->children =~= once->children);
                assert(twice =~= once);
            }
        },
        NodeView::Childless { .. } => {},
    }
}

/// Extracting common attributes a second time changes nothing: once moved
/// onto a group, no attribute is common to its children any more.
pub proof fn lemma_extract_common_attributes_idempotent(nodes: Seq<NodeView>)
    ensures
        extract_common_attributes_spec(extract_common_attributes_spec(nodes))
            == extract_common_attributes_spec(nodes),
{
    assert forall|i: int| 0 <= i < nodes.len() implies extract_common_attributes_node(
        extract_common_attributes_node(#[trigger] nodes[i]),
    ) == extract_common_attributes_node(nodes[i]) by {
        lemma_extract_node_idempotent(nodes[i]);
    }
    assert(extract_common_attributes_spec(extract_common_attributes_spec(nodes))
        =~= extract_common_attributes_spec(nodes));
}

/// The value of the first attribute of `attrs` named `name`.
pub open spec fn value_of(attrs: Seq<AttributeView>, name: NameView) -> Option<Seq<char>>
    decreases attrs.len(),
{
    if attrs.len() == 0 {
        None
    } else {
        match value_of(attrs.drop_last(), name) {
            Some(v) => Some(v),
            None => if attrs.last().name == name {
                Some(attrs.last().value)
            } else {
                None
            },
        }
    }
}

/// The value that an element with attributes `own` inside a group with
/// attributes `group` has for `name`: its own, else the group's.
pub open spec fn effective_value(
    group: Seq<AttributeView>,
    own: Seq<AttributeView>,
    name: NameView,
) -> Option<Seq<char>> {
    match value_of(own, name) {
        Some(v) => Some(v),
        None => value_of(group, name),
    }
}

/// No two attributes of `attrs` have the same name.
pub open spec fn names_distinct(attrs: Seq<AttributeView>) -> bool {
    forall|j: int, k: int| 0 <= j < k < attrs.len() ==> #[trigger] attrs[j].name != #[trigger] attrs[k].name
}

proof fn lemma_value_of(s: Seq<AttributeView>, name: NameView)
    ensures
        value_of(s, name) is None <==> !has_name(s, name),
        value_of(s, name) matches Some(v) ==> exists|k: int|
            0 <= k < s.len() && (#[trigger] s[k]).name == name && s[k].value == v,
    decreases s.len(),
{
    if s.len() > 0 {
        let d = s.drop_last();
        lemma_value_of(d, name);
        if has_name(d, name) {
            let k = choose|k: int| 0 <= k < d.len() && (#[trigger] d[k]).name == name;
            assert(s[k] == d[k]);
        }
        if has_name(s, name) && !has_name(d, name) {
            let k = choose|k: int| 0 <= k < s.len() && (#[trigger] s[k]).name == name;
            if k < s.len() - 1 {
                assert(d[k] == s[k]);
            }
        }
        if value_of(d, name) is Some {
            let v = value_of(d, name)->0;
            let k = choose|k: int| 0 <= k < d.len() && (#[trigger] d[k]).name == name && d[k].value == v;
            assert(s[k] == d[k]);
        } else if s.last().name == name {
            assert(s[s.len() - 1].name == name);
        }
    }
}

proof fn lemma_value_of_filter(s: Seq<AttributeView>, p: spec_fn(AttributeView) -> bool, name: NameView)
    requires
        forall|j: int| 0 <= j < s.len() && (#[trigger] s[j]).name == name ==> p(s[j]),
    ensures
        value_of(s.filter(p), name) == value_of(s, name),
    decreases s.len(),
{
    reveal(Seq::filter);
    if s.len() > 0 {
        let d = s.drop_last();
        assert forall|j: int| 0 <= j < d.len() && (#[trigger] d[j]).name == name implies p(d[j]) by {
            assert(d[j] == s[j]);
        }
        lemma_value_of_filter(d, p, name);
        assert(s.last() == s[s.len() - 1]);
        if p(s.last()) {
            assert(d.filter(p).push(s.last()).drop_last() =~= d.filter(p));
        }
    }
}

proof fn lemma_value_of_concat(a: Seq<AttributeView>, b: Seq<AttributeView>, name: NameView)
    ensures
        value_of(a + b, name) == (match value_of(a, name) {
            Some(v) => Some(v),
            None => value_of(b, name),
        }),
    decreases b.len(),
{
    if b.len() == 0 {
        assert(a + b =~= a);
    } else {
        lemma_value_of_concat(a, b.drop_last(), name);
        assert((a + b).drop_last() =~= a + b.drop_last());
        assert((a + b).last() == b.last());
    }
}

/// The value of `name` in `s` is that of `x`, when `x` is in `s` and every
/// attribute of `s` with that name is `x`.
proof fn lemma_value_of_only(s: Seq<AttributeView>, x: AttributeView, name: NameView)
    requires
        s.contains(x),
        x.name == name,
        forall|j: int| 0 <= j < s.len() && (#[trigger] s[j]).name == name ==> s[j] == x,
    ensures
        value_of(s, name) == Some(x.value),
{
    lemma_value_of(s, name);
    let j = choose|j: int| 0 <= j < s.len() && s[j] == x;
    assert(s[j].name == name);
}

/// Extracting the common attributes of a group leaves every element child
/// with the same value for every attribute name, counting the group's value
/// where the child has none of its own, as long as the child's attribute
/// names do not repeat.
pub proof fn lemma_extract_keeps_effective_values(n: NodeView, i: int, name: NameView)
    requires
        n is Regular,
        n->kind is Group,
        0 <= i < n->children.len(),
        n->children[i] is Regular,
        names_distinct(n->children[i]->attributes),
    ensures
        extract_common_attributes_node(n)->children.len() == n->children.len(),
        extract_common_attributes_node(n)->children[i] is Regular,
        effective_value(
            extract_common_attributes_node(n)->attributes,
            extract_common_attributes_node(n)->children[i]->attributes,
            name,
        ) == effective_value(n->attributes, n->children[i]->attributes, name),
{
    let g = n->attributes;
    let cs = n->children;
    let c = cs[i]->attributes;
    let common = common_attributes(cs);
    let m = extract_common_attributes_node(n);
    let pc = |a: AttributeView| !common.contains(a);
    let pg = |a: AttributeView| !has_name(common, a.name);
    assert(m->children[i] == without_common(cs[i], common));
    let c2 = c.filter(pc);
    assert(m->children[i]->attributes == c2);
    assert(m->attributes == g.filter(pg) + common);
    // Every common attribute is one of the child's.
    assert forall|y: AttributeView| common.contains(y) implies c.contains(y) by {
        match first_element_attributes(cs) {
            Some(first) => {
                let q = |a: AttributeView| in_every_element(cs, a) && !is_no_group_attribute(a);
                lemma_filter_contains(first, q, y);
                assert(in_every_element(cs, y));
                assert(cs[i] is Regular);
            },
            None => {},
        }
    }
    lemma_value_of_concat(g.filter(pg), common, name);
    lemma_value_of(c, name);
    lemma_value_of(common, name);
    if has_name(c, name) {
        let k = choose|k: int| 0 <= k < c.len() && (#[trigger] c[k]).name == name;
        let x = c[k];
        assert forall|j: int| 0 <= j < c.len() && (#[trigger] c[j]).name == name implies c[j] == x by {
            if j < k {
                assert(c[j].name != c[k].name);
            } else if k < j {
                assert(c[k].name != c[j].name);
            }
        }
        lemma_value_of_only(c, x, name);
        if common.contains(x) {
            // The child loses `x`; the group now carries it.
            lemma_value_of(c2, name);
            if has_name(c2, name) {
                let j = choose|j: int| 0 <= j < c2.len() && (#[trigger] c2[j]).name == name;
                assert(c2.contains(c2[j]));
                lemma_filter_contains(c, pc, c2[j]);
                let l = choose|l: int| 0 <= l < c.len() && c[l] == c2[j];
                assert(c[l].name == name);
            }
            let gf = g.filter(pg);
            assert forall|j: int| 0 <= j < gf.len() implies (#[trigger] gf[j]).name != name by {
                assert(gf.contains(gf[j]));
                lemma_filter_contains(g, pg, gf[j]);
                let l = choose|l: int| 0 <= l < common.len() && common[l] == x;
                assert(common[l].name == name);
            }
            lemma_value_of(gf, name);
            assert forall|j: int| 0 <= j < common.len() && (#[trigger] common[j]).name == name implies common[j]
                == x by {
                assert(common.contains(common[j]));
                assert(c.contains(common[j]));
                let l = choose|l: int| 0 <= l < c.len() && c[l] == common[j];
                assert(c[l].name == name);
            }
            lemma_value_of_only(common, x, name);
        } else {
            assert forall|j: int| 0 <= j < c2.len() && (#[trigger] c2[j]).name == name implies c2[j] == x by {
                assert(c2.contains(c2[j]));
                lemma_filter_contains(c, pc, c2[j]);
                let l = choose|l: int| 0 <= l < c.len() && c[l] == c2[j];
                assert(c[l].name == name);
            }
            lemma_filter_contains(c, pc, x);
            lemma_value_of_only(c2, x, name);
        }
    } else {
        lemma_value_of(c2, name);
        if has_name(c2, name) {
            let j = choose|j: int| 0 <= j < c2.len() && (#[trigger] c2[j]).name == name;
            assert(c2.contains(c2[j]));
            lemma_filter_contains(c, pc, c2[j]);
            let l = choose|l: int| 0 <= l < c.len() && c[l] == c2[j];
            assert(c[l].name == name);
        }
        if has_name(common, name) {
            let j = choose|j: int| 0 <= j < common.len() && (#[trigger] common[j]).name == name;
            assert(common.contains(common[j]));
            assert(c.contains(common[j]));
            let l = choose|l: int| 0 <= l < c.len() && c[l] == common[j];
            assert(c[l].name == name);
        }
        assert forall|j: int| 0 <= j < g.len() && (#[trigger] g[j]).name == name implies pg(g[j]) by {}
        lemma_value_of_filter(g, pg, name);
    }
}

/// Whether `n` is the local name of an attribute that places or identifies an
/// element: `id`, `cx`, `cy`, `height`, `width`, `x`, `y`, `r`, `rx`, `ry` or
/// `d`.
pub open spec fn is_placing_name(n: Seq<char>) -> bool {
    n == "id"@ || n == "cx"@ || n == "cy"@ || n == "height"@ || n == "width"@ || n == "x"@ || n
        == "y"@ || n == "r"@ || n == "rx"@ || n == "ry"@ || n == "d"@
}

/// No attribute that places or identifies an element is ever moved onto a
/// group: none is among the common attributes of any children, and every such
/// attribute of an element child of a group stays on that child.
pub proof fn lemma_placing_attributes_stay(n: NodeView, i: int, a: AttributeView)
    requires
        n is Regular,
        n->kind is Group,
        0 <= i < n->children.len(),
        n->children[i] is Regular,
        n->children[i]->attributes.contains(a),
        is_placing_name(a.name.local_name),
    ensures
        !common_attributes(n->children).contains(a),
        extract_common_attributes_node(n)->children[i]->attributes.contains(a),
{
    reveal_strlit("id");
    reveal_strlit("cx");
    reveal_strlit("cy");
    reveal_strlit("height");
    reveal_strlit("width");
    reveal_strlit("x");
    reveal_strlit("y");
    reveal_strlit("r");
    reveal_strlit("rx");
    reveal_strlit("ry");
    reveal_strlit("d");
    let cs = n->children;
    let common = common_attributes(cs);
    assert(is_no_group_attribute(a));
    match first_element_attributes(cs) {
        Some(first) => {
            let q = |b: AttributeView| in_every_element(cs, b) && !is_no_group_attribute(b);
            lemma_filter_contains(first, q, a);
        },
        None => {},
    }
    let m = extract_common_attributes_node(n);
    assert(m->children[i] == without_common(cs[i], common));
    lemma_filter_contains(cs[i]->attributes, |b: AttributeView| !common.contains(b), a);
}

} // verus!

//! Drops stroke attributes from elements whose stroke cannot be seen, and
//! fill attributes (other than `fill` itself) from elements whose fill cannot
//! be seen.
use vstd::prelude::*;
use crate::attributes::{
    FILL_NAME, FILL_OPACITY_NAME, NONE_VAL, STROKE_OPACITY_NAME, STROKE_WIDTH_NAME,
    filter_attributes, lemma_filter_contains, lemma_filter_keeps_all,
};
use crate::node::{
    Attribute, AttributeView, Node, NodeView, attributes_view, lemma_children_view, no_node,
    nodes_view,
};
use crate::text::{starts_with, string_is};
use crate::units::{is_zero_length, is_zero_length_exec};

verus! {

pub open spec fn stroke_opacity_zero(a: AttributeView) -> bool {
    a.name.local_name == STROKE_OPACITY_NAME@ && a.value == "0"@
}

pub open spec fn stroke_width_zero(a: AttributeView) -> bool {
    a.name.local_name == STROKE_WIDTH_NAME@ && is_zero_length(a.value)
}

pub open spec fn fill_none(a: AttributeView) -> bool {
    a.name.local_name == FILL_NAME@ && a.value == NONE_VAL@
}

pub open spec fn fill_opacity_zero(a: AttributeView) -> bool {
    a.name.local_name == FILL_OPACITY_NAME@ && a.value == "0"@
}

/// Whether some attribute makes the stroke invisible: a stroke opacity of
/// `0` or a stroke width of zero.
pub open spec fn stroke_invisible(attrs: Seq<AttributeView>) -> bool {
    exists|j: int|
        0 <= j < attrs.len() && (stroke_opacity_zero(#[trigger] attrs[j]) || stroke_width_zero(
            attrs[j],
        ))
}

/// Whether some attribute makes the fill invisible: a fill of `none` or a
/// fill opacity of `0`.
pub open spec fn fill_invisible(attrs: Seq<AttributeView>) -> bool {
    exists|j: int| 0 <= j < attrs.len() && (fill_none(#[trigger] attrs[j]) || fill_opacity_zero(attrs[j]))
}

/// Whether the attribute's name begins with `stroke`.
pub open spec fn is_stroke_attribute(a: AttributeView) -> bool {
    "stroke"@.is_prefix_of(a.name.local_name)
}

/// Whether the attribute's name begins with `fill-`.
pub open spec fn is_fill_detail_attribute(a: AttributeView) -> bool {
    "fill-"@.is_prefix_of(a.name.local_name)
}

/// The attributes without the `stroke…` ones when the stroke is invisible,
/// and then without the `fill-…` ones when the fill is invisible.
pub open spec fn without_useless_stroke_and_fill(attrs: Seq<AttributeView>) -> Seq<AttributeView> {
    let after_stroke = if stroke_invisible(attrs) {
        attrs.filter(|a: AttributeView| !is_stroke_attribute(a))
    } else {
        attrs
    };
    if fill_invisible(after_stroke) {
        after_stroke.filter(|a: AttributeView| !is_fill_detail_attribute(a))
    } else {
        after_stroke
    }
}

/// A node with useless stroke and fill attributes removed from every element in it.
pub open spec fn remove_useless_stroke_and_fill_node(n: NodeView) -> NodeView
    decreases n,
{
    match n {
        NodeView::Regular { kind, namespace, attributes, children } => NodeView::Regular {
            kind,
            namespace,
            attributes: without_useless_stroke_and_fill(attributes),
            children: Seq::new(
                children.len(),
                |i: int|
                    if 0 <= i < children.len() {
                        remove_useless_stroke_and_fill_node(children[i])
                    } else {
                        no_node()
                    },
            ),
        },
        NodeView::Childless { .. } => n,
    }
}

/// `nodes` with `remove_useless_stroke_and_fill_node` applied to each.
pub open spec fn remove_useless_stroke_and_fill_spec(nodes: Seq<NodeView>) -> Seq<NodeView> {
    Seq::new(
        nodes.len(),
        |i: int|
            if 0 <= i < nodes.len() {
                remove_useless_stroke_and_fill_node(nodes[i])
            } else {
                no_node()
            },
    )
}

fn is_stroke_opacity_zero(attr: &Attribute) -> (r: bool)
    ensures
        r == stroke_opacity_zero(attr@),
{
    string_is(&attr.name.local_name, STROKE_OPACITY_NAME) && string_is(&attr.value, "0")
}

fn is_stroke_width_zero(attr: &Attribute) -> (r: bool)
    ensures
        r == stroke_width_zero(attr@),
{
    string_is(&attr.name.local_name, STROKE_WIDTH_NAME) && is_zero_length_exec(&attr.value)
}

fn is_fill_none(attr: &Attribute) -> (r: bool)
    ensures
        r == fill_none(attr@),
{
    string_is(&attr.name.local_name, FILL_NAME) && string_is(&attr.value, NONE_VAL)
}

fn is_fill_opacity_zero(attr: &Attribute) -> (r: bool)
    ensures
        r == fill_opacity_zero(attr@),
{
    string_is(&attr.name.local_name, FILL_OPACITY_NAME) && string_is(&attr.value, "0")
}

fn is_stroke_invisible(attributes: &Vec<Attribute>) -> (r: bool)
    ensures
        r == stroke_invisible(attributes_view(attributes@)),
{
    let ghost s = attributes_view(attributes@);
    for i in 0..attributes.len()
        invariant
            s == attributes_view(attributes@),
            forall|j: int|
                0 <= j < i ==> !(stroke_opacity_zero(#[trigger] s[j]) || stroke_width_zero(s[j])),
    {
        if is_stroke_opacity_zero(&attributes[i]) || is_stroke_width_zero(&attributes[i]) {
            assert(s[i as int] == attributes@[i as int]@);
            return true;
        }
    }
    false
}

fn is_fill_invisible(attributes: &Vec<Attribute>) -> (r: bool)
    ensures
        r == fill_invisible(attributes_view(attributes@)),
{
    let ghost s = attributes_view(attributes@);
    for i in 0..attributes.len()
        invariant
            s == attributes_view(attributes@),
            forall|j: int| 0 <= j < i ==> !(fill_none(#[trigger] s[j]) || fill_opacity_zero(s[j])),
    {
        if is_fill_none(&attributes[i]) || is_fill_opacity_zero(&attributes[i]) {
            assert(s[i as int] == attributes@[i as int]@);
            return true;
        }
    }
    false
}

/// Drops the stroke attributes when the stroke cannot show, then the `fill-…`
/// ones when the fill cannot show (see `without_useless_stroke_and_fill`).
pub fn remove_useless_stroke_and_fill_from_attributes(attributes: Vec<Attribute>) -> (r: Vec<Attribute>)
    ensures
        attributes_view(r@) == without_useless_stroke_and_fill(attributes_view(attributes@)),
{
    let mut attributes = attributes;
    if is_stroke_invisible(&attributes) {
        let keep = |attr: &Attribute| -> (k: bool)
            ensures
                k == !is_stroke_attribute(attr@),
            { !starts_with(&attr.name.local_name, "stroke") };
        attributes = filter_attributes(
            attributes,
            keep,
            Ghost(|a: AttributeView| !is_stroke_attribute(a)),
        );
    }
    if is_fill_invisible(&attributes) {
        let keep = |attr: &Attribute| -> (k: bool)
            ensures
                k == !is_fill_detail_attribute(attr@),
            { !starts_with(&attr.name.local_name, "fill-") };
        attributes = filter_attributes(
            attributes,
            keep,
            Ghost(|a: AttributeView| !is_fill_detail_attribute(a)),
        );
    }
    attributes
}

/// Removes useless stroke and fill attributes from the node and all elements in it.
pub fn remove_useless_stroke_and_fill_from_node(node: Node) -> (r: Node)
    ensures
        r.view() == remove_useless_stroke_and_fill_node(node.view()),
    decreases node,
{
    let ghost old_node = node;
    match node {
        Node::RegularNode { node_type, namespace, attributes, children } => {
            proof {
                assert(decreases_to!(old_node => children));
            }
            let attributes = remove_useless_stroke_and_fill_from_attributes(attributes);
            let children = remove_useless_stroke_and_fill(children);
            let r = Node::RegularNode { node_type, namespace, attributes, children };
            proof {
                lemma_children_view(old_node);
                lemma_children_view(r);
                let ov = old_node.view();
                assert(r.view()->children =~= remove_useless_stroke_and_fill_node(ov)->children);
                assert(r.view() =~= remove_useless_stroke_and_fill_node(ov));
            }
            r
        },
        other => other,
    }
}

/// Removes useless stroke and fill attributes from every element in the nodes.
pub fn remove_useless_stroke_and_fill(nodes: Vec<Node>) -> (r: Vec<Node>)
    ensures
        nodes_view(r@) == remove_useless_stroke_and_fill_spec(nodes_view(nodes@)),
    decreases nodes,
{
    let ghost old_nodes = nodes@;
    proof {
        assert(decreases_to!(nodes => nodes@));
    }
    let mut out: Vec<Node> = Vec::new();
    #[verifier::loop_isolation(false)]
    for node in it: nodes.into_iter()
        invariant
            it.seq() == old_nodes,
            out@.len() == it.index(),
            forall|j: int|
                0 <= j < out@.len() ==> #[trigger] out@[j].view()
                    == remove_useless_stroke_and_fill_node(old_nodes[j].view()),
    {
        proof {
            let i = it.index() as int;
            assert(old_nodes[i] == node);
            assert(decreases_to!(old_nodes => old_nodes[i]));
        }
        out.push(remove_useless_stroke_and_fill_from_node(node));
    }
    assert(nodes_view(out@) =~= remove_useless_stroke_and_fill_spec(nodes_view(old_nodes)));
    out
}

proof fn lemma_attributes_idempotent(attrs: Seq<AttributeView>)
    ensures
        without_useless_stroke_and_fill(without_useless_stroke_and_fill(attrs))
            == without_useless_stroke_and_fill(attrs),
{
    reveal_strlit("stroke");
    reveal_strlit("fill-");
    reveal_strlit("stroke-opacity");
    reveal_strlit("stroke-width");
    reveal_strlit("fill");
    reveal_strlit("fill-opacity");
    let not_stroke = |a: AttributeView| !is_stroke_attribute(a);
    let not_fill = |a: AttributeView| !is_fill_detail_attribute(a);
    let a1 = if stroke_invisible(attrs) { attrs.filter(not_stroke) } else { attrs };
    let a2 = without_useless_stroke_and_fill(attrs);
    assert(a2 == if fill_invisible(a1) { a1.filter(not_fill) } else { a1 });
    // Every attribute left is one of the original ones; when the stroke was
    // invisible none of them is a stroke attribute any more.
    assert forall|j: int| 0 <= j < a2.len() implies attrs.contains(#[trigger] a2[j]) && (stroke_invisible(attrs) ==> not_stroke(a2[j])) by {
        assert(a2.contains(a2[j]));
        if fill_invisible(a1) {
            lemma_filter_contains(a1, not_fill, a2[j]);
        }
        assert(a1.contains(a2[j]));
        if stroke_invisible(attrs) {
            lemma_filter_contains(attrs, not_stroke, a2[j]);
        }
    }
    // The stroke of the result is visible unless it was visible before the first pass.
    if stroke_invisible(a2) {
        let j = choose|j: int| 0 <= j < a2.len() && (stroke_opacity_zero(#[trigger] a2[j]) || stroke_width_zero(a2[j]));
        let k = choose|k: int| 0 <= k < attrs.len() && attrs[k] == a2[j];
        assert(stroke_invisible(attrs));
        assert("stroke"@.is_prefix_of(a2[j].name.local_name)) by {
            assert(a2[j].name.local_name[0] == 's');
            assert(a2[j].name.local_name.subrange(0, 6) =~= "stroke"@);
        }
        assert(false);
    }
    // Second pass: the stroke part leaves the result as it is.
    assert(!stroke_invisible(a2));
    if fill_invisible(a1) {
        // The fill part keeps only what it kept before.
        assert forall|j: int| 0 <= j < a2.len() implies not_fill(#[trigger] a2[j]) by {
            assert(a2.contains(a2[j]));
            lemma_filter_contains(a1, not_fill, a2[j]);
        }
        lemma_filter_keeps_all(a2, not_fill);
    } else {
        // Nothing was removed by the fill part, so it still removes nothing.
        if fill_invisible(a2) {
            let j = choose|j: int| 0 <= j < a2.len() && (fill_none(#[trigger] a2[j]) || fill_opacity_zero(a2[j]));
            assert(a1[j] == a2[j]);
            assert(false);
        }
    }
}

proof fn lemma_node_idempotent(n: NodeView)
    ensures
        remove_useless_stroke_and_fill_node(remove_useless_stroke_and_fill_node(n))
            == remove_useless_stroke_and_fill_node(n),
    decreases n,
{
    match n {
        NodeView::Regular { kind, namespace, attributes, children } => {
            lemma_attributes_idempotent(attributes);
            assert forall|i: int| 0 <= i < children.len() implies remove_useless_stroke_and_fill_node(
                remove_useless_stroke_and_fill_node(#[trigger] children[i]),
            ) == remove_useless_stroke_and_fill_node(children[i]) by {
                lemma_node_idempotent(children[i]);
            }
            let once = remove_useless_stroke_and_fill_node(n);
            let twice = remove_useless_stroke_and_fill_node(once);
            assert(twice->children =~= once->children);
            assert(twice =~= once);
        },
        NodeView::Childless { .. } => {},
    }
}

/// Removing useless stroke and fill attributes a second time changes nothing.
pub proof fn lemma_remove_useless_stroke_and_fill_idempotent(nodes: Seq<NodeView>)
    ensures
        remove_useless_stroke_and_fill_spec(remove_useless_stroke_and_fill_spec(nodes))
            == remove_useless_stroke_and_fill_spec(nodes),
{
    assert forall|i: int| 0 <= i < nodes.len() implies remove_useless_stroke_and_fill_node(
        remove_useless_stroke_and_fill_node(#[trigger] nodes[i]),
    ) == remove_useless_stroke_and_fill_node(nodes[i]) by {
        lemma_node_idempotent(nodes[i]);
    }
    assert(remove_useless_stroke_and_fill_spec(remove_useless_stroke_and_fill_spec(nodes))
        =~= remove_useless_stroke_and_fill_spec(nodes));
}

/// Whether some attribute of `attrs` hides the stroke: `stroke-opacity` of
/// `0` or a `stroke-width` of zero.
pub open spec fn hides_stroke(attrs: Seq<AttributeView>) -> bool {
    exists|k: int|
        0 <= k < attrs.len() && (((#[trigger] attrs[k]).name.local_name == "stroke-opacity"@
            && attrs[k].value == "0"@) || (attrs[k].name.local_name == "stroke-width"@
            && is_zero_length(attrs[k].value)))
}

/// Whether some attribute of `attrs` hides the fill: `fill` of `none` or
/// `fill-opacity` of `0`.
pub open spec fn hides_fill(attrs: Seq<AttributeView>) -> bool {
    exists|k: int|
        0 <= k < attrs.len() && (((#[trigger] attrs[k]).name.local_name == "fill"@ && attrs[k].value
            == "none"@) || (attrs[k].name.local_name == "fill-opacity"@ && attrs[k].value == "0"@))
}

/// What cleaning the attributes `before` into `after` must do: nothing is
/// added; an attribute goes only if its name starts with `stroke` and the
/// stroke is hidden, or with `fill-` and the fill is hidden; and no attribute
/// left hides the stroke or sets the fill opacity to `0`, nor is a `fill-`
/// attribute left beside `fill` of `none`.
pub open spec fn cleaned_attributes(before: Seq<AttributeView>, after: Seq<AttributeView>) -> bool {
    &&& forall|j: int| 0 <= j < after.len() ==> before.contains(#[trigger] after[j])
    &&& forall|j: int|
        0 <= j < before.len() && !after.contains(#[trigger] before[j]) ==> ((
        "stroke"@.is_prefix_of(before[j].name.local_name) && hides_stroke(before)) || (
        "fill-"@.is_prefix_of(before[j].name.local_name) && hides_fill(before)))
    &&& !hides_stroke(after)
    &&& forall|j: int|
        0 <= j < after.len() ==> !((#[trigger] after[j]).name.local_name == "fill-opacity"@
            && after[j].value == "0"@)
    &&& hides_fill(after) ==> forall|j: int|
        0 <= j < after.len() ==> !"fill-"@.is_prefix_of((#[trigger] after[j]).name.local_name)
}

/// `after` is `before` with every element at any depth cleaned as
/// `cleaned_attributes` says, and nothing else changed.
pub open spec fn cleaned_everywhere(before: NodeView, after: NodeView) -> bool
    decreases before,
{
    match before {
        NodeView::Regular { kind, namespace, attributes, children } => {
            &&& after is Regular
            &&& after->kind == kind
            &&& after->namespace == namespace
            &&& cleaned_attributes(attributes, after->attributes)
            &&& after->children.len() == children.len()
            &&& forall|i: int|
                0 <= i < children.len() ==> cleaned_everywhere(#[trigger] children[i], after->children[i])
        },
        NodeView::Childless { .. } => after == before,
    }
}

proof fn lemma_prefix_names()
    ensures
        "stroke"@.is_prefix_of("stroke-opacity"@),
        "stroke"@.is_prefix_of("stroke-width"@),
        "fill-"@.is_prefix_of("fill-opacity"@),
        !"fill-"@.is_prefix_of("fill"@),
        forall|n: Seq<char>| "stroke"@.is_prefix_of(n) ==> !"fill-"@.is_prefix_of(n),
{
    reveal_strlit("stroke");
    reveal_strlit("fill-");
    reveal_strlit("stroke-opacity");
    reveal_strlit("stroke-width");
    reveal_strlit("fill-opacity");
    reveal_strlit("fill");
    assert("stroke-opacity"@.subrange(0, 6) =~= "stroke"@);
    assert("stroke-width"@.subrange(0, 6) =~= "stroke"@);
    assert("fill-opacity"@.subrange(0, 5) =~= "fill-"@);
    assert forall|n: Seq<char>| "stroke"@.is_prefix_of(n) implies !"fill-"@.is_prefix_of(n) by {
        assert(n.subrange(0, 6)[0] == 's');
        assert(n[0] == 's');
    }
}

proof fn lemma_attributes_cleaned(attrs: Seq<AttributeView>)
    ensures
        cleaned_attributes(attrs, without_useless_stroke_and_fill(attrs)),
{
    lemma_prefix_names();
    reveal_strlit("stroke-opacity");
    reveal_strlit("stroke-width");
    reveal_strlit("fill-opacity");
    reveal_strlit("fill");
    reveal_strlit("none");
    let not_stroke = |a: AttributeView| !is_stroke_attribute(a);
    let not_fill = |a: AttributeView| !is_fill_detail_attribute(a);
    let a1 = if stroke_invisible(attrs) { attrs.filter(not_stroke) } else { attrs };
    let a2 = without_useless_stroke_and_fill(attrs);
    assert(a2 == if fill_invisible(a1) { a1.filter(not_fill) } else { a1 });
    assert(stroke_invisible(attrs) == hides_stroke(attrs)) by {
        if hides_stroke(attrs) {
            let k = choose|k: int|
                0 <= k < attrs.len() && (((#[trigger] attrs[k]).name.local_name == "stroke-opacity"@
                    && attrs[k].value == "0"@) || (attrs[k].name.local_name == "stroke-width"@
                    && is_zero_length(attrs[k].value)));
            assert(stroke_opacity_zero(attrs[k]) || stroke_width_zero(attrs[k]));
        }
    }
    // Membership: what is in a2 is in a1 and in attrs.
    assert forall|x: AttributeView| a2.contains(x) implies a1.contains(x) && attrs.contains(x) && (
    stroke_invisible(attrs) ==> not_stroke(x)) && (fill_invisible(a1) ==> not_fill(x)) by {
        if fill_invisible(a1) {
            lemma_filter_contains(a1, not_fill, x);
        }
        if stroke_invisible(attrs) {
            lemma_filter_contains(attrs, not_stroke, x);
        }
    }
    assert(fill_invisible(a1) == hides_fill(attrs)) by {
        if hides_fill(attrs) {
            let k = choose|k: int|
                0 <= k < attrs.len() && (((#[trigger] attrs[k]).name.local_name == "fill"@
                    && attrs[k].value == "none"@) || (attrs[k].name.local_name == "fill-opacity"@
                    && attrs[k].value == "0"@));
            if stroke_invisible(attrs) {
                lemma_filter_contains(attrs, not_stroke, attrs[k]);
            }
            assert(a1.contains(attrs[k]));
            let l = choose|l: int| 0 <= l < a1.len() && a1[l] == attrs[k];
            assert(fill_none(a1[l]) || fill_opacity_zero(a1[l]));
        }
        if fill_invisible(a1) {
            let l = choose|l: int| 0 <= l < a1.len() && (fill_none(#[trigger] a1[l]) || fill_opacity_zero(a1[l]));
            if stroke_invisible(attrs) {
                lemma_filter_contains(attrs, not_stroke, a1[l]);
            }
            assert(a1.contains(a1[l]));
            let k = choose|k: int| 0 <= k < attrs.len() && attrs[k] == a1[l];
            assert(attrs[k].name.local_name == "fill"@ || attrs[k].name.local_name == "fill-opacity"@);
        }
    }
    // Nothing added.
    assert forall|j: int| 0 <= j < a2.len() implies attrs.contains(#[trigger] a2[j]) by {
        assert(a2.contains(a2[j]));
    }
    // Only hidden stroke and fill attributes go.
    assert forall|j: int|
        0 <= j < attrs.len() && !a2.contains(#[trigger] attrs[j]) implies ((
        "stroke"@.is_prefix_of(attrs[j].name.local_name) && hides_stroke(attrs)) || (
        "fill-"@.is_prefix_of(attrs[j].name.local_name) && hides_fill(attrs))) by {
        let x = attrs[j];
        assert(attrs.contains(x));
        if stroke_invisible(attrs) {
            lemma_filter_contains(attrs, not_stroke, x);
        }
        if fill_invisible(a1) {
            lemma_filter_contains(a1, not_fill, x);
        }
    }
    // Nothing left hides the stroke.
    if hides_stroke(a2) {
        let k = choose|k: int|
            0 <= k < a2.len() && (((#[trigger] a2[k]).name.local_name == "stroke-opacity"@
                && a2[k].value == "0"@) || (a2[k].name.local_name == "stroke-width"@
                && is_zero_length(a2[k].value)));
        assert(a2.contains(a2[k]));
        let l = choose|l: int| 0 <= l < attrs.len() && attrs[l] == a2[k];
        assert(stroke_opacity_zero(attrs[l]) || stroke_width_zero(attrs[l]));
        assert(false);
    }
    // No fill opacity of zero is left.
    assert forall|j: int| 0 <= j < a2.len() implies !((#[trigger] a2[j]).name.local_name
        == "fill-opacity"@ && a2[j].value == "0"@) by {
        if a2[j].name.local_name == "fill-opacity"@ && a2[j].value == "0"@ {
            assert(a2.contains(a2[j]));
            let l = choose|l: int| 0 <= l < a1.len() && a1[l] == a2[j];
            assert(fill_opacity_zero(a1[l]));
        }
    }
    // No `fill-` attribute is left beside a `fill` of `none`.
    if hides_fill(a2) {
        let k = choose|k: int|
            0 <= k < a2.len() && (((#[trigger] a2[k]).name.local_name == "fill"@ && a2[k].value
                == "none"@) || (a2[k].name.local_name == "fill-opacity"@ && a2[k].value == "0"@));
        assert(a2.contains(a2[k]));
        let l = choose|l: int| 0 <= l < a1.len() && a1[l] == a2[k];
        assert(fill_none(a1[l]) || fill_opacity_zero(a1[l]));
        assert forall|j: int| 0 <= j < a2.len() implies !"fill-"@.is_prefix_of(
            (#[trigger] a2[j]).name.local_name,
        ) by {
            assert(a2.contains(a2[j]));
        }
    }
}

proof fn lemma_node_cleaned(n: NodeView)
    ensures
        cleaned_everywhere(n, remove_useless_stroke_and_fill_node(n)),
    decreases n,
{
    match n {
        NodeView::Regular { attributes, children, .. } => {
            lemma_attributes_cleaned(attributes);
            let out = remove_useless_stroke_and_fill_node(n);
            assert forall|i: int| 0 <= i < children.len() implies cleaned_everywhere(
                #[trigger] children[i],
                out->children[i],
            ) by {
                lemma_node_cleaned(children[i]);
            }
        },
        NodeView::Childless { .. } => {},
    }
}

/// Every element, at any depth and whatever the elements around it, comes
/// out of removing useless stroke and fill attributes cleaned: nothing added,
/// only hidden `stroke…` and `fill-…` attributes dropped, and nothing left
/// that hides the stroke or makes the fill transparent beside `fill-`
/// attributes.
pub proof fn lemma_stroke_and_fill_cleaned_everywhere(nodes: Seq<NodeView>)
    ensures
        remove_useless_stroke_and_fill_spec(nodes).len() == nodes.len(),
        forall|i: int|
            0 <= i < nodes.len() ==> cleaned_everywhere(
                #[trigger] nodes[i],
                remove_useless_stroke_and_fill_spec(nodes)[i],
            ),
{
    assert forall|i: int| 0 <= i < nodes.len() implies cleaned_everywhere(
        #[trigger] nodes[i],
        remove_useless_stroke_and_fill_spec(nodes)[i],
    ) by {
        lemma_node_cleaned(nodes[i]);
    }
}

} // verus!

//! Which element identifiers a document refers to.
use vstd::prelude::*;
use crate::node::{Attribute, AttributeView, Node, NodeView, attributes_view, lemma_children_view, nodes_view};
use crate::text::chars_of;

verus! {

/// Whether the attribute value `value` refers to the identifier `id`: the
/// value is `#id` or `url(#id)`.
pub open spec fn refers_to(value: Seq<char>, id: Seq<char>) -> bool {
    value == seq!['#'] + id || value == "url(#"@ + id + seq![')']
}

/// Whether some attribute in `attrs` refers to `id`.
pub open spec fn attributes_refer_to(attrs: Seq<AttributeView>, id: Seq<char>) -> bool {
    exists|j: int| 0 <= j < attrs.len() && refers_to((#[trigger] attrs[j]).value, id)
}

/// Whether some attribute of a node in `nodes`, at any depth, refers to `id`.
pub open spec fn nodes_refer_to(nodes: Seq<NodeView>, id: Seq<char>) -> bool
    decreases nodes,
{
    if nodes.len() == 0 {
        false
    } else {
        nodes_refer_to(nodes.drop_last(), id) || node_refers_to(nodes.last(), id)
    }
}

/// Whether some attribute of `n`, or of a node at any depth below it, refers to `id`.
pub open spec fn node_refers_to(n: NodeView, id: Seq<char>) -> bool
    decreases n,
{
    match n {
        NodeView::Regular { attributes, children, .. } => attributes_refer_to(attributes, id)
            || nodes_refer_to(children, id),
        NodeView::Childless { .. } => false,
    }
}

/// The models of a sequence of strings.
pub open spec fn strings_view(s: Seq<String>) -> Seq<Seq<char>> {
    s.map_values(|x: String| x@)
}

/// The identifier that `value` refers to, if it refers to one.
fn referenced_id(value: &String) -> (r: Option<String>)
    ensures
        match r {
            Some(id) => refers_to(value@, id@),
            None => forall|id: Seq<char>| !refers_to(value@, id),
        },
{
    proof {
        reveal_strlit("url(#");
    }
    let c = chars_of(value.as_str());
    let n = c.len();
    if n >= 1 && c[0] == '#' {
        let mut id = String::new();
        let mut i: usize = 1;
        while i < n
            invariant
                1 <= i <= n,
                c@ == value@,
                n == c@.len(),
                id@ == c@.subrange(1, i as int),
            decreases n - i,
        {
            let piece = value.as_str().substring_char(i, i + 1);
            assert(piece@ =~= seq![c@[i as int]]);
            id.append(piece);
            i = i + 1;
            assert(id@ =~= c@.subrange(1, i as int));
        }
        assert(value@ =~= seq!['#'] + id@);
        return Some(id);
    }
    if n >= 6 && c[0] == 'u' && c[1] == 'r' && c[2] == 'l' && c[3] == '(' && c[4] == '#' && c[n
        - 1] == ')' {
        let mut id = String::new();
        let mut i: usize = 5;
        while i < n - 1
            invariant
                5 <= i <= n - 1,
                c@ == value@,
                n == c@.len(),
                id@ == c@.subrange(5, i as int),
            decreases n - 1 - i,
        {
            let piece = value.as_str().substring_char(i, i + 1);
            assert(piece@ =~= seq![c@[i as int]]);
            id.append(piece);
            i = i + 1;
            assert(id@ =~= c@.subrange(5, i as int));
        }
        assert(value@ =~= "url(#"@ + id@ + seq![')']);
        return Some(id);
    }
    proof {
        assert forall|id: Seq<char>| !refers_to(value@, id) by {
            if value@ == seq!['#'] + id {
                assert(value@[0] == '#');
            }
            if value@ == "url(#"@ + id + seq![')'] {
                assert(value@[0] == 'u' && value@[1] == 'r' && value@[2] == 'l');
                assert(value@[3] == '(' && value@[4] == '#');
                assert(value@[value@.len() - 1] == ')');
            }
        }
    }
    None
}

/// A value refers to at most one identifier.
proof fn lemma_refers_to_unique(value: Seq<char>, a: Seq<char>, b: Seq<char>)
    requires
        refers_to(value, a),
        refers_to(value, b),
    ensures
        a == b,
{
    reveal_strlit("url(#");
    if value == seq!['#'] + a {
        if value == seq!['#'] + b {
            assert(a =~= value.skip(1));
            assert(b =~= value.skip(1));
        } else {
            assert(value[0] == 'u');
        }
    } else {
        if value == seq!['#'] + b {
            assert(value[0] == 'u');
        } else {
            assert(a =~= value.subrange(5, value.len() - 1));
            assert(b =~= value.subrange(5, value.len() - 1));
        }
    }
}

/// Adds to `used_ids` the identifiers that the attributes refer to.
fn collect_from_attributes(attributes: &Vec<Attribute>, used_ids: &mut Vec<String>)
    ensures
        forall|id: Seq<char>|
            #![trigger strings_view(final(used_ids)@).contains(id)]
            strings_view(final(used_ids)@).contains(id) <==> (strings_view(old(used_ids)@).contains(id)
                || attributes_refer_to(attributes_view(attributes@), id)),
{
    let ghost s = attributes_view(attributes@);
    let ghost start = strings_view(used_ids@);
    for i in 0..attributes.len()
        invariant
            s == attributes_view(attributes@),
            start == strings_view(old(used_ids)@),
            forall|id: Seq<char>|
                #![trigger strings_view(used_ids@).contains(id)]
                strings_view(used_ids@).contains(id) <==> (start.contains(id) || exists|j: int|
                    0 <= j < i && refers_to((#[trigger] s[j]).value, id)),
    {
        let ghost before = strings_view(used_ids@);
        let found = referenced_id(&attributes[i].value);
        proof {
            assert(s[i as int] == attributes@[i as int]@);
        }
        match found {
            Some(id) => {
                let ghost idv = id@;
                used_ids.push(id);
                proof {
                    assert(strings_view(used_ids@) =~= before.push(idv));
                    assert forall|x: Seq<char>|
                        #![trigger strings_view(used_ids@).contains(x)]
                        strings_view(used_ids@).contains(x) <==> (start.contains(x) || exists|j: int|
                            0 <= j < i + 1 && refers_to((#[trigger] s[j]).value, x)) by {
                        if strings_view(used_ids@).contains(x) {
                            if !before.contains(x) {
                                let k = choose|k: int| 0 <= k < strings_view(used_ids@).len() && strings_view(used_ids@)[k] == x;
                                if k < before.len() {
                                    assert(before[k] == x);
                                }
                                assert(x == idv);
                                assert(refers_to(s[i as int].value, x));
                            }
                        }
                        if exists|j: int| 0 <= j < i + 1 && refers_to((#[trigger] s[j]).value, x) {
                            if !(exists|j: int| 0 <= j < i && refers_to((#[trigger] s[j]).value, x)) {
                                lemma_refers_to_unique(s[i as int].value, x, idv);
                                assert(strings_view(used_ids@)[before.len() as int] == x);
                            }
                        }
                        if before.contains(x) {
                            let k = choose|k: int| 0 <= k < before.len() && before[k] == x;
                            assert(strings_view(used_ids@)[k] == x);
                        }
                    }
                }
            },
            None => {
                proof {
                    assert forall|x: Seq<char>|
                        #![trigger strings_view(used_ids@).contains(x)]
                        strings_view(used_ids@).contains(x) <==> (start.contains(x) || exists|j: int|
                            0 <= j < i + 1 && refers_to((#[trigger] s[j]).value, x)) by {
                        if exists|j: int| 0 <= j < i + 1 && refers_to((#[trigger] s[j]).value, x) {
                            let j = choose|j: int| 0 <= j < i + 1 && refers_to((#[trigger] s[j]).value, x);
                            assert(j != i);
                        }
                    }
                }
            },
        }
    }
}

/// Adds to `used_ids` the identifiers referred to anywhere in `nodes`.
fn collect_from_nodes(nodes: &Vec<Node>, used_ids: &mut Vec<String>)
    ensures
        forall|id: Seq<char>|
            #![trigger strings_view(final(used_ids)@).contains(id)]
            strings_view(final(used_ids)@).contains(id) <==> (strings_view(old(used_ids)@).contains(id)
                || nodes_refer_to(nodes_view(nodes@), id)),
    decreases nodes@,
{
    let ghost vs = nodes_view(nodes@);
    let ghost start = strings_view(used_ids@);
    for i in 0..nodes.len()
        invariant
            vs == nodes_view(nodes@),
            start == strings_view(old(used_ids)@),
            forall|id: Seq<char>|
                #![trigger strings_view(used_ids@).contains(id)]
                strings_view(used_ids@).contains(id) <==> (start.contains(id) || nodes_refer_to(
                    vs.take(i as int),
                    id,
                )),
    {
        proof {
            assert(vs.take(i + 1).drop_last() =~= vs.take(i as int));
            assert(vs.take(i + 1).last() == nodes@[i as int].view());
        }
        match &nodes[i] {
            Node::RegularNode { attributes, children, .. } => {
                proof {
                    lemma_children_view(nodes@[i as int]);
                    assert(decreases_to!(nodes@ => nodes@[i as int]));
                }
                collect_from_attributes(attributes, used_ids);
                collect_from_nodes(children, used_ids);
                proof {
                    let n = nodes@[i as int].view();
                    assert(n->children == nodes_view(children@));
                    assert(n->attributes == attributes_view(attributes@));
                    assert(forall|id: Seq<char>| #[trigger] node_refers_to(n, id) == (attributes_refer_to(attributes_view(attributes@), id) || nodes_refer_to(nodes_view(children@), id)));
                    assert(forall|id: Seq<char>| #[trigger] nodes_refer_to(vs.take(i + 1), id) == (nodes_refer_to(vs.take(i as int), id) || node_refers_to(n, id)));
                }
            },
            Node::ChildlessNode { .. } => {
                proof {
                    let n = nodes@[i as int].view();
                    assert(forall|id: Seq<char>| #[trigger] nodes_refer_to(vs.take(i + 1), id) == (nodes_refer_to(vs.take(i as int), id) || node_refers_to(n, id)));
                }
            },
        }
    }
    assert(vs.take(nodes.len() as int) =~= vs);
}

/// The identifiers referred to, through a value `#id` or `url(#id)`, by some
/// attribute anywhere in `nodes`; an identifier may occur more than once.
pub fn find_ids_for_subtree(nodes: &Vec<Node>) -> (r: Vec<String>)
    ensures
        forall|id: Seq<char>|
            #![trigger strings_view(r@).contains(id)]
            strings_view(r@).contains(id) <==> nodes_refer_to(nodes_view(nodes@), id),
{
    let mut used_ids: Vec<String> = Vec::new();
    collect_from_nodes(nodes, &mut used_ids);
    used_ids
}

} // verus!

//! Builds the node tree from the stream of events that the `xml` reader
//! produces.
//!
//! Because of the reader's limitations, xml and DOCTYPE declarations are
//! skipped, and whitespace between attributes, as well as their order, is lost.
use vstd::prelude::*;
use crate::node::{
    Attribute, AttributeView, ChildlessNodeType, ChildlessView, NameView, Node, NodeNamespace,
    NodeView, QualifiedName, RegularNodeType, attributes_view, kind_of_name, lemma_children_view,
    mappings_view, nodes_view, option_string_view,
};
use crate::xml_input::{
    RawEvent, xml_attribute, xml_event_parts, xml_events, xml_name, xml_namespace, xml_read_events,
};

verus! {

/// Why a document could not be parsed.
#[derive(Debug)]
pub enum ParseError {
    /// The `xml` reader reported an error.
    Xml(xml::reader::Error),
    /// The events ended while an element was still open.
    UnexpectedEnd,
    /// An event that cannot stand where it stands (a document start or a
    /// DOCTYPE inside an element, or a whitespace event).
    UnexpectedEvent,
}

/// An event of the reader, in the library's terms.
#[allow(inconsistent_fields)]
#[derive(Debug)]
pub enum ParseEvent {
    StartDocument,
    EndDocument,
    ProcessingInstruction { name: String, data: Option<String> },
    StartElement { name: QualifiedName, attributes: Vec<Attribute>, namespace: Vec<(String, String)> },
    EndElement { name: QualifiedName },
    CData(String),
    Comment(String),
    Characters(String),
    Whitespace(String),
    Doctype { syntax: String },
}

/// Model of a `ParseEvent`.
#[allow(inconsistent_fields)]
pub enum EventView {
    StartDocument,
    EndDocument,
    ProcessingInstruction { name: Seq<char>, data: Option<Seq<char>> },
    StartElement {
        name: NameView,
        attributes: Seq<AttributeView>,
        namespace: Seq<(Seq<char>, Seq<char>)>,
    },
    EndElement { name: NameView },
    CData(Seq<char>),
    Comment(Seq<char>),
    Characters(Seq<char>),
    Whitespace(Seq<char>),
    Doctype { syntax: Seq<char> },
}

impl View for ParseEvent {
    type V = EventView;

    open spec fn view(&self) -> EventView {
        match self {
            ParseEvent::StartDocument => EventView::StartDocument,
            ParseEvent::EndDocument => EventView::EndDocument,
            ParseEvent::ProcessingInstruction { name, data } => EventView::ProcessingInstruction {
                name: name@,
                data: option_string_view(*data),
            },
            ParseEvent::StartElement { name, attributes, namespace } => EventView::StartElement {
                name: name@,
                attributes: attributes_view(attributes@),
                namespace: mappings_view(namespace@),
            },
            ParseEvent::EndElement { name } => EventView::EndElement { name: name@ },
            ParseEvent::CData(t) => EventView::CData(t@),
            ParseEvent::Comment(t) => EventView::Comment(t@),
            ParseEvent::Characters(t) => EventView::Characters(t@),
            ParseEvent::Whitespace(t) => EventView::Whitespace(t@),
            ParseEvent::Doctype { syntax } => EventView::Doctype { syntax: syntax@ },
        }
    }
}

/// An element whose start has been read but not yet its end.
#[verifier::ext_equal]
pub struct OpenElementView {
    pub attributes: Seq<AttributeView>,
    pub namespace: Seq<(Seq<char>, Seq<char>)>,
    pub children: Seq<NodeView>,
}

/// Where building the tree stands after some events.
#[verifier::ext_equal]
pub enum BuildState {
    /// Still reading: the finished top-level nodes, and the open elements from
    /// the outermost in.
    Running { top: Seq<NodeView>, open: Seq<OpenElementView> },
    /// The end of the document was read with every element closed.
    Finished { nodes: Seq<NodeView> },
    Failed { error: ParseError },
}

/// The element closed by an end tag named `name`: its kind and namespace
/// come from the end tag, the rest from its start.
pub open spec fn closed_element(name: NameView, open: OpenElementView) -> NodeView {
    NodeView::Regular {
        kind: kind_of_name(name.local_name),
        namespace: crate::node::NamespaceView {
            parent_namespace: name.namespace,
            prefix: name.prefix,
            element_namespace: open.namespace,
        },
        attributes: open.attributes,
        children: open.children,
    }
}

/// Adds a finished node to the innermost open element, or to the top level.
pub open spec fn add_node(top: Seq<NodeView>, open: Seq<OpenElementView>, node: NodeView) -> BuildState {
    if open.len() == 0 {
        BuildState::Running { top: top.push(node), open }
    } else {
        let o = open.last();
        BuildState::Running {
            top,
            open: open.update(
                open.len() - 1,
                OpenElementView {
                    attributes: o.attributes,
                    namespace: o.namespace,
                    children: o.children.push(node),
                },
            ),
        }
    }
}

/// The state after reading one more item of the stream. A reader error
/// fails; the end of the document finishes when no element is open and fails
/// otherwise; a document start or a DOCTYPE is skipped at the top level and
/// fails inside an element; an end tag closes the innermost open element and
/// is skipped when none is open; a start tag opens an element; text,
/// CDATA, comments and processing instructions become childless nodes;
/// whitespace events fail. Finished and failed states stay as they are.
pub open spec fn step(state: BuildState, item: Result<EventView, xml::reader::Error>) -> BuildState {
    match state {
        BuildState::Running { top, open } => match item {
            Err(e) => BuildState::Failed { error: ParseError::Xml(e) },
            Ok(event) => match event {
                EventView::EndDocument => if open.len() == 0 {
                    BuildState::Finished { nodes: top }
                } else {
                    BuildState::Failed { error: ParseError::UnexpectedEnd }
                },
                EventView::StartDocument | EventView::Doctype { .. } => if open.len() == 0 {
                    state
                } else {
                    BuildState::Failed { error: ParseError::UnexpectedEvent }
                },
                EventView::Whitespace(_) => BuildState::Failed { error: ParseError::UnexpectedEvent },
                EventView::EndElement { name } => if open.len() == 0 {
                    state
                } else {
                    add_node(top, open.drop_last(), closed_element(name, open.last()))
                },
                EventView::StartElement { attributes, namespace, .. } => BuildState::Running {
                    top,
                    open: open.push(OpenElementView { attributes, namespace, children: Seq::empty() }),
                },
                EventView::ProcessingInstruction { name, data } => add_node(
                    top,
                    open,
                    NodeView::Childless { content: ChildlessView::ProcessingInstruction(name, data) },
                ),
                EventView::CData(text) => add_node(
                    top,
                    open,
                    NodeView::Childless { content: ChildlessView::Text(text, true) },
                ),
                EventView::Comment(text) => add_node(
                    top,
                    open,
                    NodeView::Childless { content: ChildlessView::Comment(text) },
                ),
                EventView::Characters(text) => add_node(
                    top,
                    open,
                    NodeView::Childless { content: ChildlessView::Text(text, false) },
                ),
            },
        },
        _ => state,
    }
}

/// The state after reading all of `items`, from the empty start.
pub open spec fn run(items: Seq<Result<EventView, xml::reader::Error>>) -> BuildState
    decreases items.len(),
{
    if items.len() == 0 {
        BuildState::Running { top: Seq::empty(), open: Seq::empty() }
    } else {
        step(run(items.drop_last()), items.last())
    }
}

/// The document built from the stream `items`: its top-level nodes, or why
/// it could not be built. A stream that ends without the end of the document
/// is finished when no element is open.
pub open spec fn document(items: Seq<Result<EventView, xml::reader::Error>>) -> Result<
    Seq<NodeView>,
    ParseError,
> {
    match run(items) {
        BuildState::Running { top, open } => if open.len() == 0 {
            Ok(top)
        } else {
            Err(ParseError::UnexpectedEnd)
        },
        BuildState::Finished { nodes } => Ok(nodes),
        BuildState::Failed { error } => Err(error),
    }
}

/// The model of an item of the reader's stream.
pub open spec fn item_view(item: Result<ParseEvent, xml::reader::Error>) -> Result<EventView, xml::reader::Error> {
    match item {
        Ok(event) => Ok(event@),
        Err(e) => Err(e),
    }
}

/// The models of the items of a stream.
pub open spec fn items_view(items: Seq<Result<ParseEvent, xml::reader::Error>>) -> Seq<Result<EventView, xml::reader::Error>> {
    items.map_values(|item: Result<ParseEvent, xml::reader::Error>| item_view(item))
}

/// The model of an item of a stream as `xml_events` gives it: the event's
/// model, or nothing for an error.
pub open spec fn item_model(item: Result<EventView, xml::reader::Error>) -> Option<EventView> {
    match item {
        Ok(event) => Some(event),
        Err(_) => None,
    }
}

/// The models of the items of a stream, as `xml_events` gives them.
pub open spec fn items_model(items: Seq<Result<EventView, xml::reader::Error>>) -> Seq<Option<EventView>> {
    items.map_values(|item: Result<EventView, xml::reader::Error>| item_model(item))
}

/// The model of a parse result.
pub open spec fn result_view(r: Result<Vec<Node>, ParseError>) -> Result<Seq<NodeView>, ParseError> {
    match r {
        Ok(nodes) => Ok(nodes_view(nodes@)),
        Err(e) => Err(e),
    }
}

/// An element whose start has been read but not yet its end.
struct OpenElement {
    attributes: Vec<Attribute>,
    namespace: Vec<(String, String)>,
    children: Vec<Node>,
}

impl View for OpenElement {
    type V = OpenElementView;

    closed spec fn view(&self) -> OpenElementView {
        OpenElementView {
            attributes: attributes_view(self.attributes@),
            namespace: mappings_view(self.namespace@),
            children: nodes_view(self.children@),
        }
    }
}

spec fn open_view(open: Seq<OpenElement>) -> Seq<OpenElementView> {
    open.map_values(|o: OpenElement| o@)
}

spec fn running(top: Seq<Node>, open: Seq<OpenElement>) -> BuildState {
    BuildState::Running { top: nodes_view(top), open: open_view(open) }
}

/// A finished or failed state stays as it is whatever follows.
proof fn lemma_run_settled(items: Seq<Result<EventView, xml::reader::Error>>, k: int)
    requires
        0 <= k <= items.len(),
        !(run(items.take(k)) is Running),
    ensures
        run(items) == run(items.take(k)),
    decreases items.len() - k,
{
    if k < items.len() {
        assert(items.take(k + 1).drop_last() =~= items.take(k));
        assert(run(items.take(k + 1)) == step(run(items.take(k)), items.take(k + 1).last()));
        lemma_run_settled(items, k + 1);
    } else {
        assert(items.take(k) =~= items);
    }
}

/// Converts one item of the reader's stream into the library's terms.
pub(crate) fn convert_item(item: Result<xml::reader::XmlEvent, xml::reader::Error>) -> (r: Result<ParseEvent, xml::reader::Error>)
    ensures
        item is Ok <==> r is Ok,
        item matches Err(e) ==> r == Err::<ParseEvent, xml::reader::Error>(e),
{
    match item {
        Ok(event) => Ok(convert_event(xml_event_parts(event))),
        Err(e) => Err(e),
    }
}

/// `e` is the reader's event `raw` in the library's terms: the same kind of
/// event, with the same texts; an element end with the same name (local name,
/// namespace URI and prefix); an element start with as many attributes.
spec fn raw_event_converted(raw: RawEvent, e: ParseEvent) -> bool {
    match raw {
        RawEvent::StartDocument => e is StartDocument,
        RawEvent::EndDocument => e is EndDocument,
        RawEvent::ProcessingInstruction { name, data } => e matches ParseEvent::ProcessingInstruction {
            name: n,
            data: d,
        } && n == name && d == data,
        RawEvent::StartElement { attributes, .. } => e matches ParseEvent::StartElement {
            attributes: a,
            ..
        } && a@.len() == attributes@.len(),
        RawEvent::EndElement { local_name, namespace, prefix } => e matches ParseEvent::EndElement {
            name: n,
        } && n.local_name == local_name && n.namespace == namespace && n.prefix == prefix,
        RawEvent::CData(text) => e matches ParseEvent::CData(t) && t == text,
        RawEvent::Comment(text) => e matches ParseEvent::Comment(t) && t == text,
        RawEvent::Characters(text) => e matches ParseEvent::Characters(t) && t == text,
        RawEvent::Whitespace(text) => e matches ParseEvent::Whitespace(t) && t == text,
        RawEvent::Doctype { syntax } => e matches ParseEvent::Doctype { syntax: t } && t == syntax,
    }
}

/// Converts an event of the reader, its variant told apart, into the
/// library's terms (see `raw_event_converted`).
fn convert_event(event: RawEvent) -> (r: ParseEvent)
    ensures
        raw_event_converted(event, r),
{
    match event {
        RawEvent::StartDocument => ParseEvent::StartDocument,
        RawEvent::EndDocument => ParseEvent::EndDocument,
        RawEvent::ProcessingInstruction { name, data } => ParseEvent::ProcessingInstruction { name, data },
        RawEvent::StartElement { name, attributes, namespace } => {
            let ghost source = attributes@;
            let mut converted: Vec<Attribute> = Vec::new();
            for attribute in it: attributes.into_iter()
                invariant
                    it.seq() == source,
                    converted@.len() == it.index(),
            {
                converted.push(xml_attribute(attribute));
            }
            ParseEvent::StartElement {
                name: xml_name(name),
                attributes: converted,
                namespace: xml_namespace(namespace),
            }
        },
        RawEvent::EndElement { local_name, namespace, prefix } => ParseEvent::EndElement {
            name: QualifiedName { local_name, namespace, prefix },
        },
        RawEvent::CData(text) => ParseEvent::CData(text),
        RawEvent::Comment(text) => ParseEvent::Comment(text),
        RawEvent::Characters(text) => ParseEvent::Characters(text),
        RawEvent::Whitespace(text) => ParseEvent::Whitespace(text),
        RawEvent::Doctype { syntax } => ParseEvent::Doctype { syntax },
    }
}

/// Parses the stream of events that the `xml` reader produces into the node tree.
pub struct Parser {
    events: Vec<Result<ParseEvent, xml::reader::Error>>,
}

impl Parser {
    /// The items of the stream not yet consumed, in order.
    pub closed spec fn pending(&self) -> Seq<Result<EventView, xml::reader::Error>> {
        items_view(self.events@)
    }

    /// Reads `source` with the `xml` reader, keeping comments and reporting
    /// whitespace as characters; fails when the first item read is an error.
    /// Otherwise every item that the reader produced is pending: the stream
    /// is never empty, and only its last item can be an error.
    pub fn new(source: &[u8]) -> (r: Result<Parser, ParseError>)
        ensures
            r is Err <==> xml_events(source@, false, true, false)[0] is None,
            match r {
                Ok(parser) => {
                    &&& items_model(parser.pending()) == xml_events(source@, false, true, false)
                    &&& parser.pending().len() > 0
                    &&& parser.pending()[0] is Ok
                    &&& forall|i: int|
                        0 <= i < parser.pending().len() - 1 ==> #[trigger] parser.pending()[i] is Ok
                },
                Err(e) => e is Xml,
            },
    {
        let mut events = xml_read_events(source, false, true, false);
        proof {
            assert(items_model(items_view(events@))[0] == item_model(item_view(events@[0])));
        }
        if matches!(events[0], Err(_)) {
            let first = events.remove(0);
            if let Err(e) = first {
                return Err(ParseError::Xml(e));
            }
        }
        Ok(Parser { events })
    }

    /// A parser over the given stream of events, as a reader reports them.
    pub fn from_events(events: Vec<Result<ParseEvent, xml::reader::Error>>) -> (r: Parser)
        ensures
            r.pending() == items_view(events@),
    {
        Parser { events }
    }

    /// Builds the top-level nodes from all pending events (see `document`),
    /// consuming them.
    pub fn parse_document(&mut self) -> (r: Result<Vec<Node>, ParseError>)
        ensures
            result_view(r) == document(old(self).pending()),
            final(self).pending().len() == 0,
    {
        let mut events: Vec<Result<ParseEvent, xml::reader::Error>> = Vec::new();
        std::mem::swap(&mut events, &mut self.events);
        let ghost items = items_view(events@);
        let ghost raw = events@;
        let mut nodes: Vec<Node> = Vec::new();
        let mut open: Vec<OpenElement> = Vec::new();
        for item in it: events.into_iter()
            invariant
                it.seq() == raw,
                items == items_view(raw),
                items == old(self).pending(),
                self.events@.len() == 0,
                run(items.take(it.index() as int)) == running(nodes@, open@),
        {
            let ghost i = it.index() as int;
            proof {
                assert(items.take(i + 1).drop_last() =~= items.take(i));
                assert(items.take(i + 1).last() == item_view(item));
            }
            match item {
                Err(e) => {
                    proof {
                        assert(run(items.take(i + 1)) == step(running(nodes@, open@), items[i]));
                        assert(run(items.take(i + 1)) == BuildState::Failed { error: ParseError::Xml(e) });
                        lemma_run_settled(items, i + 1);
                        assert(document(items) == Err::<Seq<NodeView>, ParseError>(ParseError::Xml(e)));
                    }
                    return Err(ParseError::Xml(e));
                },
                Ok(event) => {
                    match Self::parse_node(&mut nodes, &mut open, event) {
                        Err(e) => {
                            proof {
                                lemma_run_settled(items, i + 1);
                            }
                            return Err(e);
                        },
                        Ok(true) => {
                            proof {
                                lemma_run_settled(items, i + 1);
                            }
                            return Ok(nodes);
                        },
                        Ok(false) => {},
                    }
                },
            }
        }
        proof {
            assert(items.take(items.len() as int) =~= items);
        }
        if open.len() == 0 {
            Ok(nodes)
        } else {
            Err(ParseError::UnexpectedEnd)
        }
    }

    /// Applies one event: `Ok(true)` when it finished the document,
    /// `Ok(false)` when building goes on (see `step`).
    fn parse_node(top: &mut Vec<Node>, open: &mut Vec<OpenElement>, event: ParseEvent) -> (r: Result<bool, ParseError>)
        ensures
            match step(running(old(top)@, old(open)@), Ok(event@)) {
                BuildState::Running { .. } => r == Ok::<bool, ParseError>(false)
                    && step(running(old(top)@, old(open)@), Ok(event@)) == running(final(top)@, final(open)@),
                BuildState::Finished { nodes } => r == Ok::<bool, ParseError>(true) && nodes_view(final(top)@) == nodes,
                BuildState::Failed { error } => r == Err::<bool, ParseError>(error),
            },
    {
        let ghost ev = event@;
        match event {
            ParseEvent::EndDocument => {
                if open.len() == 0 {
                    Ok(true)
                } else {
                    Err(ParseError::UnexpectedEnd)
                }
            },
            ParseEvent::StartDocument | ParseEvent::Doctype { .. } => {
                if open.len() == 0 {
                    Ok(false)
                } else {
                    Err(ParseError::UnexpectedEvent)
                }
            },
            ParseEvent::Whitespace(_) => Err(ParseError::UnexpectedEvent),
            ParseEvent::EndElement { name } => {
                if open.len() == 0 {
                    Ok(false)
                } else {
                    let node = Self::assemble_regular_node(name, open);
                    Self::add_node(top, open, node);
                    Ok(false)
                }
            },
            ParseEvent::StartElement { attributes, namespace, .. } => {
                Self::parse_regular_node(open, attributes, namespace);
                Ok(false)
            },
            ParseEvent::ProcessingInstruction { name, data } => {
                let node = Node::ChildlessNode { node_type: ChildlessNodeType::ProcessingInstruction(name, data) };
                Self::add_node(top, open, node);
                Ok(false)
            },
            ParseEvent::CData(text) => {
                let node = Node::ChildlessNode { node_type: ChildlessNodeType::Text(text, true) };
                Self::add_node(top, open, node);
                Ok(false)
            },
            ParseEvent::Comment(text) => {
                let node = Node::ChildlessNode { node_type: ChildlessNodeType::Comment(text) };
                Self::add_node(top, open, node);
                Ok(false)
            },
            ParseEvent::Characters(text) => {
                let node = Node::ChildlessNode { node_type: ChildlessNodeType::Text(text, false) };
                Self::add_node(top, open, node);
                Ok(false)
            },
        }
    }

    /// Opens an element with the attributes and namespace mappings of its start tag.
    fn parse_regular_node(open: &mut Vec<OpenElement>, attributes: Vec<Attribute>, element_namespace: Vec<(String, String)>)
        ensures
            open_view(final(open)@) == open_view(old(open)@).push(
                OpenElementView {
                    attributes: attributes_view(attributes@),
                    namespace: mappings_view(element_namespace@),
                    children: Seq::empty(),
                },
            ),
    {
        let children: Vec<Node> = Vec::new();
        open.push(OpenElement { attributes, namespace: element_namespace, children });
        proof {
            assert(nodes_view(children@) =~= Seq::<NodeView>::empty());
            assert(open_view(open@) =~= open_view(old(open)@).push(
                OpenElementView {
                    attributes: attributes_view(attributes@),
                    namespace: mappings_view(element_namespace@),
                    children: Seq::empty(),
                },
            ));
        }
    }

    /// Closes the innermost open element with the end tag named `name`.
    fn assemble_regular_node(name: QualifiedName, open: &mut Vec<OpenElement>) -> (r: Node)
        requires
            old(open)@.len() > 0,
        ensures
            open_view(final(open)@) == open_view(old(open)@).drop_last(),
            r.view() == closed_element(name@, open_view(old(open)@).last()),
    {
        let ghost before = open_view(open@);
        match open.pop() {
            Some(element) => {
                let r = Node::RegularNode {
                    node_type: RegularNodeType::from_name(name.local_name),
                    namespace: NodeNamespace {
                        parent_namespace: name.namespace,
                        prefix: name.prefix,
                        element_namespace: element.namespace,
                    },
                    attributes: element.attributes,
                    children: element.children,
                };
                proof {
                    lemma_children_view(r);
                    assert(open_view(open@) =~= before.drop_last());
                    assert(before.last() == element@);
                    assert(r.view() =~= closed_element(name@, before.last()));
                }
                r
            },
            None => {
                assert(false);
                Node::ChildlessNode { node_type: ChildlessNodeType::Comment(String::new()) }
            },
        }
    }

    /// Adds a finished node to the innermost open element, or to the top level.
    fn add_node(top: &mut Vec<Node>, open: &mut Vec<OpenElement>, node: Node)
        ensures
            running(final(top)@, final(open)@) == add_node(nodes_view(old(top)@), open_view(old(open)@), node.view()),
    {
        let ghost before = open_view(open@);
        match open.pop() {
            None => {
                top.push(node);
                proof {
                    assert(nodes_view(top@) =~= nodes_view(old(top)@).push(node.view()));
                    assert(open_view(open@) =~= before);
                }
            },
            Some(element) => {
                let mut element = element;
                let ghost old_element = element@;
                element.children.push(node);
                open.push(element);
                proof {
                    assert(before.last() == old_element);
                    assert(nodes_view(element.children@) =~= old_element.children.push(node.view()));
                    assert(open_view(open@) =~= before.update(
                        before.len() - 1,
                        OpenElementView {
                            attributes: old_element.attributes,
                            namespace: old_element.namespace,
                            children: old_element.children.push(node.view()),
                        },
                    ));
                }
            },
        }
    }
}

/// The event that stands for a childless node.
pub open spec fn childless_event(content: ChildlessView) -> EventView {
    match content {
        ChildlessView::ProcessingInstruction(name, data) => EventView::ProcessingInstruction { name, data },
        ChildlessView::Text(text, cdata) => if cdata {
            EventView::CData(text)
        } else {
            EventView::Characters(text)
        },
        ChildlessView::Comment(text) => EventView::Comment(text),
    }
}

/// The name of the start and end tags of an element node.
pub open spec fn tag_name(kind: crate::node::NodeKind, namespace: crate::node::NamespaceView) -> NameView {
    NameView { local_name: crate::node::name_of_kind(kind), namespace: namespace.parent_namespace, prefix: namespace.prefix }
}

/// The events that a reader reports for the node `n`.
pub open spec fn node_events(n: NodeView) -> Seq<Result<EventView, xml::reader::Error>>
    decreases n,
{
    match n {
        NodeView::Regular { kind, namespace, attributes, children } => seq![
            Ok(EventView::StartElement { name: tag_name(kind, namespace), attributes, namespace: namespace.element_namespace }),
        ] + nodes_events(children) + seq![Ok(EventView::EndElement { name: tag_name(kind, namespace) })],
        NodeView::Childless { content } => seq![Ok(childless_event(content))],
    }
}

/// The events that a reader reports for the nodes `nodes`, in order.
pub open spec fn nodes_events(nodes: Seq<NodeView>) -> Seq<Result<EventView, xml::reader::Error>>
    decreases nodes,
{
    if nodes.len() == 0 {
        Seq::empty()
    } else {
        nodes_events(nodes.drop_last()) + node_events(nodes.last())
    }
}

/// Whether every element in `n` has a kind that its own name gives back
/// (`Other` never holds the name of a known kind).
pub open spec fn node_well_named(n: NodeView) -> bool
    decreases n,
{
    match n {
        NodeView::Regular { kind, children, .. } => kind_of_name(crate::node::name_of_kind(kind)) == kind
            && nodes_well_named(children),
        NodeView::Childless { .. } => true,
    }
}

/// Whether every node in `nodes` is well named.
pub open spec fn nodes_well_named(nodes: Seq<NodeView>) -> bool
    decreases nodes,
{
    nodes.len() > 0 ==> nodes_well_named(nodes.drop_last()) && node_well_named(nodes.last())
}

/// The state after reading `items` from `state`.
pub open spec fn run_from(state: BuildState, items: Seq<Result<EventView, xml::reader::Error>>) -> BuildState
    decreases items.len(),
{
    if items.len() == 0 {
        state
    } else {
        step(run_from(state, items.drop_last()), items.last())
    }
}

proof fn lemma_run_is_run_from(items: Seq<Result<EventView, xml::reader::Error>>)
    ensures
        run(items) == run_from(BuildState::Running { top: Seq::empty(), open: Seq::empty() }, items),
    decreases items.len(),
{
    if items.len() > 0 {
        lemma_run_is_run_from(items.drop_last());
    }
}

proof fn lemma_run_from_append(
    state: BuildState,
    a: Seq<Result<EventView, xml::reader::Error>>,
    b: Seq<Result<EventView, xml::reader::Error>>,
)
    ensures
        run_from(state, a + b) == run_from(run_from(state, a), b),
    decreases b.len(),
{
    if b.len() == 0 {
        assert(a + b =~= a);
    } else {
        lemma_run_from_append(state, a, b.drop_last());
        assert((a + b).drop_last() =~= a + b.drop_last());
        assert((a + b).last() == b.last());
    }
}

/// The state after adding all of `nodes`, in order, to the innermost open
/// element, or to the top level.
pub open spec fn add_nodes(top: Seq<NodeView>, open: Seq<OpenElementView>, nodes: Seq<NodeView>) -> BuildState {
    if open.len() == 0 {
        BuildState::Running { top: top + nodes, open }
    } else {
        let o = open.last();
        BuildState::Running {
            top,
            open: open.update(
                open.len() - 1,
                OpenElementView { attributes: o.attributes, namespace: o.namespace, children: o.children + nodes },
            ),
        }
    }
}

proof fn lemma_node_events(top: Seq<NodeView>, open: Seq<OpenElementView>, n: NodeView)
    requires
        node_well_named(n),
    ensures
        run_from(BuildState::Running { top, open }, node_events(n)) == add_node(top, open, n),
    decreases n,
{
    let start = BuildState::Running { top, open };
    match n {
        NodeView::Regular { kind, namespace, attributes, children } => {
            let name = tag_name(kind, namespace);
            let s = seq![Ok(EventView::StartElement { name, attributes, namespace: namespace.element_namespace })];
            let e = seq![Ok(EventView::EndElement { name })];
            assert(node_events(n) =~= s + nodes_events(children) + e);
            lemma_run_from_append(start, s + nodes_events(children), e);
            lemma_run_from_append(start, s, nodes_events(children));
            assert(s.drop_last() =~= Seq::<Result<EventView, xml::reader::Error>>::empty());
            let elem = OpenElementView { attributes, namespace: namespace.element_namespace, children: Seq::empty() };
            let opened = open.push(elem);
            assert(run_from(start, s.drop_last()) == start);
            assert(s.last() == Ok::<EventView, xml::reader::Error>(EventView::StartElement { name, attributes, namespace: namespace.element_namespace }));
            assert(run_from(start, s) == BuildState::Running { top, open: opened });
            lemma_nodes_events(top, opened, children);
            let full = OpenElementView { attributes, namespace: namespace.element_namespace, children: Seq::empty() + children };
            assert(Seq::<NodeView>::empty() + children =~= children);
            assert(opened.update(opened.len() - 1, full) =~= open.push(full));
            assert(run_from(BuildState::Running { top, open: opened }, nodes_events(children)) == BuildState::Running { top, open: open.push(full) });
            assert(run_from(start, s + nodes_events(children)) == BuildState::Running { top, open: open.push(full) });
            assert(e.drop_last() =~= Seq::<Result<EventView, xml::reader::Error>>::empty());
            let mid = BuildState::Running { top, open: open.push(full) };
            assert(run_from(mid, e.drop_last()) == mid);
            assert(e.last() == Ok::<EventView, xml::reader::Error>(EventView::EndElement { name }));
            assert(open.push(full).drop_last() =~= open);
            assert(run_from(mid, e) == add_node(top, open, closed_element(name, full)));
            assert(kind_of_name(crate::node::name_of_kind(kind)) == kind);
            assert(closed_element(name, full) =~= n);
            assert(run_from(start, s + nodes_events(children) + e) == run_from(mid, e));
            assert(run_from(start, node_events(n)) == run_from(mid, e));
            assert(closed_element(name, full) == n);
            assert(add_node(top, open, closed_element(name, full)) == add_node(top, open, n));
        },
        NodeView::Childless { content } => {
            let evs = seq![Ok(childless_event(content))];
            assert(node_events(n) == evs);
            assert(evs.drop_last() =~= Seq::<Result<EventView, xml::reader::Error>>::empty());
            assert(run_from(start, evs.drop_last()) == start);
            assert(evs.last() == Ok::<EventView, xml::reader::Error>(childless_event(content)));
            assert(step(start, Ok(childless_event(content))) == add_node(top, open, n));
        },
    }
}

proof fn lemma_nodes_events(top: Seq<NodeView>, open: Seq<OpenElementView>, nodes: Seq<NodeView>)
    requires
        nodes_well_named(nodes),
    ensures
        run_from(BuildState::Running { top, open }, nodes_events(nodes)) == add_nodes(top, open, nodes),
    decreases nodes,
{
    if nodes.len() == 0 {
        assert(top + nodes =~= top);
        if open.len() > 0 {
            let o = open.last();
            assert(o.children + nodes =~= o.children);
            assert(open.update(open.len() - 1, OpenElementView { attributes: o.attributes, namespace: o.namespace, children: o.children + nodes }) =~= open);
        }
    } else {
        let init = nodes.drop_last();
        lemma_nodes_events(top, open, init);
        lemma_run_from_append(BuildState::Running { top, open }, nodes_events(init), node_events(nodes.last()));
        let mid = add_nodes(top, open, init);
        match mid {
            BuildState::Running { top: t2, open: o2 } => {
                lemma_node_events(t2, o2, nodes.last());
                if open.len() == 0 {
                    assert(top + init + seq![nodes.last()] =~= top + nodes);
                } else {
                    let o = open.last();
                    assert((o.children + init).push(nodes.last()) =~= o.children + nodes);
                    assert(o2.len() == open.len());
                    let x = OpenElementView { attributes: o.attributes, namespace: o.namespace, children: (o.children + init).push(nodes.last()) };
                    let y = OpenElementView { attributes: o.attributes, namespace: o.namespace, children: o.children + nodes };
                    assert(x == y);
                    assert(o2.update(o2.len() - 1, x) =~= open.update(open.len() - 1, y));
                }
            },
            _ => {},
        }
    }
}

/// Reading back the events of a document gives the document: for top-level
/// nodes whose element kinds their names give back, the stream of a document
/// start, the events of the nodes in order and the end of the document builds
/// exactly those nodes.
pub proof fn lemma_document_of_events(nodes: Seq<NodeView>)
    requires
        nodes_well_named(nodes),
    ensures
        document(seq![Ok(EventView::StartDocument)] + nodes_events(nodes) + seq![Ok(EventView::EndDocument)])
            == Ok::<Seq<NodeView>, ParseError>(nodes),
{
    let init = BuildState::Running { top: Seq::empty(), open: Seq::empty() };
    let s = seq![Ok(EventView::StartDocument)];
    let e = seq![Ok(EventView::EndDocument)];
    let items = s + nodes_events(nodes) + e;
    lemma_run_is_run_from(items);
    lemma_run_from_append(init, s + nodes_events(nodes), e);
    lemma_run_from_append(init, s, nodes_events(nodes));
    assert(s.drop_last() =~= Seq::<Result<EventView, xml::reader::Error>>::empty());
    assert(run_from(init, s.drop_last()) == init);
    assert(s.last() == Ok::<EventView, xml::reader::Error>(EventView::StartDocument));
    assert(run_from(init, s) == init);
    lemma_nodes_events(Seq::empty(), Seq::empty(), nodes);
    assert(Seq::<NodeView>::empty() + nodes =~= nodes);
    let mid = BuildState::Running { top: nodes, open: Seq::empty() };
    assert(run_from(init, s + nodes_events(nodes)) == mid);
    assert(e.drop_last() =~= Seq::<Result<EventView, xml::reader::Error>>::empty());
    assert(run_from(mid, e.drop_last()) == mid);
    assert(e.last() == Ok::<EventView, xml::reader::Error>(EventView::EndDocument));
    assert(run_from(mid, e) == BuildState::Finished { nodes });
    assert(run(items) == BuildState::Finished { nodes });
}

} // verus!

//! The boundary to the `xml` crate: its reader turns bytes into a stream of
//! events, which is converted here, field by field, into the library's own
//! event type.
use vstd::prelude::*;
use crate::node::{Attribute, QualifiedName};
use crate::parser::{EventView, ParseEvent, convert_item, items_model, items_view};
use xml::reader::XmlEvent as X;

verus! {

#[verifier::external_type_specification]
#[verifier::external_body]
pub struct ExXmlEvent(xml::reader::XmlEvent);

#[verifier::external_type_specification]
#[verifier::external_body]
pub struct ExXmlError(xml::reader::Error);

#[verifier::external_type_specification]
#[verifier::external_body]
pub struct ExOwnedName(xml::name::OwnedName);

#[verifier::external_type_specification]
#[verifier::external_body]
pub struct ExOwnedAttribute(xml::attribute::OwnedAttribute);

#[verifier::external_type_specification]
#[verifier::external_body]
pub struct ExNamespace(xml::namespace::Namespace);

/// An event of the `xml` reader with its variant exposed; the fields keep the
/// crate's types, except that the name of an end tag is given by its three
/// public fields (local name, namespace URI, prefix).
#[allow(inconsistent_fields)]
pub enum RawEvent {
    StartDocument,
    EndDocument,
    ProcessingInstruction { name: String, data: Option<String> },
    StartElement {
        name: xml::name::OwnedName,
        attributes: Vec<xml::attribute::OwnedAttribute>,
        namespace: xml::namespace::Namespace,
    },
    EndElement { local_name: String, namespace: Option<String>, prefix: Option<String> },
    CData(String),
    Comment(String),
    Characters(String),
    Whitespace(String),
    Doctype { syntax: String },
}

/// The items that the `xml` reader reads from the bytes `source`, with the
/// given settings for `ignore_comments`, `whitespace_to_characters` and
/// `ignore_root_level_whitespace`, in the library's terms: the model of each
/// event, or nothing for an error. Each event keeps its variant and its
/// fields as the reader gives them: texts, the local name, namespace and
/// prefix of a name, the attributes in order with their names and values,
/// and the prefix-to-URI mappings of an element in key order; the version,
/// encoding and standalone flag of a document start are dropped.
pub uninterp spec fn xml_events(
    source: Seq<u8>,
    ignore_comments: bool,
    whitespace_to_characters: bool,
    ignore_root_level_whitespace: bool,
) -> Seq<Option<EventView>>;

/// Calls `ParserConfig::new`, its setters `ignore_comments`,
/// `whitespace_to_characters` and `ignore_root_level_whitespace` with the
/// given flags, `ParserConfig::create_reader`, and collects the reader's
/// `Events` iterator, each item converted by the verified `convert_item`:
/// every event read, up to and including the first error or the end of the
/// document. Claimed of the crate: the items are a function of the bytes and
/// the flags (`xml_events`); the iterator reads at least one item and stops
/// right after an error, so only the last item can be an error. Which error
/// the reader reports is left unsaid.
#[verifier::external_body]
pub(crate) fn xml_read_events(
    source: &[u8],
    ignore_comments: bool,
    whitespace_to_characters: bool,
    ignore_root_level_whitespace: bool,
) -> (r: Vec<Result<ParseEvent, xml::reader::Error>>)
    ensures
        items_model(items_view(r@)) == xml_events(
            source@,
            ignore_comments,
            whitespace_to_characters,
            ignore_root_level_whitespace,
        ),
        r@.len() > 0,
        forall|i: int| 0 <= i < r@.len() - 1 ==> #[trigger] r@[i] is Ok,
{
    xml::ParserConfig::new().ignore_comments(ignore_comments).whitespace_to_characters(
        whitespace_to_characters,
    ).ignore_root_level_whitespace(ignore_root_level_whitespace).create_reader(
        source,
    ).into_iter().map(convert_item).collect()
}

/// Tells the variants of `xml::reader::XmlEvent` apart, moving their fields
/// (the name of an end tag field by field); the version, encoding and
/// standalone flag of `StartDocument` are dropped.
/// Nothing is claimed of the fields.
#[verifier::external_body]
pub(crate) fn xml_event_parts(event: xml::reader::XmlEvent) -> RawEvent {
    match event {
        X::StartDocument { .. } => RawEvent::StartDocument,
        X::EndDocument => RawEvent::EndDocument,
        X::ProcessingInstruction { name, data } => RawEvent::ProcessingInstruction { name, data },
        X::StartElement { name, attributes, namespace } => RawEvent::StartElement { name, attributes, namespace },
        X::EndElement { name } => RawEvent::EndElement { local_name: name.local_name, namespace: name.namespace, prefix: name.prefix },
        X::CData(text) => RawEvent::CData(text),
        X::Comment(text) => RawEvent::Comment(text),
        X::Characters(text) => RawEvent::Characters(text),
        X::Whitespace(text) => RawEvent::Whitespace(text),
        X::Doctype { syntax } => RawEvent::Doctype { syntax },
    }
}

/// Moves the three public fields of `xml::name::OwnedName` (local name,
/// namespace, prefix) into a `QualifiedName`. Nothing is claimed of them.
#[verifier::external_body]
pub(crate) fn xml_name(name: xml::name::OwnedName) -> QualifiedName {
    QualifiedName { local_name: name.local_name, namespace: name.namespace, prefix: name.prefix }
}

/// Moves the public fields of `xml::attribute::OwnedAttribute` (its name's
/// three parts and its value) into an `Attribute`. Nothing is claimed of them.
#[verifier::external_body]
pub(crate) fn xml_attribute(attribute: xml::attribute::OwnedAttribute) -> Attribute {
    let name = attribute.name;
    Attribute {
        name: QualifiedName { local_name: name.local_name, namespace: name.namespace, prefix: name.prefix },
        value: attribute.value,
    }
}

/// Moves the prefix-to-URI mappings out of `xml::namespace::Namespace` (the
/// `BTreeMap` in its public field), in key order. Nothing is claimed of them.
#[verifier::external_body]
pub(crate) fn xml_namespace(namespace: xml::namespace::Namespace) -> Vec<(String, String)> {
    namespace.0.into_iter().collect()
}

} // verus!

//! XML events, and the page that a sequence of them gives.

use crate::error::ExportError;
use crate::stats::Rate;
use crate::writer::{
    attribute_bytes, breaks_line, bytes_of, element_bytes, indent_unit, indentation, into_bytes,
    line_lead, new_element, new_writer, push_attribute, shrunk, write_decl, write_doctype,
    write_empty, write_end, write_raw, write_start, written, XmlWriter,
};
use quick_xml::events::BytesStart;
use vstd::prelude::*;

verus! {

/// The byte that the report is indented with: a space.
pub const INDENT_CHAR: u8 = 0x20;

/// How many bytes each level of the report is indented by.
pub const INDENT_SIZE: usize = 4;

/// The value of an attribute: a text, or a rate that has no text yet.
#[derive(Debug, Clone, PartialEq, Eq)]
pub enum AttrValue {
    Text(String),
    Rate(Rate),
}

pub enum AttrValueView {
    Text(Seq<char>),
    Rate(Rate),
}

impl View for AttrValue {
    type V = AttrValueView;

    open spec fn view(&self) -> AttrValueView {
        match *self {
            AttrValue::Text(text) => AttrValueView::Text(text@),
            AttrValue::Rate(rate) => AttrValueView::Rate(rate),
        }
    }
}

/// An attribute of an element.
#[derive(Debug, Clone, PartialEq, Eq)]
pub struct Attribute {
    pub key: String,
    pub value: AttrValue,
}

pub struct AttributeView {
    pub key: Seq<char>,
    pub value: AttrValueView,
}

impl View for Attribute {
    type V = AttributeView;

    open spec fn view(&self) -> AttributeView {
        AttributeView { key: self.key@, value: self.value@ }
    }
}

pub open spec fn attribute_views(attributes: Seq<Attribute>) -> Seq<AttributeView> {
    attributes.map_values(|a: Attribute| a@)
}

/// One step of writing a document.
#[derive(Debug, Clone, PartialEq, Eq)]
pub enum XmlEvent {
    /// The XML declaration, with the version only.
    Decl { version: String },
    /// The document type, with the text that follows the keyword.
    DocType { text: String },
    /// A start tag.
    Start { name: String, attributes: Vec<Attribute> },
    /// An end tag.
    End { name: String },
    /// A tag of an element without content.
    Empty { name: String, attributes: Vec<Attribute> },
    /// A text that is written as it is, without a line break before it.
    Raw { text: String },
}

pub enum XmlEventView {
    Decl { version: Seq<char> },
    DocType { text: Seq<char> },
    Start { name: Seq<char>, attributes: Seq<AttributeView> },
    End { name: Seq<char> },
    Empty { name: Seq<char>, attributes: Seq<AttributeView> },
    Raw { text: Seq<char> },
}

impl View for XmlEvent {
    type V = XmlEventView;

    open spec fn view(&self) -> XmlEventView {
        match *self {
            XmlEvent::Decl { version } => XmlEventView::Decl { version: version@ },
            XmlEvent::DocType { text } => XmlEventView::DocType { text: text@ },
            XmlEvent::Start { name, attributes } => XmlEventView::Start {
                name: name@,
                attributes: attribute_views(attributes@),
            },
            XmlEvent::End { name } => XmlEventView::End { name: name@ },
            XmlEvent::Empty { name, attributes } => XmlEventView::Empty {
                name: name@,
                attributes: attribute_views(attributes@),
            },
            XmlEvent::Raw { text } => XmlEventView::Raw { text: text@ },
        }
    }
}

pub open spec fn event_views(events: Seq<XmlEvent>) -> Seq<XmlEventView> {
    events.map_values(|e: XmlEvent| e@)
}

impl AttrValueView {
    /// The text of the value; a rate has none.
    pub open spec fn text(self) -> Seq<char> {
        match self {
            AttrValueView::Text(text) => text,
            AttrValueView::Rate(_) => Seq::empty(),
        }
    }
}

/// Whether each of the attributes has a text for its value.
pub open spec fn attributes_have_text(attributes: Seq<AttributeView>) -> bool {
    forall|i: int| 0 <= i < attributes.len() ==> (#[trigger] attributes[i]).value is Text
}

impl XmlEventView {
    /// The attributes of the event; none for an event that is no tag.
    pub open spec fn attributes(self) -> Seq<AttributeView> {
        match self {
            XmlEventView::Start { attributes, .. } => attributes,
            XmlEventView::Empty { attributes, .. } => attributes,
            _ => Seq::empty(),
        }
    }
}

/// Whether every attribute of every event has a text for its value.
pub open spec fn all_text(events: Seq<XmlEventView>) -> bool {
    forall|i: int| 0 <= i < events.len() ==> attributes_have_text((#[trigger] events[i]).attributes())
}

/// The attributes as they stand in a tag, one after the other.
pub open spec fn attributes_bytes(attributes: Seq<AttributeView>) -> Seq<u8>
    decreases attributes.len(),
{
    if attributes.len() == 0 {
        Seq::empty()
    } else {
        attributes_bytes(attributes.drop_last()) + attribute_bytes(
            attributes.last().key,
            attributes.last().value.text(),
        )
    }
}

/// What stands between the brackets of a tag: the name and the attributes.
pub open spec fn element_content(name: Seq<char>, attributes: Seq<AttributeView>) -> Seq<u8> {
    bytes_of(name) + attributes_bytes(attributes)
}

/// A document under way: what is written, the indentation at the present
/// depth, and whether the next tag starts a new line.
pub struct Page {
    pub bytes: Seq<u8>,
    pub indentation: Seq<u8>,
    pub breaks: bool,
}

/// The page before anything is written.
pub open spec fn blank_page() -> Page {
    Page { bytes: Seq::empty(), indentation: Seq::empty(), breaks: false }
}

/// The page after one more event, where each level is indented by `unit`.
pub open spec fn page_after(page: Page, unit: Seq<u8>, event: XmlEventView) -> Page {
    let lead = line_lead(page.breaks, page.indentation);
    match event {
        XmlEventView::Decl { version } => Page {
            bytes: page.bytes + lead + bytes_of("<?"@) + bytes_of("xml version=\""@) + bytes_of(
                version,
            ) + bytes_of("\""@) + bytes_of("?>"@),
            indentation: page.indentation,
            breaks: true,
        },
        XmlEventView::DocType { text } => Page {
            bytes: page.bytes + lead + bytes_of("<!DOCTYPE"@) + bytes_of(text) + bytes_of(">"@),
            indentation: page.indentation,
            breaks: true,
        },
        XmlEventView::Start { name, attributes } => Page {
            bytes: page.bytes + lead + bytes_of("<"@) + element_content(name, attributes)
                + bytes_of(">"@),
            indentation: page.indentation + unit,
            breaks: true,
        },
        XmlEventView::End { name } => Page {
            bytes: page.bytes + line_lead(page.breaks, shrunk(page.indentation, unit)) + bytes_of(
                "</"@,
            ) + bytes_of(name) + bytes_of(">"@),
            indentation: shrunk(page.indentation, unit),
            breaks: true,
        },
        XmlEventView::Empty { name, attributes } => Page {
            bytes: page.bytes + lead + bytes_of("<"@) + element_content(name, attributes)
                + bytes_of("/>"@),
            indentation: page.indentation,
            breaks: true,
        },
        XmlEventView::Raw { text } => Page {
            bytes: page.bytes + bytes_of(text),
            indentation: page.indentation,
            breaks: page.breaks,
        },
    }
}

/// The page after all the events, in their order.
pub open spec fn page_after_all(page: Page, unit: Seq<u8>, events: Seq<XmlEventView>) -> Page
    decreases events.len(),
{
    if events.len() == 0 {
        page
    } else {
        page_after(page_after_all(page, unit, events.drop_last()), unit, events.last())
    }
}

/// What one level of the report is indented by.
pub open spec fn indent() -> Seq<u8> {
    Seq::new(INDENT_SIZE as nat, |i: int| INDENT_CHAR)
}

/// The document that the events give.
pub open spec fn rendered(events: Seq<XmlEventView>) -> Seq<u8> {
    page_after_all(blank_page(), indent(), events).bytes
}

/// How long the indentation is after one more event.
pub open spec fn width_after_event(event: XmlEventView, width: nat) -> nat {
    match event {
        XmlEventView::Start { .. } => width + INDENT_SIZE as nat,
        XmlEventView::End { .. } => if width >= INDENT_SIZE {
            (width - INDENT_SIZE) as nat
        } else {
            0
        },
        _ => width,
    }
}

/// How long the indentation is after the events, where it was `width` long
/// before them.
pub open spec fn width_after(events: Seq<XmlEventView>, width: nat) -> nat
    decreases events.len(),
{
    if events.len() == 0 {
        width
    } else {
        width_after_event(events.last(), width_after(events.drop_last(), width))
    }
}

/// The indentation of the page after the events is as long as the widths
/// say.
pub proof fn lemma_page_width(page: Page, events: Seq<XmlEventView>)
    ensures
        page_after_all(page, indent(), events).indentation.len() == width_after(
            events,
            page.indentation.len(),
        ),
    decreases events.len(),
{
    if events.len() > 0 {
        lemma_page_width(page, events.drop_last());
    }
}

/// Whether what follows some start tag among the events lies deeper than an
/// indentation can be long.
pub open spec fn too_deep(events: Seq<XmlEventView>) -> bool {
    exists|k: int|
        0 <= k < events.len() && events[k] is Start && #[trigger] width_after(events.take(k), 0)
            + INDENT_SIZE > isize::MAX
}

/// What rendering the events returns: the document, or the reason why
/// there is none.
pub open spec fn render_outcome(events: Seq<XmlEventView>) -> Result<Seq<u8>, ExportError> {
    if !all_text(events) {
        Err(ExportError::UnformattedRate)
    } else if too_deep(events) {
        Err(ExportError::TooDeep)
    } else {
        Ok(rendered(events))
    }
}

/// The bytes of a rendering, where there are any.
pub open spec fn bytes_view(result: Result<Vec<u8>, ExportError>) -> Result<Seq<u8>, ExportError> {
    match result {
        Ok(bytes) => Ok(bytes@),
        Err(e) => Err(e),
    }
}

/// Whether each of the attributes has a text for its value.
pub fn have_text(attributes: &Vec<Attribute>) -> (all: bool)
    ensures
        all == attributes_have_text(attribute_views(attributes@)),
{
    let mut i: usize = 0;
    while i < attributes.len()
        invariant
            i <= attributes.len(),
            forall|k: int| 0 <= k < i ==> (#[trigger] attribute_views(attributes@)[k]).value is Text,
        decreases attributes.len() - i,
    {
        match &attributes[i].value {
            AttrValue::Text(_) => {},
            AttrValue::Rate(_) => {
                assert(attribute_views(attributes@)[i as int].value is Rate);
                return false;
            },
        }
        i = i + 1;
    }
    true
}

/// Whether every attribute of the event has a text for its value.
pub fn event_has_text(event: &XmlEvent) -> (all: bool)
    ensures
        all == attributes_have_text(event@.attributes()),
{
    match event {
        XmlEvent::Start { attributes, .. } => have_text(attributes),
        XmlEvent::Empty { attributes, .. } => have_text(attributes),
        _ => true,
    }
}

/// Looks for what keeps the events from being rendered.
pub fn check_events(events: &Vec<XmlEvent>) -> (checked: Result<(), ExportError>)
    ensures
        match checked {
            Ok(()) => render_outcome(event_views(events@)) is Ok,
            Err(e) => render_outcome(event_views(events@)) == Err::<Seq<u8>, ExportError>(e),
        },
{
    let ghost views = event_views(events@);
    let mut i: usize = 0;
    while i < events.len()
        invariant
            i <= events.len(),
            views == event_views(events@),
            forall|k: int| 0 <= k < i ==> attributes_have_text((#[trigger] views[k]).attributes()),
        decreases events.len() - i,
    {
        if !event_has_text(&events[i]) {
            assert(!attributes_have_text(views[i as int].attributes()));
            return Err(ExportError::UnformattedRate);
        }
        i = i + 1;
    }
    assert(all_text(views));

    let mut width: usize = 0;
    let mut j: usize = 0;
    while j < events.len()
        invariant
            j <= events.len(),
            views == event_views(events@),
            all_text(views),
            width == width_after(views.take(j as int), 0),
            forall|k: int|
                0 <= k < j && views[k] is Start ==> #[trigger] width_after(views.take(k), 0)
                    + INDENT_SIZE <= isize::MAX,
        decreases events.len() - j,
    {
        assert(views.take(j + 1).drop_last() =~= views.take(j as int));
        assert(views.take(j + 1).last() == events@[j as int]@);
        match &events[j] {
            XmlEvent::Start { .. } => {
                if width > isize::MAX as usize - INDENT_SIZE {
                    assert(too_deep(views));
                    return Err(ExportError::TooDeep);
                }
                width = width + INDENT_SIZE;
            },
            XmlEvent::End { .. } => {
                width = if width >= INDENT_SIZE {
                    width - INDENT_SIZE
                } else {
                    0
                };
            },
            _ => {},
        }
        j = j + 1;
    }
    assert(!too_deep(views));
    Ok(())
}

/// Builds the tag of an element from its name and attributes.
fn build_element(name: &String, attributes: &Vec<Attribute>) -> (element: BytesStart<'static>)
    requires
        attributes_have_text(attribute_views(attributes@)),
    ensures
        element_bytes(element) == element_content(name@, attribute_views(attributes@)),
{
    let ghost views = attribute_views(attributes@);
    let mut element = new_element(name.as_str());
    let mut i: usize = 0;
    assert(attributes_bytes(views.take(0)) =~= Seq::<u8>::empty());
    assert(bytes_of(name@) + Seq::<u8>::empty() =~= bytes_of(name@));
    while i < attributes.len()
        invariant
            i <= attributes.len(),
            views == attribute_views(attributes@),
            attributes_have_text(views),
            element_bytes(element) == element_content(name@, views.take(i as int)),
        decreases attributes.len() - i,
    {
        assert(views.take(i + 1).drop_last() =~= views.take(i as int));
        assert(views.take(i + 1).last() == attributes@[i as int]@);
        assert(views[i as int].value is Text);
        match &attributes[i].value {
            AttrValue::Text(text) => {
                push_attribute(&mut element, attributes[i].key.as_str(), text.as_str());
            },
            AttrValue::Rate(_) => {},
        }
        i = i + 1;
        assert(element_bytes(element) =~= element_content(name@, views.take(i as int)));
    }
    assert(views.take(i as int) =~= views);
    element
}

/// What a step of the writer comes to: nothing to report where it went
/// well, a failure of the writer where it did not.
pub fn step_outcome(outcome: Result<(), quick_xml::Error>) -> (done: Result<(), ExportError>)
    ensures
        done is Ok <==> outcome is Ok,
        done matches Err(e) ==> e == ExportError::Write,
{
    match outcome {
        Ok(()) => Ok(()),
        Err(_) => Err(ExportError::Write),
    }
}

/// The page that the writer holds.
pub closed spec fn page_of(writer: XmlWriter) -> Page {
    Page { bytes: written(writer), indentation: indentation(writer), breaks: breaks_line(writer) }
}

/// Hands one event to the writer.
fn write_event(writer: &mut XmlWriter, event: &XmlEvent) -> (result: Result<(), ExportError>)
    requires
        attributes_have_text(event@.attributes()),
        indent_unit(*old(writer)) == Some(indent()),
        event@ is Start ==> indentation(*old(writer)).len() + INDENT_SIZE <= isize::MAX,
    ensures
        result is Ok,
        indent_unit(*final(writer)) == Some(indent()),
        page_of(*final(writer)) == page_after(page_of(*old(writer)), indent(), event@),
{
    let outcome = match event {
        XmlEvent::Decl { version } => write_decl(writer, version.as_str()),
        XmlEvent::DocType { text } => write_doctype(writer, text.as_str()),
        XmlEvent::Start { name, attributes } => {
            let element = build_element(name, attributes);
            write_start(writer, element)
        },
        XmlEvent::End { name } => write_end(writer, name.as_str()),
        XmlEvent::Empty { name, attributes } => {
            let element = build_element(name, attributes);
            write_empty(writer, element)
        },
        XmlEvent::Raw { text } => write_raw(writer, text.as_str()),
    };
    proof {
        assert(page_of(*writer).bytes =~= page_after(
            page_of(*old(writer)),
            indent(),
            event@,
        ).bytes);
    }
    step_outcome(outcome)
}

/// Renders the events as a document, indented by four spaces for each level
/// of depth.
///
/// No document is made of events that still hold a rate, or that are nested
/// deeper than an indentation can be long. All other events are rendered:
/// they go to the writer one by one, and the writer, which writes into
/// memory, takes them all.
pub fn render(events: &Vec<XmlEvent>) -> (document: Result<Vec<u8>, ExportError>)
    ensures
        bytes_view(document) == render_outcome(event_views(events@)),
{
    let ghost views = event_views(events@);
    match check_events(events) {
        Err(e) => {
            return Err(e);
        },
        Ok(()) => {},
    }
    let mut writer = new_writer(INDENT_CHAR, INDENT_SIZE);
    assert(indent_unit(writer) == Some(indent())) by {
        assert(indent_unit(writer)->0 =~= indent());
    }
    let mut i: usize = 0;
    while i < events.len()
        invariant
            i <= events.len(),
            views == event_views(events@),
            all_text(views),
            !too_deep(views),
            indent_unit(writer) == Some(indent()),
            page_of(writer) == page_after_all(blank_page(), indent(), views.take(i as int)),
        decreases events.len() - i,
    {
        proof {
            assert(views.take(i + 1).drop_last() =~= views.take(i as int));
            assert(views.take(i + 1).last() == events@[i as int]@);
            assert(attributes_have_text(views[i as int].attributes()));
            lemma_page_width(blank_page(), views.take(i as int));
            if views[i as int] is Start {
                assert(width_after(views.take(i as int), 0) + INDENT_SIZE <= isize::MAX);
            }
        }
        match write_event(&mut writer, &events[i]) {
            Ok(()) => {},
            Err(e) => {
                return Err(e);
            },
        }
        i = i + 1;
    }
    assert(views.take(i as int) =~= views);
    Ok(into_bytes(writer))
}

} // verus!

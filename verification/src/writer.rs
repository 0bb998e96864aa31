//! The XML writer of `quick_xml`, and what it puts on the page.

use quick_xml::events::{BytesDecl, BytesEnd, BytesStart, BytesText, Event};
use quick_xml::Writer;
use vstd::prelude::*;
use vstd::utf8::encode_utf8;

verus! {

/// A `quick_xml::Writer` that writes into a vector of bytes. The writer is
/// held in a struct of its own because its type is generic over a sink that
/// is bound by `std::io::Write`, a trait that cannot be declared to Verus.
///
/// The writer fails only where its sink fails, and this sink does not: std's
/// `Write` for a vector of bytes appends what it is given. So every call that
/// writes is stated to succeed.
#[verifier::external_body]
pub struct XmlWriter {
    inner: Writer<Vec<u8>>,
}

/// `quick_xml::events::BytesStart`: a start tag under construction.
#[verifier::external_type_specification]
#[verifier::external_body]
pub struct ExBytesStart<'a>(BytesStart<'a>);

/// `quick_xml::Error`: what the writer reports when its sink fails.
#[verifier::external_type_specification]
#[verifier::external_body]
pub struct ExError(quick_xml::Error);

/// The bytes that the writer has handed to its sink so far.
pub uninterp spec fn written(writer: XmlWriter) -> Seq<u8>;

/// The indentation that the writer puts behind a line break at its present
/// depth.
pub uninterp spec fn indentation(writer: XmlWriter) -> Seq<u8>;

/// What the writer indents by for each level of depth; nothing for a writer
/// that was made without indentation.
pub uninterp spec fn indent_unit(writer: XmlWriter) -> Option<Seq<u8>>;

/// Whether the writer breaks the line before the next item that it wraps.
pub uninterp spec fn breaks_line(writer: XmlWriter) -> bool;

/// The content of a start tag: its name and the attributes pushed so far.
pub uninterp spec fn element_bytes(element: BytesStart<'static>) -> Seq<u8>;

/// A text as the bytes that stand for it.
pub open spec fn bytes_of(text: Seq<char>) -> Seq<u8> {
    encode_utf8(text)
}

/// A byte as it stands in an attribute's value: the five special characters
/// of XML give their entities, every other byte gives itself.
pub open spec fn escaped_byte(byte: u8) -> Seq<u8> {
    if byte == 0x3c {
        // <
        bytes_of("&lt;"@)
    } else if byte == 0x3e {
        // >
        bytes_of("&gt;"@)
    } else if byte == 0x27 {
        // '
        bytes_of("&apos;"@)
    } else if byte == 0x26 {
        // &
        bytes_of("&amp;"@)
    } else if byte == 0x22 {
        // "
        bytes_of("&quot;"@)
    } else {
        seq![byte]
    }
}

/// The bytes with each of them escaped.
pub open spec fn escaped(raw: Seq<u8>) -> Seq<u8>
    decreases raw.len(),
{
    if raw.len() == 0 {
        Seq::empty()
    } else {
        escaped(raw.drop_last()) + escaped_byte(raw.last())
    }
}

/// An attribute as it stands in a start tag: a space, the key, and the
/// escaped value between double quotes.
pub open spec fn attribute_bytes(key: Seq<char>, value: Seq<char>) -> Seq<u8> {
    bytes_of(" "@) + bytes_of(key) + bytes_of("=\""@) + escaped(bytes_of(value)) + bytes_of("\""@)
}

/// What stands before an item that the writer wraps: a line break and the
/// indentation where a break is due, nothing otherwise.
pub open spec fn line_lead(breaks: bool, indentation: Seq<u8>) -> Seq<u8> {
    if breaks {
        bytes_of("\n"@) + indentation
    } else {
        Seq::empty()
    }
}

/// The indentation one level up.
pub open spec fn shrunk(indentation: Seq<u8>, unit: Seq<u8>) -> Seq<u8> {
    if indentation.len() >= unit.len() {
        indentation.take(indentation.len() - unit.len())
    } else {
        Seq::empty()
    }
}

/// Calls `quick_xml::Writer::new_with_indent` on an empty vector of bytes.
/// The writer starts with nothing written, at depth zero and with no line
/// break due; it indents each level by `indent_size` times `indent_char`.
#[verifier::external_body]
pub(crate) fn new_writer(indent_char: u8, indent_size: usize) -> (writer: XmlWriter)
    ensures
        written(writer) == Seq::<u8>::empty(),
        indentation(writer) == Seq::<u8>::empty(),
        indent_unit(writer) == Some(Seq::new(indent_size as nat, |i: int| indent_char)),
        !breaks_line(writer),
{
    XmlWriter { inner: Writer::new_with_indent(Vec::new(), indent_char, indent_size) }
}

/// Calls `quick_xml::Writer::into_inner`, which gives back the sink: the
/// bytes written.
#[verifier::external_body]
pub(crate) fn into_bytes(writer: XmlWriter) -> (bytes: Vec<u8>)
    ensures
        bytes@ == written(writer),
{
    writer.inner.into_inner()
}

/// Calls `quick_xml::events::BytesStart::owned_name`: a start tag that holds
/// the name and no attribute.
#[verifier::external_body]
pub(crate) fn new_element(name: &str) -> (element: BytesStart<'static>)
    ensures
        element_bytes(element) == bytes_of(name@),
{
    BytesStart::owned_name(name.as_bytes())
}

/// Calls `quick_xml::events::BytesStart::push_attribute` with a key and a
/// value that are strings: the attribute is added behind what the tag
/// holds, its value escaped.
#[verifier::external_body]
pub(crate) fn push_attribute(element: &mut BytesStart<'static>, key: &str, value: &str)
    ensures
        element_bytes(*final(element)) == element_bytes(*old(element)) + attribute_bytes(
            key@,
            value@,
        ),
{
    element.push_attribute((key, value));
}

/// Calls `quick_xml::Writer::write_event` with `Event::Decl` of a
/// declaration that holds the version only. The call succeeds; the writer
/// has put out the line lead and `<?xml version="..."?>`, and a line break
/// is due.
#[verifier::external_body]
pub(crate) fn write_decl(writer: &mut XmlWriter, version: &str) -> (result: Result<
    (),
    quick_xml::Error,
>)
    ensures
        result is Ok,
        written(*final(writer)) == written(*old(writer)) + line_lead(
            breaks_line(*old(writer)),
            indentation(*old(writer)),
        ) + bytes_of("<?"@) + bytes_of("xml version=\""@) + bytes_of(version@) + bytes_of("\""@)
            + bytes_of("?>"@),
        indentation(*final(writer)) == indentation(*old(writer)),
        breaks_line(*final(writer)) == indent_unit(*old(writer)).is_some(),
        indent_unit(*final(writer)) == indent_unit(*old(writer)),
{
    writer.inner.write_event(Event::Decl(BytesDecl::new(version.as_bytes(), None, None)))
}

/// Calls `quick_xml::Writer::write_event` with `Event::DocType` of a text
/// that is taken as it is. The call succeeds; the writer has put out the
/// line lead and `<!DOCTYPE...>`, and a line break is due.
#[verifier::external_body]
pub(crate) fn write_doctype(writer: &mut XmlWriter, text: &str) -> (result: Result<
    (),
    quick_xml::Error,
>)
    ensures
        result is Ok,
        written(*final(writer)) == written(*old(writer)) + line_lead(
            breaks_line(*old(writer)),
            indentation(*old(writer)),
        ) + bytes_of("<!DOCTYPE"@) + bytes_of(text@) + bytes_of(">"@),
        indentation(*final(writer)) == indentation(*old(writer)),
        breaks_line(*final(writer)) == indent_unit(*old(writer)).is_some(),
        indent_unit(*final(writer)) == indent_unit(*old(writer)),
{
    writer.inner.write_event(Event::DocType(BytesText::from_escaped_str(text)))
}

/// Calls `quick_xml::Writer::write_event` with `Event::Start`. The call
/// succeeds; the writer has put out the line lead and the tag between `<`
/// and `>`, is one level deeper, and a line break is due. The writer
/// keeps its indentation in a vector of bytes, which cannot grow beyond
/// `isize::MAX`: the indentation one level deeper has to fit.
#[verifier::external_body]
pub(crate) fn write_start(writer: &mut XmlWriter, element: BytesStart<'static>) -> (result:
    Result<(), quick_xml::Error>)
    requires
        indent_unit(*old(writer)) matches Some(unit) ==> indentation(*old(writer)).len()
            + unit.len() <= isize::MAX,
    ensures
        result is Ok,
        written(*final(writer)) == written(*old(writer)) + line_lead(
            breaks_line(*old(writer)),
            indentation(*old(writer)),
        ) + bytes_of("<"@) + element_bytes(element) + bytes_of(">"@),
        indentation(*final(writer)) == match indent_unit(*old(writer)) {
            Some(unit) => indentation(*old(writer)) + unit,
            None => indentation(*old(writer)),
        },
        breaks_line(*final(writer)) == indent_unit(*old(writer)).is_some(),
        indent_unit(*final(writer)) == indent_unit(*old(writer)),
{
    writer.inner.write_event(Event::Start(element))
}

/// Calls `quick_xml::Writer::write_event` with `Event::Empty`. The call
/// succeeds; the writer has put out the line lead and the tag between `<`
/// and `/>`, and a line break is due.
#[verifier::external_body]
pub(crate) fn write_empty(writer: &mut XmlWriter, element: BytesStart<'static>) -> (result:
    Result<(), quick_xml::Error>)
    ensures
        result is Ok,
        written(*final(writer)) == written(*old(writer)) + line_lead(
            breaks_line(*old(writer)),
            indentation(*old(writer)),
        ) + bytes_of("<"@) + element_bytes(element) + bytes_of("/>"@),
        indentation(*final(writer)) == indentation(*old(writer)),
        breaks_line(*final(writer)) == indent_unit(*old(writer)).is_some(),
        indent_unit(*final(writer)) == indent_unit(*old(writer)),
{
    writer.inner.write_event(Event::Empty(element))
}

/// Calls `quick_xml::Writer::write_event` with `Event::End`. The writer
/// first goes one level up, not above the top. The call succeeds; the
/// writer has then put out the line lead at the new depth and the name
/// between `</` and `>`, and a line break is due.
#[verifier::external_body]
pub(crate) fn write_end(writer: &mut XmlWriter, name: &str) -> (result: Result<
    (),
    quick_xml::Error,
>)
    ensures
        result is Ok,
        indentation(*final(writer)) == match indent_unit(*old(writer)) {
            Some(unit) => shrunk(indentation(*old(writer)), unit),
            None => indentation(*old(writer)),
        },
        written(*final(writer)) == written(*old(writer)) + line_lead(
            breaks_line(*old(writer)),
            indentation(*final(writer)),
        ) + bytes_of("</"@) + bytes_of(name@) + bytes_of(">"@),
        breaks_line(*final(writer)) == indent_unit(*old(writer)).is_some(),
        indent_unit(*final(writer)) == indent_unit(*old(writer)),
{
    writer.inner.write_event(Event::End(BytesEnd::borrowed(name.as_bytes())))
}

/// Calls `quick_xml::Writer::write`, which hands the bytes to the sink as
/// they are and leaves depth and line break as they were. The call succeeds.
#[verifier::external_body]
pub(crate) fn write_raw(writer: &mut XmlWriter, text: &str) -> (result: Result<
    (),
    quick_xml::Error,
>)
    ensures
        result is Ok,
        written(*final(writer)) == written(*old(writer)) + bytes_of(text@),
        indentation(*final(writer)) == indentation(*old(writer)),
        breaks_line(*final(writer)) == breaks_line(*old(writer)),
        indent_unit(*final(writer)) == indent_unit(*old(writer)),
{
    writer.inner.write(text.as_bytes())
}

} // verus!

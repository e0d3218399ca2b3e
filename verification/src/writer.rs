//! The XML event writer: it takes "open an element" and "close the last
//! open element" and writes indented XML text into a buffer in memory.

use crate::node::{attribute_views, AstNode, XmlAttribute};
use vstd::prelude::*;
use xml::writer::{EmitterConfig, EventWriter};

verus! {

/// `xml::writer::EventWriter`, opaque to the verifier.
#[verifier::external_type_specification]
#[verifier::external_body]
#[verifier::reject_recursive_types(W)]
pub struct ExEventWriter<W>(EventWriter<W>);

/// `xml::common::XmlVersion`, with its variants.
#[verifier::external_type_specification]
pub struct ExXmlVersion(xml::common::XmlVersion);

/// `xml::writer::Error`, with its variants.
#[verifier::external_type_specification]
pub struct ExEmitterError(xml::writer::Error);

/// What a writer remembers of the document so far, as far as the text of
/// the next event depends on it.
pub struct Layout {
    /// The names of the elements begun and not yet ended, outermost first.
    pub open: Seq<Seq<char>>,
    /// The depth that the indentation goes by.
    pub level: nat,
    /// What was written last at each depth, outermost first: 0 for
    /// nothing, 1 for markup, 2 for text.
    pub marks: Seq<int>,
    /// Whether the tag of the element begun last still waits for its end.
    pub just_opened: bool,
    /// Whether the declaration of the document was written.
    pub declared: bool,
}

/// The bytes that a writer holds in its buffer.
pub uninterp spec fn written_bytes(writer: EventWriter<Vec<u8>>) -> Seq<u8>;

/// What a writer remembers: the names it keeps of open elements, its
/// indent level and indent marks, whether it has just written a start tag,
/// and whether it has written the declaration.
pub uninterp spec fn layout(writer: EventWriter<Vec<u8>>) -> Layout;

/// Whether a writer has the settings that this library gives its writers:
/// those of `EmitterConfig::new`, with indentation on.
pub uninterp spec fn indents(writer: EventWriter<Vec<u8>>) -> bool;

/// What a declaration of this version in this encoding does to a writer
/// that has not written one: the text it writes, and what the writer
/// remembers afterwards.
pub uninterp spec fn declaration_effect(
    layout: Layout,
    version: xml::common::XmlVersion,
    encoding: Seq<char>,
) -> (Seq<u8>, Layout);

/// What the start of an element does to a writer: the text it writes, and
/// what the writer remembers afterwards.
pub uninterp spec fn start_effect(
    layout: Layout,
    name: Seq<char>,
    attributes: Seq<(Seq<char>, Seq<char>)>,
) -> (Seq<u8>, Layout);

/// What the end of an element does to a writer that has one open: the text
/// it writes, and what the writer remembers afterwards.
pub uninterp spec fn end_effect(layout: Layout) -> (Seq<u8>, Layout);

/// One event handed to the writer.
pub enum XmlEvent {
    /// Begin an element with this name and these attributes.
    Open { name: Seq<char>, attributes: Seq<(Seq<char>, Seq<char>)> },
    /// End the element opened last and not yet ended.
    Close,
}

/// The event that begins the element of a node: named after the node's
/// kind, with the node's attributes.
pub open spec fn open_event(node: AstNode) -> XmlEvent {
    XmlEvent::Open { name: node.kind@, attributes: node.attribute_list() }
}

/// Whether `after` is `before` with something written behind it.
pub open spec fn grown(before: Seq<u8>, after: Seq<u8>) -> bool {
    before.is_prefix_of(after) && before.len() < after.len()
}

/// What a writer remembers when it is new.
pub open spec fn fresh_layout() -> Layout {
    Layout { open: Seq::empty(), level: 0, marks: seq![0int], just_opened: false, declared: false }
}

/// The encoding that every document declares.
pub open spec fn document_encoding() -> Seq<char> {
    "utf-8"@
}

/// What the declaration of every document does to a new writer: it
/// declares XML 1.0 in `utf-8`.
pub open spec fn document_declaration() -> (Seq<u8>, Layout) {
    declaration_effect(fresh_layout(), xml::common::XmlVersion::Version10, document_encoding())
}

/// What one event does to a writer that takes it.
pub open spec fn event_effect(layout: Layout, event: XmlEvent) -> (Seq<u8>, Layout) {
    match event {
        XmlEvent::Open { name, attributes } => start_effect(layout, name, attributes),
        XmlEvent::Close => end_effect(layout),
    }
}

/// What events do to a writer that takes them all, one after the other:
/// the text they write, and what the writer remembers afterwards.
pub open spec fn rendering(layout: Layout, events: Seq<XmlEvent>) -> (Seq<u8>, Layout)
    decreases events.len(),
{
    if events.len() == 0 {
        (Seq::empty(), layout)
    } else {
        let before = rendering(layout, events.drop_last());
        let last = event_effect(before.1, events.last());
        (before.0 + last.0, last.1)
    }
}

/// The text of a whole document: the declaration, then the events as a new
/// writer renders them after it.
pub open spec fn document_text(events: Seq<XmlEvent>) -> Seq<u8> {
    document_declaration().0 + rendering(document_declaration().1, events).0
}

/// What begins with a text begins with each front part of that text.
pub proof fn lemma_prefix_transitive(a: Seq<u8>, b: Seq<u8>, c: Seq<u8>)
    requires
        a.is_prefix_of(b),
        b.is_prefix_of(c),
    ensures
        a.is_prefix_of(c),
{
    assert(a =~= c.subrange(0, a.len() as int)) by {
        assert forall|i: int| 0 <= i < a.len() implies a[i] == c[i] by {
            assert(a[i] == b.subrange(0, a.len() as int)[i]);
            assert(b[i] == c.subrange(0, b.len() as int)[i]);
        }
    }
}

/// Events rendered one after the other: the later ones go on from what
/// the writer remembers after the earlier ones.
pub proof fn lemma_rendering_add(layout: Layout, a: Seq<XmlEvent>, b: Seq<XmlEvent>)
    ensures
        rendering(layout, a + b).0 == rendering(layout, a).0 + rendering(
            rendering(layout, a).1,
            b,
        ).0,
        rendering(layout, a + b).1 == rendering(rendering(layout, a).1, b).1,
    decreases b.len(),
{
    if b.len() == 0 {
        assert(a + b =~= a);
        assert(rendering(layout, a).0 + rendering(rendering(layout, a).1, b).0 =~= rendering(
            layout,
            a,
        ).0);
    } else {
        lemma_rendering_add(layout, a, b.drop_last());
        assert((a + b).drop_last() =~= a + b.drop_last());
        assert((a + b).last() == b.last());
        assert(rendering(layout, a + b).0 =~= rendering(layout, a).0 + rendering(
            rendering(layout, a).1,
            b,
        ).0);
    }
}

/// One event rendered alone is its effect.
pub proof fn lemma_rendering_one(layout: Layout, event: XmlEvent)
    ensures
        rendering(layout, seq![event]) == event_effect(layout, event),
        rendering(layout, Seq::empty()) == (Seq::<u8>::empty(), layout),
{
    let none = seq![event].drop_last();
    assert(none =~= Seq::empty());
    assert(rendering(layout, none) == (Seq::<u8>::empty(), layout));
    assert(seq![event].last() == event);
    assert(Seq::<u8>::empty() + event_effect(layout, event).0 =~= event_effect(layout, event).0);
}

/// `EmitterConfig::new`, `perform_indent` and `create_writer` on an empty
/// `Vec<u8>`: a writer with the settings of `EmitterConfig::new`, that
/// indents if asked to. It has nothing in its buffer and remembers
/// nothing: no element open, indent level 0, one indent mark that says
/// nothing was written, no start tag pending, no declaration written.
#[verifier::external_body]
fn new_writer(indent: bool) -> (writer: EventWriter<Vec<u8>>)
    ensures
        indents(writer) == indent,
        written_bytes(writer) == Seq::<u8>::empty(),
        layout(writer) == fresh_layout(),
{
    EmitterConfig::new().perform_indent(indent).create_writer(Vec::new())
}

/// `EventWriter::write` with `XmlEvent::StartDocument`: the declaration of
/// a document of the given version in the given encoding, with nothing
/// said on whether it stands alone. A writer takes it once: it
/// is refused exactly where a declaration was written before, and then
/// nothing changes. Taken, its text goes behind what the buffer holds;
/// which text, and what the writer remembers afterwards, follows from what
/// it remembered, the version and the encoding. The open elements stay as
/// they are.
/// The call does not panic.
#[verifier::external_body]
fn write_declaration(
    writer: &mut EventWriter<Vec<u8>>,
    version: xml::common::XmlVersion,
    encoding: &str,
) -> (outcome: Result<(), xml::writer::Error>)
    requires
        indents(*old(writer)),
    ensures
        indents(*final(writer)),
        outcome is Ok == !layout(*old(writer)).declared,
        outcome matches Err(e) ==> e is DocumentStartAlreadyEmitted,
        outcome is Err ==> layout(*final(writer)) == layout(*old(writer)) && written_bytes(
            *final(writer),
        ) == written_bytes(*old(writer)),
        outcome is Ok ==> written_bytes(*final(writer)) == written_bytes(*old(writer))
            + declaration_effect(layout(*old(writer)), version, encoding@).0,
        outcome is Ok ==> layout(*final(writer)) == declaration_effect(
            layout(*old(writer)),
            version,
            encoding@,
        ).1,
        outcome is Ok ==> layout(*final(writer)).declared && layout(*final(writer)).open == layout(
            *old(writer),
        ).open,
        outcome is Ok ==> grown(written_bytes(*old(writer)), written_bytes(*final(writer))),
    no_unwind
{
    writer.write(
        xml::writer::XmlEvent::StartDocument { version, encoding: Some(encoding), standalone: None },
    )
}

/// `XmlEvent::start_element`, `attr` for each attribute in turn, and
/// `EventWriter::write`. Writing into memory, the writer always takes the
/// event. The name is kept as that of the innermost open element, the
/// declaration has been written, by this call if by none before, and the
/// text goes behind what the buffer held; which text, and what else the
/// writer remembers afterwards, follows from what it remembered, the name
/// and the attributes. The call does not panic.
#[verifier::external_body]
fn write_start_element(
    writer: &mut EventWriter<Vec<u8>>,
    name: &str,
    attributes: &Vec<XmlAttribute>,
) -> (outcome: Result<(), xml::writer::Error>)
    requires
        indents(*old(writer)),
    ensures
        indents(*final(writer)),
        outcome is Ok,
        written_bytes(*final(writer)) == written_bytes(*old(writer)) + start_effect(
            layout(*old(writer)),
            name@,
            attribute_views(attributes@),
        ).0,
        layout(*final(writer)) == start_effect(
            layout(*old(writer)),
            name@,
            attribute_views(attributes@),
        ).1,
        layout(*final(writer)).open == layout(*old(writer)).open.push(name@),
        layout(*final(writer)).declared,
        grown(written_bytes(*old(writer)), written_bytes(*final(writer))),
    no_unwind
{
    let mut element = xml::writer::XmlEvent::start_element(name);
    for attribute in attributes.iter() {
        element = element.attr(attribute.name.as_str(), attribute.value.as_str());
    }
    writer.write(element)
}

/// `XmlEvent::end_element` and `EventWriter::write`. The writer takes the
/// event exactly where an element is open: the innermost is ended, and the
/// text of its end goes behind what the buffer held; which text, and what
/// else the writer remembers afterwards, follows from what it remembered.
/// Where none is open it says that the name of the last element is not
/// available, and nothing changes. The call does not panic.
#[verifier::external_body]
fn write_end_element(writer: &mut EventWriter<Vec<u8>>) -> (outcome: Result<
    (),
    xml::writer::Error,
>)
    requires
        indents(*old(writer)),
    ensures
        indents(*final(writer)),
        outcome is Ok == (layout(*old(writer)).open.len() > 0),
        outcome matches Err(e) ==> e is LastElementNameNotAvailable,
        outcome is Err ==> layout(*final(writer)) == layout(*old(writer)) && written_bytes(
            *final(writer),
        ) == written_bytes(*old(writer)),
        outcome is Ok ==> written_bytes(*final(writer)) == written_bytes(*old(writer))
            + end_effect(layout(*old(writer))).0,
        outcome is Ok ==> layout(*final(writer)) == end_effect(layout(*old(writer))).1,
        outcome is Ok ==> layout(*final(writer)).open == layout(*old(writer)).open.drop_last()
            && layout(*final(writer)).declared == layout(*old(writer)).declared,
        outcome is Ok ==> grown(written_bytes(*old(writer)), written_bytes(*final(writer))),
    no_unwind
{
    writer.write(xml::writer::XmlEvent::end_element())
}

/// `EventWriter::inner_ref`: the buffer of the writer, to look at.
#[verifier::external_body]
fn writer_bytes(writer: &EventWriter<Vec<u8>>) -> (bytes: &Vec<u8>)
    ensures
        bytes@ == written_bytes(*writer),
{
    writer.inner_ref()
}

/// `EventWriter::into_inner`: the buffer of the writer.
#[verifier::external_body]
fn writer_into_bytes(writer: EventWriter<Vec<u8>>) -> (bytes: Vec<u8>)
    ensures
        bytes@ == written_bytes(writer),
{
    writer.into_inner()
}

/// A writer of XML events into a buffer in memory. It has written the
/// declaration of its document before anything else. It does no matching
/// of its own: that each close has its open is the caller's to see to.
pub struct XmlSink {
    writer: EventWriter<Vec<u8>>,
    events: Ghost<Seq<XmlEvent>>,
}

/// Whether a writer went from `before` to `after` by being handed the
/// events `offered`, of which it took `taken`.
pub open spec fn handed(
    before: XmlSink,
    after: XmlSink,
    offered: Seq<XmlEvent>,
    taken: Seq<XmlEvent>,
) -> bool {
    &&& after.trace() == before.trace() + offered
    &&& after.bytes() == before.bytes() + rendering(before.layout(), taken).0
    &&& after.layout() == rendering(before.layout(), taken).1
}

/// Whether a writer went from `before` to `after` by taking these events.
pub open spec fn took(before: XmlSink, after: XmlSink, events: Seq<XmlEvent>) -> bool {
    handed(before, after, events, events)
}

/// What a writer is handed in two parts it was handed in all.
pub proof fn lemma_handed_add(
    before: XmlSink,
    between: XmlSink,
    after: XmlSink,
    offered_first: Seq<XmlEvent>,
    taken_first: Seq<XmlEvent>,
    offered_then: Seq<XmlEvent>,
    taken_then: Seq<XmlEvent>,
)
    requires
        handed(before, between, offered_first, taken_first),
        handed(between, after, offered_then, taken_then),
    ensures
        handed(before, after, offered_first + offered_then, taken_first + taken_then),
{
    lemma_rendering_add(before.layout(), taken_first, taken_then);
    assert(after.trace() =~= before.trace() + (offered_first + offered_then));
    assert(after.bytes() =~= before.bytes() + rendering(
        before.layout(),
        taken_first + taken_then,
    ).0);
}

/// A writer that is handed nothing stays as it is.
pub proof fn lemma_handed_nothing(sink: XmlSink)
    ensures
        took(sink, sink, Seq::empty()),
{
    assert(sink.trace() + Seq::<XmlEvent>::empty() =~= sink.trace());
    assert(sink.bytes() + Seq::<u8>::empty() =~= sink.bytes());
}

impl XmlSink {
    #[verifier::type_invariant]
    spec fn declared(self) -> bool {
        indents(self.writer) && layout(self.writer).declared
    }

    /// The events handed to the writer so far, in order. Each open was
    /// taken; a close was refused exactly where no element was open.
    pub closed spec fn trace(&self) -> Seq<XmlEvent> {
        self.events@
    }

    /// The XML text written so far.
    pub closed spec fn bytes(&self) -> Seq<u8> {
        written_bytes(self.writer)
    }

    /// What the writer remembers of the document so far.
    pub closed spec fn layout(&self) -> Layout {
        layout(self.writer)
    }

    /// How many elements are open.
    pub open spec fn depth(&self) -> nat {
        self.layout().open.len()
    }

    /// A writer that indents one level per nesting depth. It has written
    /// the declaration of its document, XML 1.0 in `utf-8`, and nothing
    /// else; no element is open.
    pub fn new() -> (sink: XmlSink)
        ensures
            sink.trace() == Seq::<XmlEvent>::empty(),
            sink.bytes() == document_declaration().0,
            sink.layout() == document_declaration().1,
            sink.bytes() == document_text(Seq::empty()),
            sink.layout().declared,
            sink.depth() == 0,
            sink.bytes().len() > 0,
    {
        let mut writer = new_writer(true);
        let declared = write_declaration(
            &mut writer,
            xml::common::XmlVersion::Version10,
            "utf-8",
        );
        proof {
            assert(declared is Ok);
            lemma_rendering_one(layout(writer), XmlEvent::Close);
            assert(written_bytes(writer) =~= document_text(Seq::empty()));
        }
        XmlSink { writer, events: Ghost(Seq::empty()) }
    }

    /// Begins an element. The writer always takes it: the element is open
    /// afterwards and its text stands behind what was written.
    pub fn open(&mut self, name: &str, attributes: &Vec<XmlAttribute>) -> (outcome: Result<
        (),
        xml::writer::Error,
    >)
        ensures
            outcome is Ok,
            took(
                *old(self),
                *final(self),
                seq![XmlEvent::Open { name: name@, attributes: attribute_views(attributes@) }],
            ),
            final(self).layout().open == old(self).layout().open.push(name@),
            final(self).layout().declared,
            grown(old(self).bytes(), final(self).bytes()),
    {
        proof {
            use_type_invariant(&*self);
            lemma_rendering_one(
                self.layout(),
                XmlEvent::Open { name: name@, attributes: attribute_views(attributes@) },
            );
        }
        let outcome = write_start_element(&mut self.writer, name, attributes);
        self.events = Ghost(
            self.events@.push(
                XmlEvent::Open { name: name@, attributes: attribute_views(attributes@) },
            ),
        );
        proof {
            assert(self.trace() =~= old(self).trace() + seq![
                XmlEvent::Open { name: name@, attributes: attribute_views(attributes@) },
            ]);
        }
        outcome
    }

    /// Ends the element opened last and not yet ended. The writer takes
    /// this exactly where an element is open. Where none is, it refuses and
    /// nothing is written.
    pub fn close(&mut self) -> (outcome: Result<(), xml::writer::Error>)
        ensures
            outcome is Ok == (old(self).depth() > 0),
            outcome matches Err(e) ==> e is LastElementNameNotAvailable,
            outcome is Ok ==> took(*old(self), *final(self), seq![XmlEvent::Close]),
            outcome is Ok ==> final(self).layout().open == old(self).layout().open.drop_last()
                && grown(old(self).bytes(), final(self).bytes()),
            outcome is Err ==> handed(
                *old(self),
                *final(self),
                seq![XmlEvent::Close],
                Seq::empty(),
            ),
            final(self).layout().declared,
    {
        proof {
            use_type_invariant(&*self);
            lemma_rendering_one(self.layout(), XmlEvent::Close);
        }
        let outcome = write_end_element(&mut self.writer);
        self.events = Ghost(self.events@.push(XmlEvent::Close));
        proof {
            assert(self.trace() =~= old(self).trace() + seq![XmlEvent::Close]);
            assert(old(self).bytes() + Seq::<u8>::empty() =~= old(self).bytes());
        }
        outcome
    }

    /// The XML text written so far.
    pub fn as_bytes(&self) -> (bytes: &Vec<u8>)
        ensures
            bytes@ == self.bytes(),
    {
        writer_bytes(&self.writer)
    }

    /// The XML text written.
    pub fn into_bytes(self) -> (bytes: Vec<u8>)
        ensures
            bytes@ == self.bytes(),
    {
        writer_into_bytes(self.writer)
    }
}

/// Writes the event that begins the element of `entry`. The writer always
/// takes it.
pub fn create_start_xml_event_from_entry(entry: &AstNode, writer: &mut XmlSink) -> (outcome:
    Result<(), xml::writer::Error>)
    ensures
        outcome is Ok,
        took(*old(writer), *final(writer), seq![open_event(*entry)]),
        final(writer).depth() == old(writer).depth() + 1,
        final(writer).layout().declared,
        grown(old(writer).bytes(), final(writer).bytes()),
{
    let attributes = entry.attributes();
    writer.open(entry.kind.as_str(), &attributes)
}

/// Writes the event that ends the element opened last. The writer takes it
/// exactly where an element is open; where none is, nothing is written.
pub fn create_end_xml_event_from_entry(writer: &mut XmlSink) -> (outcome: Result<
    (),
    xml::writer::Error,
>)
    ensures
        outcome is Ok == (old(writer).depth() > 0),
        outcome matches Err(e) ==> e is LastElementNameNotAvailable,
        outcome is Ok ==> took(*old(writer), *final(writer), seq![XmlEvent::Close]),
        outcome is Ok ==> final(writer).depth() == old(writer).depth() - 1 && grown(
            old(writer).bytes(),
            final(writer).bytes(),
        ),
        outcome is Err ==> handed(*old(writer), *final(writer), seq![XmlEvent::Close], Seq::empty()),
        final(writer).layout().declared,
{
    writer.close()
}

} // verus!

//! The element rewriter: reads a settings document as a stream of events,
//! puts the document protection element in its place and writes the events
//! back.
//!
//! The parser trims the text between tags and leaves out text that is white
//! space only, and it hands out a closing tag without the white space that may
//! follow its name. What is written back is the markup of the events, so such
//! white space is not kept.

use crate::events::{
    append, bytes_eq, element_name, lemma_name_before_space, lemma_name_len, lemma_render_push,
    name_length, render, write_markup, EventKind, EventView, XmlEvent,
};
use crate::rewrite::{
    anchor, exactly_one_target, lemma_rewritten_push, others, rewrite_is_idempotent, rewritten,
    substitute, targets,
};
use crate::utf8::{first_ill_formed, ill_formed_at};
use quick_xml::events::Event;
use vstd::prelude::*;
use vstd::slice::slice_subrange;
use vstd::string::StringSliceAdditionalSpecFns;

verus! {

/// `quick_xml::Reader`, the pull parser. Verus sees nothing inside it.
#[verifier::external_type_specification]
#[verifier::external_body]
#[verifier::reject_recursive_types(R)]
pub struct ExReader<R>(quick_xml::Reader<R>);

/// `quick_xml::Error`, what the parser reports. Verus sees nothing inside it.
#[verifier::external_type_specification]
#[verifier::external_body]
pub struct ExXmlError(quick_xml::Error);

/// Why a document is refused.
#[derive(Debug)]
pub enum ParseCause {
    /// The input holds bytes that are not well-formed UTF-8.
    InvalidUtf8,
    /// The parser stopped on malformed input, with this report.
    Parser(quick_xml::Error),
    /// The input ends inside a tag: after its last `<` no `>` follows.
    EndsInsideTag,
    /// The input ends with an element still open: it holds more opening tags
    /// than closing tags, or fewer.
    Unclosed,
}

/// The kind of a [`ParseCause`], without the parser's report.
#[derive(Clone, Copy, Debug, PartialEq, Eq, Structural)]
pub enum CauseKind {
    InvalidUtf8,
    Parser,
    EndsInsideTag,
    Unclosed,
}

impl ParseCause {
    /// The kind of this cause.
    pub open spec fn kind(self) -> CauseKind {
        match self {
            ParseCause::InvalidUtf8 => CauseKind::InvalidUtf8,
            ParseCause::Parser(_) => CauseKind::Parser,
            ParseCause::EndsInsideTag => CauseKind::EndsInsideTag,
            ParseCause::Unclosed => CauseKind::Unclosed,
        }
    }
}

/// A document that could not be read as XML.
#[derive(Debug)]
pub struct ParseError {
    /// The offset in the input at which the document is refused: where the
    /// first bytes stand that are not UTF-8, where the parser stopped, where
    /// the tag begins that the input ends in, or the end of the input where
    /// an element is still open.
    pub position: usize,
    /// Why it is refused.
    pub cause: ParseCause,
}

/// What a parser yields until it stops: the events, in document order, and
/// the offset of the failure where it stops on malformed input rather than at
/// the end of the document.
pub struct Scan {
    pub events: Seq<EventView>,
    pub fault: Option<usize>,
}

/// What `reader` will still yield: the events that `read_event` returns, call
/// after call, before it first returns `Eof` or an error, and for an error the
/// value of `buffer_position` right after it.
pub uninterp spec fn pending(reader: quick_xml::Reader<&[u8]>) -> Scan;

/// What a parser made by `Reader::from_reader` on `xml`, with `trim_text(true)`
/// and every other setting at its default, yields from its first call on.
pub uninterp spec fn scan(xml: Seq<u8>) -> Scan;

/// `Reader::from_reader` on a byte slice, then `trim_text(true)`, as the
/// settings document is read: text is trimmed of white space at both ends and
/// left out where nothing remains. The contract names what the new parser
/// will yield, and says that this is no more events than the input has
/// bytes: the parser takes at least one byte of input for every event.
#[verifier::external_body]
fn open_reader<'a>(xml: &'a [u8]) -> (reader: quick_xml::Reader<&'a [u8]>)
    ensures
        pending(reader) == scan(xml@),
        pending(reader).events.len() <= xml@.len(),
{
    let mut reader = quick_xml::Reader::from_reader(xml);
    reader.trim_text(true);
    reader
}

/// `Reader::read_event` on a byte slice, with the event handed out as a plain
/// value: its kind, and the bytes it dereferences to. `None` stands for `Eof`.
/// An error comes with what `Reader::buffer_position` returns right after it.
///
/// The contract says that the call takes the first of the pending events, that
/// `Eof` comes when none is pending and the input was well-formed, and that an
/// error comes when none is pending and the input was not. The parser consumes
/// input with every event, so the pending events are finitely many.
#[verifier::external_body]
fn next_event(reader: &mut quick_xml::Reader<&[u8]>) -> (step: Result<
    Option<XmlEvent>,
    (usize, quick_xml::Error),
>)
    ensures
        match step {
            Ok(Some(ev)) => {
                &&& pending(*old(reader)).events.len() > 0
                &&& ev@ == pending(*old(reader)).events[0]
                &&& pending(*final(reader)).events == pending(*old(reader)).events.skip(1)
                &&& pending(*final(reader)).fault == pending(*old(reader)).fault
            },
            Ok(None) => {
                &&& pending(*old(reader)).events.len() == 0
                &&& pending(*old(reader)).fault is None
            },
            Err(e) => {
                &&& pending(*old(reader)).events.len() == 0
                &&& pending(*old(reader)).fault == Some(e.0)
            },
        },
{
    let event = reader.read_event().map_err(|cause| (reader.buffer_position(), cause))?;
    let kind = match &event {
        Event::Start(_) => EventKind::Start,
        Event::End(_) => EventKind::End,
        Event::Empty(_) => EventKind::Empty,
        Event::Text(_) => EventKind::Text,
        Event::CData(_) => EventKind::CData,
        Event::Comment(_) => EventKind::Comment,
        Event::Decl(_) => EventKind::Decl,
        Event::PI(_) => EventKind::PI,
        Event::DocType(_) => EventKind::DocType,
        Event::Eof => return Ok(None),
    };
    Ok(Some(XmlEvent { kind, content: event.to_vec() }))
}

/// Whether the qualified name at the head of a tag's content is `name`.
pub fn is_named(content: &[u8], name: &[u8]) -> (same: bool)
    ensures
        same == (element_name(content@) == name@),
{
    let n = name_length(content);
    proof {
        lemma_name_len(content@);
        assert(content@.subrange(0, n as int) =~= content@.take(n as int));
    }
    bytes_eq(slice_subrange(content, 0, n), name)
}

/// The input ends inside the tag that begins at `at`: a `<` stands there and
/// neither `<` nor `>` follows it.
pub open spec fn is_open_tag_at(xml: Seq<u8>, at: int) -> bool {
    &&& 0 <= at < xml.len()
    &&& xml[at] == 0x3c
    &&& forall|j: int| at < j < xml.len() ==> #[trigger] xml[j] != 0x3c && xml[j] != 0x3e
}

/// The input ends inside a tag.
pub open spec fn ends_inside_tag(xml: Seq<u8>) -> bool {
    exists|at: int| is_open_tag_at(xml, at)
}

/// Where the tag begins that the input ends in.
pub open spec fn open_tag_offset(xml: Seq<u8>) -> int {
    choose|at: int| is_open_tag_at(xml, at)
}

/// The number of events of the given kind.
pub open spec fn count_of(evs: Seq<EventView>, kind: EventKind) -> nat
    decreases evs.len(),
{
    if evs.len() == 0 {
        0
    } else {
        count_of(evs.drop_last(), kind) + if evs.last().kind == kind {
            1nat
        } else {
            0nat
        }
    }
}

/// Every element that is opened is closed: there are as many closing tags as
/// opening tags. The parser sees to it that a closing tag closes the element
/// that was opened last.
pub open spec fn closes_every_element(evs: Seq<EventView>) -> bool {
    count_of(evs, EventKind::Start) == count_of(evs, EventKind::End)
}

/// Whether a document is refused, and then why and at which offset. Bytes
/// that are not well-formed UTF-8 come first, which the parser does not look
/// at; then the parser's fault; then an input that ends inside a tag, which
/// the parser takes for a whole tag; then an element left open at the end of
/// the input, which the parser does not look for.
pub open spec fn refused(xml: Seq<u8>) -> Option<(CauseKind, usize)> {
    if ill_formed_at(xml) is Some {
        Some((CauseKind::InvalidUtf8, ill_formed_at(xml)->0 as usize))
    } else if scan(xml).fault is Some {
        Some((CauseKind::Parser, scan(xml).fault->0))
    } else if ends_inside_tag(xml) {
        Some((CauseKind::EndsInsideTag, open_tag_offset(xml) as usize))
    } else if !closes_every_element(scan(xml).events) {
        Some((CauseKind::Unclosed, xml.len() as usize))
    } else {
        None
    }
}

/// The offset at which a document is refused, where it is refused.
pub open spec fn refusal_offset(xml: Seq<u8>) -> Option<usize> {
    match refused(xml) {
        Some(refusal) => Some(refusal.1),
        None => None,
    }
}

/// Only one tag can be the one that the input ends in.
proof fn lemma_open_tag_is_one(xml: Seq<u8>, at: int)
    requires
        is_open_tag_at(xml, at),
    ensures
        ends_inside_tag(xml),
        open_tag_offset(xml) == at,
{
    let other = open_tag_offset(xml);
    if other < at {
        assert(xml[at] == 0x3c);
    } else if at < other {
        assert(xml[other] == 0x3c);
    }
}

/// There are no more events of a kind than events.
proof fn lemma_count_of(evs: Seq<EventView>, kind: EventKind)
    ensures
        count_of(evs, kind) <= evs.len(),
    decreases evs.len(),
{
    if evs.len() > 0 {
        lemma_count_of(evs.drop_last(), kind);
    }
}

/// Finds the tag that the input ends in, if it ends in one.
pub fn open_tag_at_end(xml: &[u8]) -> (found: Option<usize>)
    ensures
        match found {
            Some(at) => is_open_tag_at(xml@, at as int),
            None => !ends_inside_tag(xml@),
        },
{
    let mut at: usize = xml.len();
    while at > 0
        invariant
            at <= xml.len(),
            forall|j: int| at <= j < xml.len() ==> #[trigger] xml@[j] != 0x3c && xml@[j] != 0x3e,
        decreases at,
    {
        at -= 1;
        if xml[at] == 0x3c {
            return Some(at);
        }
        if xml[at] == 0x3e {
            proof {
                assert forall|other: int| !is_open_tag_at(xml@, other) by {
                    if is_open_tag_at(xml@, other) {
                        if other < at {
                            assert(xml@[at as int] == 0x3e);
                        }
                    }
                }
            }
            return None;
        }
    }
    None
}

/// Rewrites one element of an XML document.
///
/// The document is read as a stream of events. The self-closing element
/// `<content/>` is written once: in place of the first self-closing element
/// named `target`, or right after the first opening tag named `root`,
/// whichever comes first. Every other self-closing element named `target` is
/// left out, and every other event is written back as it was read.
///
/// Malformed input is refused and nothing is returned of what had been
/// written until then. The input is malformed where it is not UTF-8, where
/// the parser stops on it, where it ends inside a tag, and where it ends with
/// an element still open.
pub fn rewrite_element(xml: &[u8], root: &[u8], target: &[u8], content: &[u8]) -> (result: Result<
    Vec<u8>,
    ParseError,
>)
    ensures
        match result {
            Ok(out) => {
                &&& refused(xml@) is None
                &&& out@ == render(rewritten(scan(xml@).events, root@, target@, content@))
            },
            Err(e) => refused(xml@) == Some((e.cause.kind(), e.position)),
        },
{
    if let Some(at) = first_ill_formed(xml) {
        return Err(ParseError { position: at, cause: ParseCause::InvalidUtf8 });
    }
    let mut reader = open_reader(xml);
    let size = xml.len();
    let mut out: Vec<u8> = Vec::new();
    let mut placed = false;
    let mut opened: usize = 0;
    let mut closed: usize = 0;
    let ghost mut seen: Seq<EventView> = Seq::empty();
    proof {
        assert(seen + pending(reader).events =~= scan(xml@).events);
    }
    loop
        invariant
            ill_formed_at(xml@) is None,
            size == xml@.len(),
            pending(reader).fault == scan(xml@).fault,
            seen + pending(reader).events == scan(xml@).events,
            scan(xml@).events.len() <= size,
            placed == (anchor(seen, root@, target@) < seen.len()),
            opened == count_of(seen, EventKind::Start),
            closed == count_of(seen, EventKind::End),
            out@ == render(rewritten(seen, root@, target@, content@)),
        decreases pending(reader).events.len(),
    {
        let ghost before = pending(reader).events;
        match next_event(&mut reader) {
            Ok(Some(ev)) => {
                proof {
                    lemma_rewritten_push(seen, ev@, root@, target@, content@);
                    lemma_render_push(rewritten(seen, root@, target@, content@), ev@);
                    lemma_render_push(seen, substitute(content@));
                    lemma_render_push(seen, ev@);
                    lemma_render_push(seen.push(ev@), substitute(content@));
                    assert(seen.push(ev@) + before.skip(1) =~= seen + before);
                    assert(seen.push(ev@).drop_last() =~= seen);
                    lemma_count_of(seen, EventKind::Start);
                    lemma_count_of(seen, EventKind::End);
                    assert(seen.len() < scan(xml@).events.len());
                }
                let target_here = match ev.kind {
                    EventKind::Empty => is_named(ev.content.as_slice(), target),
                    _ => false,
                };
                let root_here = match ev.kind {
                    EventKind::Start => is_named(ev.content.as_slice(), root),
                    _ => false,
                };
                match ev.kind {
                    EventKind::Start => {
                        opened += 1;
                    },
                    EventKind::End => {
                        closed += 1;
                    },
                    _ => {},
                }
                if target_here {
                    if !placed {
                        write_markup(&mut out, EventKind::Empty, content);
                        placed = true;
                    }
                } else if root_here && !placed {
                    write_markup(&mut out, ev.kind, ev.content.as_slice());
                    write_markup(&mut out, EventKind::Empty, content);
                    placed = true;
                } else {
                    write_markup(&mut out, ev.kind, ev.content.as_slice());
                }
                proof {
                    seen = seen.push(ev@);
                }
            },
            Ok(None) => {
                proof {
                    assert(seen + before =~= seen);
                }
                if let Some(at) = open_tag_at_end(xml) {
                    proof {
                        lemma_open_tag_is_one(xml@, at as int);
                    }
                    return Err(ParseError { position: at, cause: ParseCause::EndsInsideTag });
                }
                if opened != closed {
                    return Err(ParseError { position: xml.len(), cause: ParseCause::Unclosed });
                }
                return Ok(out);
            },
            Err(e) => {
                return Err(ParseError { position: e.0, cause: ParseCause::Parser(e.1) });
            },
        }
    }
}

/// The qualified name of the root element of a settings document.
pub const SETTINGS_ROOT: &'static str = "w:settings";

/// The qualified name of the document protection element.
pub const PROTECTION_NAME: &'static str = "w:documentProtection";

/// One attribute as it stands in a tag: a space, the name, and the value
/// between double quotes, verbatim.
pub open spec fn attribute_markup(name: Seq<u8>, value: Seq<u8>) -> Seq<u8> {
    " ".spec_bytes() + name + "=\"".spec_bytes() + value + "\"".spec_bytes()
}

/// The content of the document protection element: its name and its nine
/// attributes, in this order. The hash and the salt are fixed values that
/// belong to no password; the element marks a document as read-only and
/// protects nothing.
pub open spec fn protection_element() -> Seq<u8> {
    PROTECTION_NAME.spec_bytes()
        + attribute_markup("w:edit".spec_bytes(), "readOnly".spec_bytes())
        + attribute_markup("w:enforcement".spec_bytes(), "1".spec_bytes())
        + attribute_markup("w:cryptProviderType".spec_bytes(), "rsaFull".spec_bytes())
        + attribute_markup("w:cryptAlgorithmClass".spec_bytes(), "hash".spec_bytes())
        + attribute_markup("w:cryptAlgorithmType".spec_bytes(), "typeAny".spec_bytes())
        + attribute_markup("w:cryptAlgorithmSid".spec_bytes(), "4".spec_bytes())
        + attribute_markup("w:cryptSpinCount".spec_bytes(), "0".spec_bytes())
        + attribute_markup("w:hash".spec_bytes(), "i1Ge4q/1mFrm4dpp3YwuD26Jte4=".spec_bytes())
        + attribute_markup("w:salt".spec_bytes(), "ql69CaZ9XBh8gn1wvmwi+Q==".spec_bytes())
}

/// A settings document after the edit, as bytes: its events with the
/// document protection element in place, written back as markup.
pub open spec fn readonly_settings(xml: Seq<u8>) -> Seq<u8> {
    render(
        rewritten(
            scan(xml).events,
            SETTINGS_ROOT.spec_bytes(),
            PROTECTION_NAME.spec_bytes(),
            protection_element(),
        ),
    )
}

/// The document protection element carries its own name.
pub proof fn protection_element_is_named()
    ensures
        element_name(protection_element()) == PROTECTION_NAME.spec_bytes(),
{
    reveal_strlit("w:documentProtection");
    reveal_strlit(" ");
    let name = PROTECTION_NAME.spec_bytes();
    let whole = protection_element();
    assert(vstd::utf8::is_ascii_chars(PROTECTION_NAME@));
    vstd::utf8::is_ascii_chars_encode_utf8(PROTECTION_NAME@);
    vstd::utf8::is_ascii_chars_encode_utf8(" "@);
    let rest = whole.skip(name.len() as int);
    assert(whole =~= name + rest);
    assert(rest[0] == " ".spec_bytes()[0]);
    lemma_name_before_space(name, rest);
}

/// Marking a settings document as read-only leaves exactly one document
/// protection element in it, the fixed one, and alters no other event.
///
/// This holds of every document that has a `w:settings` opening tag or a
/// `w:documentProtection` element.
pub proof fn settings_protected_once(evs: Seq<EventView>)
    requires
        anchor(evs, SETTINGS_ROOT.spec_bytes(), PROTECTION_NAME.spec_bytes()) < evs.len(),
    ensures
        ({
            let out = rewritten(
                evs,
                SETTINGS_ROOT.spec_bytes(),
                PROTECTION_NAME.spec_bytes(),
                protection_element(),
            );
            &&& out.filter(targets(PROTECTION_NAME.spec_bytes())) == seq![
                substitute(protection_element()),
            ]
            &&& out.filter(others(PROTECTION_NAME.spec_bytes())) == evs.filter(
                others(PROTECTION_NAME.spec_bytes()),
            )
        }),
{
    protection_element_is_named();
    exactly_one_target(
        evs,
        SETTINGS_ROOT.spec_bytes(),
        PROTECTION_NAME.spec_bytes(),
        protection_element(),
    );
}

/// Marking a document as read-only twice gives what marking it once gives,
/// for every document that the parser reads back as it was written: one whose
/// edited bytes scan to the edited events.
pub proof fn readonly_settings_is_idempotent(xml: Seq<u8>)
    ensures
        scan(readonly_settings(xml)).events == rewritten(
            scan(xml).events,
            SETTINGS_ROOT.spec_bytes(),
            PROTECTION_NAME.spec_bytes(),
            protection_element(),
        ) ==> readonly_settings(readonly_settings(xml)) == readonly_settings(xml),
{
    protection_element_is_named();
    rewrite_is_idempotent(
        scan(xml).events,
        SETTINGS_ROOT.spec_bytes(),
        PROTECTION_NAME.spec_bytes(),
        protection_element(),
    );
}

/// Appends one attribute of the document protection element to the content
/// of its tag. The value is written as it is given: none of the nine fixed
/// values holds a character that markup would have to escape.
fn push_attribute(content: &mut Vec<u8>, name: &str, value: &str)
    ensures
        final(content)@ == old(content)@ + attribute_markup(name.spec_bytes(), value.spec_bytes()),
{
    append(content, " ".as_bytes());
    append(content, name.as_bytes());
    append(content, "=\"".as_bytes());
    append(content, value.as_bytes());
    append(content, "\"".as_bytes());
    proof {
        assert(content@ =~= old(content)@ + attribute_markup(
            name.spec_bytes(),
            value.spec_bytes(),
        ));
    }
}

/// Builds the content of the document protection element.
pub fn protection_element_content() -> (content: Vec<u8>)
    ensures
        content@ == protection_element(),
{
    let mut content: Vec<u8> = Vec::new();
    append(&mut content, PROTECTION_NAME.as_bytes());
    proof {
        assert(content@ =~= PROTECTION_NAME.spec_bytes());
    }
    push_attribute(&mut content, "w:edit", "readOnly");
    push_attribute(&mut content, "w:enforcement", "1");
    push_attribute(&mut content, "w:cryptProviderType", "rsaFull");
    push_attribute(&mut content, "w:cryptAlgorithmClass", "hash");
    push_attribute(&mut content, "w:cryptAlgorithmType", "typeAny");
    push_attribute(&mut content, "w:cryptAlgorithmSid", "4");
    push_attribute(&mut content, "w:cryptSpinCount", "0");
    push_attribute(&mut content, "w:hash", "i1Ge4q/1mFrm4dpp3YwuD26Jte4=");
    push_attribute(&mut content, "w:salt", "ql69CaZ9XBh8gn1wvmwi+Q==");
    content
}

/// Marks a settings document as read-only.
///
/// The document protection element, with exactly its nine fixed attributes,
/// is written once: in place of the first `w:documentProtection` element of the
/// input, or as the first child of the first `w:settings` element, whichever
/// comes first. Every other `w:documentProtection` element is left out; nothing
/// else changes.
///
/// Malformed input is refused, with the offset of the fault: input that is
/// not UTF-8, input on which the parser stops, input that ends inside a tag,
/// and input that ends with an element still open.
pub fn apply_settings_readonly(settings_xml_bytes: &[u8]) -> (result: Result<Vec<u8>, ParseError>)
    ensures
        match result {
            Ok(out) => {
                &&& refused(settings_xml_bytes@) is None
                &&& out@ == readonly_settings(settings_xml_bytes@)
            },
            Err(e) => refused(settings_xml_bytes@) == Some((e.cause.kind(), e.position)),
        },
{
    let content = protection_element_content();
    rewrite_element(
        settings_xml_bytes,
        SETTINGS_ROOT.as_bytes(),
        PROTECTION_NAME.as_bytes(),
        content.as_slice(),
    )
}

} // verus!

//! The event view of an XML document: what a tag or a run of text is, where
//! the name of a tag ends, and how events are written back as markup.

use vstd::prelude::*;
use vstd::string::StringSliceAdditionalSpecFns;

verus! {

/// The kind of one piece of an XML document.
#[derive(Clone, Copy, Debug, PartialEq, Eq, Structural)]
pub enum EventKind {
    /// An opening tag, `<name ...>`.
    Start,
    /// A closing tag, `</name>`.
    End,
    /// A self-closing tag, `<name .../>`.
    Empty,
    /// Character data between tags.
    Text,
    /// A `<![CDATA[...]]>` section.
    CData,
    /// A comment, `<!--...-->`.
    Comment,
    /// The XML declaration, `<?xml ...?>`.
    Decl,
    /// A processing instruction, `<?...?>`.
    PI,
    /// A document type declaration, `<!DOCTYPE ...>`.
    DocType,
}

/// One piece of an XML document: its kind and the bytes between its
/// delimiters. For a tag the content is the name followed by the attributes
/// as they were written.
#[derive(Debug)]
pub struct XmlEvent {
    pub kind: EventKind,
    pub content: Vec<u8>,
}

/// The mathematical value of an [`XmlEvent`].
pub struct EventView {
    pub kind: EventKind,
    pub content: Seq<u8>,
}

impl View for XmlEvent {
    type V = EventView;

    open spec fn view(&self) -> EventView {
        EventView { kind: self.kind, content: self.content@ }
    }
}

/// White space as it ends a name inside a tag: space, tab, line feed,
/// carriage return.
pub open spec fn is_name_end(byte: u8) -> bool {
    byte == 0x20 || byte == 0x09 || byte == 0x0a || byte == 0x0d
}

/// The number of leading bytes of `content` that are not white space.
pub open spec fn name_len(content: Seq<u8>) -> int
    decreases content.len(),
{
    if content.len() == 0 || is_name_end(content[0]) {
        0
    } else {
        1 + name_len(content.drop_first())
    }
}

/// The qualified name of a tag: its content up to the first white space.
pub open spec fn element_name(content: Seq<u8>) -> Seq<u8> {
    content.take(name_len(content))
}

/// `name_len` is the index of the first white space byte, or the length
/// where there is none.
pub proof fn lemma_name_len(content: Seq<u8>)
    ensures
        0 <= name_len(content) <= content.len(),
        forall|k: int| 0 <= k < name_len(content) ==> !is_name_end(#[trigger] content[k]),
        name_len(content) < content.len() ==> is_name_end(content[name_len(content)]),
    decreases content.len(),
{
    if content.len() == 0 || is_name_end(content[0]) {
    } else {
        let rest = content.drop_first();
        lemma_name_len(rest);
        assert forall|k: int| 0 <= k < name_len(content) implies !is_name_end(
            #[trigger] content[k],
        ) by {
            if k > 0 {
                assert(content[k] == rest[k - 1]);
            }
        }
    }
}

/// A name that holds no white space and is followed by white space, or by
/// nothing, is the qualified name of what it begins.
pub proof fn lemma_name_before_space(name: Seq<u8>, rest: Seq<u8>)
    requires
        forall|k: int| 0 <= k < name.len() ==> !is_name_end(#[trigger] name[k]),
        rest.len() > 0 ==> is_name_end(rest[0]),
    ensures
        element_name(name + rest) == name,
{
    let content = name + rest;
    lemma_name_len(content);
    let n = name_len(content);
    if n < name.len() {
        assert(content[n] == name[n]);
    } else if n > name.len() {
        assert(content[name.len() as int] == rest[0]);
    }
    assert(content.take(n) =~= name);
}

/// Whether a byte ends a name inside a tag.
pub fn ends_name(byte: u8) -> (ends: bool)
    ensures
        ends == is_name_end(byte),
{
    byte == 0x20 || byte == 0x09 || byte == 0x0a || byte == 0x0d
}

/// The length of the qualified name at the head of a tag's content.
pub fn name_length(content: &[u8]) -> (n: usize)
    ensures
        n == name_len(content@),
{
    let mut n: usize = 0;
    proof {
        assert(content@.skip(0) =~= content@);
    }
    while n < content.len() && !ends_name(content[n])
        invariant
            n <= content.len(),
            name_len(content@) == n + name_len(content@.skip(n as int)),
        decreases content.len() - n,
    {
        proof {
            let tail = content@.skip(n as int);
            assert(tail[0] == content@[n as int]);
            assert(tail.drop_first() =~= content@.skip(n + 1));
        }
        n += 1;
    }
    proof {
        if n < content.len() {
            assert(content@.skip(n as int)[0] == content@[n as int]);
        }
    }
    n
}

/// Whether two byte strings hold the same bytes.
pub fn bytes_eq(a: &[u8], b: &[u8]) -> (same: bool)
    ensures
        same == (a@ == b@),
{
    if a.len() != b.len() {
        return false;
    }
    let mut i: usize = 0;
    while i < a.len()
        invariant
            a.len() == b.len(),
            i <= a.len(),
            forall|k: int| 0 <= k < i ==> a@[k] == b@[k],
        decreases a.len() - i,
    {
        if a[i] != b[i] {
            return false;
        }
        i += 1;
    }
    proof {
        assert(a@ =~= b@);
    }
    true
}

/// The bytes that open a piece of markup of the given kind.
pub open spec fn opening(kind: EventKind) -> Seq<u8> {
    match kind {
        EventKind::Start | EventKind::Empty => "<".spec_bytes(),
        EventKind::End => "</".spec_bytes(),
        EventKind::Text => Seq::empty(),
        EventKind::CData => "<![CDATA[".spec_bytes(),
        EventKind::Comment => "<!--".spec_bytes(),
        EventKind::Decl | EventKind::PI => "<?".spec_bytes(),
        EventKind::DocType => "<!DOCTYPE ".spec_bytes(),
    }
}

/// The bytes that close a piece of markup of the given kind.
pub open spec fn closing(kind: EventKind) -> Seq<u8> {
    match kind {
        EventKind::Start | EventKind::End | EventKind::DocType => ">".spec_bytes(),
        EventKind::Empty => "/>".spec_bytes(),
        EventKind::Text => Seq::empty(),
        EventKind::CData => "]]>".spec_bytes(),
        EventKind::Comment => "-->".spec_bytes(),
        EventKind::Decl | EventKind::PI => "?>".spec_bytes(),
    }
}

/// One event written as markup: its content between the delimiters of its
/// kind, byte for byte.
pub open spec fn markup(ev: EventView) -> Seq<u8> {
    opening(ev.kind) + ev.content + closing(ev.kind)
}

/// A sequence of events written as markup, one after the other, with nothing
/// in between.
pub open spec fn render(evs: Seq<EventView>) -> Seq<u8>
    decreases evs.len(),
{
    if evs.len() == 0 {
        Seq::empty()
    } else {
        render(evs.drop_last()) + markup(evs.last())
    }
}

/// Rendering a stream with one more event at its end.
pub proof fn lemma_render_push(evs: Seq<EventView>, ev: EventView)
    ensures
        render(evs.push(ev)) == render(evs) + markup(ev),
{
    assert(evs.push(ev).drop_last() =~= evs);
}

/// Appends `bytes` to `out`.
pub fn append(out: &mut Vec<u8>, bytes: &[u8])
    ensures
        final(out)@ == old(out)@ + bytes@,
{
    out.extend_from_slice(bytes);
    proof {
        assert(out@ =~= old(out)@ + bytes@);
    }
}

/// Appends the markup of one event to `out`.
pub fn write_markup(out: &mut Vec<u8>, kind: EventKind, content: &[u8])
    ensures
        final(out)@ == old(out)@ + markup(EventView { kind, content: content@ }),
{
    let open: &str = match kind {
        EventKind::Start | EventKind::Empty => "<",
        EventKind::End => "</",
        EventKind::Text => "",
        EventKind::CData => "<![CDATA[",
        EventKind::Comment => "<!--",
        EventKind::Decl | EventKind::PI => "<?",
        EventKind::DocType => "<!DOCTYPE ",
    };
    let close: &str = match kind {
        EventKind::Start | EventKind::End | EventKind::DocType => ">",
        EventKind::Empty => "/>",
        EventKind::Text => "",
        EventKind::CData => "]]>",
        EventKind::Comment => "-->",
        EventKind::Decl | EventKind::PI => "?>",
    };
    proof {
        reveal_strlit("");
        assert("".spec_bytes() =~= Seq::<u8>::empty());
    }
    append(out, open.as_bytes());
    append(out, content);
    append(out, close.as_bytes());
    proof {
        assert(out@ =~= old(out)@ + (opening(kind) + content@ + closing(kind)));
    }
}

} // verus!

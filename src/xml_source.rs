//! A pull source of XML tokens over a byte buffer, backed by quick_xml.
use vstd::prelude::*;
use quick_xml::events::Event;
use quick_xml::reader::Reader;

verus! {

#[verifier::external_type_specification]
#[verifier::external_body]
#[verifier::reject_recursive_types(R)]
pub struct ExReader<R>(Reader<R>);

/// The shape of one parse event.
#[derive(Clone, Copy, Debug, PartialEq, Eq, Structural)]
pub enum TokenKind {
    /// `<name ...>`
    Open,
    /// `</name>`
    Close,
    /// `<name .../>`
    Empty,
    /// Text, references, comments, CDATA, declarations, processing
    /// instructions and document types.
    Other,
    /// The end of the input.
    Finish,
}

/// What the parser reports for the event read after `index` earlier ones on
/// `doc`: `None` for a syntax error, else its kind and the local name of the
/// element it opens or closes (empty for other kinds).
pub uninterp spec fn xml_event_at(doc: Seq<u8>, index: nat) -> Option<(TokenKind, Seq<u8>)>;

/// What the parser reports as its position in `doc` after the first `count`
/// events. It need not be a true offset: a leading byte order mark is
/// skipped without being counted.
pub uninterp spec fn xml_offset_after(doc: Seq<u8>, count: nat) -> int;

/// A parser over `doc`, with the number of events read so far.
pub(crate) struct XmlSource<'a> {
    reader: Reader<&'a [u8]>,
    doc: Ghost<Seq<u8>>,
    count: Ghost<nat>,
}

impl<'a> XmlSource<'a> {
    /// The input being parsed.
    pub(crate) closed spec fn doc(&self) -> Seq<u8> {
        self.doc@
    }

    /// The number of events read so far.
    pub(crate) closed spec fn count(&self) -> nat {
        self.count@
    }

    /// Relies on quick_xml::reader::Reader::from_reader: a parser at the start
    /// of `doc`, with the default configuration.
    #[verifier::external_body]
    pub(crate) fn new(doc: &'a [u8]) -> (r: Self)
        ensures
            r.doc() == doc@,
            r.count() == 0,
    {
        XmlSource { reader: Reader::from_reader(doc), doc: Ghost(doc@), count: Ghost(0) }
    }

    /// Relies on quick_xml::reader::Reader::read_event: the next event of the
    /// document, with the element's local name taken from it.
    #[verifier::external_body]
    pub(crate) fn next_event(&mut self) -> (r: Option<(TokenKind, Vec<u8>)>)
        ensures
            final(self).doc() == old(self).doc(),
            final(self).count() == old(self).count() + 1,
            match r {
                None => xml_event_at(old(self).doc(), old(self).count()) is None,
                Some(ev) => xml_event_at(old(self).doc(), old(self).count()) == Some((ev.0, ev.1@)),
            },
    {
        match self.reader.read_event() {
            Ok(Event::Start(e)) => Some((TokenKind::Open, e.local_name().into_inner().as_bytes().to_vec())),
            Ok(Event::End(e)) => Some((TokenKind::Close, e.local_name().into_inner().as_bytes().to_vec())),
            Ok(Event::Empty(e)) => Some((TokenKind::Empty, e.local_name().into_inner().as_bytes().to_vec())),
            Ok(Event::Eof) => Some((TokenKind::Finish, Vec::new())),
            Ok(_) => Some((TokenKind::Other, Vec::new())),
            Err(_) => None,
        }
    }

    /// Relies on quick_xml::reader::Reader::buffer_position: the offset in the
    /// input just after the last event read.
    #[verifier::external_body]
    pub(crate) fn offset(&self) -> (r: u64)
        ensures
            r == xml_offset_after(self.doc(), self.count()),
    {
        self.reader.buffer_position()
    }
}

} // verus!

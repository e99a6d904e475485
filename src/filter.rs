//! Removal of every element with a given local name, with its subtree, from
//! an XML document, copying all other input bytes unchanged.
use vstd::prelude::*;
use vstd::slice::slice_subrange;
use crate::bytes::{append_range, bytes_equal, copy_bytes};
use crate::xml_source::{xml_event_at, xml_offset_after, TokenKind, XmlSource};

verus! {

/// One parse event: its kind, the local name of the element it opens or
/// closes, and the input bytes it was read from.
pub struct Token {
    pub kind: TokenKind,
    pub name: Seq<u8>,
    pub text: Seq<u8>,
}

/// Why a document could not be filtered.
#[derive(Clone, Copy, Debug, PartialEq, Eq, Structural)]
pub enum StripError {
    /// The parser rejected the markup that starts at `offset`.
    Syntax { offset: u64 },
    /// A closing tag at `offset` has no open element to close.
    Unbalanced { offset: u64 },
    /// The input, of length `offset`, ended while elements were still open.
    Unclosed { offset: u64 },
    /// The parser reported a position at `offset` that does not move forward
    /// within the input.
    Stalled { offset: u64 },
}

/// `t` starts an element named `tag` that has content.
pub open spec fn opens_tag(t: Token, tag: Seq<u8>) -> bool {
    t.kind == TokenKind::Open && t.name == tag
}

/// `t` starts an element named `tag`, with or without content.
pub open spec fn marks_tag(t: Token, tag: Seq<u8>) -> bool {
    (t.kind == TokenKind::Open || t.kind == TokenKind::Empty) && t.name == tag
}

/// How many elements of the subtree being removed are still open after
/// `toks`; zero when no removal is in progress.
pub open spec fn skip_depth(toks: Seq<Token>, tag: Seq<u8>) -> nat
    decreases toks.len(),
{
    if toks.len() == 0 {
        0
    } else {
        let d = skip_depth(toks.drop_last(), tag);
        let t = toks.last();
        if d == 0 {
            if opens_tag(t, tag) {
                1
            } else {
                0
            }
        } else if t.kind == TokenKind::Open {
            d + 1
        } else if t.kind == TokenKind::Close {
            (d - 1) as nat
        } else {
            d
        }
    }
}

/// Whether the token that follows `prefix` is copied to the output.
pub open spec fn keeps(prefix: Seq<Token>, t: Token, tag: Seq<u8>) -> bool {
    skip_depth(prefix, tag) == 0 && !marks_tag(t, tag)
}

/// The tokens of `toks` that lie outside every element named `tag`.
pub open spec fn kept(toks: Seq<Token>, tag: Seq<u8>) -> Seq<Token>
    decreases toks.len(),
{
    if toks.len() == 0 {
        seq![]
    } else if keeps(toks.drop_last(), toks.last(), tag) {
        kept(toks.drop_last(), tag).push(toks.last())
    } else {
        kept(toks.drop_last(), tag)
    }
}

/// The input bytes of `toks`, in order.
pub open spec fn texts(toks: Seq<Token>) -> Seq<u8>
    decreases toks.len(),
{
    if toks.len() == 0 {
        seq![]
    } else {
        texts(toks.drop_last()) + toks.last().text
    }
}

/// Elements opened and not yet closed after `toks`.
pub open spec fn open_depth(toks: Seq<Token>) -> int
    decreases toks.len(),
{
    if toks.len() == 0 {
        0
    } else {
        let d = open_depth(toks.drop_last());
        if toks.last().kind == TokenKind::Open {
            d + 1
        } else if toks.last().kind == TokenKind::Close {
            d - 1
        } else {
            d
        }
    }
}

/// The event read after `i` earlier ones on `doc`, with its bytes.
pub open spec fn doc_token(doc: Seq<u8>, i: nat) -> Token {
    let ev = xml_event_at(doc, i).unwrap();
    Token {
        kind: ev.0,
        name: ev.1,
        text: doc.subrange(xml_offset_after(doc, i), xml_offset_after(doc, i + 1)),
    }
}

/// The first `n` events of `doc`.
pub open spec fn doc_tokens(doc: Seq<u8>, n: nat) -> Seq<Token> {
    Seq::new(n, |i: int| doc_token(doc, i as nat))
}

/// `doc` begins with the UTF-8 byte order mark.
pub open spec fn has_bom(doc: Seq<u8>) -> bool {
    doc.len() >= 3 && doc[0] == 0xEFu8 && doc[1] == 0xBBu8 && doc[2] == 0xBFu8
}

/// The length of the byte order mark that `doc` begins with.
pub open spec fn bom_len(doc: Seq<u8>) -> nat {
    if has_bom(doc) {
        3
    } else {
        0
    }
}

/// The XML of `doc`: what follows its byte order mark, if any.
pub open spec fn body(doc: Seq<u8>) -> Seq<u8> {
    doc.subrange(bom_len(doc) as int, doc.len() as int)
}

/// Event `i` of `body` is an element or text event that moves forward within
/// the input and closes only an element that is open.
pub open spec fn continues(body: Seq<u8>, i: nat) -> bool {
    match xml_event_at(body, i) {
        Some(ev) => ev.0 != TokenKind::Finish && xml_offset_after(body, i) < xml_offset_after(
            body,
            i + 1,
        ) <= body.len() && !(ev.0 == TokenKind::Close && open_depth(doc_tokens(body, i)) <= 0),
        None => false,
    }
}

/// The result of filtering `doc` when event `n` of its body is the first
/// that does not continue. Offsets count from the start of `doc`.
pub open spec fn outcome(doc: Seq<u8>, n: nat, tag: Seq<u8>) -> Result<Seq<u8>, StripError> {
    let b = body(doc);
    let at = (bom_len(doc) + xml_offset_after(b, n)) as u64;
    match xml_event_at(b, n) {
        None => Err(StripError::Syntax { offset: at }),
        Some(ev) => if ev.0 == TokenKind::Finish {
            if xml_offset_after(b, n) != b.len() {
                Err(StripError::Stalled { offset: at })
            } else if open_depth(doc_tokens(b, n)) != 0 {
                Err(StripError::Unclosed { offset: doc.len() as u64 })
            } else {
                Ok(doc.subrange(0, bom_len(doc) as int) + texts(kept(doc_tokens(b, n), tag)))
            }
        } else if !(xml_offset_after(b, n) < xml_offset_after(b, n + 1) <= b.len()) {
            Err(StripError::Stalled { offset: at })
        } else {
            Err(StripError::Unbalanced { offset: at })
        },
    }
}

/// Filtering stops at event `n` of the body of `doc` with result `r`.
pub open spec fn stops_at(doc: Seq<u8>, tag: Seq<u8>, n: nat, r: Result<Seq<u8>, StripError>) -> bool {
    &&& forall|i: nat| i < n ==> continues(body(doc), i)
    &&& !continues(body(doc), n)
    &&& outcome(doc, n, tag) == r
}

/// Filtering `doc` for `tag` gives `r`. The parser must start at the first
/// byte of the body, and reach its last byte before the end of input.
pub open spec fn strips_to(doc: Seq<u8>, tag: Seq<u8>, r: Result<Seq<u8>, StripError>) -> bool {
    if xml_offset_after(body(doc), 0) == 0 {
        exists|n: nat| #[trigger] stops_at(doc, tag, n, r)
    } else {
        r == Err::<Seq<u8>, StripError>(
            StripError::Stalled { offset: bom_len(doc) as u64 },
        )
    }
}

/// The view of a filtering result.
pub open spec fn result_view(r: Result<Vec<u8>, StripError>) -> Result<Seq<u8>, StripError> {
    match r {
        Ok(v) => Ok(v@),
        Err(e) => Err(e),
    }
}

proof fn lemma_kept_unmarked(toks: Seq<Token>, tag: Seq<u8>)
    ensures
        forall|i: int| 0 <= i < kept(toks, tag).len() ==> !marks_tag(#[trigger] kept(toks, tag)[i], tag),
    decreases toks.len(),
{
    if toks.len() > 0 {
        let p = toks.drop_last();
        lemma_kept_unmarked(p, tag);
        if keeps(p, toks.last(), tag) {
            let k = kept(toks, tag);
            assert forall|i: int| 0 <= i < k.len() implies !marks_tag(#[trigger] k[i], tag) by {
                if i < k.len() - 1 {
                    assert(k[i] == kept(p, tag)[i]);
                }
            }
        }
    }
}

proof fn lemma_unmarked_all_kept(toks: Seq<Token>, tag: Seq<u8>)
    requires
        forall|i: int| 0 <= i < toks.len() ==> !marks_tag(#[trigger] toks[i], tag),
    ensures
        skip_depth(toks, tag) == 0,
        kept(toks, tag) == toks,
    decreases toks.len(),
{
    if toks.len() > 0 {
        let p = toks.drop_last();
        assert forall|i: int| 0 <= i < p.len() implies !marks_tag(#[trigger] p[i], tag) by {
            assert(p[i] == toks[i]);
        }
        lemma_unmarked_all_kept(p, tag);
        assert(!marks_tag(toks[toks.len() - 1], tag));
        assert(p.push(toks.last()) =~= toks);
    }
}

/// Removing `tag` leaves no element named `tag`, so removing it a second
/// time from the tokens that are left keeps all of them.
pub proof fn lemma_strip_idempotent(toks: Seq<Token>, tag: Seq<u8>)
    ensures
        forall|i: int| 0 <= i < kept(toks, tag).len() ==> !marks_tag(#[trigger] kept(toks, tag)[i], tag),
        kept(kept(toks, tag), tag) == kept(toks, tag),
{
    lemma_kept_unmarked(toks, tag);
    lemma_unmarked_all_kept(kept(toks, tag), tag);
}

/// Every token of `toks` closes only an element that is open.
pub open spec fn nests(toks: Seq<Token>) -> bool
    decreases toks.len(),
{
    toks.len() == 0 || (nests(toks.drop_last()) && (toks.last().kind == TokenKind::Close
        ==> open_depth(toks.drop_last()) > 0))
}

proof fn lemma_doc_tokens_nest(b: Seq<u8>, n: nat)
    requires
        forall|i: nat| i < n ==> continues(b, i),
    ensures
        nests(doc_tokens(b, n)),
    decreases n,
{
    if n == 0 {
        assert(doc_tokens(b, 0).len() == 0);
    } else {
        let m = (n - 1) as nat;
        lemma_doc_tokens_nest(b, m);
        lemma_doc_tokens_push(b, m);
        assert(continues(b, m));
    }
}

/// Removing whole elements keeps the nesting: the kept tokens close only
/// open elements, and leave open those left open by the tokens outside the
/// removal in progress.
pub proof fn lemma_kept_nests(toks: Seq<Token>, tag: Seq<u8>)
    requires
        nests(toks),
    ensures
        skip_depth(toks, tag) <= open_depth(toks),
        open_depth(kept(toks, tag)) == open_depth(toks) - skip_depth(toks, tag),
        nests(kept(toks, tag)),
    decreases toks.len(),
{
    if toks.len() > 0 {
        let p = toks.drop_last();
        lemma_kept_nests(p, tag);
        if keeps(p, toks.last(), tag) {
            let k = kept(toks, tag);
            assert(k.drop_last() == kept(p, tag));
        }
    }
}

proof fn lemma_texts_cover(b: Seq<u8>, n: nat)
    requires
        xml_offset_after(b, 0) == 0,
        forall|i: nat| i < n ==> continues(b, i),
    ensures
        0 <= xml_offset_after(b, n) <= b.len(),
        texts(doc_tokens(b, n)) == b.subrange(0, xml_offset_after(b, n)),
    decreases n,
{
    if n == 0 {
        assert(doc_tokens(b, 0) =~= Seq::<Token>::empty());
        assert(b.subrange(0, 0) =~= Seq::<u8>::empty());
    } else {
        let m = (n - 1) as nat;
        lemma_texts_cover(b, m);
        lemma_doc_tokens_push(b, m);
        assert(continues(b, m));
        assert(b.subrange(0, xml_offset_after(b, m)) + b.subrange(
            xml_offset_after(b, m),
            xml_offset_after(b, n),
        ) =~= b.subrange(0, xml_offset_after(b, n)));
    }
}

/// Filtering `doc` for `tag` succeeded with `out` through its first `n`
/// events: the parser read the body to its end without error, the elements
/// nest and are all closed, in the input and in the output, the events cover
/// the body byte for byte, and
/// `out` is the byte order mark, if any, followed by the kept events.
pub open spec fn succeeds_through(doc: Seq<u8>, tag: Seq<u8>, out: Seq<u8>, n: nat) -> bool {
    let toks = doc_tokens(body(doc), n);
    &&& forall|i: nat| i < n ==> (#[trigger] xml_event_at(body(doc), i)) is Some
    &&& xml_event_at(body(doc), n) matches Some(ev) && ev.0 == TokenKind::Finish
    &&& nests(toks)
    &&& open_depth(toks) == 0
    &&& nests(kept(toks, tag))
    &&& open_depth(kept(toks, tag)) == 0
    &&& texts(toks) == body(doc)
    &&& out == doc.subrange(0, bom_len(doc) as int) + texts(kept(toks, tag))
}

/// A document is filtered only when the parser reads it to its end without
/// error and its elements nest and are all closed. The output is then the
/// input with the removed events' bytes taken out, its elements still nest
/// and are all closed, and where no element is named `tag` it is the input
/// unchanged.
pub proof fn lemma_success_needs_well_formed(doc: Seq<u8>, tag: Seq<u8>, out: Seq<u8>)
    requires
        strips_to(doc, tag, Ok(out)),
    ensures
        exists|n: nat| #[trigger] succeeds_through(doc, tag, out, n),
        (forall|n: nat, i: int|
            succeeds_through(doc, tag, out, n) && 0 <= i < n
                ==> !marks_tag(#[trigger] doc_tokens(body(doc), n)[i], tag)) ==> out == doc,
{
    let b = body(doc);
    let n = choose|n: nat| #[trigger] stops_at(doc, tag, n, Ok(out));
    let toks = doc_tokens(b, n);
    assert forall|i: nat| i < n implies (#[trigger] xml_event_at(b, i)) is Some by {
        assert(continues(b, i));
    }
    lemma_doc_tokens_nest(b, n);
    lemma_kept_nests(toks, tag);
    lemma_texts_cover(b, n);
    assert(b.subrange(0, b.len() as int) =~= b);
    assert(succeeds_through(doc, tag, out, n));
    if forall|m: nat, i: int|
        succeeds_through(doc, tag, out, m) && 0 <= i < m
            ==> !marks_tag(#[trigger] doc_tokens(body(doc), m)[i], tag) {
        assert forall|i: int| 0 <= i < toks.len() implies !marks_tag(#[trigger] toks[i], tag) by {
            assert(succeeds_through(doc, tag, out, n));
        }
        lemma_unmarked_all_kept(toks, tag);
        assert(doc.subrange(0, bom_len(doc) as int) + b =~= doc);
    }
}

proof fn lemma_doc_tokens_push(doc: Seq<u8>, n: nat)
    ensures
        doc_tokens(doc, n + 1).drop_last() == doc_tokens(doc, n),
        doc_tokens(doc, n + 1).last() == doc_token(doc, n),
        doc_tokens(doc, n + 1).len() == n + 1,
{
    assert(doc_tokens(doc, n + 1).drop_last() =~= doc_tokens(doc, n));
}

/// A removal of the elements named by a tag, fed one event at a time; the
/// view is the sequence of events fed so far.
pub struct Stripper {
    tag: Vec<u8>,
    skip: u64,
    open: u64,
    out: Vec<u8>,
    tokens: Ghost<Seq<Token>>,
}

impl View for Stripper {
    type V = Seq<Token>;

    closed spec fn view(&self) -> Seq<Token> {
        self.tokens@
    }
}

impl Stripper {
    /// The local name of the elements removed.
    pub closed spec fn tag(&self) -> Seq<u8> {
        self.tag@
    }

    /// The counters and the output agree with the events fed so far.
    pub closed spec fn wf(&self) -> bool {
        &&& self.skip == skip_depth(self@, self.tag@)
        &&& self.open == open_depth(self@)
        &&& self.out@ == texts(kept(self@, self.tag@))
        &&& self.skip <= self.open <= self@.len()
    }

    /// A removal of `tag` before any event.
    pub fn new(tag: &[u8]) -> (r: Self)
        ensures
            r.wf(),
            r@ == Seq::<Token>::empty(),
            r.tag() == tag@,
    {
        Stripper { tag: copy_bytes(tag), skip: 0, open: 0, out: Vec::new(), tokens: Ghost(Seq::empty()) }
    }

    /// The number of elements opened and not yet closed.
    pub fn open_elements(&self) -> (r: u64)
        requires
            self.wf(),
        ensures
            r == open_depth(self@),
    {
        self.open
    }

    /// Takes the next event: copies `text` to the output unless the event
    /// lies in an element being removed or starts one.
    pub fn feed(&mut self, kind: TokenKind, name: &[u8], text: &[u8])
        requires
            old(self).wf(),
            kind != TokenKind::Finish,
            kind == TokenKind::Close ==> open_depth(old(self)@) > 0,
            old(self)@.len() < u64::MAX,
        ensures
            final(self).wf(),
            final(self).tag() == old(self).tag(),
            final(self)@ == old(self)@.push(Token { kind, name: name@, text: text@ }),
    {
        let ghost t = Token { kind, name: name@, text: text@ };
        let ghost prev = self@;
        let marked = (kind == TokenKind::Open || kind == TokenKind::Empty) && bytes_equal(
            name,
            self.tag.as_slice(),
        );
        if self.skip == 0 {
            if !marked {
                append_range(&mut self.out, text, 0, text.len());
                assert(text@.subrange(0, text@.len() as int) =~= text@);
            } else if kind == TokenKind::Open {
                self.skip = 1;
            }
        } else if kind == TokenKind::Open {
            self.skip = self.skip + 1;
        } else if kind == TokenKind::Close {
            self.skip = self.skip - 1;
        }
        if kind == TokenKind::Open {
            self.open = self.open + 1;
        } else if kind == TokenKind::Close {
            self.open = self.open - 1;
        }
        self.tokens = Ghost(prev.push(t));
        proof {
            let next = prev.push(t);
            assert(next.drop_last() =~= prev);
            assert(marked == marks_tag(t, self.tag@));
            if keeps(prev, t, self.tag@) {
                assert(kept(next, self.tag@).drop_last() == kept(prev, self.tag@));
            }
        }
    }

    /// The bytes of every event fed that lies outside the removed elements.
    pub fn into_output(self) -> (r: Vec<u8>)
        requires
            self.wf(),
        ensures
            r@ == texts(kept(self@, self.tag())),
    {
        self.out
    }
}

/// Removes from `doc` every element whose local name is `tag`, together with
/// everything up to its matching closing tag, and copies every other byte,
/// a leading byte order mark included.
pub fn strip_tag(doc: &[u8], tag: &[u8]) -> (r: Result<Vec<u8>, StripError>)
    ensures
        strips_to(doc@, tag@, result_view(r)),
{
    let bom: usize = if doc.len() >= 3 && doc[0] == 0xEFu8 && doc[1] == 0xBBu8 && doc[2] == 0xBFu8 {
        3
    } else {
        0
    };
    let b = slice_subrange(doc, bom, doc.len());
    assert(bom == bom_len(doc@) && b@ == body(doc@));
    let mut src = XmlSource::new(b);
    let len = b.len() as u64;
    let mut pos = src.offset();
    if pos != 0 {
        return Err(StripError::Stalled { offset: bom as u64 });
    }
    let mut st = Stripper::new(tag);
    let ghost mut n: nat = 0;
    loop
        invariant
            bom == bom_len(doc@),
            b@ == body(doc@),
            bom + b@.len() == doc@.len(),
            src.doc() == b@,
            src.count() == n,
            len == b@.len(),
            doc@.len() <= usize::MAX,
            pos == xml_offset_after(b@, n),
            pos <= len,
            xml_offset_after(b@, 0) == 0,
            forall|i: nat| i < n ==> continues(b@, i),
            st.wf(),
            st.tag() == tag@,
            st@ == doc_tokens(b@, n),
            n <= pos,
        decreases len - pos,
    {
        let ev = src.next_event();
        let at = pos + bom as u64;
        match ev {
            None => {
                assert(stops_at(doc@, tag@, n, result_view(Err(StripError::Syntax { offset: at }))));
                return Err(StripError::Syntax { offset: at });
            },
            Some((kind, name)) => {
                if kind == TokenKind::Finish {
                    if pos != len {
                        assert(stops_at(doc@, tag@, n, result_view(Err(StripError::Stalled { offset: at }))));
                        return Err(StripError::Stalled { offset: at });
                    } else if st.open_elements() != 0 {
                        let e = StripError::Unclosed { offset: doc.len() as u64 };
                        assert(stops_at(doc@, tag@, n, result_view(Err(e))));
                        return Err(e);
                    } else {
                        let kept_bytes = st.into_output();
                        let mut out: Vec<u8> = Vec::new();
                        append_range(&mut out, doc, 0, bom);
                        append_range(&mut out, kept_bytes.as_slice(), 0, kept_bytes.len());
                        assert(kept_bytes@.subrange(0, kept_bytes@.len() as int) =~= kept_bytes@);
                        assert(stops_at(doc@, tag@, n, result_view(Ok(out))));
                        return Ok(out);
                    }
                }
                let end = src.offset();
                if end <= pos || end > len {
                    assert(stops_at(doc@, tag@, n, result_view(Err(StripError::Stalled { offset: at }))));
                    return Err(StripError::Stalled { offset: at });
                }
                if kind == TokenKind::Close && st.open_elements() == 0 {
                    assert(stops_at(doc@, tag@, n, result_view(Err(StripError::Unbalanced { offset: at }))));
                    return Err(StripError::Unbalanced { offset: at });
                }
                proof {
                    lemma_doc_tokens_push(b@, n);
                }
                let text = slice_subrange(b, pos as usize, end as usize);
                st.feed(kind, name.as_slice(), text);
                pos = end;
                proof {
                    n = n + 1;
                }
            },
        }
    }
}

} // verus!

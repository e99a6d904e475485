//! Rewriting the parts of a package: the parts that a rule selects have its
//! element removed, every other part is copied as it stands.
use vstd::prelude::*;
use vstd::utf8::{encode_utf8, valid_utf8};
use crate::bytes::copy_bytes;
use crate::filter::{result_view, strip_tag, strips_to, StripError};
use crate::rules::{first_match, select_rule, Rule};

verus! {

/// Why a selected part could not be rewritten.
#[derive(Clone, Copy, Debug, PartialEq, Eq, Structural)]
pub enum EntryError {
    /// Its content is not UTF-8 text.
    InvalidEncoding,
    /// Its content is not well-formed XML.
    Xml(StripError),
    /// The rewritten content is not UTF-8 text.
    OutputEncoding,
}

/// Why a package could not be rewritten: the part at `index` failed.
#[derive(Clone, Copy, Debug, PartialEq, Eq, Structural)]
pub struct TranscodeError {
    pub index: usize,
    pub error: EntryError,
}

/// A part as read from the source package; `content` is `None` where it
/// could not be read.
pub struct Entry {
    pub name: String,
    pub content: Option<Vec<u8>>,
}

/// A part to be written to the new package.
pub struct Part {
    pub name: String,
    pub content: Vec<u8>,
}

/// Relies on std::str::from_utf8: it succeeds exactly on valid UTF-8.
#[verifier::external_body]
fn is_utf8(b: &[u8]) -> (r: bool)
    ensures
        r == valid_utf8(b@),
{
    std::str::from_utf8(b).is_ok()
}

/// Rewriting the part `name` with `content` under `rules` gives `r`: a part
/// that no rule selects is copied; a selected part must be UTF-8 text, and
/// loses the elements named by the first rule that selects it.
pub open spec fn rewrites_to(
    rules: Seq<Rule>,
    name: Seq<char>,
    content: Seq<u8>,
    r: Result<Seq<u8>, EntryError>,
) -> bool {
    match first_match(rules, name) {
        None => r == Ok::<Seq<u8>, EntryError>(content),
        Some(i) => if !valid_utf8(content) {
            r == Err::<Seq<u8>, EntryError>(EntryError::InvalidEncoding)
        } else {
            let tag = encode_utf8(rules[i as int].tag@);
            match r {
                Ok(v) => strips_to(content, tag, Ok(v)) && valid_utf8(v),
                Err(EntryError::Xml(e)) => strips_to(content, tag, Err(e)),
                Err(EntryError::OutputEncoding) => exists|v: Seq<u8>|
                    strips_to(content, tag, Ok(v)) && !valid_utf8(v),
                Err(EntryError::InvalidEncoding) => false,
            }
        },
    }
}

/// The view of a part's rewriting result.
pub open spec fn entry_view(r: Result<Vec<u8>, EntryError>) -> Result<Seq<u8>, EntryError> {
    match r {
        Ok(v) => Ok(v@),
        Err(e) => Err(e),
    }
}

/// The new content of the part `name`: the first rule that selects it names
/// the element removed from its XML; a part that no rule selects is copied.
pub fn transcode_entry(rules: &Vec<Rule>, name: &str, content: &[u8]) -> (r: Result<
    Vec<u8>,
    EntryError,
>)
    ensures
        rewrites_to(rules@, name@, content@, entry_view(r)),
{
    match select_rule(rules, name) {
        None => {
            let v = copy_bytes(content);
            assert(entry_view(Ok(v)) == Ok::<Seq<u8>, EntryError>(content@));
            Ok(v)
        },
        Some(i) => {
            if !is_utf8(content) {
                return Err(EntryError::InvalidEncoding);
            }
            let tag = rules[i].tag.as_str().as_bytes();
            let res = strip_tag(content, tag);
            match res {
                Ok(v) => {
                    assert(result_view(res) == Ok::<Seq<u8>, StripError>(v@));
                    if !is_utf8(v.as_slice()) {
                        return Err(EntryError::OutputEncoding);
                    }
                    Ok(v)
                },
                Err(e) => {
                    assert(result_view(res) == Err::<Seq<u8>, StripError>(e));
                    Err(EntryError::Xml(e))
                },
            }
        },
    }
}

/// The entries of `entries` that could be read, in order.
pub open spec fn readable(entries: Seq<Entry>) -> Seq<Entry>
    decreases entries.len(),
{
    if entries.len() == 0 {
        seq![]
    } else if entries.last().content is Some {
        readable(entries.drop_last()).push(entries.last())
    } else {
        readable(entries.drop_last())
    }
}

/// The part that `entry` becomes has content `out`.
pub open spec fn entry_rewrites_to(rules: Seq<Rule>, entry: Entry, out: Seq<u8>) -> bool {
    rewrites_to(rules, entry.name@, entry.content.unwrap()@, Ok(out))
}

/// `parts` is what `entries` become: one part for each readable entry, in
/// order, under the same name, with its rewritten content.
pub open spec fn parts_of(rules: Seq<Rule>, entries: Seq<Entry>, parts: Seq<Part>) -> bool {
    let src = readable(entries);
    &&& parts.len() == src.len()
    &&& forall|i: int|
        0 <= i < parts.len() ==> #[trigger] parts[i].name@ == src[i].name@ && entry_rewrites_to(
            rules,
            src[i],
            parts[i].content@,
        )
}

proof fn lemma_all_readable(entries: Seq<Entry>)
    requires
        forall|i: int| 0 <= i < entries.len() ==> (#[trigger] entries[i]).content is Some,
    ensures
        readable(entries) == entries,
    decreases entries.len(),
{
    if entries.len() > 0 {
        let p = entries.drop_last();
        assert forall|i: int| 0 <= i < p.len() implies (#[trigger] p[i]).content is Some by {
            assert(p[i] == entries[i]);
        }
        lemma_all_readable(p);
        assert(entries[entries.len() - 1].content is Some);
        assert(p.push(entries.last()) =~= entries);
    }
}

/// A rewritten package holds the names of the source entries that could be
/// read, in their order; when every entry could be read, exactly the names
/// of the source.
pub proof fn lemma_names_kept(rules: Seq<Rule>, entries: Seq<Entry>, parts: Seq<Part>)
    requires
        parts_of(rules, entries, parts),
    ensures
        parts.map_values(|p: Part| p.name@) == readable(entries).map_values(|e: Entry| e.name@),
        (forall|i: int| 0 <= i < entries.len() ==> (#[trigger] entries[i]).content is Some)
            ==> parts.map_values(|p: Part| p.name@) == entries.map_values(|e: Entry| e.name@),
{
    assert(parts.map_values(|p: Part| p.name@) =~= readable(entries).map_values(|e: Entry| e.name@));
    if forall|i: int| 0 <= i < entries.len() ==> (#[trigger] entries[i]).content is Some {
        lemma_all_readable(entries);
    }
}

/// In a rewritten package, every part whose name no rule selects holds the
/// bytes of its source entry unchanged.
pub proof fn lemma_unselected_bytes_kept(rules: Seq<Rule>, entries: Seq<Entry>, parts: Seq<Part>)
    requires
        parts_of(rules, entries, parts),
    ensures
        forall|i: int|
            0 <= i < parts.len() && first_match(rules, (#[trigger] parts[i]).name@) is None
                ==> parts[i].content@ == readable(entries)[i].content.unwrap()@,
{
}

proof fn lemma_readable_step(entries: Seq<Entry>, k: int)
    requires
        0 <= k < entries.len(),
    ensures
        readable(entries.take(k + 1)) == if entries[k].content is Some {
            readable(entries.take(k)).push(entries[k])
        } else {
            readable(entries.take(k))
        },
{
    assert(entries.take(k + 1).drop_last() =~= entries.take(k));
}

/// What becomes of `entry`: nothing where it could not be read, else a part
/// under the same name with its rewritten content.
pub fn rewrite_entry(rules: &Vec<Rule>, entry: &Entry) -> (r: Result<Option<Part>, EntryError>)
    ensures
        match entry.content {
            None => r matches Ok(None),
            Some(c) => match r {
                Ok(Some(p)) => p.name@ == entry.name@ && rewrites_to(rules@, entry.name@, c@, Ok(p.content@)),
                Ok(None) => false,
                Err(e) => rewrites_to(rules@, entry.name@, c@, Err(e)),
            },
        },
{
    match &entry.content {
        None => Ok(None),
        Some(content) => {
            let res = transcode_entry(rules, entry.name.as_str(), content.as_slice());
            match res {
                Ok(v) => {
                    assert(entry_view(res) == Ok::<Seq<u8>, EntryError>(v@));
                    Ok(Some(Part { name: entry.name.clone(), content: v }))
                },
                Err(e) => {
                    assert(entry_view(res) == Err::<Seq<u8>, EntryError>(e));
                    Err(e)
                },
            }
        },
    }
}

/// Rewrites every readable entry of `entries` in order, and leaves out the
/// entries that could not be read. The first entry whose rewriting fails
/// stops the run.
pub fn transcode(entries: &Vec<Entry>, rules: &Vec<Rule>) -> (r: Result<Vec<Part>, TranscodeError>)
    ensures
        match r {
            Ok(parts) => parts_of(rules@, entries@, parts@),
            Err(e) => {
                &&& e.index < entries@.len()
                &&& entries@[e.index as int].content is Some
                &&& rewrites_to(
                    rules@,
                    entries@[e.index as int].name@,
                    entries@[e.index as int].content.unwrap()@,
                    Err(e.error),
                )
                &&& exists|parts: Seq<Part>| parts_of(rules@, entries@.take(e.index as int), parts)
            },
        },
{
    let mut out: Vec<Part> = Vec::new();
    let mut k: usize = 0;
    while k < entries.len()
        invariant
            k <= entries@.len(),
            parts_of(rules@, entries@.take(k as int), out@),
        decreases entries@.len() - k,
    {
        proof {
            lemma_readable_step(entries@, k as int);
        }
        match rewrite_entry(rules, &entries[k]) {
            Ok(None) => {
                assert(entries@[k as int].content is None);
            },
            Ok(Some(part)) => {
                assert(entries@[k as int].content is Some);
                let ghost prev = out@;
                out.push(part);
                proof {
                    let src = readable(entries@.take(k + 1));
                    assert forall|i: int| 0 <= i < out@.len() implies #[trigger] out@[i].name@
                        == src[i].name@ && entry_rewrites_to(rules@, src[i], out@[i].content@) by {
                        if i < prev.len() {
                            assert(out@[i] == prev[i]);
                        }
                    }
                }
            },
            Err(e) => {
                return Err(TranscodeError { index: k, error: e });
            },
        }
        k = k + 1;
    }
    assert(entries@.take(entries@.len() as int) =~= entries@);
    Ok(out)
}

} // verus!

//! The text of an XML document: the character data between its tags, tidied.

use crate::text::{chars_of, string_of, string_views, trim, trimmed};
use vstd::prelude::*;

verus! {

/// A `quick_xml::Reader` over the bytes of a document. Its state is its own:
/// nothing here looks into it.
#[verifier::external_body]
struct XmlReader<'a> {
    inner: quick_xml::Reader<&'a [u8]>,
}

/// What one step of reading gave.
#[derive(Debug, PartialEq, Eq)]
pub enum Piece {
    /// Character data, as it stands in the document, escapes and all.
    Text(Vec<u8>),
    /// The end of the document.
    End,
    /// A tag, a comment, another kind of markup, or an error.
    Other,
}

/// Why the text of a document could not be had.
#[derive(Debug, PartialEq, Eq)]
pub enum TextError {
    /// Some character data holds an escape that cannot be resolved.
    BadEscape,
    /// The reader went on giving pieces beyond the length of the document.
    Stalled,
}

/// What `BytesText::unescape_and_decode` makes of the bytes of a piece of
/// character data: the text with its escapes resolved, or nothing where the
/// bytes are not UTF-8 or hold an escape that cannot be resolved.
pub uninterp spec fn unescaped(raw: Seq<u8>) -> Option<Seq<char>>;

/// Starts reading a document with `quick_xml::Reader::from_str`. Nothing is
/// read yet.
#[verifier::external_body]
fn open_reader<'a>(content: &'a str) -> (reader: XmlReader<'a>) {
    XmlReader { inner: quick_xml::Reader::from_str(content) }
}

/// Reads the next event with `quick_xml::Reader::read_event` and tells
/// character data, with its bytes, from the end of the document and from
/// everything else. Nothing is claimed of what comes.
#[verifier::external_body]
fn next_piece(reader: &mut XmlReader) -> (piece: Piece) {
    let mut buffer = Vec::new();
    match reader.inner.read_event(&mut buffer) {
        Ok(quick_xml::events::Event::Text(bt)) => Piece::Text(bt.escaped().to_vec()),
        Ok(quick_xml::events::Event::Eof) => Piece::End,
        _ => Piece::Other,
    }
}

/// Resolves the escapes in a piece of character data with
/// `quick_xml::events::BytesText::unescape_and_decode`, which looks at the
/// bytes alone: it reads them as UTF-8 and replaces each `&...;` by what it
/// stands for.
#[verifier::external_body]
fn unescape(reader: &XmlReader, raw: &Vec<u8>) -> (text: Option<String>)
    ensures
        match text {
            Some(t) => unescaped(raw@) == Some(t@),
            None => unescaped(raw@) is None,
        },
{
    let data = quick_xml::events::BytesText::from_escaped(raw.as_slice());
    data.unescape_and_decode(&reader.inner).ok()
}

/// The fragments without the white space around them, less those that are
/// empty then.
pub open spec fn tidied(fragments: Seq<Seq<char>>) -> Seq<Seq<char>> {
    fragments.map_values(|t: Seq<char>| trimmed(t)).filter(|t: Seq<char>| t.len() > 0)
}

/// Trims each fragment and drops those of which nothing is left.
pub fn tidy(fragments: Vec<String>) -> (out: Vec<String>)
    ensures
        string_views(out@) == tidied(string_views(fragments@)),
{
    let mut out: Vec<String> = Vec::new();
    let mut i: usize = 0;
    let ghost all = string_views(fragments@).map_values(|t: Seq<char>| trimmed(t));
    let ghost keep = |t: Seq<char>| t.len() > 0;
    proof {
        reveal(Seq::filter);
        assert(all.take(0) =~= Seq::<Seq<char>>::empty());
        assert(string_views(out@) =~= Seq::<Seq<char>>::empty());
    }
    while i < fragments.len()
        invariant
            i <= fragments.len(),
            all == string_views(fragments@).map_values(|t: Seq<char>| trimmed(t)),
            keep == |t: Seq<char>| t.len() > 0,
            string_views(out@) == all.take(i as int).filter(keep),
        decreases fragments.len() - i,
    {
        let bare = trim(&chars_of(fragments[i].as_str()));
        let ghost before = out@;
        proof {
            reveal(Seq::filter);
            assert(all.take(i + 1).drop_last() =~= all.take(i as int));
            assert(all.take(i + 1).last() == bare@);
        }
        if bare.len() > 0 {
            out.push(string_of(&bare));
            proof {
                assert(string_views(out@) =~= string_views(before).push(bare@));
            }
        }
        i += 1;
    }
    proof {
        assert(all.take(i as int) =~= all);
    }
    out
}

/// Whether reading goes on after the piece: after markup, and after
/// character data whose escapes can be resolved.
pub open spec fn passes(piece: Piece) -> bool {
    match piece {
        Piece::Text(raw) => unescaped(raw@) is Some,
        Piece::End => false,
        Piece::Other => true,
    }
}

/// The character data among the pieces, with escapes resolved, in order.
pub open spec fn fragments_of(pieces: Seq<Piece>) -> Seq<Seq<char>>
    decreases pieces.len(),
{
    if pieces.len() == 0 {
        Seq::empty()
    } else {
        let before = fragments_of(pieces.drop_last());
        match pieces.last() {
            Piece::Text(raw) => match unescaped(raw@) {
                Some(t) => before.push(t),
                None => before,
            },
            _ => before,
        }
    }
}

/// Whether `r` is the outcome of reading a document that gave the pieces
/// `pieces`, one after the other, where at most `limit` pieces are read.
///
/// Reading goes on over every piece but the last. If the last is the end of
/// the document, the outcome is the tidied text of those before it; if it is
/// character data with an escape that cannot be resolved, it is `BadEscape`;
/// and if reading would go on after it too, the limit is reached, and the
/// outcome is `Stalled`.
pub open spec fn reading(pieces: Seq<Piece>, limit: nat, r: Result<Vec<String>, TextError>) -> bool {
    &&& 0 < pieces.len() <= limit
    &&& forall|j: int| 0 <= j < pieces.len() - 1 ==> passes(#[trigger] pieces[j])
    &&& match r {
        Ok(found) => pieces.last() is End && string_views(found@) == tidied(
            fragments_of(pieces.drop_last()),
        ),
        Err(TextError::BadEscape) => pieces.last() is Text && !passes(pieces.last()),
        Err(TextError::Stalled) => passes(pieces.last()) && pieces.len() == limit,
    }
}

/// Gathers the text of an XML document: every piece of character data
/// between its tags, with escapes resolved, then trimmed, and dropped if
/// nothing is left of it.
///
/// Markup that the reader cannot make sense of is passed over. An escape that
/// cannot be resolved ends the reading with `BadEscape`. The reader is asked
/// for one piece more than the document has bytes, at most; `Stalled` tells
/// that it had not come to the end by then.
pub fn extract_text(content: &str) -> (r: Result<Vec<String>, TextError>)
    ensures
        exists|pieces: Seq<Piece>| #[trigger]
            reading(pieces, (content.len() + 1) as nat, r),
{
    let mut reader = open_reader(content);
    let mut text: Vec<String> = Vec::new();
    let limit: u128 = content.len() as u128 + 1;
    let mut asked: u128 = 0;
    let ghost mut seen: Seq<Piece> = Seq::empty();
    loop
        invariant
            asked < limit,
            limit == content.len() + 1,
            seen.len() == asked,
            forall|j: int| 0 <= j < seen.len() ==> passes(#[trigger] seen[j]),
            string_views(text@) == fragments_of(seen),
        decreases limit - asked,
    {
        let piece = next_piece(&mut reader);
        let ghost before = seen;
        let ghost had = text@;
        proof {
            seen = seen.push(piece);
            assert(seen.drop_last() =~= before);
        }
        match piece {
            Piece::Text(raw) => match unescape(&reader, &raw) {
                Some(t) => {
                    text.push(t);
                    proof {
                        assert(string_views(text@) =~= string_views(had).push(t@));
                    }
                },
                None => {
                    let r = Err(TextError::BadEscape);
                    assert(reading(seen, (content.len() + 1) as nat, r));
                    return r;
                },
            },
            Piece::End => {
                let r = Ok(tidy(text));
                assert(reading(seen, (content.len() + 1) as nat, r));
                return r;
            },
            Piece::Other => {},
        }
        asked += 1;
        if asked == limit {
            let r = Err(TextError::Stalled);
            assert(reading(seen, (content.len() + 1) as nat, r));
            return r;
        }
    }
}

} // verus!

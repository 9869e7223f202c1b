//! The order of a stylesheet that a development server hands out wrapped in
//! a script.
use vstd::prelude::*;
use vstd::slice::slice_subrange;
use vstd::string::*;

use crate::parser::lemma_line_len;
use crate::parser::line_len;
use crate::sorter::stylesheet_ranks;
use crate::sorter::Sorter;

verus! {

/// What stands in the script before the stylesheet: the start of the
/// assignment, up to and including the opening quote.
pub const VITE_MARKER: &'static str = "const __vite__css = \"";

/// Why no sorter could be made from a script.
#[derive(Debug, Clone, Copy, PartialEq, Eq, Structural)]
pub enum ViteError {
    /// The script holds no `VITE_MARKER` with a closing quote on its line.
    MarkerNotFound,
}

/// Whether `marker` stands in `text` at position `at`.
pub open spec fn occurs_at(text: Seq<u8>, marker: Seq<u8>, at: int) -> bool {
    0 <= at && at + marker.len() <= text.len() && text.subrange(at, at + marker.len()) == marker
}

/// The position of the last double quote of `text` from `from` up to, not
/// including, `end`.
pub open spec fn last_quote(text: Seq<u8>, from: int, end: int) -> Option<int>
    decreases end - from,
{
    if end <= from {
        None
    } else if text[end - 1] == 34u8 {
        Some(end - 1)
    } else {
        last_quote(text, from, end - 1)
    }
}

/// Where the line that holds position `from` ends.
pub open spec fn line_end(text: Seq<u8>, from: int) -> int {
    from + line_len(text.skip(from))
}

/// The stylesheet in `text`, looked for from `from` on: it starts behind the
/// first marker that has a double quote behind it on its line, and ends
/// before the last double quote of that line.
pub open spec fn css_span(text: Seq<u8>, marker: Seq<u8>, from: nat) -> Option<(int, int)>
    decreases text.len() - from,
{
    if from >= text.len() || from + marker.len() > text.len() {
        None
    } else {
        let start = from + marker.len();
        let quote = last_quote(text, start as int, line_end(text, start as int));
        if occurs_at(text, marker, from as int) && quote is Some {
            Some((start as int, quote->0))
        } else {
            css_span(text, marker, from + 1)
        }
    }
}

/// The stylesheet that a script holds, if it holds one.
pub open spec fn embedded_css(body: Seq<u8>) -> Option<Seq<u8>> {
    match css_span(body, VITE_MARKER.spec_bytes(), 0) {
        Some((start, end)) => Some(body.subrange(start, end)),
        None => None,
    }
}

/// Whether `marker` stands in `text` at position `at`.
fn marker_at(text: &[u8], marker: &[u8], at: usize) -> (found: bool)
    requires
        at + marker@.len() <= text@.len(),
    ensures
        found == occurs_at(text@, marker@, at as int),
{
    let mut i: usize = 0;
    while i < marker.len()
        invariant
            i <= marker.len(),
            at + marker@.len() <= text@.len(),
            forall|k: int| 0 <= k < i ==> text@[at + k] == marker@[k],
        decreases marker.len() - i,
    {
        assert(at + i < text.len());
        if text[at + i] != marker[i] {
            assert(text@.subrange(at as int, at + marker@.len())[i as int] != marker@[i as int]);
            return false;
        }
        i += 1;
    }
    assert(text@.subrange(at as int, at + marker@.len()) =~= marker@);
    true
}

/// The position of the last double quote on the line that starts at `from`.
fn closing_quote(text: &[u8], from: usize) -> (found: Option<usize>)
    requires
        from <= text@.len(),
    ensures
        match found {
            Some(at) => last_quote(text@, from as int, line_end(text@, from as int)) == Some(
                at as int,
            ) && from <= at < text@.len(),
            None => last_quote(text@, from as int, line_end(text@, from as int)) is None,
        },
{
    let mut end: usize = from;
    while end < text.len() && text[end] != 10u8
        invariant
            from <= end <= text.len(),
            forall|k: int| from <= k < end ==> text@[k] != 10,
        decreases text.len() - end,
    {
        end += 1;
    }
    proof {
        let rest = text@.skip(from as int);
        assert forall|k: int| 0 <= k < end - from implies rest[k] != 10 by {
            assert(rest[k] == text@[from + k]);
        }
        if end < text.len() {
            assert(rest[end - from] == text@[end as int]);
        }
        lemma_line_len(rest, end - from);
    }
    let ghost stop = end as int;
    let mut at: usize = end;
    while at > from
        invariant
            from <= at <= stop <= text@.len(),
            stop == line_end(text@, from as int),
            last_quote(text@, from as int, stop) == last_quote(text@, from as int, at as int),
        decreases at,
    {
        if text[at - 1] == 34u8 {
            return Some(at - 1);
        }
        at -= 1;
    }
    None
}

/// Where the stylesheet stands in a script: the position of its first byte
/// and the position behind its last.
pub fn find_embedded_css(body: &[u8]) -> (found: Option<(usize, usize)>)
    ensures
        match found {
            Some((start, end)) => start <= end <= body@.len() && embedded_css(body@) == Some(
                body@.subrange(start as int, end as int),
            ),
            None => embedded_css(body@) is None,
        },
{
    let marker = VITE_MARKER.as_bytes();
    if marker.len() > body.len() {
        return None;
    }
    let last: usize = body.len() - marker.len();
    let mut from: usize = 0;
    while from <= last
        invariant
            marker@ == VITE_MARKER.spec_bytes(),
            marker@.len() <= body@.len(),
            last == body@.len() - marker@.len(),
            from <= last,
            css_span(body@, marker@, 0) == css_span(body@, marker@, from as nat),
        decreases last - from,
    {
        assert(from + marker.len() <= body.len());
        if from >= body.len() {
            return None;
        }
        if marker_at(body, marker, from) {
            let start = from + marker.len();
            match closing_quote(body, start) {
                Some(end) => {
                    return Some((start, end));
                },
                None => {},
            }
        }
        assert(css_span(body@, marker@, from as nat) == css_span(
            body@,
            marker@,
            (from + 1) as nat,
        ));
        if from == last {
            assert(css_span(body@, marker@, (from + 1) as nat) is None);
            return None;
        }
        from += 1;
    }
    None
}

/// A sorter with the order of the stylesheet that a script holds. It fails
/// exactly where the script holds no stylesheet.
pub fn create_sorter(body: &[u8]) -> (made: Result<Sorter, ViteError>)
    ensures
        match made {
            Ok(sorter) => embedded_css(body@) is Some && sorter is CustomSorter
                && sorter.entries() == stylesheet_ranks(embedded_css(body@)->0),
            Err(error) => embedded_css(body@) is None && error == ViteError::MarkerNotFound,
        },
{
    match find_embedded_css(body) {
        Some((start, end)) => Ok(Sorter::new_from_reader(slice_subrange(body, start, end))),
        None => Err(ViteError::MarkerNotFound),
    }
}

} // verus!

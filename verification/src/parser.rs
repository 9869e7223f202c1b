//! Reading the classes of a stylesheet, in the order in which it names them.
use vstd::prelude::*;

use crate::class_wrapping::lemma_trim_start;
use crate::class_wrapping::trim_start;
use crate::text::views_of;

verus! {

/// The whitespace characters of one byte: tab, line feed, vertical tab, form
/// feed, carriage return and space.
pub open spec fn is_blank(b: u8) -> bool {
    b == 32 || (9 <= b && b <= 13)
}

/// The whitespace characters of two bytes: the next-line character and the
/// no-break space.
pub open spec fn is_blank_pair(a: u8, b: u8) -> bool {
    a == 0xC2 && (b == 0x85 || b == 0xA0)
}

/// The whitespace characters of three bytes: the ogham space mark, the
/// spaces from the en quad to the hair space, the line and the paragraph
/// separator, the narrow no-break space, the medium mathematical space and
/// the ideographic space.
pub open spec fn is_blank_triple(a: u8, b: u8, c: u8) -> bool {
    ||| a == 0xE1 && b == 0x9A && c == 0x80
    ||| a == 0xE2 && b == 0x80 && ((0x80 <= c && c <= 0x8A) || c == 0xA8 || c == 0xA9 || c
        == 0xAF)
    ||| a == 0xE2 && b == 0x81 && c == 0x9F
    ||| a == 0xE3 && b == 0x80 && c == 0x80
}

/// How many bytes the whitespace character at the start of `text` has; 0
/// where `text` does not start with a whitespace character. Whitespace is
/// what Unicode calls so, in its UTF-8 form.
pub open spec fn space_len(text: Seq<u8>) -> nat {
    if text.len() >= 1 && is_blank(text[0]) {
        1
    } else if text.len() >= 2 && is_blank_pair(text[0], text[1]) {
        2
    } else if text.len() >= 3 && is_blank_triple(text[0], text[1], text[2]) {
        3
    } else {
        0
    }
}

/// How many bytes of whitespace stand at the start of `text`.
pub open spec fn blank_len(text: Seq<u8>) -> nat
    decreases text.len(),
{
    if space_len(text) == 0 {
        0
    } else {
        space_len(text) + blank_len(text.skip(space_len(text) as int))
    }
}

/// How many bytes stand at the start of `text` before the first whitespace
/// character.
pub open spec fn word_len(text: Seq<u8>) -> nat
    decreases text.len(),
{
    if text.len() == 0 || space_len(text) > 0 {
        0
    } else {
        1 + word_len(text.drop_first())
    }
}

/// How many bytes stand at the start of `text` before the first line feed.
pub open spec fn line_len(text: Seq<u8>) -> nat
    decreases text.len(),
{
    if text.len() > 0 && text[0] != 10 {
        1 + line_len(text.drop_first())
    } else {
        0
    }
}

/// `text` without the bytes `b`.
pub open spec fn without(text: Seq<u8>, b: u8) -> Seq<u8>
    decreases text.len(),
{
    if text.len() == 0 {
        Seq::empty()
    } else if text.last() == b {
        without(text.drop_last(), b)
    } else {
        without(text.drop_last(), b).push(text.last())
    }
}

/// The class that a selector word names: the word without the dots at its
/// start and without backslashes.
pub open spec fn class_of_word(word: Seq<u8>) -> Seq<u8> {
    without(trim_start(word, 46u8), 92u8)
}

/// The class that a line defines, if it defines one: behind its leading
/// whitespace the line starts with `.`, at least one more byte that is not
/// whitespace follows, and the first whitespace behind them is a space.
pub open spec fn selector_class(line: Seq<u8>) -> Option<Seq<u8>> {
    let body = line.skip(blank_len(line) as int);
    let n = word_len(body) as int;
    if n >= 2 && body[0] == 46u8 && n < body.len() && body[n] == 32u8 {
        Some(class_of_word(body.take(n)))
    } else {
        None
    }
}

/// The classes that the lines of a stylesheet define, in the order of the
/// lines. Lines end at a line feed.
pub open spec fn selector_classes(css: Seq<u8>) -> Seq<Seq<u8>>
    decreases css.len(),
{
    if css.len() == 0 {
        Seq::empty()
    } else {
        proof {
            lemma_line_len_bounds(css);
        }
        let n = line_len(css) as int;
        let rest = if n < css.len() {
            css.skip(n + 1)
        } else {
            Seq::empty()
        };
        match selector_class(css.take(n)) {
            Some(class) => seq![class] + selector_classes(rest),
            None => selector_classes(rest),
        }
    }
}

/// A line is no longer than the text, and a line feed stands behind it
/// unless the text ends there.
pub proof fn lemma_line_len_bounds(text: Seq<u8>)
    ensures
        line_len(text) <= text.len(),
        line_len(text) == text.len() || text[line_len(text) as int] == 10,
    decreases text.len(),
{
    if text.len() > 0 && text[0] != 10 {
        let rest = text.drop_first();
        lemma_line_len_bounds(rest);
        if line_len(text) != text.len() {
            assert(text[line_len(text) as int] == rest[line_len(rest) as int]);
        }
    }
}

/// `line_len` is `n` where none of the first `n` bytes is a line feed and
/// the next one is, or the text ends.
pub proof fn lemma_line_len(text: Seq<u8>, n: int)
    requires
        0 <= n <= text.len(),
        forall|i: int| 0 <= i < n ==> text[i] != 10,
        n == text.len() || text[n] == 10,
    ensures
        line_len(text) == n,
    decreases n,
{
    if n > 0 {
        assert(text[0] != 10);
        let rest = text.drop_first();
        assert forall|i: int| 0 <= i < n - 1 implies rest[i] != 10 by {
            assert(rest[i] == text[i + 1]);
        }
        lemma_line_len(rest, n - 1);
    }
}

/// How many bytes the whitespace character at position `at` has, within
/// the text up to `end`; 0 where no whitespace character starts there.
pub fn space_len_at(css: &[u8], at: usize, end: usize) -> (n: usize)
    requires
        at <= end <= css@.len(),
    ensures
        n == space_len(css@.subrange(at as int, end as int)),
        at + n <= end,
{
    let ghost text = css@.subrange(at as int, end as int);
    let left = end - at;
    if left >= 1 {
        let a = css[at];
        assert(text[0] == a);
        if a == 32 || (9 <= a && a <= 13) {
            return 1;
        }
        if left >= 2 {
            let b = css[at + 1];
            assert(text[1] == b);
            if a == 0xC2 && (b == 0x85 || b == 0xA0) {
                return 2;
            }
            if left >= 3 {
                let c = css[at + 2];
                assert(text[2] == c);
                if (a == 0xE1 && b == 0x9A && c == 0x80) || (a == 0xE2 && b == 0x80 && ((0x80 <= c
                    && c <= 0x8A) || c == 0xA8 || c == 0xA9 || c == 0xAF)) || (a == 0xE2 && b
                    == 0x81 && c == 0x9F) || (a == 0xE3 && b == 0x80 && c == 0x80) {
                    return 3;
                }
            }
        }
    }
    0
}

/// The class that a selector word names.
pub fn word_class(word: &[u8]) -> (class: Vec<u8>)
    ensures
        class@ == class_of_word(word@),
{
    let mut start: usize = 0;
    while start < word.len() && word[start] == 46u8
        invariant
            start <= word.len(),
            forall|i: int| 0 <= i < start ==> word@[i] == 46u8,
        decreases word.len() - start,
    {
        start += 1;
    }
    proof {
        lemma_trim_start(word@, 46u8, start as int);
    }
    let ghost tail = word@.skip(start as int);
    let mut class: Vec<u8> = Vec::new();
    let mut i: usize = start;
    proof {
        assert(tail.take(0) =~= Seq::<u8>::empty());
    }
    while i < word.len()
        invariant
            start <= i <= word.len(),
            tail == word@.skip(start as int),
            class@ == without(tail.take(i - start), 92u8),
        decreases word.len() - i,
    {
        proof {
            assert(tail.take(i - start + 1).drop_last() =~= tail.take(i - start));
            assert(tail.take(i - start + 1).last() == word@[i as int]);
        }
        if word[i] != 92u8 {
            class.push(word[i]);
        }
        i += 1;
    }
    proof {
        assert(tail.take(word.len() - start) =~= tail);
    }
    class
}

/// The class that the line from `start` up to `end` defines, if it defines
/// one.
pub fn line_class(css: &[u8], start: usize, end: usize) -> (class: Option<Vec<u8>>)
    requires
        start <= end <= css@.len(),
    ensures
        match class {
            Some(name) => selector_class(css@.subrange(start as int, end as int)) == Some(name@),
            None => selector_class(css@.subrange(start as int, end as int)) is None,
        },
{
    let ghost line = css@.subrange(start as int, end as int);
    let mut i: usize = start;
    let mut n: usize = space_len_at(css, i, end);
    while n > 0
        invariant
            start <= i <= end <= css@.len(),
            i + n <= end,
            line == css@.subrange(start as int, end as int),
            n == space_len(css@.subrange(i as int, end as int)),
            blank_len(line) == (i - start) + blank_len(css@.subrange(i as int, end as int)),
        decreases end - i,
    {
        proof {
            assert(css@.subrange(i as int, end as int).skip(n as int) =~= css@.subrange(
                i + n,
                end as int,
            ));
        }
        i += n;
        n = space_len_at(css, i, end);
    }
    let ghost body = css@.subrange(i as int, end as int);
    proof {
        assert(line.skip(i - start) =~= body);
    }
    let mut j: usize = i;
    while j < end && space_len_at(css, j, end) == 0
        invariant
            i <= j <= end <= css@.len(),
            body == css@.subrange(i as int, end as int),
            word_len(body) == (j - i) + word_len(css@.subrange(j as int, end as int)),
        decreases end - j,
    {
        proof {
            assert(css@.subrange(j as int, end as int).drop_first() =~= css@.subrange(
                j + 1,
                end as int,
            ));
        }
        j += 1;
    }
    proof {
        if j > i {
            assert(body[0] == css@[i as int]);
        }
        if j < end {
            assert(body[j - i] == css@[j as int]);
        }
    }
    if j - i >= 2 && css[i] == 46u8 && j < end && css[j] == 32u8 {
        let word = vstd::slice::slice_subrange(css, i, j);
        proof {
            assert(body.take(j - i) =~= word@);
        }
        Some(word_class(word))
    } else {
        None
    }
}

/// The classes that the lines of a stylesheet define, in the order of the
/// lines.
pub fn selector_class_list(css: &[u8]) -> (classes: Vec<Vec<u8>>)
    ensures
        views_of(classes@) == selector_classes(css@),
{
    let mut classes: Vec<Vec<u8>> = Vec::new();
    let mut start: usize = 0;
    proof {
        assert(css@.skip(0) =~= css@);
        assert(views_of(classes@) + selector_classes(css@) =~= selector_classes(css@));
    }
    while start < css.len()
        invariant
            start <= css.len(),
            views_of(classes@) + selector_classes(css@.skip(start as int)) == selector_classes(
                css@,
            ),
        decreases css.len() - start,
    {
        let ghost rest = css@.skip(start as int);
        let mut end: usize = start;
        while end < css.len() && css[end] != 10u8
            invariant
                start <= end <= css.len(),
                forall|k: int| start <= k < end ==> css@[k] != 10,
            decreases css.len() - end,
        {
            end += 1;
        }
        proof {
            assert forall|k: int| 0 <= k < end - start implies rest[k] != 10 by {
                assert(rest[k] == css@[start + k]);
            }
            if end < css.len() {
                assert(rest[end - start] == css@[end as int]);
            }
            lemma_line_len(rest, end - start);
            assert(rest.take(end - start) =~= css@.subrange(start as int, end as int));
        }
        let class = line_class(css, start, end);
        let next: usize = if end < css.len() {
            end + 1
        } else {
            end
        };
        proof {
            if end < css.len() {
                assert(rest.skip(end - start + 1) =~= css@.skip(next as int));
            } else {
                assert(css@.skip(next as int) =~= Seq::<u8>::empty());
            }
        }
        match class {
            Some(name) => {
                proof {
                    assert(views_of(classes@.push(name)) =~= views_of(classes@) + seq![name@]);
                    assert((views_of(classes@) + seq![name@]) + selector_classes(
                        css@.skip(next as int),
                    ) =~= views_of(classes@) + (seq![name@] + selector_classes(
                        css@.skip(next as int),
                    )));
                }
                classes.push(name);
            },
            None => {},
        }
        start = next;
    }
    proof {
        assert(css@.skip(start as int) =~= Seq::<u8>::empty());
        assert(views_of(classes@) + Seq::<Seq<u8>>::empty() =~= views_of(classes@));
    }
    classes
}

} // verus!

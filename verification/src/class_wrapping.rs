//! How a class list is written in the source text, and the two directions
//! between that text and the list of bare classes.
use vstd::prelude::*;
use vstd::slice::slice_subrange;

use crate::text::push_bytes;
use crate::text::str_equal;
use crate::text::views_of;

verus! {

/// How individual classes are wrapped.
#[derive(Debug, Clone, Copy, PartialEq, Eq, Structural)]
pub enum ClassWrapping {
    /// Classes stand bare, with whitespace between them.
    NoWrapping,
    /// Each class stands in single quotes, with commas between them.
    CommaSingleQuotes,
    /// Each class stands in double quotes, with commas between them.
    CommaDoubleQuotes,
}

/// ASCII whitespace: space, tab, line feed, form feed, carriage return.
pub open spec fn is_space(b: u8) -> bool {
    b == 32 || b == 9 || b == 10 || b == 12 || b == 13
}

/// Whether a byte is ASCII whitespace.
pub fn byte_is_space(b: u8) -> (space: bool)
    ensures
        space == is_space(b),
{
    b == 32 || b == 9 || b == 10 || b == 12 || b == 13
}

impl ClassWrapping {
    /// The quote that stands on both sides of a class, if the mode has one.
    pub open spec fn quote(self) -> Option<u8> {
        match self {
            ClassWrapping::NoWrapping => None,
            ClassWrapping::CommaSingleQuotes => Some(39u8),
            ClassWrapping::CommaDoubleQuotes => Some(34u8),
        }
    }

    /// Whether `b` ends a class: whitespace in every mode, and the comma in
    /// the quoted ones.
    pub open spec fn separates(self, b: u8) -> bool {
        is_space(b) || (self.quote() is Some && b == 44)
    }

    /// What is written between two classes: a space, after a comma in the
    /// quoted modes.
    pub open spec fn separator(self) -> Seq<u8> {
        match self.quote() {
            None => seq![32u8],
            Some(_) => seq![44u8, 32u8],
        }
    }

    /// How far the class at the start of `text` reaches: the number of bytes
    /// before the first one that separates.
    pub open spec fn run_len(self, text: Seq<u8>) -> nat
        decreases text.len(),
    {
        if text.len() == 0 || self.separates(text[0]) {
            0
        } else {
            1 + self.run_len(text.drop_first())
        }
    }

    /// A piece of text without the quotes at its two ends.
    pub open spec fn bare(self, piece: Seq<u8>) -> Seq<u8> {
        match self.quote() {
            None => piece,
            Some(q) => trim_end(trim_start(piece, q), q),
        }
    }

    /// The classes that `text` holds: the text is cut wherever a byte
    /// separates, empty pieces are dropped, and each piece loses the quotes
    /// at its ends.
    pub open spec fn unwrapped(self, text: Seq<u8>) -> Seq<Seq<u8>>
        decreases text.len(),
    {
        if text.len() == 0 {
            Seq::empty()
        } else if self.separates(text[0]) {
            self.unwrapped(text.drop_first())
        } else {
            proof {
                self.lemma_run_len_bounds(text);
            }
            seq![self.bare(text.take(self.run_len(text) as int))] + self.unwrapped(
                text.skip(self.run_len(text) as int),
            )
        }
    }

    /// One class as it is written: between quotes where the mode has them.
    pub open spec fn wrapped(self, token: Seq<u8>) -> Seq<u8> {
        match self.quote() {
            None => token,
            Some(q) => seq![q] + token + seq![q],
        }
    }

    /// The text for a list of classes: each class as it is written, with the
    /// separator between one and the next.
    pub open spec fn rewrapped(self, tokens: Seq<Seq<u8>>) -> Seq<u8>
        decreases tokens.len(),
    {
        if tokens.len() == 0 {
            Seq::empty()
        } else if tokens.len() == 1 {
            self.wrapped(tokens[0])
        } else {
            self.rewrapped(tokens.drop_last()) + self.separator() + self.wrapped(tokens.last())
        }
    }

    /// A class that comes back unchanged when it is written and read again:
    /// no byte of it separates; without quotes it is not empty; with quotes
    /// it neither starts nor ends with the quote.
    pub open spec fn is_clean(self, token: Seq<u8>) -> bool {
        &&& forall|i: int| 0 <= i < token.len() ==> !self.separates(#[trigger] token[i])
        &&& match self.quote() {
            None => token.len() > 0,
            Some(q) => token.len() == 0 || (token[0] != q && token.last() != q),
        }
    }

    /// Every class of the list is clean.
    pub open spec fn all_clean(self, tokens: Seq<Seq<u8>>) -> bool {
        forall|i: int| 0 <= i < tokens.len() ==> self.is_clean(#[trigger] tokens[i])
    }

    /// The name of the mode.
    pub open spec fn name(self) -> Seq<char> {
        match self {
            ClassWrapping::NoWrapping => "no-wrapping"@,
            ClassWrapping::CommaSingleQuotes => "comma-single-quotes"@,
            ClassWrapping::CommaDoubleQuotes => "comma-double-quotes"@,
        }
    }

    /// The mode that a name stands for; any other text stands for
    /// `NoWrapping`.
    pub open spec fn named(name: Seq<char>) -> ClassWrapping {
        if name == "comma-single-quotes"@ {
            ClassWrapping::CommaSingleQuotes
        } else if name == "comma-double-quotes"@ {
            ClassWrapping::CommaDoubleQuotes
        } else {
            ClassWrapping::NoWrapping
        }
    }

    /// The name of the mode.
    pub fn as_str(&self) -> (name: &'static str)
        ensures
            name@ == self.name(),
    {
        match self {
            ClassWrapping::NoWrapping => "no-wrapping",
            ClassWrapping::CommaSingleQuotes => "comma-single-quotes",
            ClassWrapping::CommaDoubleQuotes => "comma-double-quotes",
        }
    }

    /// The quote of the mode, if it has one.
    pub fn quote_byte(&self) -> (quote: Option<u8>)
        ensures
            quote == self.quote(),
    {
        match self {
            ClassWrapping::NoWrapping => None,
            ClassWrapping::CommaSingleQuotes => Some(39u8),
            ClassWrapping::CommaDoubleQuotes => Some(34u8),
        }
    }

    /// Whether `b` ends a class in this mode.
    pub fn is_separator(&self, b: u8) -> (separates: bool)
        ensures
            separates == self.separates(b),
    {
        byte_is_space(b) || (b == 44 && self.quote_byte().is_some())
    }
}

impl From<&str> for ClassWrapping {
    /// The mode that a name stands for; any other text stands for
    /// `NoWrapping`.
    fn from(name: &str) -> (wrapping: ClassWrapping) {
        if str_equal(name, "comma-single-quotes") {
            ClassWrapping::CommaSingleQuotes
        } else if str_equal(name, "comma-double-quotes") {
            ClassWrapping::CommaDoubleQuotes
        } else {
            ClassWrapping::NoWrapping
        }
    }
}

impl vstd::std_specs::convert::FromSpecImpl<&str> for ClassWrapping {
    open spec fn obeys_from_spec() -> bool {
        true
    }

    open spec fn from_spec(name: &str) -> ClassWrapping {
        ClassWrapping::named(name@)
    }
}

/// A way of wrapping as it is chosen on a command line, by its name.
#[derive(Debug, Clone, Copy, PartialEq, Eq, Structural)]
pub struct CliClassWrapping(pub ClassWrapping);

impl CliClassWrapping {
    /// The ways of wrapping that can be chosen, in the order in which they
    /// are offered.
    pub fn value_variants() -> (variants: [CliClassWrapping; 3])
        ensures
            variants[0] == CliClassWrapping(ClassWrapping::NoWrapping),
            variants[1] == CliClassWrapping(ClassWrapping::CommaSingleQuotes),
            variants[2] == CliClassWrapping(ClassWrapping::CommaDoubleQuotes),
    {
        [
            CliClassWrapping(ClassWrapping::NoWrapping),
            CliClassWrapping(ClassWrapping::CommaSingleQuotes),
            CliClassWrapping(ClassWrapping::CommaDoubleQuotes),
        ]
    }

    /// The name by which this way of wrapping is chosen.
    pub fn to_possible_value(&self) -> (name: &'static str)
        ensures
            name@ == self.0.name(),
    {
        self.0.as_str()
    }
}

impl Default for ClassWrapping {
    fn default() -> (wrapping: ClassWrapping)
        ensures
            wrapping == ClassWrapping::NoWrapping,
    {
        ClassWrapping::NoWrapping
    }
}

/// `text` without the bytes `q` at its start.
pub open spec fn trim_start(text: Seq<u8>, q: u8) -> Seq<u8>
    decreases text.len(),
{
    if text.len() > 0 && text[0] == q {
        trim_start(text.drop_first(), q)
    } else {
        text
    }
}

/// `text` without the bytes `q` at its end.
pub open spec fn trim_end(text: Seq<u8>, q: u8) -> Seq<u8>
    decreases text.len(),
{
    if text.len() > 0 && text.last() == q {
        trim_end(text.drop_last(), q)
    } else {
        text
    }
}

/// `trim_start` cuts off exactly `n` bytes where the first `n` are `q` and
/// the next one is not.
pub proof fn lemma_trim_start(text: Seq<u8>, q: u8, n: int)
    requires
        0 <= n <= text.len(),
        forall|i: int| 0 <= i < n ==> text[i] == q,
        n == text.len() || text[n] != q,
    ensures
        trim_start(text, q) == text.skip(n),
    decreases n,
{
    if n == 0 {
        assert(text.skip(0) =~= text);
    } else {
        assert(text[0] == q);
        let rest = text.drop_first();
        assert forall|i: int| 0 <= i < n - 1 implies rest[i] == q by {
            assert(rest[i] == text[i + 1]);
        }
        lemma_trim_start(rest, q, n - 1);
        assert(rest.skip(n - 1) =~= text.skip(n));
    }
}

/// `trim_end` keeps exactly the first `n` bytes where all behind them are
/// `q` and the last of them is not.
pub proof fn lemma_trim_end(text: Seq<u8>, q: u8, n: int)
    requires
        0 <= n <= text.len(),
        forall|i: int| n <= i < text.len() ==> text[i] == q,
        n == 0 || text[n - 1] != q,
    ensures
        trim_end(text, q) == text.take(n),
    decreases text.len() - n,
{
    if n == text.len() {
        assert(text.take(n) =~= text);
    } else {
        assert(text[text.len() - 1] == q);
        let rest = text.drop_last();
        assert forall|i: int| n <= i < rest.len() implies rest[i] == q by {
            assert(rest[i] == text[i]);
        }
        lemma_trim_end(rest, q, n);
        assert(rest.take(n) =~= text.take(n));
    }
}

impl ClassWrapping {
    /// `run_len` is `n` where the first `n` bytes do not separate and the
    /// next one does.
    pub proof fn lemma_run_len(self, text: Seq<u8>, n: int)
        requires
            0 <= n <= text.len(),
            forall|i: int| 0 <= i < n ==> !self.separates(#[trigger] text[i]),
            n == text.len() || self.separates(text[n]),
        ensures
            self.run_len(text) == n,
        decreases n,
    {
        if n > 0 {
            assert(!self.separates(text[0]));
            let rest = text.drop_first();
            assert forall|i: int| 0 <= i < n - 1 implies !self.separates(#[trigger] rest[i]) by {
                assert(rest[i] == text[i + 1]);
            }
            self.lemma_run_len(rest, n - 1);
        }
    }

    /// Within `run_len` no byte separates, and the byte behind it does.
    pub proof fn lemma_run_len_bounds(self, text: Seq<u8>)
        ensures
            self.run_len(text) <= text.len(),
            forall|i: int| 0 <= i < self.run_len(text) ==> !self.separates(#[trigger] text[i]),
            self.run_len(text) == text.len() || self.separates(text[self.run_len(text) as int]),
        decreases text.len(),
    {
        if text.len() == 0 || self.separates(text[0]) {
        } else {
            let rest = text.drop_first();
            self.lemma_run_len_bounds(rest);
            assert forall|i: int| 0 <= i < self.run_len(text) implies !self.separates(
                #[trigger] text[i],
            ) by {
                if i > 0 {
                    assert(text[i] == rest[i - 1]);
                }
            }
            if self.run_len(text) != text.len() {
                assert(text[self.run_len(text) as int] == rest[self.run_len(rest) as int]);
            }
        }
    }

    /// What is left of a piece that holds no byte that separates, once its
    /// quotes are off, is clean, provided that the piece is not empty.
    pub proof fn lemma_bare_is_clean(self, piece: Seq<u8>)
        requires
            piece.len() > 0,
            forall|i: int| 0 <= i < piece.len() ==> !self.separates(#[trigger] piece[i]),
        ensures
            self.is_clean(self.bare(piece)),
    {
        match self.quote() {
            None => {},
            Some(q) => {
                let a = leading(piece, q);
                lemma_leading(piece, q);
                lemma_trim_start(piece, q, a);
                let inner = piece.skip(a);
                let b = inner.len() - trailing(inner, q);
                lemma_trailing(inner, q);
                lemma_trim_end(inner, q, b);
                let token = inner.take(b);
                assert(self.bare(piece) == token);
                assert forall|i: int| 0 <= i < token.len() implies !self.separates(
                    #[trigger] token[i],
                ) by {
                    assert(token[i] == piece[a + i]);
                }
                if token.len() > 0 {
                    assert(token[0] == inner[0]);
                    assert(token.last() == inner[b - 1]);
                }
            },
        }
    }

    /// Every class read from a text is clean.
    pub proof fn lemma_unwrapped_clean(self, text: Seq<u8>)
        ensures
            self.all_clean(self.unwrapped(text)),
        decreases text.len(),
    {
        if text.len() == 0 {
        } else if self.separates(text[0]) {
            self.lemma_unwrapped_clean(text.drop_first());
        } else {
            let n = self.run_len(text) as int;
            self.lemma_run_len_bounds(text);
            let piece = text.take(n);
            let rest = self.unwrapped(text.skip(n));
            self.lemma_unwrapped_clean(text.skip(n));
            self.lemma_bare_is_clean(piece);
            let all = self.unwrapped(text);
            assert forall|i: int| 0 <= i < all.len() implies self.is_clean(#[trigger] all[i]) by {
                if i > 0 {
                    assert(all[i] == rest[i - 1]);
                }
            }
        }
    }

    /// A clean class comes back when its written form is stripped.
    pub proof fn lemma_bare_of_wrapped(self, token: Seq<u8>)
        requires
            self.is_clean(token),
        ensures
            self.bare(self.wrapped(token)) == token,
            self.wrapped(token).len() > 0,
            forall|i: int|
                0 <= i < self.wrapped(token).len() ==> !self.separates(
                    #[trigger] self.wrapped(token)[i],
                ),
    {
        match self.quote() {
            None => {},
            Some(q) => {
                let written = self.wrapped(token);
                assert(written.len() == token.len() + 2);
                assert(written[0] == q);
                assert(written[written.len() - 1] == q);
                assert forall|i: int| 0 < i < written.len() - 1 implies written[i] == token[i
                    - 1] by {}
                if token.len() == 0 {
                    lemma_trim_start(written, q, 2);
                    assert(written.skip(2) =~= Seq::<u8>::empty());
                    lemma_trim_end(Seq::<u8>::empty(), q, 0);
                    assert(Seq::<u8>::empty().take(0) =~= token);
                } else {
                    assert(written[1] == token[0]);
                    lemma_trim_start(written, q, 1);
                    let inner = written.skip(1);
                    assert(inner[inner.len() - 1] == q);
                    assert(inner[token.len() - 1] == token.last());
                    assert forall|i: int| token.len() <= i < inner.len() implies inner[i]
                        == q by {}
                    lemma_trim_end(inner, q, token.len() as int);
                    assert(inner.take(token.len() as int) =~= token);
                }
                assert forall|i: int| 0 <= i < written.len() implies !self.separates(
                    #[trigger] written[i],
                ) by {
                    if 0 < i < written.len() - 1 {
                        assert(written[i] == token[i - 1]);
                    }
                }
            },
        }
    }

    /// A text that starts with a written class, followed by nothing or by a
    /// byte that separates, holds that class and what the rest holds.
    pub proof fn lemma_unwrapped_piece(self, token: Seq<u8>, rest: Seq<u8>)
        requires
            self.is_clean(token),
            rest.len() == 0 || self.separates(rest[0]),
        ensures
            self.unwrapped(self.wrapped(token) + rest) == seq![token] + self.unwrapped(rest),
    {
        let written = self.wrapped(token);
        let text = written + rest;
        self.lemma_bare_of_wrapped(token);
        assert forall|i: int| 0 <= i < written.len() implies !self.separates(
            #[trigger] text[i],
        ) by {
            assert(text[i] == written[i]);
        }
        if rest.len() > 0 {
            assert(text[written.len() as int] == rest[0]);
        }
        self.lemma_run_len(text, written.len() as int);
        assert(text.take(written.len() as int) =~= written);
        assert(text.skip(written.len() as int) =~= rest);
        assert(!self.separates(text[0]));
    }

    /// The separator in front of a text adds no class to it.
    pub proof fn lemma_unwrapped_separator(self, rest: Seq<u8>)
        ensures
            self.unwrapped(self.separator() + rest) == self.unwrapped(rest),
            self.separates((self.separator() + rest)[0]),
    {
        let text = self.separator() + rest;
        match self.quote() {
            None => {
                assert(text[0] == 32u8);
                assert(text.drop_first() =~= rest);
                assert(self.unwrapped(text) == self.unwrapped(text.drop_first()));
            },
            Some(_) => {
                assert(text[0] == 44u8);
                let after = text.drop_first();
                assert(after[0] == 32u8);
                assert(after.drop_first() =~= rest);
                assert(self.unwrapped(after) == self.unwrapped(after.drop_first()));
                assert(self.unwrapped(text) == self.unwrapped(after));
            },
        }
    }

    /// A text made of a written list and a rest, which is empty or starts
    /// with a byte that separates, holds the list and what the rest holds.
    pub proof fn lemma_unwrapped_rewrapped_then(self, tokens: Seq<Seq<u8>>, rest: Seq<u8>)
        requires
            self.all_clean(tokens),
            rest.len() == 0 || self.separates(rest[0]),
        ensures
            self.unwrapped(self.rewrapped(tokens) + rest) == tokens + self.unwrapped(rest),
        decreases tokens.len(),
    {
        if tokens.len() == 0 {
            assert(self.rewrapped(tokens) + rest =~= rest);
            assert(tokens + self.unwrapped(rest) =~= self.unwrapped(rest));
        } else if tokens.len() == 1 {
            assert(self.is_clean(tokens[0]));
            self.lemma_unwrapped_piece(tokens[0], rest);
            assert(seq![tokens[0]] =~= tokens);
        } else {
            let shorter = tokens.drop_last();
            let last = tokens.last();
            assert(self.is_clean(tokens[tokens.len() - 1]));
            assert(self.all_clean(shorter)) by {
                assert forall|i: int| 0 <= i < shorter.len() implies self.is_clean(
                    #[trigger] shorter[i],
                ) by {
                    assert(shorter[i] == tokens[i]);
                }
            }
            let tail = self.separator() + (self.wrapped(last) + rest);
            self.lemma_unwrapped_separator(self.wrapped(last) + rest);
            self.lemma_unwrapped_piece(last, rest);
            self.lemma_unwrapped_rewrapped_then(shorter, tail);
            assert(self.rewrapped(tokens) + rest =~= self.rewrapped(shorter) + tail);
            assert(shorter + (seq![last] + self.unwrapped(rest)) =~= tokens + self.unwrapped(
                rest,
            ));
        }
    }

    /// Writing a list of clean classes and reading it again gives the list
    /// back, in every mode.
    pub proof fn lemma_unwrap_rewrapped(self, tokens: Seq<Seq<u8>>)
        requires
            self.all_clean(tokens),
        ensures
            self.unwrapped(self.rewrapped(tokens)) == tokens,
    {
        self.lemma_unwrapped_rewrapped_then(tokens, Seq::empty());
        assert(self.rewrapped(tokens) + Seq::<u8>::empty() =~= self.rewrapped(tokens));
        assert(tokens + Seq::<Seq<u8>>::empty() =~= tokens);
    }

    /// Reading a text and writing what was read gives a text that, read and
    /// written once more, stays as it is: the written form of a list is
    /// reproduced exactly.
    pub proof fn lemma_rewrap_round_trip(self, text: Seq<u8>)
        ensures
            self.unwrapped(self.rewrapped(self.unwrapped(text))) == self.unwrapped(text),
            self.rewrapped(self.unwrapped(self.rewrapped(self.unwrapped(text))))
                == self.rewrapped(self.unwrapped(text)),
    {
        self.lemma_unwrapped_clean(text);
        self.lemma_unwrap_rewrapped(self.unwrapped(text));
    }
}

/// How many bytes `q` stand at the start of `text`.
pub open spec fn leading(text: Seq<u8>, q: u8) -> int
    decreases text.len(),
{
    if text.len() > 0 && text[0] == q {
        1 + leading(text.drop_first(), q)
    } else {
        0
    }
}

/// How many bytes `q` stand at the end of `text`.
pub open spec fn trailing(text: Seq<u8>, q: u8) -> int
    decreases text.len(),
{
    if text.len() > 0 && text.last() == q {
        1 + trailing(text.drop_last(), q)
    } else {
        0
    }
}

/// The first `leading` bytes are `q`, and the next one is not.
pub proof fn lemma_leading(text: Seq<u8>, q: u8)
    ensures
        0 <= leading(text, q) <= text.len(),
        forall|i: int| 0 <= i < leading(text, q) ==> text[i] == q,
        leading(text, q) == text.len() || text[leading(text, q)] != q,
    decreases text.len(),
{
    if text.len() > 0 && text[0] == q {
        let rest = text.drop_first();
        lemma_leading(rest, q);
        assert forall|i: int| 0 <= i < leading(text, q) implies text[i] == q by {
            if i > 0 {
                assert(text[i] == rest[i - 1]);
            }
        }
        if leading(text, q) != text.len() {
            assert(text[leading(text, q)] == rest[leading(rest, q)]);
        }
    }
}

/// The last `trailing` bytes are `q`, and the one before them is not.
pub proof fn lemma_trailing(text: Seq<u8>, q: u8)
    ensures
        0 <= trailing(text, q) <= text.len(),
        forall|i: int| text.len() - trailing(text, q) <= i < text.len() ==> text[i] == q,
        trailing(text, q) == text.len() || text[text.len() - trailing(text, q) - 1] != q,
    decreases text.len(),
{
    if text.len() > 0 && text.last() == q {
        let rest = text.drop_last();
        lemma_trailing(rest, q);
        assert forall|i: int| text.len() - trailing(text, q) <= i < text.len() implies text[i]
            == q by {
            if i < rest.len() {
                assert(text[i] == rest[i]);
            }
        }
        if trailing(text, q) != text.len() {
            assert(text[text.len() - trailing(text, q) - 1] == rest[rest.len() - trailing(
                rest,
                q,
            ) - 1]);
        }
    }
}

/// `piece` without the bytes `q` at its two ends.
pub fn trim_quotes<'a>(piece: &'a [u8], q: u8) -> (inner: &'a [u8])
    ensures
        inner@ == trim_end(trim_start(piece@, q), q),
{
    let mut start: usize = 0;
    while start < piece.len() && piece[start] == q
        invariant
            start <= piece.len(),
            forall|i: int| 0 <= i < start ==> piece@[i] == q,
        decreases piece.len() - start,
    {
        start += 1;
    }
    let mut end: usize = piece.len();
    while end > start && piece[end - 1] == q
        invariant
            start <= end <= piece.len(),
            forall|i: int| end <= i < piece.len() ==> piece@[i] == q,
        decreases end,
    {
        end -= 1;
    }
    proof {
        lemma_trim_start(piece@, q, start as int);
        let inner = piece@.skip(start as int);
        assert forall|i: int| end - start <= i < inner.len() implies inner[i] == q by {
            assert(inner[i] == piece@[start + i]);
        }
        if end > start {
            assert(inner[end - start - 1] == piece@[end - 1]);
        }
        lemma_trim_end(inner, q, end - start);
        assert(inner.take(end - start) =~= piece@.subrange(start as int, end as int));
    }
    slice_subrange(piece, start, end)
}

/// The classes that `class_string` holds, in their order. Without quotes the
/// text is cut at whitespace; with quotes at commas and whitespace, and each
/// piece loses the quotes at its ends.
pub fn unwrap_wrapped_classes<'a>(wrapping: ClassWrapping, class_string: &'a [u8]) -> (classes:
    Vec<&'a [u8]>)
    ensures
        views_of(classes@) == wrapping.unwrapped(class_string@),
{
    let mut classes: Vec<&'a [u8]> = Vec::new();
    let mut i: usize = 0;
    proof {
        assert(class_string@.skip(0) =~= class_string@);
        assert(views_of(classes@) + wrapping.unwrapped(class_string@) =~= wrapping.unwrapped(
            class_string@,
        ));
    }
    while i < class_string.len()
        invariant
            i <= class_string.len(),
            views_of(classes@) + wrapping.unwrapped(class_string@.skip(i as int))
                == wrapping.unwrapped(class_string@),
        decreases class_string.len() - i,
    {
        let ghost rest = class_string@.skip(i as int);
        assert(rest[0] == class_string@[i as int]);
        if wrapping.is_separator(class_string[i]) {
            assert(rest.drop_first() =~= class_string@.skip(i + 1));
            i += 1;
        } else {
            let mut j: usize = i + 1;
            while j < class_string.len() && !wrapping.is_separator(class_string[j])
                invariant
                    i < j <= class_string.len(),
                    forall|k: int| i <= k < j ==> !wrapping.separates(#[trigger] class_string@[k]),
                decreases class_string.len() - j,
            {
                j += 1;
            }
            let piece = slice_subrange(class_string, i, j);
            let class = match wrapping.quote_byte() {
                None => piece,
                Some(q) => trim_quotes(piece, q),
            };
            proof {
                assert forall|k: int| 0 <= k < j - i implies !wrapping.separates(
                    #[trigger] rest[k],
                ) by {
                    assert(rest[k] == class_string@[i + k]);
                }
                if j < class_string.len() {
                    assert(rest[j - i] == class_string@[j as int]);
                }
                wrapping.lemma_run_len(rest, j - i);
                assert(rest.take(j - i) =~= piece@);
                assert(rest.skip(j - i) =~= class_string@.skip(j as int));
                assert(class@ == wrapping.bare(piece@));
                assert(views_of(classes@.push(class)) =~= views_of(classes@) + seq![class@]);
                assert((views_of(classes@) + seq![class@]) + wrapping.unwrapped(
                    class_string@.skip(j as int),
                ) =~= views_of(classes@) + (seq![class@] + wrapping.unwrapped(
                    class_string@.skip(j as int),
                )));
            }
            classes.push(class);
            i = j;
        }
    }
    proof {
        assert(class_string@.skip(i as int) =~= Seq::<u8>::empty());
        assert(views_of(classes@) + Seq::<Seq<u8>>::empty() =~= views_of(classes@));
    }
    classes
}

/// The text for a list of classes: bare with a space between them, or each
/// in quotes with a comma and a space between them.
pub fn rewrap_wrapped_classes(wrapping: ClassWrapping, classes: &Vec<&[u8]>) -> (text: Vec<u8>)
    ensures
        text@ == wrapping.rewrapped(views_of(classes@)),
{
    let mut text: Vec<u8> = Vec::new();
    let mut i: usize = 0;
    let quote = wrapping.quote_byte();
    while i < classes.len()
        invariant
            i <= classes.len(),
            quote == wrapping.quote(),
            text@ == wrapping.rewrapped(views_of(classes@).take(i as int)),
        decreases classes.len() - i,
    {
        let ghost before = views_of(classes@).take(i as int);
        let ghost now = views_of(classes@).take(i + 1);
        proof {
            assert(now.drop_last() =~= before);
            assert(now.last() == classes@[i as int]@);
        }
        if i > 0 {
            match quote {
                None => {
                    text.push(32u8);
                    assert(text@ =~= wrapping.rewrapped(before) + wrapping.separator());
                },
                Some(_) => {
                    text.push(44u8);
                    text.push(32u8);
                    assert(text@ =~= wrapping.rewrapped(before) + wrapping.separator());
                },
            }
        } else {
            assert(now[0] == classes@[0]@);
        }
        let ghost joined = text@;
        match quote {
            None => {
                push_bytes(&mut text, classes[i]);
            },
            Some(q) => {
                text.push(q);
                push_bytes(&mut text, classes[i]);
                text.push(q);
                assert(text@ =~= joined + wrapping.wrapped(classes@[i as int]@));
            },
        }
        assert(text@ =~= wrapping.rewrapped(now));
        i += 1;
    }
    assert(views_of(classes@).take(classes.len() as int) =~= views_of(classes@));
    text
}

} // verus!

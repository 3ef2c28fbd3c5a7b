//! String slices seen as sequences of characters, split at byte offsets.

use vstd::prelude::*;
use vstd::std_specs::iter::IteratorSpec;
use vstd::string::*;
use vstd::utf8::*;

verus! {

/// Number of bytes that `chars` occupies once encoded as UTF-8.
pub open spec fn utf8_len(chars: Seq<char>) -> nat {
    encode_utf8(chars).len()
}

/// Encoding distributes over concatenation.
pub proof fn lemma_encode_concat(a: Seq<char>, b: Seq<char>)
    ensures
        encode_utf8(a + b) == encode_utf8(a) + encode_utf8(b),
    decreases a.len(),
{
    if a.len() == 0 {
        assert(a + b =~= b);
        assert(encode_utf8(a) + encode_utf8(b) =~= encode_utf8(b));
    } else {
        assert((a + b).drop_first() =~= a.drop_first() + b);
        lemma_encode_concat(a.drop_first(), b);
        assert(encode_utf8(a + b) =~= encode_utf8(a) + encode_utf8(b));
    }
}

/// The end of an encoded prefix is a character boundary of the whole encoding.
pub proof fn lemma_boundary_after_prefix(a: Seq<char>, b: Seq<char>)
    ensures
        is_char_boundary(encode_utf8(a + b), utf8_len(a) as int),
    decreases a.len(),
{
    let bytes = encode_utf8(a + b);
    encode_utf8_valid_utf8(a + b);
    if a.len() > 0 {
        let rest = a.drop_first();
        encode_utf8_first_scalar(a + b);
        assert((a + b).drop_first() =~= rest + b);
        assert(pop_first_scalar(bytes) =~= encode_utf8(rest + b));
        lemma_boundary_after_prefix(rest, b);
        lemma_encode_concat(a, b);
    }
}

/// Splits `text` after its first `count` characters, which take `offset` bytes.
pub(crate) fn split_chars<'a>(text: &'a str, offset: usize, Ghost(count): Ghost<int>) -> (parts: (
    &'a str,
    &'a str,
))
    requires
        0 <= count <= text@.len(),
        offset == utf8_len(text@.take(count)),
    ensures
        parts.0@ == text@.take(count),
        parts.1@ == text@.skip(count),
{
    proof {
        let head = text@.take(count);
        let tail = text@.skip(count);
        assert(head + tail =~= text@);
        lemma_boundary_after_prefix(head, tail);
        lemma_encode_concat(head, tail);
    }
    let parts = text.split_at(offset);
    proof {
        let head = text@.take(count);
        let tail = text@.skip(count);
        let bytes = text.spec_bytes();
        assert(bytes.subrange(0, offset as int) =~= encode_utf8(head));
        assert(bytes.subrange(offset as int, bytes.len() as int) =~= encode_utf8(tail));
        encode_utf8_decode_utf8(head);
        encode_utf8_decode_utf8(tail);
        encode_utf8_decode_utf8(parts.0@);
        encode_utf8_decode_utf8(parts.1@);
    }
    parts
}

/// Extending a prefix by one character adds that character's width.
pub proof fn lemma_utf8_len_step(text: Seq<char>, count: int)
    requires
        0 <= count < text.len(),
    ensures
        utf8_len(text.take(count + 1)) == utf8_len(text.take(count)) + utf8_len(seq![text[count]]),
        utf8_len(text.take(count + 1)) <= utf8_len(text),
{
    assert(text.take(count + 1) =~= text.take(count) + seq![text[count]]);
    lemma_encode_concat(text.take(count), seq![text[count]]);
    assert(text =~= text.take(count + 1) + text.skip(count + 1));
    lemma_encode_concat(text.take(count + 1), text.skip(count + 1));
}

/// Number of bytes in `text`.
pub fn byte_len(text: &str) -> (len: usize)
    ensures
        len == utf8_len(text@),
{
    text.as_bytes().len()
}

/// Number of bytes that `c` occupies in UTF-8.
pub fn char_width(c: char) -> (width: usize)
    ensures
        width == utf8_len(seq![c]),
        1 <= width <= 4,
{
    proof {
        reveal_with_fuel(encode_utf8, 2);
        assert(seq![c].drop_first() =~= Seq::<char>::empty());
        assert(encode_utf8(seq![c]) =~= encode_scalar(c as u32));
    }
    let scalar = c as u32;
    if scalar < 0x80 {
        1
    } else if scalar < 0x800 {
        2
    } else if scalar < 0x10000 {
        3
    } else {
        4
    }
}

/// Whether `c` has the Unicode property `White_Space`.
pub uninterp spec fn white_space(c: char) -> bool;

/// Whether `c` has the Unicode property `Alphabetic`.
pub uninterp spec fn alphabetic(c: char) -> bool;

/// Whether `c` belongs to one of the Unicode numeric categories `Nd`, `Nl`, `No`.
pub uninterp spec fn numeric(c: char) -> bool;

/// `char::is_whitespace` decides the property `White_Space`.
pub assume_specification[ char::is_whitespace ](c: char) -> (b: bool)
    ensures
        b == white_space(c),
;

/// `char::is_alphabetic` decides the property `Alphabetic`.
pub assume_specification[ char::is_alphabetic ](c: char) -> (b: bool)
    ensures
        b == alphabetic(c),
;

/// `char::is_alphanumeric` accepts what is alphabetic or numeric.
pub assume_specification[ char::is_alphanumeric ](c: char) -> (b: bool)
    ensures
        b == (alphabetic(c) || numeric(c)),
;

/// Length of the longest prefix of `text` whose characters `accepts` holds of.
pub open spec fn span(text: Seq<char>, accepts: spec_fn(char) -> bool) -> nat
    decreases text.len(),
{
    if text.len() > 0 && accepts(text[0]) {
        1 + span(text.skip(1), accepts)
    } else {
        0
    }
}

/// A span is no longer than the text.
pub proof fn lemma_span_bound(text: Seq<char>, accepts: spec_fn(char) -> bool)
    ensures
        span(text, accepts) <= text.len(),
    decreases text.len(),
{
    if text.len() > 0 && accepts(text[0]) {
        lemma_span_bound(text.skip(1), accepts);
    }
}

/// Number of characters at the front of `text` that have `White_Space`.
pub open spec fn leading_whitespace(text: Seq<char>) -> nat {
    span(text, |c: char| white_space(c))
}

/// Number of characters at the back of `text` that have `White_Space`.
pub open spec fn trailing_whitespace(text: Seq<char>) -> nat
    decreases text.len(),
{
    if text.len() > 0 && white_space(text.last()) {
        1 + trailing_whitespace(text.drop_last())
    } else {
        0
    }
}

/// `text` without the whitespace at its front and at its back.
pub open spec fn trimmed(text: Seq<char>) -> Seq<char> {
    let body = text.skip(leading_whitespace(text) as int);
    body.take(body.len() - trailing_whitespace(body))
}

/// A prefix whose characters `accepts` holds of, and which ends where the
/// text ends or `accepts` fails, is the span.
pub proof fn lemma_span_is(text: Seq<char>, accepts: spec_fn(char) -> bool, len: int)
    requires
        0 <= len <= text.len(),
        forall|i: int| 0 <= i < len ==> accepts(#[trigger] text[i]),
        len < text.len() ==> !accepts(text[len]),
    ensures
        span(text, accepts) == len,
    decreases len,
{
    if len > 0 {
        let tail = text.skip(1);
        assert forall|i: int| 0 <= i < len - 1 implies accepts(#[trigger] tail[i]) by {
            assert(tail[i] == text[i + 1]);
        }
        lemma_span_is(tail, accepts, len - 1);
    }
}

/// A suffix of whitespace that ends the text and follows a character that
/// is no whitespace, or begins the text, is the trailing whitespace.
pub proof fn lemma_trailing_whitespace_is(text: Seq<char>, kept: int)
    requires
        0 <= kept <= text.len(),
        forall|i: int| kept <= i < text.len() ==> white_space(#[trigger] text[i]),
        kept > 0 ==> !white_space(text[kept - 1]),
    ensures
        trailing_whitespace(text) == text.len() - kept,
    decreases text.len() - kept,
{
    if kept < text.len() {
        lemma_trailing_whitespace_is(text.drop_last(), kept);
    }
}

/// Removes the whitespace at both ends of `text`.
pub fn trim(text: &str) -> (inner: &str)
    ensures
        inner@ == trimmed(text@),
{
    let total = byte_len(text);
    let mut chars = text.chars();
    let mut offset: usize = 0;
    let mut begin: usize = 0;
    let mut end: usize = 0;
    let mut seen = false;
    let ghost mut count: int = 0;
    let ghost mut first: int = 0;
    let ghost mut last: int = 0;
    loop
        invariant
            chars.obeys_prophetic_iter_laws(),
            0 <= first <= last <= count <= text@.len(),
            chars.remaining() == text@.skip(count),
            total == utf8_len(text@),
            offset == utf8_len(text@.take(count)),
            begin == utf8_len(text@.take(first)),
            end == utf8_len(text@.take(last)),
            begin <= end <= offset,
            forall|i: int| 0 <= i < first ==> white_space(#[trigger] text@[i]),
            forall|i: int| last <= i < count ==> white_space(#[trigger] text@[i]),
            !seen ==> first == count,
            seen ==> first < last && !white_space(text@[first]) && !white_space(text@[last - 1]),
        ensures
            count == text@.len(),
        decreases text@.len() - count,
    {
        match chars.next() {
            None => {
                break ;
            },
            Some(c) => {
                proof {
                    lemma_utf8_len_step(text@, count);
                }
                let next = offset + char_width(c);
                if !c.is_whitespace() {
                    seen = true;
                    end = next;
                    proof {
                        last = count + 1;
                    }
                } else if !seen {
                    begin = next;
                    end = next;
                    proof {
                        first = count + 1;
                        last = count + 1;
                    }
                }
                offset = next;
                proof {
                    count = count + 1;
                }
            },
        }
    }
    let (_, body) = split_chars(text, begin, Ghost(first));
    proof {
        lemma_span_is(text@, |c: char| white_space(c), first);
        assert forall|i: int| last - first <= i < body@.len() implies white_space(
            #[trigger] body@[i],
        ) by {
            assert(body@[i] == text@[i + first]);
        }
        lemma_trailing_whitespace_is(body@, last - first);
        assert(text@.take(first) + body@.take(last - first) =~= text@.take(last));
        lemma_encode_concat(text@.take(first), body@.take(last - first));
    }
    let (inner, _) = split_chars(body, end - begin, Ghost(last - first));
    inner
}

/// Whether `text` begins with `prefix`.
pub fn starts_with(text: &str, prefix: &str) -> (b: bool)
    ensures
        b == prefix@.is_prefix_of(text@),
{
    let mut wanted = prefix.chars();
    let mut given = text.chars();
    let ghost mut count: int = 0;
    loop
        invariant
            wanted.obeys_prophetic_iter_laws(),
            given.obeys_prophetic_iter_laws(),
            0 <= count <= prefix@.len(),
            count <= text@.len(),
            wanted.remaining() == prefix@.skip(count),
            given.remaining() == text@.skip(count),
            text@.take(count) == prefix@.take(count),
        decreases prefix@.len() - count,
    {
        match wanted.next() {
            None => {
                proof {
                    assert(prefix@.take(count) =~= prefix@);
                }
                return true;
            },
            Some(want) => {
                match given.next() {
                    Some(got) if got == want => {
                        proof {
                            assert(text@.take(count + 1) =~= text@.take(count).push(text@[count]));
                            assert(prefix@.take(count + 1) =~= prefix@.take(count).push(
                                prefix@[count],
                            ));
                            count = count + 1;
                        }
                    },
                    _ => {
                        proof {
                            if prefix@.is_prefix_of(text@) {
                                assert(text@[count] == prefix@[count]);
                            }
                        }
                        return false;
                    },
                }
            },
        }
    }
}

/// Whether `left` and `right` hold the same characters.
pub fn same_text(left: &str, right: &str) -> (same: bool)
    ensures
        same == (left@ == right@),
{
    let same = starts_with(left, right) && starts_with(right, left);
    proof {
        if same {
            assert(left@ =~= right@);
        }
    }
    same
}

} // verus!

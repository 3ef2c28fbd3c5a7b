//! Combinators on string slices: each takes the remaining input and returns
//! the piece it consumed together with what is left.

use crate::text::{
    byte_len, char_width, lemma_span_is, lemma_utf8_len_step, span, split_chars, starts_with,
    utf8_len,
};
use vstd::prelude::*;
use vstd::std_specs::iter::IteratorSpec;
use vstd::string::*;
use vstd::utf8::*;

verus! {

/// The message of `take` on an offset that is no character boundary of the input.
pub open spec fn take_failure() -> Seq<char> {
    "Offset is not a character boundary of the input"@
}

/// Splits `text` at byte offset `n`.
pub fn take(text: &str, n: usize) -> (result: Result<(&str, &str), String>)
    ensures
        match result {
            Ok((taken, rest)) => taken@ + rest@ == text@ && utf8_len(taken@) == n,
            Err(message) => !is_char_boundary(text.spec_bytes(), n as int) && message@
                == take_failure(),
        },
{
    if text.is_char_boundary(n) {
        let (taken, rest) = text.split_at(n);
        proof {
            let bytes = text.spec_bytes();
            encode_utf8_valid_utf8(text@);
            decode_utf8_split(bytes, n as int);
            encode_utf8_decode_utf8(text@);
            encode_utf8_decode_utf8(taken@);
            encode_utf8_decode_utf8(rest@);
        }
        Ok((taken, rest))
    } else {
        Err("Offset is not a character boundary of the input".to_owned())
    }
}

/// The message of `string` when the input does not start with `value`.
pub open spec fn string_failure(value: Seq<char>) -> Seq<char> {
    "'"@ + value + "' string not found"@
}

/// Consumes `value` from the front of `text`.
pub fn string<'a, 'b>(text: &'a str, value: &'b str) -> (result: Result<(&'a str, &'a str), String>)
    ensures
        match result {
            Ok((found, rest)) => found@ == value@ && found@ + rest@ == text@,
            Err(message) => !value@.is_prefix_of(text@) && message@ == string_failure(value@),
        },
{
    if starts_with(text, value) {
        proof {
            assert(text@.take(value@.len() as int) =~= value@);
            assert(text@.take(value@.len() as int) + text@.skip(value@.len() as int) =~= text@);
        }
        Ok(split_chars(text, byte_len(value), Ghost(value@.len() as int)))
    } else {
        let mut message = "'".to_owned();
        message.append(value);
        message.append("' string not found");
        Err(message)
    }
}

/// `found` is the longest run of characters at the front of `text` that
/// `pred` accepts, and `rest` is what follows it.
pub open spec fn is_leading_run<P: Fn(char) -> bool>(
    pred: P,
    text: Seq<char>,
    found: Seq<char>,
    rest: Seq<char>,
) -> bool {
    &&& found + rest == text
    &&& forall|i: int| 0 <= i < found.len() ==> call_ensures(pred, (#[trigger] found[i],), true)
    &&& rest.len() > 0 ==> call_ensures(pred, (rest[0],), false)
}

/// Consumes the longest prefix of `text` whose characters all satisfy `pred`.
pub fn many_chars<P: Fn(char) -> bool>(text: &str, pred: P) -> (result: Result<
    (&str, &str),
    String,
>)
    requires
        forall|c: char| call_requires(pred, (c,)),
    ensures
        result matches Ok((found, rest)) && is_leading_run(pred, text@, found@, rest@),
{
    let mut chars = text.chars();
    let mut offset: usize = 0;
    let ghost mut count: int = 0;
    let total = byte_len(text);
    loop
        invariant
            chars.obeys_prophetic_iter_laws(),
            0 <= count <= text@.len(),
            chars.remaining() == text@.skip(count),
            offset == utf8_len(text@.take(count)),
            total == utf8_len(text@),
            forall|i: int| 0 <= i < count ==> call_ensures(pred, (#[trigger] text@[i],), true),
            forall|c: char| call_requires(pred, (c,)),
        decreases text@.len() - count,
    {
        match chars.next() {
            None => {
                proof {
                    reveal_strlit("");
                    assert(text@ + ""@ =~= text@);
                }
                return Ok((text, ""));
            },
            Some(c) => {
                if !pred(c) {
                    let (found, rest) = split_chars(text, offset, Ghost(count));
                    proof {
                        assert(found@ + rest@ =~= text@);
                    }
                    return Ok((found, rest));
                }
                proof {
                    lemma_utf8_len_step(text@, count);
                }
                offset = offset + char_width(c);
                proof {
                    count = count + 1;
                }
            },
        }
    }
}

/// The message of `some_chars` when no character was accepted.
pub open spec fn some_chars_failure() -> Seq<char> {
    "No chars found with the predicate"@
}

/// Like `many_chars`, but fails when the run is empty.
pub fn some_chars<P: Fn(char) -> bool>(text: &str, pred: P) -> (result: Result<
    (&str, &str),
    String,
>)
    requires
        forall|c: char| call_requires(pred, (c,)),
    ensures
        match result {
            Ok((found, rest)) => found@.len() > 0 && is_leading_run(pred, text@, found@, rest@),
            Err(message) => is_leading_run(pred, text@, Seq::empty(), text@) && message@
                == some_chars_failure(),
        },
{
    match many_chars(text, pred) {
        Ok((found, rest)) => {
            if found.is_empty() {
                proof {
                    assert(found@ =~= Seq::<char>::empty());
                    assert(rest@ =~= text@);
                }
                Err("No chars found with the predicate".to_owned())
            } else {
                Ok((found, rest))
            }
        },
        Err(message) => Err(message),
    }
}

/// Some slice that reads `suffix` was handed to `pred`, which rejected it.
pub open spec fn rejects<P: Fn(&str) -> bool>(pred: P, suffix: Seq<char>) -> bool {
    exists|given: &str| #[trigger] call_ensures(pred, (given,), false) && given@ == suffix
}

/// `found` ends at the first position of `text` whose suffix `pred` accepts,
/// or at the end of `text` when it accepts none.
pub open spec fn is_scan_until<P: Fn(&str) -> bool>(
    pred: P,
    text: Seq<char>,
    found: Seq<char>,
    rest: &str,
) -> bool {
    &&& found + rest@ == text
    &&& forall|i: int| 0 <= i < found.len() ==> rejects(pred, #[trigger] text.skip(i))
    &&& rest@.len() > 0 ==> call_ensures(pred, (rest,), true)
}

/// Consumes `text` up to the first position whose remaining suffix satisfies `pred`.
pub fn take_until<P: Fn(&str) -> bool>(text: &str, pred: P) -> (result: Result<
    (&str, &str),
    String,
>)
    requires
        forall|suffix: &str| call_requires(pred, (suffix,)),
    ensures
        result matches Ok((found, rest)) && is_scan_until(pred, text@, found@, rest),
{
    let mut chars = text.chars();
    let mut offset: usize = 0;
    let ghost mut count: int = 0;
    let total = byte_len(text);
    loop
        invariant
            chars.obeys_prophetic_iter_laws(),
            0 <= count <= text@.len(),
            chars.remaining() == text@.skip(count),
            offset == utf8_len(text@.take(count)),
            total == utf8_len(text@),
            forall|i: int| 0 <= i < count ==> rejects(pred, #[trigger] text@.skip(i)),
            forall|suffix: &str| call_requires(pred, (suffix,)),
        decreases text@.len() - count,
    {
        match chars.next() {
            None => {
                proof {
                    reveal_strlit("");
                    assert(text@ + ""@ =~= text@);
                }
                return Ok((text, ""));
            },
            Some(c) => {
                let (found, rest) = split_chars(text, offset, Ghost(count));
                if pred(rest) {
                    proof {
                        assert(found@ + rest@ =~= text@);
                    }
                    return Ok((found, rest));
                }
                proof {
                    lemma_utf8_len_step(text@, count);
                }
                offset = offset + char_width(c);
                proof {
                    count = count + 1;
                }
            },
        }
    }
}

/// One more item: `separator` matches at `from`, `content` matches after
/// it and yields `item`, and the input left at `to` is shorter than at `from`.
pub open spec fn is_separated_step<'a, P, Q, A, B>(
    content: P,
    separator: Q,
    from: &'a str,
    item: A,
    to: &'a str,
) -> bool where
    P: Fn(&'a str) -> Result<(A, &'a str), String>,
    Q: Fn(&'a str) -> Result<(B, &'a str), String>,
 {
    exists|skipped: B, middle: &'a str|
        {
            &&& #[trigger] call_ensures(separator, (from,), Ok((skipped, middle)))
            &&& call_ensures(content, (middle,), Ok((item, to)))
            &&& utf8_len(to@) < utf8_len(from@)
        }
}

/// No further item follows at `at`: `separator` fails there, or `content`
/// fails after it, or the two together consume nothing.
pub open spec fn is_separated_end<'a, P, Q, A, B>(content: P, separator: Q, at: &'a str) -> bool where
    P: Fn(&'a str) -> Result<(A, &'a str), String>,
    Q: Fn(&'a str) -> Result<(B, &'a str), String>,
 {
    ||| exists|error: String| #[trigger] call_ensures(separator, (at,), Err(error))
    ||| exists|skipped: B, middle: &'a str, error: String|
        {
            &&& #[trigger] call_ensures(separator, (at,), Ok((skipped, middle)))
            &&& #[trigger] call_ensures(content, (middle,), Err(error))
        }
    ||| exists|skipped: B, middle: &'a str, item: A, to: &'a str|
        {
            &&& #[trigger] call_ensures(separator, (at,), Ok((skipped, middle)))
            &&& #[trigger] call_ensures(content, (middle,), Ok((item, to)))
            &&& utf8_len(to@) >= utf8_len(at@)
        }
}

/// `items` are the values of a maximal run of `content` matches separated by
/// `separator` matches, starting at `text`; `stops[i]` is the input left
/// after item `i`, and `rest` the input left after the last one.
pub open spec fn is_separated_run<'a, P, Q, A, B>(
    content: P,
    separator: Q,
    text: &'a str,
    items: Seq<A>,
    stops: Seq<&'a str>,
    rest: &'a str,
) -> bool where
    P: Fn(&'a str) -> Result<(A, &'a str), String>,
    Q: Fn(&'a str) -> Result<(B, &'a str), String>,
 {
    &&& items.len() >= 1
    &&& stops.len() == items.len()
    &&& call_ensures(content, (text,), Ok((items[0], stops[0])))
    &&& forall|i: int|
        1 <= i < items.len() ==> is_separated_step::<P, Q, A, B>(
            content,
            separator,
            stops[i - 1],
            #[trigger] items[i],
            stops[i],
        )
    &&& rest == stops.last()
    &&& is_separated_end::<P, Q, A, B>(content, separator, rest)
}

/// The message of `sep_by` when not even one item was found.
pub open spec fn sep_by_failure() -> Seq<char> {
    "Seperated content not found "@
}

/// Parses one or more `content` values separated by `separator`. The run
/// ends before the first separator that no further value follows, and
/// before a separator and value that together consume nothing.
pub fn sep_by<'a, P, Q, A, B>(text: &'a str, content: P, separator: Q) -> (result: Result<
    (Vec<A>, &'a str),
    String,
>) where
    P: Fn(&'a str) -> Result<(A, &'a str), String>,
    Q: Fn(&'a str) -> Result<(B, &'a str), String>,

    requires
        forall|input: &'a str| call_requires(content, (input,)),
        forall|input: &'a str| call_requires(separator, (input,)),
    ensures
        match result {
            Ok((items, rest)) => exists|stops: Seq<&'a str>| #[trigger]
                is_separated_run::<P, Q, A, B>(content, separator, text, items@, stops, rest),
            Err(message) => (exists|error: String| #[trigger]
                call_ensures(content, (text,), Err(error))) && message@ == sep_by_failure(),
        },
{
    let lead_result = content(text);
    match lead_result {
        Err(error) => {
            assert(exists|error: String| #[trigger] call_ensures(content, (text,), Err(error)));
            Err("Seperated content not found ".to_owned())
        },
        Ok((lead, text0)) => {
            let mut items = Vec::new();
            items.push(lead);
            let mut needle = text0;
            let ghost mut stops = seq![text0];
            loop
                invariant
                    items@.len() >= 1,
                    stops.len() == items@.len(),
                    call_ensures(content, (text,), Ok((items@[0], stops[0]))),
                    forall|i: int|
                        1 <= i < items@.len() ==> is_separated_step::<P, Q, A, B>(
                            content,
                            separator,
                            stops[i - 1],
                            #[trigger] items@[i],
                            stops[i],
                        ),
                    needle == stops.last(),
                    forall|input: &'a str| call_requires(content, (input,)),
                    forall|input: &'a str| call_requires(separator, (input,)),
                ensures
                    is_separated_end::<P, Q, A, B>(content, separator, needle),
                decreases utf8_len(needle@),
            {
                let separator_result = separator(needle);
                match separator_result {
                    Err(error) => {
                        proof {
                            assert(call_ensures(separator, (needle,), Err(error)));
                        }
                        break ;
                    },
                    Ok((skipped, needle0)) => {
                        let content_result = content(needle0);
                        match content_result {
                            Err(error) => {
                                proof {
                                    assert(call_ensures(separator, (needle,), Ok((skipped, needle0))));
                                    assert(call_ensures(content, (needle0,), Err(error)));
                                }
                                break ;
                            },
                            Ok((value, needle1)) => {
                                proof {
                                    assert(call_ensures(separator, (needle,), Ok((skipped, needle0))));
                                    assert(call_ensures(content, (needle0,), Ok((value, needle1))));
                                }
                                if byte_len(needle1) >= byte_len(needle) {
                                    break ;
                                }
                                items.push(value);
                                proof {
                                    stops = stops.push(needle1);
                                }
                                needle = needle1;
                            },
                        }
                    },
                }
            }
            let result: Result<(Vec<A>, &'a str), String> = Ok((items, needle));
            assert(is_separated_run::<P, Q, A, B>(
                content,
                separator,
                text,
                result->Ok_0.0@,
                stops,
                result->Ok_0.1,
            ));
            result
        },
    }
}

/// `pred` returns what `accepts` says, and nothing else.
pub open spec fn decides<P: Fn(char) -> bool>(pred: P, accepts: spec_fn(char) -> bool) -> bool {
    forall|c: char, b: bool| #[trigger] call_ensures(pred, (c,), b) ==> b == accepts(c)
}

/// A leading run of a predicate that decides `accepts` has length `span`.
pub proof fn lemma_leading_run_is_span<P: Fn(char) -> bool>(
    pred: P,
    accepts: spec_fn(char) -> bool,
    text: Seq<char>,
    found: Seq<char>,
    rest: Seq<char>,
)
    requires
        decides(pred, accepts),
        is_leading_run(pred, text, found, rest),
    ensures
        found.len() == span(text, accepts),
        found == text.take(span(text, accepts) as int),
        rest == text.skip(span(text, accepts) as int),
{
    assert forall|i: int| 0 <= i < found.len() implies accepts(#[trigger] text[i]) by {
        assert(text[i] == found[i]);
        assert(call_ensures(pred, (found[i],), true));
    }
    if found.len() < text.len() {
        assert(text[found.len() as int] == rest[0]);
    }
    lemma_span_is(text, accepts, found.len() as int);
    assert(found =~= text.take(found.len() as int));
    assert(rest =~= text.skip(found.len() as int));
}

/// First position of `text` at which `pattern` begins, or the length of
/// `text` where it begins nowhere.
pub open spec fn first_match(text: Seq<char>, pattern: Seq<char>) -> nat
    decreases text.len(),
{
    if text.len() == 0 || pattern.is_prefix_of(text) {
        0
    } else {
        1 + first_match(text.skip(1), pattern)
    }
}

/// The first match lies within the text.
pub proof fn lemma_first_match_bound(text: Seq<char>, pattern: Seq<char>)
    ensures
        first_match(text, pattern) <= text.len(),
    decreases text.len(),
{
    if !(text.len() == 0 || pattern.is_prefix_of(text)) {
        lemma_first_match_bound(text.skip(1), pattern);
    }
}

/// Whether `pattern` begins at some position of `text`.
pub open spec fn occurs(pattern: Seq<char>, text: Seq<char>) -> bool {
    exists|i: int| 0 <= i < text.len() && pattern.is_prefix_of(#[trigger] text.skip(i))
}

/// Where the pattern occurs nowhere, the first match is the end of the text.
pub proof fn lemma_first_match_absent(text: Seq<char>, pattern: Seq<char>)
    requires
        !occurs(pattern, text),
    ensures
        first_match(text, pattern) == text.len(),
    decreases text.len(),
{
    if text.len() > 0 {
        assert(text.skip(0) =~= text);
        assert(!pattern.is_prefix_of(text.skip(0)));
        let tail = text.skip(1);
        assert forall|i: int| 0 <= i < tail.len() implies !pattern.is_prefix_of(
            #[trigger] tail.skip(i),
        ) by {
            assert(tail.skip(i) =~= text.skip(i + 1));
        }
        lemma_first_match_absent(tail, pattern);
    }
}

/// `pred` tells whether its argument begins with `pattern`.
pub open spec fn detects<P: Fn(&str) -> bool>(pred: P, pattern: Seq<char>) -> bool {
    forall|suffix: &str, b: bool| #[trigger]
        call_ensures(pred, (suffix,), b) ==> b == pattern.is_prefix_of(suffix@)
}

/// A scan with a predicate that detects `pattern` stops at its first match.
pub proof fn lemma_scan_until_is_first_match<P: Fn(&str) -> bool>(
    pred: P,
    pattern: Seq<char>,
    text: Seq<char>,
    found: Seq<char>,
    rest: &str,
)
    requires
        detects(pred, pattern),
        is_scan_until(pred, text, found, rest),
    ensures
        found.len() == first_match(text, pattern),
        found == text.take(first_match(text, pattern) as int),
        rest@ == text.skip(first_match(text, pattern) as int),
    decreases found.len(),
{
    if found.len() > 0 {
        assert(rejects(pred, text.skip(0)));
        assert(text.skip(0) =~= text);
        let shorter = found.skip(1);
        assert(shorter + rest@ =~= text.skip(1));
        assert forall|i: int| 0 <= i < shorter.len() implies rejects(
            pred,
            #[trigger] text.skip(1).skip(i),
        ) by {
            assert(text.skip(1).skip(i) =~= text.skip(i + 1));
        }
        lemma_scan_until_is_first_match(pred, pattern, text.skip(1), shorter, rest);
    } else {
        assert(rest@ =~= text);
    }
    assert(found =~= text.take(found.len() as int));
    assert(rest@ =~= text.skip(found.len() as int));
}

} // verus!

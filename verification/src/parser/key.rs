//! Keys: dotted paths of identifiers, or a lone `.` for the current context.

use crate::parser::combinators::{
    is_separated_end, is_separated_run, is_separated_step, lemma_leading_run_is_span, many_chars,
    sep_by, string, string_failure,
};
use crate::text::{alphabetic, lemma_encode_concat, lemma_span_bound, numeric, span, utf8_len};
use crate::types::{key_view, Key, KeyView};
use vstd::prelude::*;
use vstd::string::*;
use vstd::utf8::*;

verus! {

/// Characters that may begin an identifier.
pub open spec fn identifier_start(c: char) -> bool {
    alphabetic(c) || c == '$' || c == '_'
}

/// Characters that an identifier is made of.
pub open spec fn identifier_part(c: char) -> bool {
    alphabetic(c) || numeric(c) || c == '$' || c == '_'
}

/// Length of the identifier at the front of `text`, if one begins there.
pub open spec fn identifier_len(text: Seq<char>) -> Option<nat> {
    if text.len() > 0 && identifier_start(text[0]) {
        Some(span(text, |c: char| identifier_part(c)))
    } else {
        None
    }
}

/// Whether a `.` followed by an identifier stands at the front of `text`.
pub open spec fn continues_path(text: Seq<char>) -> bool {
    text.len() > 0 && text[0] == '.' && identifier_len(text.skip(1)) is Some
}

/// The identifiers of the longest dotted path at the front of `text`, and
/// what follows the path.
pub open spec fn parse_path(text: Seq<char>) -> Option<(KeyView, Seq<char>)>
    decreases text.len(),
{
    match identifier_len(text) {
        None => None,
        Some(len) => {
            let name = text.take(len as int);
            let rest = text.skip(len as int);
            if continues_path(rest) {
                proof {
                    lemma_span_bound(text, |c: char| identifier_part(c));
                }
                match parse_path(rest.skip(1)) {
                    Some((more, left)) => Some((seq![name] + more, left)),
                    None => None,
                }
            } else {
                Some((seq![name], rest))
            }
        },
    }
}

/// The key at the front of `text` and what follows it: a lone `.` is the
/// empty key, anything else must be a dotted path.
pub open spec fn parse_key(text: Seq<char>) -> Result<(KeyView, Seq<char>), Seq<char>> {
    if text.len() > 0 && text[0] == '.' {
        Ok((Seq::empty(), text.skip(1)))
    } else {
        match parse_path(text) {
            Some(parsed) => Ok(parsed),
            None => Err(key_failure()),
        }
    }
}

/// The message of `identifier` where no identifier begins.
pub open spec fn identifier_failure() -> Seq<char> {
    "Leading character for identifier not found"@
}

/// The message of `key` where neither form of key is found.
pub open spec fn key_failure() -> Seq<char> {
    string_failure("."@)
}

/// Consumes the `.` between two identifiers.
pub fn dot(text: &str) -> (result: Result<((), &str), String>)
    ensures
        match result {
            Ok((_, rest)) => text@.len() > 0 && text@[0] == '.' && rest@ == text@.skip(1),
            Err(message) => !(text@.len() > 0 && text@[0] == '.') && message@ == key_failure(),
        },
{
    proof {
        reveal_strlit(".");
    }
    match string(text, ".") {
        Ok((found, rest)) => {
            proof {
                assert(text@[0] == (found@ + rest@)[0]);
                assert(rest@ =~= text@.skip(1));
            }
            Ok(((), rest))
        },
        Err(message) => {
            proof {
                if text@.len() > 0 && text@[0] == '.' {
                    assert("."@ =~= text@.subrange(0, 1));
                }
            }
            Err(message)
        },
    }
}

/// Whether `c` may begin an identifier: a letter, `$` or `_`.
pub fn is_identifier_start(c: char) -> (b: bool)
    ensures
        b == identifier_start(c),
{
    c.is_alphabetic() || c == '$' || c == '_'
}

/// Whether `c` may stand in an identifier: a letter, a number, `$` or `_`.
pub fn is_identifier_char(c: char) -> (b: bool)
    ensures
        b == identifier_part(c),
{
    c.is_alphanumeric() || c == '$' || c == '_'
}

/// Consumes the identifier at the front of `text`.
pub fn identifier(text: &str) -> (result: Result<(&str, &str), String>)
    ensures
        match result {
            Ok((name, rest)) => identifier_len(text@) == Some(name@.len()) && name@ + rest@
                == text@,
            Err(message) => identifier_len(text@) is None && message@ == identifier_failure(),
        },
{
    let mut chars = text.chars();
    let leads = match chars.next() {
        Some(first) => is_identifier_start(first),
        None => false,
    };
    if !leads {
        return Err("Leading character for identifier not found".to_owned());
    }
    let result = many_chars(text, is_identifier_char);
    proof {
        if let Ok((name, rest)) = result {
            lemma_leading_run_is_span(
                is_identifier_char,
                |c: char| identifier_part(c),
                text@,
                name@,
                rest@,
            );
        }
    }
    result
}

/// Consumes a lone `.`, the key of the current context.
pub fn implicit(text: &str) -> (result: Result<(Key<'_>, &str), String>)
    ensures
        match result {
            Ok((path, rest)) => text@.len() > 0 && text@[0] == '.' && path@.len() == 0 && rest@
                == text@.skip(1),
            Err(message) => !(text@.len() > 0 && text@[0] == '.') && message@ == key_failure(),
        },
{
    match dot(text) {
        Ok((_, rest)) => Ok((Vec::new(), rest)),
        Err(message) => Err(message),
    }
}

/// What follows a dotted path is no longer than the input.
pub proof fn lemma_parse_path_bound(text: Seq<char>)
    ensures
        parse_path(text) matches Some((_, rest)) ==> rest.len() <= text.len(),
    decreases text.len(),
{
    if let Some(len) = identifier_len(text) {
        lemma_span_bound(text, |c: char| identifier_part(c));
        let rest = text.skip(len as int);
        if continues_path(rest) {
            lemma_parse_path_bound(rest.skip(1));
        }
    }
}

/// What follows a key is no longer than the input.
pub proof fn lemma_parse_key_bound(text: Seq<char>)
    ensures
        parse_key(text) matches Ok((_, rest)) ==> rest.len() <= text.len(),
{
    lemma_parse_path_bound(text);
}

/// Where item `index` of a run of identifiers separated by dots begins.
pub open spec fn path_start(text: &str, stops: Seq<&str>, index: int) -> Seq<char> {
    if index == 0 {
        text@
    } else {
        stops[index - 1]@.skip(1)
    }
}

/// What one step of a run of identifiers separated by dots consumed.
proof fn lemma_path_step<'a>(from: &'a str, item: &'a str, to: &'a str)
    requires
        is_separated_step(identifier, dot, from, item, to),
    ensures
        from@.len() > 0,
        from@[0] == '.',
        identifier_len(from@.skip(1)) == Some(item@.len()),
        item@ + to@ == from@.skip(1),
{
    let (skipped, middle) = choose|skipped: (), middle: &'a str|
        {
            &&& #[trigger] call_ensures(dot, (from,), Ok((skipped, middle)))
            &&& call_ensures(identifier, (middle,), Ok((item, to)))
            &&& utf8_len(to@) < utf8_len(from@)
        };
    assert(middle@ == from@.skip(1));
}

/// Where a run of identifiers separated by dots ends, no `.` with an
/// identifier behind it follows.
proof fn lemma_path_end<'a>(at: &'a str)
    requires
        is_separated_end(identifier, dot, at),
    ensures
        !continues_path(at@),
{
    if continues_path(at@) {
        if exists|error: String| #[trigger] call_ensures(dot, (at,), Err(error)) {
        } else if exists|skipped: (), middle: &'a str, error: String|
            {
                &&& #[trigger] call_ensures(dot, (at,), Ok((skipped, middle)))
                &&& #[trigger] call_ensures(identifier, (middle,), Err(error))
            } {
            let (skipped, middle, error) = choose|skipped: (), middle: &'a str, error: String|
                {
                    &&& #[trigger] call_ensures(dot, (at,), Ok((skipped, middle)))
                    &&& #[trigger] call_ensures(identifier, (middle,), Err(error))
                };
            assert(middle@ == at@.skip(1));
        } else {
            let (skipped, middle, item, to) = choose|
                skipped: (),
                middle: &'a str,
                item: &'a str,
                to: &'a str,
            |
                {
                    &&& #[trigger] call_ensures(dot, (at,), Ok((skipped, middle)))
                    &&& #[trigger] call_ensures(identifier, (middle,), Ok((item, to)))
                    &&& utf8_len(to@) >= utf8_len(at@)
                };
            assert(at@ =~= seq!['.'] + (item@ + to@));
            lemma_encode_concat(seq!['.'], item@ + to@);
            lemma_encode_concat(item@, to@);
            reveal_with_fuel(encode_utf8, 2);
            assert(encode_utf8(seq!['.']).len() > 0);
        }
    }
}

/// A run of identifiers separated by dots, from any of its items on, is the
/// dotted path that `parse_path` describes.
proof fn lemma_separated_path<'a>(
    text: &'a str,
    items: Seq<&'a str>,
    stops: Seq<&'a str>,
    rest: &'a str,
    index: int,
)
    requires
        is_separated_run(identifier, dot, text, items, stops, rest),
        0 <= index < items.len(),
    ensures
        parse_path(path_start(text, stops, index)) == Some(
            (key_view(items.skip(index)), rest@),
        ),
    decreases items.len() - index,
{
    let start = path_start(text, stops, index);
    let name = items[index]@;
    let after = stops[index]@;
    assert(identifier_len(start) == Some(name.len()) && name + after == start) by {
        if index > 0 {
            assert(is_separated_step(identifier, dot, stops[index - 1], items[index], stops[index]));
            lemma_path_step(stops[index - 1], items[index], stops[index]);
        }
    }
    assert(start.take(name.len() as int) =~= name);
    assert(start.skip(name.len() as int) =~= after);
    if index == items.len() - 1 {
        lemma_path_end(rest);
        assert(key_view(items.skip(index)) =~= seq![name]);
    } else {
        assert(is_separated_step(identifier, dot, stops[index], items[index + 1], stops[index + 1]));
        lemma_path_step(stops[index], items[index + 1], stops[index + 1]);
        lemma_separated_path(text, items, stops, rest, index + 1);
        assert(key_view(items.skip(index)) =~= seq![name] + key_view(items.skip(index + 1)));
    }
}

/// Parses a key: a lone `.`, or identifiers separated by dots.
pub fn key(text: &str) -> (result: Result<(Key<'_>, &str), String>)
    ensures
        match result {
            Ok((path, rest)) => parse_key(text@) == Ok::<_, Seq<char>>((key_view(path@), rest@)),
            Err(message) => parse_key(text@) == Err::<(KeyView, Seq<char>), _>(message@),
        },
{
    match implicit(text) {
        Ok((path, rest)) => {
            proof {
                assert(key_view(path@) =~= Seq::<Seq<char>>::empty());
            }
            Ok((path, rest))
        },
        Err(message) => {
            match sep_by(text, identifier, dot) {
                Ok((path, rest)) => {
                    proof {
                        let stops = choose|stops: Seq<&str>|
                            is_separated_run(identifier, dot, text, path@, stops, rest);
                        lemma_separated_path(text, path@, stops, rest, 0);
                        assert(path@.skip(0) =~= path@);
                    }
                    Ok((path, rest))
                },
                Err(_) => Err(message),
            }
        },
    }
}

} // verus!

//! Tags: one delimited tag, or a run of literal text, at the front of the
//! input, and the template parser that strings them together.

use crate::parser::combinators::{
    first_match, lemma_first_match_absent, lemma_first_match_bound, lemma_leading_run_is_span,
    lemma_scan_until_is_first_match, many_chars, occurs, some_chars, some_chars_failure, string,
    string_failure, take, take_failure, take_until,
};
use crate::parser::key::{key, lemma_parse_key_bound, parse_key};
use crate::text::{
    char_width, leading_whitespace, lemma_span_bound, same_text, span, split_chars,
    starts_with, trim, trimmed, white_space,
};
use crate::types::{
    join_key, joined, key_view, tags_view, ContextTag, DelimiterTag, Key, KeyTag, KeyView, Tag,
    TagView, Template, ValueTag,
};
use vstd::prelude::*;
use vstd::string::*;

verus! {

/// What a tag asks of the template parser.
pub enum Action<'a> {
    PushTag { tag: Tag<'a> },
    PushInvertedContext { key: Key<'a> },
    PushSectionContext { key: Key<'a> },
    PopContext { key: Key<'a> },
    ChangeDelimiter { start: &'a str, stop: &'a str },
}

/// The mathematical value of an `Action`.
pub enum ActionView {
    PushTag(TagView),
    PushInvertedContext(KeyView),
    PushSectionContext(KeyView),
    PopContext(KeyView),
    ChangeDelimiter(Seq<char>, Seq<char>),
}

impl<'a> View for Action<'a> {
    type V = ActionView;

    open spec fn view(&self) -> ActionView {
        match self {
            Action::PushTag { tag } => ActionView::PushTag(tag@),
            Action::PushInvertedContext { key } => ActionView::PushInvertedContext(key_view(key@)),
            Action::PushSectionContext { key } => ActionView::PushSectionContext(key_view(key@)),
            Action::PopContext { key } => ActionView::PopContext(key_view(key@)),
            Action::ChangeDelimiter { start, stop } => ActionView::ChangeDelimiter(start@, stop@),
        }
    }
}

/// The kind of tag that the text after a start delimiter announces.
pub enum TagKind {
    Text,
    Variable,
    UnescapedWrapped,
    Unescaped,
    Delimiters,
    Inverted,
    Section,
    Comment,
    Partial,
    SectionEnd,
}

/// A parse result over characters: the value and what is left, or a message.
pub type Parsed<T> = Result<(T, Seq<char>), Seq<char>>;

/// The kind that a sigil character stands for.
pub open spec fn sigil_kind(c: char) -> Option<TagKind> {
    if c == '!' {
        Some(TagKind::Comment)
    } else if c == '>' {
        Some(TagKind::Partial)
    } else if c == '{' {
        Some(TagKind::UnescapedWrapped)
    } else if c == '&' {
        Some(TagKind::Unescaped)
    } else if c == '=' {
        Some(TagKind::Delimiters)
    } else if c == '^' {
        Some(TagKind::Inverted)
    } else if c == '#' {
        Some(TagKind::Section)
    } else if c == '/' {
        Some(TagKind::SectionEnd)
    } else {
        None
    }
}

/// The kind of the tag at the front of `text` and where its payload begins.
/// Input that does not begin with `start` is text; after `start`, a sigil is
/// consumed and any other character begins the key of a variable.
pub open spec fn parse_tag_start(text: Seq<char>, start: Seq<char>) -> Parsed<TagKind> {
    if start.is_prefix_of(text) {
        let after = text.skip(start.len() as int);
        if after.len() == 0 {
            Err(take_failure())
        } else {
            match sigil_kind(after[0]) {
                Some(kind) => Ok((kind, after.skip(1))),
                None => Ok((TagKind::Variable, after)),
            }
        }
    } else {
        Ok((TagKind::Text, text))
    }
}

/// `value` is consumed from the front of `text`.
pub open spec fn parse_literal(text: Seq<char>, value: Seq<char>) -> Parsed<()> {
    if value.is_prefix_of(text) {
        Ok(((), text.skip(value.len() as int)))
    } else {
        Err(string_failure(value))
    }
}

/// `text` up to the first occurrence of `stop`, and what begins there.
pub open spec fn parse_text(text: Seq<char>, stop: Seq<char>) -> (Seq<char>, Seq<char>) {
    let len = first_match(text, stop) as int;
    (text.take(len), text.skip(len))
}

/// The raw payload of a comment or partial: the text before `stop`, trimmed.
pub open spec fn parse_value(text: Seq<char>, stop: Seq<char>) -> (Seq<char>, Seq<char>) {
    let (value, rest) = parse_text(text, stop);
    (trimmed(value), rest)
}

/// `text` without its leading whitespace.
pub open spec fn skip_whitespace(text: Seq<char>) -> Seq<char> {
    text.skip(leading_whitespace(text) as int)
}

/// A key surrounded by optional whitespace.
pub open spec fn parse_key_tag(text: Seq<char>) -> Parsed<KeyView> {
    match parse_key(skip_whitespace(text)) {
        Ok((key, rest)) => Ok((key, skip_whitespace(rest))),
        Err(message) => Err(message),
    }
}

/// Characters that a delimiter is made of.
pub open spec fn delimiter_part(c: char) -> bool {
    !white_space(c) && c != '='
}

/// One delimiter: a non-empty run of delimiter characters.
pub open spec fn parse_delimiter(text: Seq<char>) -> Parsed<Seq<char>> {
    let len = span(text, |c: char| delimiter_part(c));
    if len == 0 {
        Err(some_chars_failure())
    } else {
        Ok((text.take(len as int), text.skip(len as int)))
    }
}

/// Two delimiters, separated and surrounded by optional whitespace.
pub open spec fn parse_delimiters(text: Seq<char>) -> Parsed<(Seq<char>, Seq<char>)> {
    match parse_delimiter(skip_whitespace(text)) {
        Err(message) => Err(message),
        Ok((start, text1)) => match parse_delimiter(skip_whitespace(text1)) {
            Err(message) => Err(message),
            Ok((stop, text3)) => Ok(((start, stop), skip_whitespace(text3))),
        },
    }
}

/// The action of a tag of kind `kind` whose payload begins at `text`, and
/// what follows the payload. `stop` bounds the raw payloads.
pub open spec fn parse_payload(kind: TagKind, text: Seq<char>, stop: Seq<char>) -> Parsed<
    ActionView,
> {
    match kind {
        TagKind::Text => {
            let (value, rest) = parse_text(text, stop);
            Ok((ActionView::PushTag(TagView::Text(value)), rest))
        },
        TagKind::Delimiters => match parse_delimiters(text) {
            Err(message) => Err(message),
            Ok(((start, stop), text0)) => match parse_literal(text0, "="@) {
                Err(message) => Err(message),
                Ok((_, text1)) => Ok((ActionView::ChangeDelimiter(start, stop), text1)),
            },
        },
        TagKind::Inverted => match parse_key_tag(text) {
            Err(message) => Err(message),
            Ok((key, rest)) => Ok((ActionView::PushInvertedContext(key), rest)),
        },
        TagKind::Section => match parse_key_tag(text) {
            Err(message) => Err(message),
            Ok((key, rest)) => Ok((ActionView::PushSectionContext(key), rest)),
        },
        TagKind::SectionEnd => match parse_key_tag(text) {
            Err(message) => Err(message),
            Ok((key, rest)) => Ok((ActionView::PopContext(key), rest)),
        },
        TagKind::UnescapedWrapped => match parse_key_tag(text) {
            Err(message) => Err(message),
            Ok((key, text1)) => match parse_literal(text1, "}"@) {
                Err(message) => Err(message),
                Ok((_, text2)) => Ok((ActionView::PushTag(TagView::Unescaped(key)), text2)),
            },
        },
        TagKind::Unescaped => match parse_key_tag(text) {
            Err(message) => Err(message),
            Ok((key, rest)) => Ok((ActionView::PushTag(TagView::Unescaped(key)), rest)),
        },
        TagKind::Variable => match parse_key_tag(text) {
            Err(message) => Err(message),
            Ok((key, rest)) => Ok((ActionView::PushTag(TagView::Variable(key)), rest)),
        },
        TagKind::Comment => {
            let (value, rest) = parse_value(text, stop);
            Ok((ActionView::PushTag(TagView::Comment(value)), rest))
        },
        TagKind::Partial => {
            let (value, rest) = parse_value(text, stop);
            Ok((ActionView::PushTag(TagView::Partial(value)), rest))
        },
    }
}

/// The action of the tag at the front of `text` under the delimiters
/// `start` and `stop`, and what follows the tag. A run of text ends before
/// the next `start`; every other tag must end with `stop`.
pub open spec fn parse_tag(text: Seq<char>, start: Seq<char>, stop: Seq<char>) -> Parsed<
    ActionView,
> {
    match parse_tag_start(text, start) {
        Err(message) => Err(message),
        Ok((kind, text0)) => if kind is Text {
            parse_payload(kind, text0, start)
        } else {
            match parse_payload(kind, text0, stop) {
                Err(message) => Err(message),
                Ok((action, text1)) => match parse_literal(text1, stop) {
                    Err(message) => Err(message),
                    Ok((_, text2)) => Ok((action, text2)),
                },
            }
        },
    }
}

/// Tells the kind of the tag at the front of `text` and consumes the start
/// delimiter and the sigil, if they are there.
pub fn start_of_tag<'a>(text: &'a str, start: &'a str) -> (result: Result<
    (TagKind, &'a str),
    String,
>)
    ensures
        match result {
            Ok((kind, rest)) => parse_tag_start(text@, start@) == Ok::<_, Seq<char>>(
                (kind, rest@),
            ),
            Err(message) => parse_tag_start(text@, start@) == Err::<(TagKind, Seq<char>), _>(
                message@,
            ),
        },
{
    match string(text, start) {
        Ok((found, text0)) => {
            proof {
                assert(text0@ =~= text@.skip(start@.len() as int));
            }
            let mut chars = text0.chars();
            match chars.next() {
                None => {
                    let cut = take(text0, 1);
                    proof {
                        if let Ok((taken, rest)) = cut {
                            assert(taken@ =~= Seq::<char>::empty());
                        }
                    }
                    match cut {
                        Err(message) => Err(message),
                        Ok(_) => Ok((TagKind::Variable, text0)),
                    }
                },
                Some(c) => {
                    let kind = match c {
                        '!' => TagKind::Comment,
                        '>' => TagKind::Partial,
                        '{' => TagKind::UnescapedWrapped,
                        '&' => TagKind::Unescaped,
                        '=' => TagKind::Delimiters,
                        '^' => TagKind::Inverted,
                        '#' => TagKind::Section,
                        '/' => TagKind::SectionEnd,
                        _ => {
                            return Ok((TagKind::Variable, text0));
                        },
                    };
                    proof {
                        assert(text0@.take(1) =~= seq![c]);
                    }
                    let (_, text1) = split_chars(text0, char_width(c), Ghost(1));
                    Ok((kind, text1))
                },
            }
        },
        Err(_) => Ok((TagKind::Text, text)),
    }
}

/// Consumes `value`, which must stand at the front of `text`.
pub fn literal<'a>(text: &'a str, value: &str) -> (result: Result<(&'a str, &'a str), String>)
    ensures
        match result {
            Ok((_, rest)) => parse_literal(text@, value@) == Ok::<_, Seq<char>>(((), rest@)),
            Err(message) => parse_literal(text@, value@) == Err::<((), Seq<char>), _>(message@),
        },
{
    let result = string(text, value);
    proof {
        if let Ok((found, rest)) = result {
            assert(rest@ =~= text@.skip(value@.len() as int));
        }
    }
    result
}

/// Consumes the delimiter `stop`.
pub fn end_of_tag<'a>(text: &'a str, stop: &'a str) -> (result: Result<(&'a str, &'a str), String>)
    ensures
        match result {
            Ok((_, rest)) => parse_literal(text@, stop@) == Ok::<_, Seq<char>>(((), rest@)),
            Err(message) => parse_literal(text@, stop@) == Err::<((), Seq<char>), _>(message@),
        },
{
    literal(text, stop)
}

/// Consumes text up to the next occurrence of `stop`.
pub fn text_tag<'a>(text: &'a str, stop: &'a str) -> (result: Result<(&'a str, &'a str), String>)
    ensures
        result matches Ok((value, rest)) && (value@, rest@) == parse_text(text@, stop@),
{
    let begins = |suffix: &str| -> (b: bool)
        ensures
            b == stop@.is_prefix_of(suffix@),
        { starts_with(suffix, stop) };
    let result = take_until(text, begins);
    proof {
        if let Ok((value, rest)) = result {
            lemma_scan_until_is_first_match(begins, stop@, text@, value@, rest);
        }
    }
    result
}

/// Consumes a raw payload: the text before `stop`, returned trimmed.
pub fn value_tag<'a>(text: &'a str, stop: &'a str) -> (result: Result<(&'a str, &'a str), String>)
    ensures
        result matches Ok((value, rest)) && (value@, rest@) == parse_value(text@, stop@),
{
    match text_tag(text, stop) {
        Ok((value, text1)) => Ok((trim(value), text1)),
        Err(message) => Err(message),
    }
}

/// Drops the whitespace at the front of `text`.
pub fn skip_spaces(text: &str) -> (rest: &str)
    ensures
        rest@ == skip_whitespace(text@),
{
    match many_chars(text, char::is_whitespace) {
        Ok((found, rest)) => {
            proof {
                lemma_leading_run_is_span(
                    char::is_whitespace,
                    |c: char| white_space(c),
                    text@,
                    found@,
                    rest@,
                );
            }
            rest
        },
        Err(_) => text,
    }
}

/// Consumes a key and the whitespace around it.
pub fn key_tag(text: &str) -> (result: Result<(Key<'_>, &str), String>)
    ensures
        match result {
            Ok((path, rest)) => parse_key_tag(text@) == Ok::<_, Seq<char>>(
                (key_view(path@), rest@),
            ),
            Err(message) => parse_key_tag(text@) == Err::<(KeyView, Seq<char>), _>(message@),
        },
{
    let text0 = skip_spaces(text);
    match key(text0) {
        Ok((path, text1)) => Ok((path, skip_spaces(text1))),
        Err(message) => Err(message),
    }
}

/// Whether `c` may stand in a delimiter: neither whitespace nor `=`.
pub fn is_delimiter_char(c: char) -> (b: bool)
    ensures
        b == delimiter_part(c),
{
    !c.is_whitespace() && c != '='
}

/// One delimiter at the front of `text`.
pub fn delimiter(text: &str) -> (result: Result<(&str, &str), String>)
    ensures
        match result {
            Ok((found, rest)) => parse_delimiter(text@) == Ok::<_, Seq<char>>((found@, rest@)),
            Err(message) => parse_delimiter(text@) == Err::<(Seq<char>, Seq<char>), _>(
                message@,
            ),
        },
{
    let result = some_chars(text, is_delimiter_char);
    proof {
        match result {
            Ok((found, rest)) => {
                lemma_leading_run_is_span(
                    is_delimiter_char,
                    |c: char| delimiter_part(c),
                    text@,
                    found@,
                    rest@,
                );
            },
            Err(_) => {
                lemma_leading_run_is_span(
                    is_delimiter_char,
                    |c: char| delimiter_part(c),
                    text@,
                    Seq::empty(),
                    text@,
                );
            },
        }
    }
    result
}

/// Consumes the two delimiters of a delimiter change and the whitespace
/// around them.
pub fn delimiter_tag(text: &str) -> (result: Result<((&str, &str), &str), String>)
    ensures
        match result {
            Ok(((start, stop), rest)) => parse_delimiters(text@) == Ok::<_, Seq<char>>(
                ((start@, stop@), rest@),
            ),
            Err(message) => parse_delimiters(text@) == Err::<
                ((Seq<char>, Seq<char>), Seq<char>),
                _,
            >(message@),
        },
{
    let text0 = skip_spaces(text);
    match delimiter(text0) {
        Err(message) => Err(message),
        Ok((start, text1)) => {
            let text2 = skip_spaces(text1);
            match delimiter(text2) {
                Err(message) => Err(message),
                Ok((stop, text3)) => Ok(((start, stop), skip_spaces(text3))),
            }
        },
    }
}

/// Parses the tag, or the run of text, at the front of `text` under the
/// delimiters `start` and `stop`.
pub fn mustache_tag<'a>(text: &'a str, start: &'a str, stop: &'a str) -> (result: Result<
    (Action<'a>, &'a str),
    String,
>)
    ensures
        match result {
            Ok((action, rest)) => parse_tag(text@, start@, stop@) == Ok::<_, Seq<char>>(
                (action@, rest@),
            ),
            Err(message) => parse_tag(text@, start@, stop@) == Err::<
                (ActionView, Seq<char>),
                _,
            >(message@),
        },
{
    let (kind, text0) = match start_of_tag(text, start) {
        Ok(begun) => begun,
        Err(message) => {
            return Err(message);
        },
    };
    let (action, text1) = match kind {
        TagKind::Text => {
            return match text_tag(text0, start) {
                Ok((value, text1)) => {
                    let tag = Tag::Text(ValueTag { value });
                    Ok((Action::PushTag { tag }, text1))
                },
                Err(message) => Err(message),
            };
        },
        TagKind::Delimiters => {
            let ((start, stop), text0) = match delimiter_tag(text0) {
                Ok(found) => found,
                Err(message) => {
                    return Err(message);
                },
            };
            match literal(text0, "=") {
                Ok((_, text1)) => (Action::ChangeDelimiter { start, stop }, text1),
                Err(message) => {
                    return Err(message);
                },
            }
        },
        TagKind::Inverted => {
            match key_tag(text0) {
                Ok((key, text1)) => (Action::PushInvertedContext { key }, text1),
                Err(message) => {
                    return Err(message);
                },
            }
        },
        TagKind::Section => {
            match key_tag(text0) {
                Ok((key, text1)) => (Action::PushSectionContext { key }, text1),
                Err(message) => {
                    return Err(message);
                },
            }
        },
        TagKind::SectionEnd => {
            match key_tag(text0) {
                Ok((key, text1)) => (Action::PopContext { key }, text1),
                Err(message) => {
                    return Err(message);
                },
            }
        },
        TagKind::UnescapedWrapped => {
            let (key, text1) = match key_tag(text0) {
                Ok(found) => found,
                Err(message) => {
                    return Err(message);
                },
            };
            match literal(text1, "}") {
                Ok((_, text2)) => {
                    let tag = Tag::Unescaped(KeyTag { key });
                    (Action::PushTag { tag }, text2)
                },
                Err(message) => {
                    return Err(message);
                },
            }
        },
        TagKind::Unescaped => {
            match key_tag(text0) {
                Ok((key, text1)) => {
                    let tag = Tag::Unescaped(KeyTag { key });
                    (Action::PushTag { tag }, text1)
                },
                Err(message) => {
                    return Err(message);
                },
            }
        },
        TagKind::Variable => {
            match key_tag(text0) {
                Ok((key, text1)) => {
                    let tag = Tag::Variable(KeyTag { key });
                    (Action::PushTag { tag }, text1)
                },
                Err(message) => {
                    return Err(message);
                },
            }
        },
        TagKind::Comment => {
            match value_tag(text0, stop) {
                Ok((value, text2)) => {
                    let tag = Tag::Comment(ValueTag { value });
                    (Action::PushTag { tag }, text2)
                },
                Err(message) => {
                    return Err(message);
                },
            }
        },
        TagKind::Partial => {
            match value_tag(text0, stop) {
                Ok((value, text1)) => {
                    let tag = Tag::Partial(ValueTag { value });
                    (Action::PushTag { tag }, text1)
                },
                Err(message) => {
                    return Err(message);
                },
            }
        },
    };
    match end_of_tag(text1, stop) {
        Ok((_, text2)) => Ok((action, text2)),
        Err(message) => Err(message),
    }
}

/// What follows a key tag's payload is no longer than the input.
pub proof fn lemma_parse_key_tag_bound(text: Seq<char>)
    ensures
        parse_key_tag(text) matches Ok((_, rest)) ==> rest.len() <= text.len(),
{
    let text0 = skip_whitespace(text);
    lemma_span_bound(text, |c: char| white_space(c));
    lemma_parse_key_bound(text0);
    if let Ok((_, text1)) = parse_key(text0) {
        lemma_span_bound(text1, |c: char| white_space(c));
    }
}

/// Parsed delimiters are not empty, and what follows them is no longer
/// than the input.
pub proof fn lemma_parse_delimiters_bound(text: Seq<char>)
    ensures
        parse_delimiters(text) matches Ok(((start, stop), rest)) ==> rest.len() <= text.len()
            && start.len() > 0 && stop.len() > 0,
{
    let accepts = |c: char| delimiter_part(c);
    let spaces = |c: char| white_space(c);
    let text0 = skip_whitespace(text);
    lemma_span_bound(text, spaces);
    lemma_span_bound(text0, accepts);
    if let Ok((_, text1)) = parse_delimiter(text0) {
        let text2 = skip_whitespace(text1);
        lemma_span_bound(text1, spaces);
        lemma_span_bound(text2, accepts);
        if let Ok((_, text3)) = parse_delimiter(text2) {
            lemma_span_bound(text3, spaces);
        }
    }
}

/// What follows a payload is no longer than the input, and a delimiter
/// change never installs an empty start delimiter.
pub proof fn lemma_parse_payload_bound(kind: TagKind, text: Seq<char>, stop: Seq<char>)
    ensures
        parse_payload(kind, text, stop) matches Ok((action, rest)) ==> rest.len() <= text.len()
            && (action matches ActionView::ChangeDelimiter(start, _) ==> start.len() > 0),
{
    lemma_parse_key_tag_bound(text);
    lemma_parse_delimiters_bound(text);
    lemma_first_match_bound(text, stop);
}

/// Under a start delimiter that is not empty, every tag consumes input.
pub proof fn lemma_parse_tag_consumes(text: Seq<char>, start: Seq<char>, stop: Seq<char>)
    requires
        text.len() > 0,
        start.len() > 0,
    ensures
        parse_tag(text, start, stop) matches Ok((action, rest)) ==> rest.len() < text.len() && (
        action matches ActionView::ChangeDelimiter(start, _) ==> start.len() > 0),
{
    if let Ok((kind, text0)) = parse_tag_start(text, start) {
        if kind is Text {
            lemma_first_match_bound(text.skip(1), start);
        } else {
            lemma_parse_payload_bound(kind, text0, stop);
        }
    }
}

/// The message for a closing tag whose key differs from the open section's.
pub open spec fn mismatch_failure(lead: KeyView, trail: KeyView) -> Seq<char> {
    "Key mismatch for section: lead="@ + joined(lead) + " trail="@ + joined(trail)
}

/// The message for a closing tag where no section is open.
pub open spec fn orphan_failure(key: KeyView) -> Seq<char> {
    "No parent context found: "@ + joined(key)
}

/// Whether two keys have the same segments.
pub fn same_key(left: &Key<'_>, right: &Key<'_>) -> (same: bool)
    ensures
        same == (key_view(left@) == key_view(right@)),
{
    if left.len() != right.len() {
        return false;
    }
    let mut index: usize = 0;
    while index < left.len()
        invariant
            left.len() == right.len(),
            0 <= index <= left.len(),
            forall|i: int| 0 <= i < index ==> left@[i]@ == right@[i]@,
        decreases left.len() - index,
    {
        if !same_text(left[index], right[index]) {
            proof {
                assert(key_view(left@)[index as int] == left@[index as int]@);
                assert(key_view(right@)[index as int] == right@[index as int]@);
            }
            return false;
        }
        index = index + 1;
    }
    proof {
        assert(key_view(left@) =~= key_view(right@));
    }
    true
}

/// Whether an open context is a section or an inverted section.
pub enum ContextKind {
    Inverted,
    Section,
}

/// A section that is being parsed: its kind, its key and the tags read so far.
pub struct Context<'a> {
    pub kind: ContextKind,
    pub key: Key<'a>,
    pub tags: Vec<Tag<'a>>,
}

/// The mathematical value of a `Context`.
pub struct ContextView {
    pub inverted: bool,
    pub key: KeyView,
    pub tags: Seq<TagView>,
}

impl<'a> View for Context<'a> {
    type V = ContextView;

    open spec fn view(&self) -> ContextView {
        ContextView {
            inverted: self.kind is Inverted,
            key: key_view(self.key@),
            tags: tags_view(self.tags@),
        }
    }
}

impl ContextView {
    /// The context of the whole template.
    pub open spec fn root() -> ContextView {
        ContextView { inverted: false, key: Seq::empty(), tags: Seq::empty() }
    }

    /// A context that was just opened.
    pub open spec fn open(inverted: bool, key: KeyView) -> ContextView {
        ContextView { inverted, key, tags: Seq::empty() }
    }

    /// This context with `tag` added at its end.
    pub open spec fn with(self, tag: TagView) -> ContextView {
        ContextView { tags: self.tags.push(tag), ..self }
    }

    /// The tag that this context becomes once closed.
    pub open spec fn closed(self) -> TagView {
        if self.inverted {
            TagView::Inverted(self.key, self.tags)
        } else {
            TagView::Section(self.key, self.tags)
        }
    }
}

/// The values of a stack of contexts, outermost first.
pub open spec fn contexts_view(stack: Seq<Context>) -> Seq<ContextView> {
    stack.map_values(|context: Context| context@)
}

/// The tags that parsing `text` yields, from the state of the parser: the
/// active delimiters, the context being filled and the suspended ones.
/// Input left open at the end yields the tags of the innermost context.
pub open spec fn parse_from(
    text: Seq<char>,
    start: Seq<char>,
    stop: Seq<char>,
    current: ContextView,
    stack: Seq<ContextView>,
) -> Result<Seq<TagView>, Seq<char>>
    decreases text.len(),
    when start.len() > 0
{
    if text.len() == 0 {
        Ok(current.tags)
    } else {
        match parse_tag(text, start, stop) {
            Err(message) => Err(message),
            Ok((action, rest)) => {
                proof {
                    lemma_parse_tag_consumes(text, start, stop);
                }
                match action {
                    ActionView::PushTag(tag) => parse_from(
                        rest,
                        start,
                        stop,
                        current.with(tag),
                        stack,
                    ),
                    ActionView::PushInvertedContext(key) => parse_from(
                        rest,
                        start,
                        stop,
                        ContextView::open(true, key),
                        stack.push(current),
                    ),
                    ActionView::PushSectionContext(key) => parse_from(
                        rest,
                        start,
                        stop,
                        ContextView::open(false, key),
                        stack.push(current),
                    ),
                    ActionView::PopContext(key) => if current.key != key {
                        Err(mismatch_failure(current.key, key))
                    } else if stack.len() == 0 {
                        Err(orphan_failure(key))
                    } else {
                        parse_from(
                            rest,
                            start,
                            stop,
                            stack.last().with(current.closed()),
                            stack.drop_last(),
                        )
                    },
                    ActionView::ChangeDelimiter(left, right) => parse_from(
                        rest,
                        left,
                        right,
                        current.with(TagView::Delimiters(left, right)),
                        stack,
                    ),
                }
            },
        }
    }
}

/// The tags that the template `text` parses into, or the message of the
/// first error.
pub open spec fn parse_template(text: Seq<char>) -> Result<Seq<TagView>, Seq<char>> {
    parse_from(text, "{{"@, "}}"@, ContextView::root(), Seq::empty())
}

/// Input that does not begin with the active start delimiter is text up to
/// the next place where that delimiter begins, whatever other delimiters it
/// holds.
pub proof fn lemma_unmarked_input_is_text(text: Seq<char>, start: Seq<char>, stop: Seq<char>)
    requires
        !start.is_prefix_of(text),
    ensures
        parse_tag(text, start, stop) == Ok::<_, Seq<char>>(
            (
                ActionView::PushTag(TagView::Text(text.take(first_match(text, start) as int))),
                text.skip(first_match(text, start) as int),
            ),
        ),
{
}

/// A delimiter change is recorded in the current context, and the rest of
/// the template is parsed under the new delimiters.
pub proof fn lemma_delimiter_change_switches(
    text: Seq<char>,
    start: Seq<char>,
    stop: Seq<char>,
    current: ContextView,
    stack: Seq<ContextView>,
    left: Seq<char>,
    right: Seq<char>,
    rest: Seq<char>,
)
    requires
        start.len() > 0,
        text.len() > 0,
        parse_tag(text, start, stop) == Ok::<_, Seq<char>>(
            (ActionView::ChangeDelimiter(left, right), rest),
        ),
    ensures
        left.len() > 0,
        parse_from(text, start, stop, current, stack) == parse_from(
            rest,
            left,
            right,
            current.with(TagView::Delimiters(left, right)),
            stack,
        ),
{
    lemma_parse_tag_consumes(text, start, stop);
}

/// A tag that adds to the current context leaves the delimiters as they
/// are: only a delimiter change replaces them.
pub proof fn lemma_leaf_keeps_delimiters(
    text: Seq<char>,
    start: Seq<char>,
    stop: Seq<char>,
    current: ContextView,
    stack: Seq<ContextView>,
    tag: TagView,
    rest: Seq<char>,
)
    requires
        start.len() > 0,
        text.len() > 0,
        parse_tag(text, start, stop) == Ok::<_, Seq<char>>((ActionView::PushTag(tag), rest)),
    ensures
        parse_from(text, start, stop, current, stack) == parse_from(
            rest,
            start,
            stop,
            current.with(tag),
            stack,
        ),
{
    lemma_parse_tag_consumes(text, start, stop);
}

/// An opening tag suspends the current context and begins an empty one of
/// its kind and key, under the delimiters as they are.
pub proof fn lemma_open_suspends_current(
    text: Seq<char>,
    start: Seq<char>,
    stop: Seq<char>,
    current: ContextView,
    stack: Seq<ContextView>,
    inverted: bool,
    key: KeyView,
    rest: Seq<char>,
)
    requires
        start.len() > 0,
        text.len() > 0,
        parse_tag(text, start, stop) == Ok::<_, Seq<char>>(
            (
                if inverted {
                    ActionView::PushInvertedContext(key)
                } else {
                    ActionView::PushSectionContext(key)
                },
                rest,
            ),
        ),
    ensures
        parse_from(text, start, stop, current, stack) == parse_from(
            rest,
            start,
            stop,
            ContextView::open(inverted, key),
            stack.push(current),
        ),
{
    lemma_parse_tag_consumes(text, start, stop);
}

/// A closing tag whose key differs from the key of the section that is
/// open fails the parse with the message that names both keys.
pub proof fn lemma_close_must_match(
    text: Seq<char>,
    start: Seq<char>,
    stop: Seq<char>,
    current: ContextView,
    stack: Seq<ContextView>,
    key: KeyView,
    rest: Seq<char>,
)
    requires
        start.len() > 0,
        text.len() > 0,
        parse_tag(text, start, stop) == Ok::<_, Seq<char>>((ActionView::PopContext(key), rest)),
        key != current.key,
    ensures
        parse_from(text, start, stop, current, stack) == Err::<Seq<TagView>, _>(
            mismatch_failure(current.key, key),
        ),
{
}

/// A closing tag with the key of the current context fails the parse
/// where no context is suspended: the context of the whole template
/// cannot be closed.
pub proof fn lemma_close_needs_parent(
    text: Seq<char>,
    start: Seq<char>,
    stop: Seq<char>,
    current: ContextView,
    rest: Seq<char>,
)
    requires
        start.len() > 0,
        text.len() > 0,
        parse_tag(text, start, stop) == Ok::<_, Seq<char>>(
            (ActionView::PopContext(current.key), rest),
        ),
    ensures
        parse_from(text, start, stop, current, Seq::empty()) == Err::<Seq<TagView>, _>(
            orphan_failure(current.key),
        ),
{
}

/// A closing tag with the key of the open section closes it: the section
/// joins the tags of its parent, under the kind it was opened with.
pub proof fn lemma_close_restores_parent(
    text: Seq<char>,
    start: Seq<char>,
    stop: Seq<char>,
    current: ContextView,
    stack: Seq<ContextView>,
    rest: Seq<char>,
)
    requires
        start.len() > 0,
        text.len() > 0,
        stack.len() > 0,
        parse_tag(text, start, stop) == Ok::<_, Seq<char>>(
            (ActionView::PopContext(current.key), rest),
        ),
    ensures
        parse_from(text, start, stop, current, stack) == parse_from(
            rest,
            start,
            stop,
            stack.last().with(current.closed()),
            stack.drop_last(),
        ),
{
    lemma_parse_tag_consumes(text, start, stop);
}

/// At the end of the input the tags of the context being filled are the
/// result, whether or not sections are still open around it.
pub proof fn lemma_end_of_input_accepts(
    start: Seq<char>,
    stop: Seq<char>,
    current: ContextView,
    stack: Seq<ContextView>,
)
    requires
        start.len() > 0,
    ensures
        parse_from(Seq::empty(), start, stop, current, stack) == Ok::<_, Seq<char>>(
            current.tags,
        ),
{
}

/// A template in which `{{` occurs nowhere is one run of text.
pub proof fn lemma_plain_text_template(text: Seq<char>)
    requires
        !occurs("{{"@, text),
    ensures
        parse_template(text) == Ok::<_, Seq<char>>(
            if text.len() == 0 {
                Seq::<TagView>::empty()
            } else {
                seq![TagView::Text(text)]
            },
        ),
{
    reveal_strlit("{{");
    let start = "{{"@;
    let stop = "}}"@;
    if text.len() > 0 {
        lemma_first_match_absent(text, start);
        assert(text.skip(0) =~= text);
        assert(!start.is_prefix_of(text.skip(0)));
        lemma_unmarked_input_is_text(text, start, stop);
        assert(text.take(text.len() as int) =~= text);
        let rest = text.skip(text.len() as int);
        let filled = ContextView::root().with(TagView::Text(text));
        assert(rest.len() == 0);
        assert(parse_from(rest, start, stop, filled, Seq::empty()) == Ok::<_, Seq<char>>(
            filled.tags,
        ));
        assert(filled.tags =~= seq![TagView::Text(text)]);
        lemma_parse_tag_consumes(text, start, stop);
    }
}

/// Parses a whole template.
pub fn template<'a>(text: &'a str) -> (result: Result<(Template<'a>, &'a str), String>)
    ensures
        match result {
            Ok((parsed, rest)) => parse_template(text@) == Ok::<_, Seq<char>>(parsed@)
                && rest@.len() == 0,
            Err(message) => parse_template(text@) == Err::<Seq<TagView>, _>(message@),
        },
{
    let mut stack: Vec<Context<'a>> = Vec::new();
    let mut context: Context<'a> = Context {
        kind: ContextKind::Section,
        key: Vec::new(),
        tags: Vec::new(),
    };
    let mut start = "{{";
    let mut stop = "}}";
    let mut needle = text;
    proof {
        reveal_strlit("{{");
        assert(contexts_view(stack@) =~= Seq::<ContextView>::empty());
        assert(context@.key =~= Seq::<Seq<char>>::empty());
        assert(context@.tags =~= Seq::<TagView>::empty());
    }
    while !needle.is_empty()
        invariant
            start@.len() > 0,
            parse_from(needle@, start@, stop@, context@, contexts_view(stack@)) == parse_template(
                text@,
            ),
        decreases needle@.len(),
    {
        proof {
            lemma_parse_tag_consumes(needle@, start@, stop@);
        }
        let ghost before = context@;
        let ghost below = contexts_view(stack@);
        let (action, text0) = match mustache_tag(needle, start, stop) {
            Ok(parsed) => parsed,
            Err(message) => {
                return Err(message);
            },
        };
        needle = text0;
        match action {
            Action::PushTag { tag } => {
                context.tags.push(tag);
                proof {
                    assert(context@.tags =~= before.tags.push(tag@));
                }
            },
            Action::PushInvertedContext { key } => {
                stack.push(context);
                context = Context { kind: ContextKind::Inverted, key, tags: Vec::new() };
                proof {
                    assert(contexts_view(stack@) =~= below.push(before));
                    assert(context@.tags =~= Seq::<TagView>::empty());
                }
            },
            Action::PushSectionContext { key } => {
                stack.push(context);
                context = Context { kind: ContextKind::Section, key, tags: Vec::new() };
                proof {
                    assert(contexts_view(stack@) =~= below.push(before));
                    assert(context@.tags =~= Seq::<TagView>::empty());
                }
            },
            Action::PopContext { key } => {
                if !same_key(&context.key, &key) {
                    let mut message = "Key mismatch for section: lead=".to_owned();
                    message.append(join_key(context.key.as_slice()).as_str());
                    message.append(" trail=");
                    message.append(join_key(key.as_slice()).as_str());
                    return Err(message);
                }
                let mut parent_context = match stack.pop() {
                    Some(parent) => parent,
                    None => {
                        let mut message = "No parent context found: ".to_owned();
                        message.append(join_key(key.as_slice()).as_str());
                        return Err(message);
                    },
                };
                let ghost parent = parent_context@;
                match context.kind {
                    ContextKind::Section => parent_context.tags.push(
                        Tag::Section(ContextTag { key: context.key, tags: context.tags }),
                    ),
                    ContextKind::Inverted => parent_context.tags.push(
                        Tag::Inverted(ContextTag { key: context.key, tags: context.tags }),
                    ),
                }
                context = parent_context;
                proof {
                    assert(contexts_view(stack@) =~= below.drop_last());
                    assert(parent == below.last());
                    assert(context@.tags =~= parent.tags.push(before.closed()));
                }
            },
            Action::ChangeDelimiter { start: left, stop: right } => {
                start = left;
                stop = right;
                context.tags.push(Tag::Delimiters(DelimiterTag { start: left, stop: right }));
                proof {
                    assert(context@.tags =~= before.tags.push(TagView::Delimiters(left@, right@)));
                }
            },
        }
    }
    Ok((Template { tags: context.tags }, needle))
}

} // verus!

//! Rendering of a tag tree against a stack of contexts.

use crate::parser::tag::{parse_template, template};
use crate::resolver::{resolve, resolve_in, stack_view};
use crate::types::{key_view, tags_view, ContextTag, KeyTag, KeyView, Tag, TagView, Template, ValueTag};
use crate::value::{values_view, Value, ValueView};
use vstd::prelude::*;
use vstd::string::*;

verus! {

/// A source of partials as a function: the text that a name stands for.
pub type Partials = spec_fn(Seq<char>) -> Option<Seq<char>>;

/// How deep partials may expand inside partials: a partial met at depth 0
/// renders nothing. The bound is there for the recursion to be well
/// founded, and lies beyond what a rendering can reach.
pub const PARTIAL_DEPTH: u64 = 0xffff_ffff_ffff_ffff;

/// What `c` is written as in HTML.
pub open spec fn escaped_char(c: char) -> Seq<char> {
    if c == '"' {
        "&quot;"@
    } else if c == '&' {
        "&amp;"@
    } else if c == '\'' {
        "&#x27;"@
    } else if c == '/' {
        "&#x2f;"@
    } else if c == '<' {
        "&lt;"@
    } else if c == '>' {
        "&gt;"@
    } else {
        seq![c]
    }
}

/// `text` with each of `"`, `&`, `'`, `/`, `<`, `>` replaced by its entity.
pub open spec fn html_escaped(text: Seq<char>) -> Seq<char>
    decreases text.len(),
{
    if text.len() == 0 {
        Seq::empty()
    } else {
        escaped_char(text[0]) + html_escaped(text.skip(1))
    }
}

/// `v_htmlescape::escape_fmt` displays its input with each of the six
/// characters of its table replaced by the character's entity and every
/// other character kept.
#[verifier::external_body]
fn escape(text: &str) -> (escaped: String)
    ensures
        escaped@ == html_escaped(text@),
{
    v_htmlescape::escape_fmt(text).to_string()
}

/// The text of a boolean.
pub open spec fn bool_text(flag: bool) -> Seq<char> {
    if flag {
        "true"@
    } else {
        "false"@
    }
}

/// The text of a boolean: `true` or `false`.
pub fn bool_to_str(flag: bool) -> (text: &'static str)
    ensures
        text@ == bool_text(flag),
{
    if flag {
        "true"
    } else {
        "false"
    }
}

/// Values that leave a section empty and make an inverted section render.
pub open spec fn is_falsy(value: ValueView) -> bool {
    match value {
        ValueView::Null => true,
        ValueView::Bool(flag) => !flag,
        ValueView::Array(items) => items.len() == 0,
        _ => false,
    }
}

/// What an interpolation writes for the outcome of a lookup: a string,
/// escaped or not, the text of a number or a boolean, and else nothing.
pub open spec fn interpolation(found: Result<ValueView, Seq<char>>, escape: bool) -> Seq<char> {
    match found {
        Ok(ValueView::String(text)) => if escape {
            html_escaped(text)
        } else {
            text
        },
        Ok(ValueView::Number(text)) => text,
        Ok(ValueView::Bool(flag)) => bool_text(flag),
        _ => Seq::empty(),
    }
}

/// What a tag without tags inside it renders to, unless it is a partial:
/// text is written as it is, a variable is looked up and interpolated,
/// comments and delimiter changes write nothing.
pub open spec fn render_leaf(tag: TagView, stack: Seq<ValueView>) -> Seq<char> {
    match tag {
        TagView::Text(value) => value,
        TagView::Variable(key) => interpolation(resolve_in(stack, key), true),
        TagView::Unescaped(key) => interpolation(resolve_in(stack, key), false),
        _ => Seq::empty(),
    }
}

/// Whether the key of a section is missing from the stack or bound to a
/// falsy value.
pub open spec fn is_absent(stack: Seq<ValueView>, key: KeyView) -> bool {
    match resolve_in(stack, key) {
        Ok(value) => is_falsy(value),
        Err(_) => true,
    }
}

/// What `tag` renders to against `stack` where `partials` gives the text of
/// each partial; partials expand at most `depth` levels deep.
pub open spec fn render_tag(
    tag: TagView,
    stack: Seq<ValueView>,
    partials: Partials,
    depth: nat,
) -> Seq<char>
    decreases depth, tag, 0nat,
{
    match tag {
        TagView::Section(key, tags) => if is_absent(stack, key) {
            Seq::empty()
        } else {
            match resolve_in(stack, key) {
                Ok(ValueView::Array(items)) => render_each(tags, items, stack, partials, depth),
                Ok(value) => render_tags(tags, stack.push(value), partials, depth),
                Err(_) => Seq::empty(),
            }
        },
        TagView::Inverted(key, tags) => if is_absent(stack, key) {
            render_tags(tags, stack, partials, depth)
        } else {
            Seq::empty()
        },
        TagView::Partial(name) => if depth == 0 {
            Seq::empty()
        } else {
            match partials(name) {
                Some(text) => match parse_template(text) {
                    Ok(tags) => render_tags(tags, stack, partials, (depth - 1) as nat),
                    Err(_) => Seq::empty(),
                },
                None => Seq::empty(),
            }
        },
        _ => render_leaf(tag, stack),
    }
}

/// What a sequence of tags renders to: the tags' renderings in order.
pub open spec fn render_tags(
    tags: Seq<TagView>,
    stack: Seq<ValueView>,
    partials: Partials,
    depth: nat,
) -> Seq<char>
    decreases depth, tags, 0nat,
{
    if tags.len() == 0 {
        Seq::empty()
    } else {
        render_tags(tags.drop_last(), stack, partials, depth) + render_tag(
            tags.last(),
            stack,
            partials,
            depth,
        )
    }
}

/// What `tags` render to once for each of `items`, in order, each item
/// being the innermost context of its pass.
pub open spec fn render_each(
    tags: Seq<TagView>,
    items: Seq<ValueView>,
    stack: Seq<ValueView>,
    partials: Partials,
    depth: nat,
) -> Seq<char>
    decreases depth, tags, items.len() + 1,
{
    if items.len() == 0 {
        Seq::empty()
    } else {
        render_each(tags, items.drop_last(), stack, partials, depth) + render_tags(
            tags,
            stack.push(items.last()),
            partials,
            depth,
        )
    }
}

/// What a lookup of partials may answer: whether a text, or none, is a
/// possible answer for a name. A lookup need not answer the same twice.
pub type Answers = spec_fn(Seq<char>, Option<Seq<char>>) -> bool;

/// Whether `out` is a rendering of `tag` against `stack` in which each
/// partial was given one of the answers that `allowed` admits for its name.
pub open spec fn emits(
    tag: TagView,
    stack: Seq<ValueView>,
    allowed: Answers,
    depth: nat,
    out: Seq<char>,
) -> bool
    decreases depth, tag, 0nat,
{
    match tag {
        TagView::Section(key, tags) => if is_absent(stack, key) {
            out == Seq::<char>::empty()
        } else {
            match resolve_in(stack, key) {
                Ok(ValueView::Array(items)) => emits_each(tags, items, stack, allowed, depth, out),
                Ok(value) => emits_all(tags, stack.push(value), allowed, depth, out),
                Err(_) => out == Seq::<char>::empty(),
            }
        },
        TagView::Inverted(key, tags) => if is_absent(stack, key) {
            emits_all(tags, stack, allowed, depth, out)
        } else {
            out == Seq::<char>::empty()
        },
        TagView::Partial(name) => if depth == 0 {
            out == Seq::<char>::empty()
        } else {
            exists|found: Option<Seq<char>>|
                #[trigger] allowed(name, found) && match found {
                    Some(text) => match parse_template(text) {
                        Ok(tags) => emits_all(tags, stack, allowed, (depth - 1) as nat, out),
                        Err(_) => out == Seq::<char>::empty(),
                    },
                    None => out == Seq::<char>::empty(),
                }
        },
        _ => out == render_leaf(tag, stack),
    }
}

/// Whether `out` is made of a rendering of each of `tags`, in order.
pub open spec fn emits_all(
    tags: Seq<TagView>,
    stack: Seq<ValueView>,
    allowed: Answers,
    depth: nat,
    out: Seq<char>,
) -> bool
    decreases depth, tags, 0nat,
{
    if tags.len() == 0 {
        out == Seq::<char>::empty()
    } else {
        exists|cut: int|
            0 <= cut <= out.len() && emits_all(
                tags.drop_last(),
                stack,
                allowed,
                depth,
                #[trigger] out.take(cut),
            ) && emits(tags.last(), stack, allowed, depth, out.skip(cut))
    }
}

/// Whether `out` is made of a rendering of `tags` for each of `items`, in
/// order, each item being the innermost context of its pass.
pub open spec fn emits_each(
    tags: Seq<TagView>,
    items: Seq<ValueView>,
    stack: Seq<ValueView>,
    allowed: Answers,
    depth: nat,
    out: Seq<char>,
) -> bool
    decreases depth, tags, items.len() + 1,
{
    if items.len() == 0 {
        out == Seq::<char>::empty()
    } else {
        exists|cut: int|
            0 <= cut <= out.len() && emits_each(
                tags,
                items.drop_last(),
                stack,
                allowed,
                depth,
                #[trigger] out.take(cut),
            ) && emits_all(tags, stack.push(items.last()), allowed, depth, out.skip(cut))
    }
}

/// Whether `tag`, or a tag inside it, is a partial.
pub open spec fn names_partial(tag: TagView) -> bool
    decreases tag, 0nat,
{
    match tag {
        TagView::Partial(_) => true,
        TagView::Section(_, tags) => any_names_partial(tags),
        TagView::Inverted(_, tags) => any_names_partial(tags),
        _ => false,
    }
}

/// Whether one of `tags`, or a tag inside one of them, is a partial.
pub open spec fn any_names_partial(tags: Seq<TagView>) -> bool
    decreases tags, 1nat,
{
    exists|i: int| 0 <= i < tags.len() && names_partial(#[trigger] tags[i])
}

/// `allowed` admits for each name the one answer that `partials` gives.
pub open spec fn follows(allowed: Answers, partials: Partials) -> bool {
    forall|name: Seq<char>, found: Option<Seq<char>>| #[trigger]
        allowed(name, found) ==> found == partials(name)
}

/// Where the answers are those of `partials`, or `tag` names no partial,
/// the one rendering of `tag` is what `render_tag` says.
pub proof fn lemma_emits_is_render(
    tag: TagView,
    stack: Seq<ValueView>,
    allowed: Answers,
    partials: Partials,
    depth: nat,
    out: Seq<char>,
)
    requires
        emits(tag, stack, allowed, depth, out),
        follows(allowed, partials) || !names_partial(tag),
    ensures
        out == render_tag(tag, stack, partials, depth),
    decreases depth, tag, 0nat,
{
    match tag {
        TagView::Section(key, tags) => {
            if !is_absent(stack, key) {
                match resolve_in(stack, key) {
                    Ok(ValueView::Array(items)) => {
                        lemma_emits_each_is_render(
                            tags,
                            items,
                            stack,
                            allowed,
                            partials,
                            depth,
                            out,
                        );
                    },
                    Ok(value) => {
                        lemma_emits_all_is_render(
                            tags,
                            stack.push(value),
                            allowed,
                            partials,
                            depth,
                            out,
                        );
                    },
                    Err(_) => {},
                }
            }
        },
        TagView::Inverted(key, tags) => {
            if is_absent(stack, key) {
                lemma_emits_all_is_render(tags, stack, allowed, partials, depth, out);
            }
        },
        TagView::Partial(name) => {
            if depth > 0 {
                let found = choose|found: Option<Seq<char>>|
                    #[trigger] allowed(name, found) && match found {
                        Some(text) => match parse_template(text) {
                            Ok(tags) => emits_all(tags, stack, allowed, (depth - 1) as nat, out),
                            Err(_) => out == Seq::<char>::empty(),
                        },
                        None => out == Seq::<char>::empty(),
                    };
                assert(found == partials(name));
                if let Some(text) = found {
                    if let Ok(tags) = parse_template(text) {
                        lemma_emits_all_is_render(
                            tags,
                            stack,
                            allowed,
                            partials,
                            (depth - 1) as nat,
                            out,
                        );
                    }
                }
            }
        },
        _ => {},
    }
}

/// Where the answers are those of `partials`, or `tags` name no partial,
/// the one rendering of `tags` is what `render_tags` says.
pub proof fn lemma_emits_all_is_render(
    tags: Seq<TagView>,
    stack: Seq<ValueView>,
    allowed: Answers,
    partials: Partials,
    depth: nat,
    out: Seq<char>,
)
    requires
        emits_all(tags, stack, allowed, depth, out),
        follows(allowed, partials) || !any_names_partial(tags),
    ensures
        out == render_tags(tags, stack, partials, depth),
    decreases depth, tags, 0nat,
{
    if tags.len() > 0 {
        let earlier = tags.drop_last();
        let cut = choose|cut: int|
            0 <= cut <= out.len() && emits_all(
                earlier,
                stack,
                allowed,
                depth,
                #[trigger] out.take(cut),
            ) && emits(tags.last(), stack, allowed, depth, out.skip(cut));
        if !follows(allowed, partials) {
            assert forall|i: int| 0 <= i < earlier.len() implies !names_partial(
                #[trigger] earlier[i],
            ) by {
                assert(earlier[i] == tags[i]);
            }
            assert(!names_partial(tags[tags.len() - 1]));
        }
        lemma_emits_all_is_render(earlier, stack, allowed, partials, depth, out.take(cut));
        lemma_emits_is_render(tags.last(), stack, allowed, partials, depth, out.skip(cut));
        assert(out =~= out.take(cut) + out.skip(cut));
    }
}

/// Where the answers are those of `partials`, or `tags` name no partial,
/// the one rendering of `tags` over `items` is what `render_each` says.
pub proof fn lemma_emits_each_is_render(
    tags: Seq<TagView>,
    items: Seq<ValueView>,
    stack: Seq<ValueView>,
    allowed: Answers,
    partials: Partials,
    depth: nat,
    out: Seq<char>,
)
    requires
        emits_each(tags, items, stack, allowed, depth, out),
        follows(allowed, partials) || !any_names_partial(tags),
    ensures
        out == render_each(tags, items, stack, partials, depth),
    decreases depth, tags, items.len() + 1,
{
    if items.len() > 0 {
        let cut = choose|cut: int|
            0 <= cut <= out.len() && emits_each(
                tags,
                items.drop_last(),
                stack,
                allowed,
                depth,
                #[trigger] out.take(cut),
            ) && emits_all(tags, stack.push(items.last()), allowed, depth, out.skip(cut));
        lemma_emits_each_is_render(
            tags,
            items.drop_last(),
            stack,
            allowed,
            partials,
            depth,
            out.take(cut),
        );
        lemma_emits_all_is_render(
            tags,
            stack.push(items.last()),
            allowed,
            partials,
            depth,
            out.skip(cut),
        );
        assert(out =~= out.take(cut) + out.skip(cut));
    }
}

/// Under a key bound to null, to `false` or to an empty array a section
/// renders nothing, and an inverted section renders its tags against the
/// unchanged stack.
pub proof fn lemma_falsy_section(
    key: KeyView,
    tags: Seq<TagView>,
    stack: Seq<ValueView>,
    partials: Partials,
    depth: nat,
    value: ValueView,
)
    requires
        resolve_in(stack, key) == Ok::<_, Seq<char>>(value),
        value == ValueView::Null || value == ValueView::Bool(false) || value == ValueView::Array(
            Seq::empty(),
        ),
    ensures
        render_tag(TagView::Section(key, tags), stack, partials, depth) == Seq::<char>::empty(),
        render_tag(TagView::Inverted(key, tags), stack, partials, depth) == render_tags(
            tags,
            stack,
            partials,
            depth,
        ),
{
}

/// Under a key that no context answers for, a section renders nothing and
/// an inverted section renders its tags.
pub proof fn lemma_missing_section(
    key: KeyView,
    tags: Seq<TagView>,
    stack: Seq<ValueView>,
    partials: Partials,
    depth: nat,
)
    requires
        resolve_in(stack, key) is Err,
    ensures
        render_tag(TagView::Section(key, tags), stack, partials, depth) == Seq::<char>::empty(),
        render_tag(TagView::Inverted(key, tags), stack, partials, depth) == render_tags(
            tags,
            stack,
            partials,
            depth,
        ),
{
}

/// A variable bound to a string renders the string escaped, the unescaped
/// form renders it as it is.
pub proof fn lemma_string_interpolation(
    key: KeyView,
    stack: Seq<ValueView>,
    partials: Partials,
    depth: nat,
    text: Seq<char>,
)
    requires
        resolve_in(stack, key) == Ok::<_, Seq<char>>(ValueView::String(text)),
    ensures
        render_tag(TagView::Variable(key), stack, partials, depth) == html_escaped(text),
        render_tag(TagView::Unescaped(key), stack, partials, depth) == text,
{
}

/// The tags of one run of text render to that text.
pub proof fn lemma_text_renders_itself(
    text: Seq<char>,
    stack: Seq<ValueView>,
    partials: Partials,
    depth: nat,
)
    ensures
        render_tags(seq![TagView::Text(text)], stack, partials, depth) == text,
        render_tags(Seq::empty(), stack, partials, depth) == Seq::<char>::empty(),
{
    let tags = seq![TagView::Text(text)];
    assert(tags.drop_last() =~= Seq::<TagView>::empty());
    assert(tags.last() == TagView::Text(text));
    reveal_with_fuel(render_tags, 2);
    assert(render_tags(tags, stack, partials, depth) =~= text);
}

/// Whether `out` is a rendering of a partial whose lookup came back with
/// `found`: a rendering of the text's template one level deeper, and
/// nothing where the depth is used up, no text was found or the text fails
/// to parse.
pub open spec fn emits_found(
    found: Option<Seq<char>>,
    stack: Seq<ValueView>,
    allowed: Answers,
    depth: nat,
    out: Seq<char>,
) -> bool {
    if depth == 0 {
        out == Seq::<char>::empty()
    } else {
        match found {
            Some(text) => match parse_template(text) {
                Ok(tags) => emits_all(tags, stack, allowed, (depth - 1) as nat, out),
                Err(_) => out == Seq::<char>::empty(),
            },
            None => out == Seq::<char>::empty(),
        }
    }
}

/// The text that a lookup of a partial came back with.
pub open spec fn partial_text(found: Option<String>) -> Option<Seq<char>> {
    match found {
        Some(text) => Some(text@),
        None => None,
    }
}

/// The answers that `lookup` may give: what a call of it on a name may
/// return.
pub open spec fn answers_of<P: Fn(&str) -> Option<String>>(lookup: P) -> Answers {
    |name: Seq<char>, found: Option<Seq<char>>|
        exists|asked: &str, answer: Option<String>|
            #[trigger] call_ensures(lookup, (asked,), answer) && asked@ == name && partial_text(
                answer,
            ) == found
}

/// `lookup` gives each name the text that `partials` says, and no other.
pub open spec fn answers<P: Fn(&str) -> Option<String>>(lookup: P, partials: Partials) -> bool {
    forall|name: &str, found: Option<String>| #[trigger]
        call_ensures(lookup, (name,), found) ==> partial_text(found) == partials(name@)
}

/// `partials` may stand for `lookup` in a rendering: it says what `lookup`
/// answers, or the rendering asks for no partial at all.
pub open spec fn admits<P: Fn(&str) -> Option<String>>(
    lookup: P,
    partials: Partials,
    asked: bool,
) -> bool {
    answers(lookup, partials) || !asked
}

/// A lookup that answers as `partials` admits no answer but those of
/// `partials`.
pub proof fn lemma_answers_follow<P: Fn(&str) -> Option<String>>(lookup: P, partials: Partials)
    requires
        answers(lookup, partials),
    ensures
        follows(answers_of(lookup), partials),
{
    let allowed = answers_of(lookup);
    assert forall|name: Seq<char>, found: Option<Seq<char>>| #[trigger]
        allowed(name, found) implies found == partials(name) by {
        let (asked, answer) = choose|asked: &str, answer: Option<String>|
            #[trigger] call_ensures(lookup, (asked,), answer) && asked@ == name && partial_text(
                answer,
            ) == found;
    }
}

/// The state of a rendering: the output so far, the stack of contexts with
/// the innermost last, and the lookup of partials.
pub struct Emitter<'a, P> where P: Fn(&str) -> Option<String> {
    pub writer: String,
    pub context: Vec<&'a Value>,
    pub partials: P,
}

impl<'a, P> Emitter<'a, P> where P: Fn(&str) -> Option<String> {
    /// The stack of contexts as values.
    pub open spec fn stack(&self) -> Seq<ValueView> {
        stack_view(self.context@)
    }

    /// The answers that the lookup may give.
    pub open spec fn allowed(&self) -> Answers {
        answers_of(self.partials)
    }

    /// Every name may be looked up.
    pub open spec fn ready(&self) -> bool {
        forall|name: &str| call_requires(self.partials, (name,))
    }

    /// From `before` to `self` the stack and the lookup stayed as they were.
    pub open spec fn kept(&self, before: &Self) -> bool {
        &&& self.context@ == before.context@
        &&& self.partials == before.partials
    }

    /// From `before` to `self` the output only grew, and nothing else
    /// changed.
    pub open spec fn extends(&self, before: &Self) -> bool {
        &&& before.writer@.is_prefix_of(self.writer@)
        &&& self.kept(before)
    }

    /// What was written from `before` to `self`.
    pub open spec fn written_since(&self, before: &Self) -> Seq<char> {
        self.writer@.skip(before.writer@.len() as int)
    }

    /// From `before` to `self` the output grew by `text` and nothing else
    /// changed.
    pub open spec fn wrote(&self, before: &Self, text: Seq<char>) -> bool {
        &&& self.writer@ == before.writer@ + text
        &&& self.kept(before)
    }

    /// What was written in two steps is what the first step wrote followed
    /// by what the second wrote.
    pub proof fn lemma_written_in_steps(&self, middle: &Self, start: &Self)
        requires
            middle.extends(start),
            self.extends(middle),
        ensures
            self.extends(start),
            0 <= middle.written_since(start).len() <= self.written_since(start).len(),
            self.written_since(start).take(middle.written_since(start).len() as int)
                == middle.written_since(start),
            self.written_since(start).skip(middle.written_since(start).len() as int)
                == self.written_since(middle),
    {
        let cut = middle.written_since(start).len() as int;
        assert(self.written_since(start).take(cut) =~= middle.written_since(start));
        assert(self.written_since(start).skip(cut) =~= self.written_since(middle));
    }

    /// Writing `text` extends the output by `text`.
    pub proof fn lemma_wrote_extends(&self, before: &Self, text: Seq<char>)
        requires
            self.wrote(before, text),
        ensures
            self.extends(before),
            self.written_since(before) == text,
    {
        assert(self.written_since(before) =~= text);
    }

    /// A rendering that has written `writer` so far, with no context yet.
    pub fn new(writer: String, partials: P) -> (emitter: Self)
        ensures
            emitter.writer == writer,
            emitter.context@.len() == 0,
            emitter.partials == partials,
    {
        Emitter { writer, context: Vec::new(), partials }
    }

    /// Writes nothing.
    pub fn emit_nothing(&mut self)
        ensures
            final(self).wrote(old(self), Seq::empty()),
    {
        proof {
            assert(self.writer@ =~= self.writer@ + Seq::<char>::empty());
        }
    }

    /// Writes `text` as it is.
    pub fn emit_string(&mut self, text: &str)
        ensures
            final(self).wrote(old(self), text@),
    {
        self.writer.append(text);
    }

    /// Renders `tags` with `value` as the innermost context, and leaves the
    /// stack as it was.
    pub fn emit_context(&mut self, tags: &Vec<Tag<'_>>, value: &'a Value, depth: u64)
        requires
            old(self).ready(),
        ensures
            final(self).extends(old(self)),
            emits_all(
                tags_view(tags@),
                old(self).stack().push(value@),
                old(self).allowed(),
                depth as nat,
                final(self).written_since(old(self)),
            ),
        decreases 3 * depth + 2, tags, 1nat,
    {
        self.context.push(value);
        proof {
            assert(self.stack() =~= old(self).stack().push(value@));
        }
        self.emit_tags(tags, depth);
        self.context.pop();
        proof {
            assert(self.context@ =~= old(self).context@);
        }
    }

    /// Renders `tags` in order.
    pub fn emit_tags(&mut self, tags: &Vec<Tag<'_>>, depth: u64)
        requires
            old(self).ready(),
        ensures
            final(self).extends(old(self)),
            emits_all(
                tags_view(tags@),
                old(self).stack(),
                old(self).allowed(),
                depth as nat,
                final(self).written_since(old(self)),
            ),
        decreases 3 * depth + 2, tags, 0nat,
    {
        let ghost all = tags_view(tags@);
        let mut index: usize = 0;
        proof {
            self.lemma_wrote_extends(self, Seq::empty());
        }
        while index < tags.len()
            invariant
                0 <= index <= tags.len(),
                all == tags_view(tags@),
                self.ready(),
                self.extends(old(self)),
                emits_all(
                    all.take(index as int),
                    old(self).stack(),
                    old(self).allowed(),
                    depth as nat,
                    self.written_since(old(self)),
                ),
            decreases tags.len() - index,
        {
            let ghost before = *self;
            self.emit_tag(&tags[index], depth);
            proof {
                let done = all.take(index + 1);
                assert(done.drop_last() =~= all.take(index as int));
                assert(done.last() == tags@[index as int]@);
                self.lemma_written_in_steps(&before, old(self));
                let out = self.written_since(old(self));
                let cut = before.written_since(old(self)).len() as int;
                assert(emits_all(
                    done.drop_last(),
                    old(self).stack(),
                    old(self).allowed(),
                    depth as nat,
                    out.take(cut),
                ));
                assert(emits(
                    done.last(),
                    old(self).stack(),
                    old(self).allowed(),
                    depth as nat,
                    out.skip(cut),
                ));
            }
            index = index + 1;
        }
        proof {
            assert(all.take(tags.len() as int) =~= all);
        }
    }

    /// Renders one tag. Comments and delimiter changes write nothing.
    pub fn emit_tag(&mut self, tag: &Tag<'_>, depth: u64)
        requires
            old(self).ready(),
        ensures
            final(self).extends(old(self)),
            emits(
                tag@,
                old(self).stack(),
                old(self).allowed(),
                depth as nat,
                final(self).written_since(old(self)),
            ),
        decreases 3 * depth + 2, tag, 0nat,
    {
        match tag {
            Tag::Text(value) => {
                self.emit_string(value.value);
                proof {
                    self.lemma_wrote_extends(old(self), render_leaf(tag@, old(self).stack()));
                }
            },
            Tag::Variable(key) => {
                self.emit_variable(key);
                proof {
                    self.lemma_wrote_extends(old(self), render_leaf(tag@, old(self).stack()));
                }
            },
            Tag::Unescaped(key) => {
                self.emit_unescaped(key);
                proof {
                    self.lemma_wrote_extends(old(self), render_leaf(tag@, old(self).stack()));
                }
            },
            Tag::Section(section) => self.emit_section(section, depth),
            Tag::Inverted(section) => self.emit_inverted(section, depth),
            Tag::Partial(value) => self.emit_partial(value, depth),
            _ => {
                self.emit_nothing();
                proof {
                    self.lemma_wrote_extends(old(self), render_leaf(tag@, old(self).stack()));
                }
            },
        }
    }

    /// Writes the value of a key, escaped for HTML where it is a string.
    pub fn emit_variable(&mut self, tag: &KeyTag<'_>)
        ensures
            final(self).wrote(
                old(self),
                interpolation(resolve_in(old(self).stack(), key_view(tag.key@)), true),
            ),
    {
        match resolve(self.context.as_slice(), tag.key.as_slice()) {
            Ok(Value::String(string)) => {
                let escaped = escape(string.as_str());
                self.emit_string(escaped.as_str())
            },
            Ok(Value::Number(number)) => {
                let text = number.to_text();
                self.emit_string(text.as_str())
            },
            Ok(Value::Bool(boolean)) => self.emit_string(bool_to_str(*boolean)),
            _ => self.emit_nothing(),
        }
    }

    /// Writes the value of a key as it is.
    pub fn emit_unescaped(&mut self, tag: &KeyTag<'_>)
        ensures
            final(self).wrote(
                old(self),
                interpolation(resolve_in(old(self).stack(), key_view(tag.key@)), false),
            ),
    {
        match resolve(self.context.as_slice(), tag.key.as_slice()) {
            Ok(Value::String(string)) => self.emit_string(string.as_str()),
            Ok(Value::Number(number)) => {
                let text = number.to_text();
                self.emit_string(text.as_str())
            },
            Ok(Value::Bool(boolean)) => self.emit_string(bool_to_str(*boolean)),
            _ => self.emit_nothing(),
        }
    }

    /// Renders a section: not at all under a missing or falsy key, once for
    /// each item of an array, and once under any other value, which becomes
    /// the innermost context.
    pub fn emit_section(&mut self, tag: &ContextTag<'_>, depth: u64)
        requires
            old(self).ready(),
        ensures
            final(self).extends(old(self)),
            emits(
                TagView::Section(key_view(tag.key@), tags_view(tag.tags@)),
                old(self).stack(),
                old(self).allowed(),
                depth as nat,
                final(self).written_since(old(self)),
            ),
        decreases 3 * depth + 2, tag, 0nat,
    {
        match resolve(self.context.as_slice(), tag.key.as_slice()) {
            Ok(Value::Null) => {
                self.emit_nothing();
                proof {
                    self.lemma_wrote_extends(old(self), Seq::empty());
                }
            },
            Ok(Value::Bool(false)) => {
                self.emit_nothing();
                proof {
                    self.lemma_wrote_extends(old(self), Seq::empty());
                }
            },
            Ok(Value::Array(vec)) => {
                let ghost items = values_view(vec@);
                let ghost inner = tags_view(tag.tags@);
                let mut index: usize = 0;
                proof {
                    self.lemma_wrote_extends(self, Seq::empty());
                }
                while index < vec.len()
                    invariant
                        0 <= index <= vec.len(),
                        items == values_view(vec@),
                        inner == tags_view(tag.tags@),
                        self.ready(),
                        self.extends(old(self)),
                        emits_each(
                            inner,
                            items.take(index as int),
                            old(self).stack(),
                            old(self).allowed(),
                            depth as nat,
                            self.written_since(old(self)),
                        ),
                    decreases vec.len() - index,
                {
                    let ghost before = *self;
                    self.emit_context(&tag.tags, &vec[index], depth);
                    proof {
                        let done = items.take(index + 1);
                        assert(done.drop_last() =~= items.take(index as int));
                        assert(done.last() == vec@[index as int]@);
                        self.lemma_written_in_steps(&before, old(self));
                        let out = self.written_since(old(self));
                        let cut = before.written_since(old(self)).len() as int;
                        assert(emits_each(
                            inner,
                            done.drop_last(),
                            old(self).stack(),
                            old(self).allowed(),
                            depth as nat,
                            out.take(cut),
                        ));
                        assert(emits_all(
                            inner,
                            old(self).stack().push(done.last()),
                            old(self).allowed(),
                            depth as nat,
                            out.skip(cut),
                        ));
                    }
                    index = index + 1;
                }
                proof {
                    assert(items.take(vec.len() as int) =~= items);
                }
            },
            Ok(value) => self.emit_context(&tag.tags, value, depth),
            _ => {
                self.emit_nothing();
                proof {
                    self.lemma_wrote_extends(old(self), Seq::empty());
                }
            },
        }
    }

    /// Renders an inverted section: its tags against the stack as it stands
    /// under a missing or falsy key, and nothing under any other value.
    pub fn emit_inverted(&mut self, tag: &ContextTag<'_>, depth: u64)
        requires
            old(self).ready(),
        ensures
            final(self).extends(old(self)),
            emits(
                TagView::Inverted(key_view(tag.key@), tags_view(tag.tags@)),
                old(self).stack(),
                old(self).allowed(),
                depth as nat,
                final(self).written_since(old(self)),
            ),
        decreases 3 * depth + 2, tag, 0nat,
    {
        match resolve(self.context.as_slice(), tag.key.as_slice()) {
            Ok(Value::Null) => self.emit_tags(&tag.tags, depth),
            Ok(Value::Bool(false)) => self.emit_tags(&tag.tags, depth),
            Ok(Value::Array(vec)) if vec.len() == 0 => self.emit_tags(&tag.tags, depth),
            Ok(_) => {
                self.emit_nothing();
                proof {
                    self.lemma_wrote_extends(old(self), Seq::empty());
                }
            },
            _ => self.emit_tags(&tag.tags, depth),
        }
    }

    /// Renders the partial that `tag` names: asks the lookup for the text
    /// of that name and renders what came back.
    pub fn emit_partial(&mut self, tag: &ValueTag<'_>, depth: u64)
        requires
            old(self).ready(),
        ensures
            final(self).extends(old(self)),
            emits(
                TagView::Partial(tag.value@),
                old(self).stack(),
                old(self).allowed(),
                depth as nat,
                final(self).written_since(old(self)),
            ),
        decreases 3 * depth + 1, tag, 0nat,
    {
        let found = (self.partials)(tag.value);
        self.emit_found(found, depth);
        proof {
            let allowed = old(self).allowed();
            let name = TagView::Partial(tag.value@)->Partial_0;
            assert(call_ensures(old(self).partials, (tag.value,), found));
            assert(allowed(name, partial_text(found)));
        }
    }

    /// Renders a partial from what its lookup came back with: the text is
    /// parsed as a template of its own and rendered against the stack as
    /// it stands, one level deeper.
    pub fn emit_found(&mut self, found: Option<String>, depth: u64)
        requires
            old(self).ready(),
        ensures
            final(self).extends(old(self)),
            emits_found(
                partial_text(found),
                old(self).stack(),
                old(self).allowed(),
                depth as nat,
                final(self).written_since(old(self)),
            ),
        decreases 3 * depth, found, 0nat,
    {
        if depth > 0 {
            if let Some(text) = found {
                if let Ok((parsed, _)) = template(text.as_str()) {
                    return self.emit_tags(&parsed.tags, depth - 1);
                }
            }
        }
        self.emit_nothing();
        proof {
            self.lemma_wrote_extends(old(self), Seq::empty());
        }
    }
}

/// Renders `template` against `value` and appends the result to `writer`.
/// `partials` is asked for the text of each partial that is met. What is
/// appended is a rendering under the answers that `partials` may give; it
/// is what `render_tags` says for every source of partials that `partials`
/// answers as, and for every source whatever where the template names no
/// partial.
pub fn emit<P>(writer: &mut String, template: &Template<'_>, value: &Value, partials: P) where
    P: Fn(&str) -> Option<String>,

    requires
        forall|name: &str| call_requires(partials, (name,)),
    ensures
        old(writer)@.is_prefix_of(final(writer)@),
        emits_all(
            template@,
            seq![value@],
            answers_of(partials),
            PARTIAL_DEPTH as nat,
            final(writer)@.skip(old(writer)@.len() as int),
        ),
        forall|source: Partials| #[trigger]
            admits(partials, source, any_names_partial(template@)) ==> final(writer)@ == old(
                writer,
            )@ + render_tags(template@, seq![value@], source, PARTIAL_DEPTH as nat),
{
    let mut emitter = Emitter::new(String::new(), partials);
    proof {
        assert(emitter.stack().push(value@) =~= seq![value@]);
    }
    let ghost fresh = emitter;
    emitter.emit_context(&template.tags, value, PARTIAL_DEPTH);
    writer.append(emitter.writer.as_str());
    proof {
        let out = emitter.written_since(&fresh);
        assert(out =~= emitter.writer@);
        assert(writer@.skip(old(writer)@.len() as int) =~= out);
        assert forall|source: Partials| #[trigger]
            admits(partials, source, any_names_partial(template@)) implies writer@ == old(
            writer,
        )@ + render_tags(template@, seq![value@], source, PARTIAL_DEPTH as nat) by {
            if answers(partials, source) {
                lemma_answers_follow(partials, source);
            }
            lemma_emits_all_is_render(
                template@,
                seq![value@],
                answers_of(partials),
                source,
                PARTIAL_DEPTH as nat,
                out,
            );
        }
    }
}

} // verus!

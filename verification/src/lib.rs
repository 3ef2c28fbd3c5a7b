//! A logic-less template engine: templates are parsed into a tree of tags and
//! rendered against a stack of JSON-like values.

pub mod emitter;
pub mod parser;
pub mod resolver;
pub mod text;
pub mod types;
pub mod value;

pub use crate::types::{ContextTag, DelimiterTag, Key, KeySlice, KeyTag, Tag, Template, ValueTag};
pub use crate::value::{Number, Value};

use crate::emitter::{
    admits, answers_of, any_names_partial, emit, emits_all, follows, lemma_emits_all_is_render,
    lemma_text_renders_itself, render_tags, Answers, Partials, PARTIAL_DEPTH,
};
use crate::parser::combinators::occurs;
use crate::parser::tag::{lemma_plain_text_template, parse_template, template};
use crate::types::TagView;
use crate::value::ValueView;
use vstd::prelude::*;

verus! {

/// What the template `text` renders to against `context` where `partials`
/// gives the text of each partial, or the message of the parse error.
pub open spec fn render_text(text: Seq<char>, context: ValueView, partials: Partials) -> Result<
    Seq<char>,
    Seq<char>,
> {
    match parse_template(text) {
        Ok(tags) => Ok(render_tags(tags, seq![context], partials, PARTIAL_DEPTH as nat)),
        Err(message) => Err(message),
    }
}

/// A template in which `{{` occurs nowhere renders to itself, against every
/// context and with every source of partials.
pub proof fn lemma_plain_text_renders_itself(
    text: Seq<char>,
    context: ValueView,
    partials: Partials,
)
    requires
        !occurs("{{"@, text),
    ensures
        render_text(text, context, partials) == Ok::<_, Seq<char>>(text),
{
    lemma_plain_text_template(text);
    lemma_text_renders_itself(text, seq![context], partials, PARTIAL_DEPTH as nat);
    if text.len() == 0 {
        assert(text =~= Seq::<char>::empty());
    }
}

/// Whether the template `text` parses and names a partial.
pub open spec fn asks_partials(text: Seq<char>) -> bool {
    parse_template(text) matches Ok(tags) && any_names_partial(tags)
}

/// Whether `output` is a rendering of the template `text` against `context`
/// in which each partial was given one of the answers that `allowed` admits.
pub open spec fn is_rendering(
    text: Seq<char>,
    context: ValueView,
    allowed: Answers,
    output: Seq<char>,
) -> bool {
    parse_template(text) matches Ok(tags) && emits_all(
        tags,
        seq![context],
        allowed,
        PARTIAL_DEPTH as nat,
        output,
    )
}

/// Where the answers are those of `partials`, or the template names no
/// partial, its one rendering is what `render_text` says.
pub proof fn lemma_rendering_is_render_text(
    text: Seq<char>,
    context: ValueView,
    allowed: Answers,
    partials: Partials,
    output: Seq<char>,
)
    requires
        is_rendering(text, context, allowed, output),
        follows(allowed, partials) || !asks_partials(text),
    ensures
        render_text(text, context, partials) == Ok::<_, Seq<char>>(output),
{
    lemma_emits_all_is_render(
        parse_template(text)->Ok_0,
        seq![context],
        allowed,
        partials,
        PARTIAL_DEPTH as nat,
        output,
    );
}

/// Parses `text` and renders it against `context`. `partials` is asked for
/// the text of each partial that the template names. The parse decides
/// alone whether rendering succeeds. The output is a rendering under the
/// answers that `partials` may give; it is what `render_text` says for
/// every source of partials that `partials` answers as, and for every
/// source whatever where the template names no partial.
pub fn render<P>(text: &str, context: &Value, partials: P) -> (result: Result<String, String>) where
    P: Fn(&str) -> Option<String>,

    requires
        forall|name: &str| call_requires(partials, (name,)),
    ensures
        match result {
            Ok(output) => is_rendering(text@, context@, answers_of(partials), output@) && forall|
                source: Partials,
            | #[trigger]
                admits(partials, source, asks_partials(text@)) ==> render_text(
                    text@,
                    context@,
                    source,
                ) == Ok::<_, Seq<char>>(output@),
            Err(message) => parse_template(text@) == Err::<Seq<TagView>, _>(message@),
        },
{
    let (parsed, _) = match template(text) {
        Ok(parsed) => parsed,
        Err(message) => {
            return Err(message);
        },
    };
    let mut output = String::new();
    emit(&mut output, &parsed, context, partials);
    proof {
        assert(output@.skip(0) =~= output@);
        assert forall|source: Partials| #[trigger]
            admits(partials, source, asks_partials(text@)) implies render_text(
            text@,
            context@,
            source,
        ) == Ok::<_, Seq<char>>(output@) by {
            assert(admits(partials, source, any_names_partial(parsed@)));
            assert(output@ =~= render_tags(parsed@, seq![context@], source, PARTIAL_DEPTH as nat));
        }
    }
    Ok(output)
}

} // verus!

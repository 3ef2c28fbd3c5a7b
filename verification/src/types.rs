//! The tag tree that a template is parsed into.

use vstd::prelude::*;
use vstd::string::*;

verus! {

/// A dotted path; the empty path stands for the current context.
pub type Key<'a> = Vec<&'a str>;

/// A borrowed dotted path.
pub type KeySlice<'a> = [&'a str];

/// A section or an inverted section: its key and the tags inside it.
#[derive(Debug, PartialEq)]
pub struct ContextTag<'a> {
    pub key: Key<'a>,
    pub tags: Vec<Tag<'a>>,
}

/// An interpolation and the key it looks up.
#[derive(Debug, PartialEq)]
pub struct KeyTag<'a> {
    pub key: Key<'a>,
}

/// A tag that carries a span of the template's text.
#[derive(Debug, PartialEq)]
pub struct ValueTag<'a> {
    pub value: &'a str,
}

/// The new delimiter pair of a delimiter change.
#[derive(Debug, PartialEq)]
pub struct DelimiterTag<'a> {
    pub start: &'a str,
    pub stop: &'a str,
}

/// One parsed unit of a template.
#[derive(Debug, PartialEq)]
pub enum Tag<'a> {
    Text(ValueTag<'a>),
    Variable(KeyTag<'a>),
    Unescaped(KeyTag<'a>),
    Inverted(ContextTag<'a>),
    Section(ContextTag<'a>),
    Comment(ValueTag<'a>),
    Partial(ValueTag<'a>),
    Delimiters(DelimiterTag<'a>),
}

/// A parsed template: the tags at its top level.
#[derive(Debug, PartialEq)]
pub struct Template<'a> {
    pub tags: Vec<Tag<'a>>,
}

/// A key as a sequence of segments, each a sequence of characters.
pub type KeyView = Seq<Seq<char>>;

/// The mathematical value of a `Tag`.
pub enum TagView {
    Text(Seq<char>),
    Variable(KeyView),
    Unescaped(KeyView),
    Inverted(KeyView, Seq<TagView>),
    Section(KeyView, Seq<TagView>),
    Comment(Seq<char>),
    Partial(Seq<char>),
    Delimiters(Seq<char>, Seq<char>),
}

/// The segments of a key, each by its characters.
pub open spec fn key_view(key: Seq<&str>) -> KeyView {
    key.map_values(|segment: &str| segment@)
}

/// The segments of `key`, joined by `.`.
pub open spec fn joined(key: KeyView) -> Seq<char>
    decreases key.len(),
{
    if key.len() == 0 {
        Seq::empty()
    } else if key.len() == 1 {
        key[0]
    } else {
        joined(key.drop_last()) + seq!['.'] + key.last()
    }
}

/// Joins the segments of `key` with `.`.
pub fn join_key(key: &KeySlice<'_>) -> (text: String)
    ensures
        text@ == joined(key_view(key@)),
{
    let mut text = String::new();
    let mut index: usize = 0;
    while index < key.len()
        invariant
            0 <= index <= key.len(),
            text@ == joined(key_view(key@).take(index as int)),
        decreases key.len() - index,
    {
        proof {
            reveal_strlit(".");
            let before = key_view(key@).take(index as int);
            let after = key_view(key@).take(index + 1);
            assert(after.drop_last() =~= before);
            assert(after.last() == key@[index as int]@);
        }
        if index > 0 {
            text.append(".");
        }
        text.append(key[index]);
        index = index + 1;
    }
    proof {
        assert(key_view(key@).take(key.len() as int) =~= key_view(key@));
    }
    text
}

/// The values of a sequence of tags.
pub open spec fn tags_view(tags: Seq<Tag>) -> Seq<TagView>
    decreases tags,
{
    Seq::new(
        tags.len(),
        |i: int|
            if 0 <= i < tags.len() {
                tags[i]@
            } else {
                TagView::Text(Seq::empty())
            },
    )
}

impl<'a> View for Tag<'a> {
    type V = TagView;

    open spec fn view(&self) -> TagView
        decreases self,
    {
        match self {
            Tag::Text(tag) => TagView::Text(tag.value@),
            Tag::Variable(tag) => TagView::Variable(key_view(tag.key@)),
            Tag::Unescaped(tag) => TagView::Unescaped(key_view(tag.key@)),
            Tag::Inverted(tag) => TagView::Inverted(key_view(tag.key@), tags_view(tag.tags@)),
            Tag::Section(tag) => TagView::Section(key_view(tag.key@), tags_view(tag.tags@)),
            Tag::Comment(tag) => TagView::Comment(tag.value@),
            Tag::Partial(tag) => TagView::Partial(tag.value@),
            Tag::Delimiters(tag) => TagView::Delimiters(tag.start@, tag.stop@),
        }
    }
}

impl<'a> View for Template<'a> {
    type V = Seq<TagView>;

    open spec fn view(&self) -> Seq<TagView> {
        tags_view(self.tags@)
    }
}

} // verus!

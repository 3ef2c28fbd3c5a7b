//! Lookup of keys in a stack of contexts.

use crate::types::{join_key, joined, key_view, KeySlice, KeyView};
use crate::value::{Value, ValueView};
use vstd::prelude::*;
use vstd::string::*;

verus! {

/// The value reached from `value` by following the fields that `key` names.
pub open spec fn resolve_path(value: ValueView, key: KeyView) -> Option<ValueView>
    decreases key.len(),
{
    if key.len() == 0 {
        Some(value)
    } else {
        match value.field(key[0]) {
            Some(inner) => resolve_path(inner, key.skip(1)),
            None => None,
        }
    }
}

/// Whether a context answers for `key`: the empty key is found in every
/// context, any other key in an object that has the key's first segment.
pub open spec fn is_hit(value: ValueView, key: KeyView) -> bool {
    key.len() == 0 || value.field(key[0]) is Some
}

/// The innermost context of the stack that answers for `key`.
pub open spec fn owner(stack: Seq<ValueView>, key: KeyView) -> Option<ValueView>
    decreases stack.len(),
{
    if stack.len() == 0 {
        None
    } else if is_hit(stack.last(), key) {
        Some(stack.last())
    } else {
        owner(stack.drop_last(), key)
    }
}

/// The values of a stack of contexts.
pub open spec fn stack_view(stack: Seq<&Value>) -> Seq<ValueView> {
    stack.map_values(|value: &Value| value@)
}

/// The message for a path that breaks off inside a context.
pub open spec fn context_miss(key: KeyView) -> Seq<char> {
    "context miss for key '"@ + joined(key) + "' "@
}

/// The message for a key that no context answers for.
pub open spec fn resolve_miss(key: KeyView) -> Seq<char> {
    "resolve miss for key '"@ + joined(key) + "' "@
}

/// The value of `key` in a stack of contexts, innermost last. Only the
/// innermost context that answers for the key is searched: where the path
/// breaks off inside it, no outer context is tried.
pub open spec fn resolve_in(stack: Seq<ValueView>, key: KeyView) -> Result<ValueView, Seq<char>> {
    match owner(stack, key) {
        Some(context) => match resolve_path(context, key) {
            Some(value) => Ok(value),
            None => Err(context_miss(key)),
        },
        None => Err(resolve_miss(key)),
    }
}

/// The innermost context that answers for a key decides the lookup: the
/// contexts around it are searched only where it does not answer.
pub proof fn lemma_innermost_hit_wins(stack: Seq<ValueView>, inner: ValueView, key: KeyView)
    ensures
        is_hit(inner, key) ==> resolve_in(stack.push(inner), key) == match resolve_path(
            inner,
            key,
        ) {
            Some(value) => Ok::<_, Seq<char>>(value),
            None => Err(context_miss(key)),
        },
        !is_hit(inner, key) ==> resolve_in(stack.push(inner), key) == resolve_in(stack, key),
{
    assert(stack.push(inner).last() == inner);
    assert(stack.push(inner).drop_last() =~= stack);
}

/// The empty key is the innermost context itself.
pub proof fn lemma_implicit_key_is_context(stack: Seq<ValueView>, inner: ValueView)
    ensures
        resolve_in(stack.push(inner), Seq::empty()) == Ok::<_, Seq<char>>(inner),
{
    lemma_innermost_hit_wins(stack, inner, Seq::empty());
}

/// Follows `key` from `context` through nested objects.
pub fn resolve_key<'a>(context: &'a Value, key: &KeySlice<'_>) -> (result: Result<
    &'a Value,
    String,
>)
    ensures
        match result {
            Ok(value) => resolve_path(context@, key_view(key@)) == Some(value@),
            Err(message) => resolve_path(context@, key_view(key@)) is None && message@
                == context_miss(key_view(key@)),
        },
{
    let mut root = context;
    let mut index: usize = 0;
    proof {
        assert(key_view(key@).skip(0) =~= key_view(key@));
    }
    while index < key.len()
        invariant
            0 <= index <= key.len(),
            resolve_path(context@, key_view(key@)) == resolve_path(
                root@,
                key_view(key@).skip(index as int),
            ),
        decreases key.len() - index,
    {
        proof {
            let left = key_view(key@).skip(index as int);
            assert(left[0] == key@[index as int]@);
            assert(left.skip(1) =~= key_view(key@).skip(index + 1));
        }
        match root.get(key[index]) {
            Some(inner) => {
                root = inner;
            },
            None => {
                let mut message = "context miss for key '".to_owned();
                message.append(join_key(key).as_str());
                message.append("' ");
                return Err(message);
            },
        }
        index = index + 1;
    }
    Ok(root)
}

/// Whether `context` answers for `key`.
pub fn resolve_hit(context: &Value, key: &KeySlice<'_>) -> (hit: bool)
    ensures
        hit == is_hit(context@, key_view(key@)),
{
    if key.len() == 0 {
        true
    } else {
        proof {
            assert(key_view(key@)[0] == key@[0]@);
        }
        context.get(key[0]).is_some()
    }
}

/// Looks `key` up in the innermost context that answers for it.
pub fn resolve<'a>(context_stack: &[&'a Value], key: &KeySlice<'_>) -> (result: Result<
    &'a Value,
    String,
>)
    ensures
        match result {
            Ok(value) => resolve_in(stack_view(context_stack@), key_view(key@)) == Ok::<
                _,
                Seq<char>,
            >(value@),
            Err(message) => resolve_in(stack_view(context_stack@), key_view(key@)) == Err::<
                ValueView,
                _,
            >(message@),
        },
{
    let mut depth: usize = context_stack.len();
    proof {
        assert(stack_view(context_stack@).take(depth as int) =~= stack_view(context_stack@));
    }
    while depth > 0
        invariant
            0 <= depth <= context_stack.len(),
            owner(stack_view(context_stack@), key_view(key@)) == owner(
                stack_view(context_stack@).take(depth as int),
                key_view(key@),
            ),
        decreases depth,
    {
        let context = context_stack[depth - 1];
        proof {
            let above = stack_view(context_stack@).take(depth as int);
            assert(above.last() == context@);
            assert(above.drop_last() =~= stack_view(context_stack@).take(depth - 1));
        }
        if resolve_hit(context, key) {
            return resolve_key(context, key);
        }
        depth = depth - 1;
    }
    let mut message = "resolve miss for key '".to_owned();
    message.append(join_key(key).as_str());
    message.append("' ");
    Err(message)
}

} // verus!

//! The body extractor: find the code block behind transparent wrappers.

use vstd::prelude::*;
use crate::error::{Error, Expected, Failure};
use crate::tree::{forest, lemma_children_view, Delimiter, Node, Tag, Tree};

verus! {

/// The body that `tokens` holds.
///
/// `tokens` must be exactly one group. A group with a visible delimiter
/// gives its children. An invisible group is looked through: its own
/// children must in turn hold the body, and a missing token among them is
/// reported at the invisible group. Faults inside come first; only then is
/// a token after the group reported. A missing token in `tokens` itself is
/// reported at `anchor`.
pub open spec fn body_of(tokens: Seq<Tree>, anchor: Tag) -> Result<Seq<Tree>, Failure>
    decreases tokens,
{
    if tokens.len() == 0 {
        Err(Failure::UnexpectedEndOfInput { expected: Expected::Group, anchor })
    } else {
        match tokens[0] {
            Tree::Group { delimiter, children, tag, .. } => {
                let inner = if delimiter != Delimiter::Invisible {
                    Ok(children)
                } else {
                    body_of(children, tag)
                };
                closed(inner, tokens)
            },
            other => Err(
                Failure::UnexpectedToken { expected: Expected::Group, anchor: other.tag() },
            ),
        }
    }
}

/// `inner`, unless it is a body and a token stands after the first of
/// `tokens`: then that token is reported.
pub open spec fn closed(inner: Result<Seq<Tree>, Failure>, tokens: Seq<Tree>) -> Result<
    Seq<Tree>,
    Failure,
> {
    if inner is Ok && tokens.len() > 1 {
        Err(Failure::UnexpectedToken { expected: Expected::EndOfInput, anchor: tokens[1].tag() })
    } else {
        inner
    }
}

/// `inner`, unless it is a body and a token at `pending` waits to be
/// reported.
spec fn deferred(inner: Result<Seq<Tree>, Failure>, pending: Option<Tag>) -> Result<
    Seq<Tree>,
    Failure,
> {
    match pending {
        Some(anchor) if inner is Ok => Err(
            Failure::UnexpectedToken { expected: Expected::EndOfInput, anchor },
        ),
        _ => inner,
    }
}

/// Extracts the body from `tokens`, which must be exactly one group, looking
/// through any number of invisible groups. A missing token is reported at
/// `anchor`.
///
/// The body is handed out where it lies, and the layers are walked in a
/// loop: deep nesting costs neither a copy nor stack.
pub fn extract_body<'a>(tokens: &'a [Node], anchor: Tag) -> (r: Result<&'a [Node], Error>)
    ensures
        match r {
            Ok(body) => body_of(forest(tokens@), anchor) == Ok::<Seq<Tree>, Failure>(
                forest(body@),
            ),
            Err(e) => body_of(forest(tokens@), anchor) == Err::<Seq<Tree>, Failure>(e@),
        },
{
    let mut layer: &'a [Node] = tokens;
    let mut at: Tag = anchor;
    let mut pending: Option<Tag> = None;
    loop
        invariant
            body_of(forest(tokens@), anchor) == deferred(body_of(forest(layer@), at), pending),
        decreases layer@,
    {
        if layer.len() == 0 {
            return Err(Error::UnexpectedEndOfInput { expected: Expected::Group, anchor: at });
        }
        match &layer[0] {
            Node::Group { delimiter, children, tag, .. } => {
                proof {
                    lemma_children_view(&layer[0]);
                }
                if layer.len() > 1 {
                    pending = Some(layer[1].tag());
                }
                match delimiter {
                    Delimiter::Invisible => {
                        layer = children.as_slice();
                        at = *tag;
                    },
                    _ => {
                        return match pending {
                            Some(trailing) => Err(
                                Error::UnexpectedToken {
                                    expected: Expected::EndOfInput,
                                    anchor: trailing,
                                },
                            ),
                            None => Ok(children.as_slice()),
                        };
                    },
                }
            },
            other => {
                return Err(
                    Error::UnexpectedToken { expected: Expected::Group, anchor: other.tag() },
                );
            },
        }
    }
}

/// `inner` inside invisible groups, one around the other: the first pair of
/// `layers` gives the tag and the closing tag of the innermost wrapper.
pub open spec fn wrapped(inner: Tree, layers: Seq<(Tag, Tag)>) -> Tree
    decreases layers.len(),
{
    if layers.len() == 0 {
        inner
    } else {
        Tree::Group {
            delimiter: Delimiter::Invisible,
            children: seq![wrapped(inner, layers.drop_last())],
            tag: layers.last().0,
            close_tag: layers.last().1,
        }
    }
}

/// Invisible layers do not count: a group with a visible delimiter gives the
/// same body, its children, however many invisible groups are wrapped around
/// it, whatever their tags and wherever a missing token would be reported.
pub proof fn lemma_body_through_wrappers(
    group: Tree,
    layers: Seq<(Tag, Tag)>,
    anchor: Tag,
    other_anchor: Tag,
)
    requires
        group.is_solid_group(),
    ensures
        body_of(seq![wrapped(group, layers)], anchor) == body_of(seq![group], other_anchor),
        body_of(seq![group], other_anchor) == Ok::<Seq<Tree>, Failure>(group->children),
    decreases layers.len(),
{
    if layers.len() > 0 {
        lemma_body_through_wrappers(group, layers.drop_last(), layers.last().0, other_anchor);
    }
}

} // verus!

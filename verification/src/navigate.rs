//! The index navigator: follow a chain of bracketed index selectors down
//! through nested groups.

use vstd::prelude::*;
use vstd::string::StringExecFns;
use crate::error::{Error, Expected, Failure};
use crate::number::{
    is_digit, lemma_suffix_is_ignored, literal_index, number_suffixes, parse_index,
    remove_number_suffix, without_number_suffix,
};
use crate::render::{render, render_marked, rendered, rendered_marked};
use crate::tree::{forest, lemma_children_view, Delimiter, Node, Tag, Tree};

verus! {

/// The index that an index selector holds, and the location of its literal;
/// or why it holds none. `items` are the children of the selector's bracket
/// group, `close_tag` the location of its closing bracket.
///
/// A selector holds exactly one literal. The literal's integer-size suffix is
/// dropped before it is read as an unsigned integer. An empty selector is
/// reported at its closing bracket, every other fault at the first child
/// that is at fault.
pub open spec fn selector_index(items: Seq<Tree>, close_tag: Tag) -> Result<(usize, Tag), Failure> {
    if items.len() == 0 {
        Err(Failure::UnexpectedEndOfInput { expected: Expected::Literal, anchor: close_tag })
    } else if !(items[0] is Literal) {
        Err(Failure::UnexpectedToken { expected: Expected::Literal, anchor: items[0].tag() })
    } else if items.len() > 1 {
        Err(Failure::UnexpectedToken { expected: Expected::EndOfInput, anchor: items[1].tag() })
    } else {
        match literal_index(items[0]->text) {
            Some(index) => Ok((index, items[0].tag())),
            None => Err(
                Failure::NumberParseError {
                    text: without_number_suffix(items[0]->text),
                    anchor: items[0].tag(),
                },
            ),
        }
    }
}

/// Child `index` of `current`, counted from 0; an error anchored at `anchor`
/// if `current` is no group or has no such child.
pub open spec fn child_at(current: Tree, index: usize, anchor: Tag) -> Result<Tree, Failure> {
    match current {
        Tree::Group { children, .. } => if index < children.len() {
            Ok(children[index as int])
        } else {
            Err(Failure::IndexOutOfRange { index, group: rendered_marked(current), anchor })
        },
        _ => Err(Failure::NotIndexable { node: rendered(current), anchor }),
    }
}

/// One descent: the child of `current` that the selector with the children
/// `items` selects.
///
/// The selector is read first, so a fault in it is reported before one about
/// `current`. Faults about `current` are anchored at the selector's literal.
pub open spec fn selected(current: Tree, items: Seq<Tree>, close_tag: Tag) -> Result<
    Tree,
    Failure,
> {
    match selector_index(items, close_tag) {
        Err(e) => Err(e),
        Ok((index, anchor)) => child_at(current, index, anchor),
    }
}

/// Navigation from `start` along the selectors that stand in `tokens` from
/// position `pos` on: the node reached, and the position of the first token
/// that is no bracket group. It stops at the first error.
pub open spec fn navigated(start: Tree, tokens: Seq<Tree>, pos: int) -> Result<(Tree, int), Failure>
    decreases tokens.len() - pos,
{
    if 0 <= pos < tokens.len() && tokens[pos].is_bracket_group() {
        match selected(start, tokens[pos]->children, tokens[pos]->close_tag) {
            Err(e) => Err(e),
            Ok(next) => navigated(next, tokens, pos + 1),
        }
    } else {
        Ok((start, pos))
    }
}

/// Reads the index that a selector with the children `items` holds. Returns
/// it with the location of the literal.
pub fn read_selector(items: &[Node], close_tag: Tag) -> (r: Result<(usize, Tag), Error>)
    ensures
        match r {
            Ok(found) => selector_index(forest(items@), close_tag) == Ok::<(usize, Tag), Failure>(
                found,
            ),
            Err(e) => selector_index(forest(items@), close_tag) == Err::<(usize, Tag), Failure>(
                e@,
            ),
        },
{
    if items.len() == 0 {
        return Err(Error::UnexpectedEndOfInput { expected: Expected::Literal, anchor: close_tag });
    }
    match &items[0] {
        Node::Literal { text, tag } => {
            if items.len() > 1 {
                return Err(
                    Error::UnexpectedToken {
                        expected: Expected::EndOfInput,
                        anchor: items[1].tag(),
                    },
                );
            }
            let digits = remove_number_suffix(text.as_str());
            match parse_index(digits) {
                Some(index) => Ok((index, *tag)),
                None => Err(
                    Error::NumberParseError { text: String::from_str(digits), anchor: *tag },
                ),
            }
        },
        other => Err(Error::UnexpectedToken { expected: Expected::Literal, anchor: other.tag() }),
    }
}

/// Child `index` of `current`, counted from 0. Fails, with an error anchored
/// at `anchor`, exactly if `current` is no group or has `index` children or
/// fewer.
pub fn child<'a>(current: &'a Node, index: usize, anchor: Tag) -> (r: Result<&'a Node, Error>)
    ensures
        match r {
            Ok(node) => child_at(current@, index, anchor) == Ok::<Tree, Failure>(node@),
            Err(e) => child_at(current@, index, anchor) == Err::<Tree, Failure>(e@),
        },
{
    match current {
        Node::Group { children, .. } => {
            proof {
                lemma_children_view(current);
            }
            if index < children.len() {
                Ok(&children[index])
            } else {
                Err(Error::IndexOutOfRange { index, group: render_marked(current), anchor })
            }
        },
        _ => Err(Error::NotIndexable { node: render(current), anchor }),
    }
}

/// Navigates from `start` along the index selectors that stand in `tokens`
/// from position `pos` on. Returns the node reached and the position of the
/// first token that is no bracket group, or the first error. With no
/// selector at `pos` the node reached is `start` itself.
pub fn navigate<'a>(start: &'a Node, tokens: &[Node], pos: usize) -> (r: Result<
    (&'a Node, usize),
    Error,
>)
    ensures
        match r {
            Ok((node, end)) => navigated(start@, forest(tokens@), pos as int) == Ok::<
                (Tree, int),
                Failure,
            >((node@, end as int)),
            Err(e) => navigated(start@, forest(tokens@), pos as int) == Err::<
                (Tree, int),
                Failure,
            >(e@),
        },
{
    let mut current: &'a Node = start;
    let mut at: usize = pos;
    while at < tokens.len()
        invariant
            pos <= at,
            navigated(start@, forest(tokens@), pos as int) == navigated(
                current@,
                forest(tokens@),
                at as int,
            ),
        decreases tokens.len() - at,
    {
        match &tokens[at] {
            Node::Group { delimiter: Delimiter::Bracket, children, close_tag, .. } => {
                proof {
                    lemma_children_view(&tokens[at as int]);
                }
                let (index, anchor) = read_selector(children.as_slice(), *close_tag)?;
                current = child(current, index, anchor)?;
                at += 1;
            },
            _ => {
                return Ok((current, at));
            },
        }
    }
    Ok((current, at))
}

/// Child `index` of a group is found exactly if `index` is below the number
/// of its children, counting from 0; beyond that the index is out of range.
pub proof fn lemma_index_bounds(group: Tree, index: usize, anchor: Tag)
    requires
        group is Group,
    ensures
        index < group->children.len() ==> child_at(group, index, anchor) == Ok::<Tree, Failure>(
            group->children[index as int],
        ),
        index >= group->children.len() ==> child_at(group, index, anchor) is Err && child_at(
            group,
            index,
            anchor,
        )->Err_0 is IndexOutOfRange,
{
}

/// The node reached from `start` by descending into child `path[0]`, then
/// into child `path[1]` of that, and so on; `None` if one of the nodes on
/// the way is no group or has no such child.
pub open spec fn descended(start: Tree, path: Seq<usize>) -> Option<Tree>
    decreases path.len(),
{
    if path.len() == 0 {
        Some(start)
    } else {
        match start {
            Tree::Group { children, .. } if path[0] < children.len() => descended(
                children[path[0] as int],
                path.drop_first(),
            ),
            _ => None,
        }
    }
}

/// From position `pos` on, `tokens` holds well-formed selectors for the
/// indices of `path`, one after the other, and then no further bracket
/// group.
pub open spec fn spells_path(tokens: Seq<Tree>, pos: int, path: Seq<usize>) -> bool {
    &&& 0 <= pos
    &&& pos + path.len() <= tokens.len()
    &&& forall|k: int|
        0 <= k < path.len() ==> {
            let selector = #[trigger] tokens[pos + k];
            &&& selector.is_bracket_group()
            &&& selector_index(selector->children, selector->close_tag) matches Ok((index, _))
            &&& index == path[k]
        }
    &&& pos + path.len() < tokens.len() ==> !tokens[pos + path.len()].is_bracket_group()
}

/// An address denotes a descent: along well-formed selectors, navigation
/// reaches the node that lies at the end of the path of their indices, and
/// takes up all of them; it fails exactly if the path leaves the tree.
pub proof fn lemma_navigation_follows_path(
    start: Tree,
    tokens: Seq<Tree>,
    pos: int,
    path: Seq<usize>,
)
    requires
        spells_path(tokens, pos, path),
    ensures
        match descended(start, path) {
            Some(node) => navigated(start, tokens, pos) == Ok::<(Tree, int), Failure>(
                (node, pos + path.len()),
            ),
            None => navigated(start, tokens, pos) is Err,
        },
    decreases path.len(),
{
    if path.len() > 0 {
        let selector = tokens[pos + 0];
        let rest = path.drop_first();
        assert forall|k: int| 0 <= k < rest.len() implies {
            let selector = #[trigger] tokens[pos + 1 + k];
            &&& selector.is_bracket_group()
            &&& selector_index(selector->children, selector->close_tag) matches Ok((index, _))
            &&& index == rest[k]
        } by {
            assert(tokens[pos + (k + 1)] == tokens[pos + 1 + k]);
        }
        match start {
            Tree::Group { children, .. } if path[0] < children.len() => {
                lemma_navigation_follows_path(children[path[0] as int], tokens, pos + 1, rest);
            },
            _ => {},
        }
    }
}

/// Navigation depends on nothing but the tree and the selector chain: from
/// start nodes with the same model, along chains with the same models, it
/// reaches the same node and stops at the same place, or fails alike.
pub proof fn lemma_navigation_repeats(
    start: Node,
    tokens: Seq<Node>,
    again_start: Node,
    again_tokens: Seq<Node>,
    pos: int,
)
    requires
        start@ == again_start@,
        forest(tokens) == forest(again_tokens),
    ensures
        navigated(start@, forest(tokens), pos) == navigated(
            again_start@,
            forest(again_tokens),
            pos,
        ),
{
}

/// Two selectors whose literals differ only in an integer-size suffix select
/// the same child, and fail alike where they fail.
pub proof fn lemma_selector_suffix_is_ignored(
    current: Tree,
    digits: Seq<char>,
    k: int,
    tag: Tag,
    close_tag: Tag,
)
    requires
        forall|i: int| 0 <= i < digits.len() ==> is_digit(#[trigger] digits[i]),
        0 <= k < number_suffixes().len(),
    ensures
        selected(
            current,
            seq![Tree::Literal { text: digits + number_suffixes()[k], tag }],
            close_tag,
        ) == selected(current, seq![Tree::Literal { text: digits, tag }], close_tag),
{
    lemma_suffix_is_ignored(digits, k);
}

} // verus!

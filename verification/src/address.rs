//! The address parser: which node an invocation points at.

use vstd::prelude::*;
use crate::error::{Error, Expected, Failure};
use crate::navigate::{navigate, navigated};
use crate::text::same_text;
use crate::tree::{forest, Node, Tag, Tree};

verus! {

/// `tokens` begins with the marker of the current invocation: the mark `#`
/// and then the word `mixed`.
pub open spec fn marker_at_start(tokens: Seq<Tree>) -> bool {
    tokens.len() >= 2 && tokens[0].is_punct('#') && tokens[1].is_ident("mixed"@)
}

/// The node that the address segment `tokens` denotes, and how many of the
/// tokens the address takes up.
///
/// - The marker `#mixed` denotes its own mark `#`, relocated to `mixed_site`.
///   It takes up two tokens; what follows them is not examined.
/// - Otherwise the first token is the base, the bracket groups after it are
///   index selectors that lead from the base to the node, and nothing may
///   follow them. An empty segment is reported at `call_site`.
pub open spec fn parsed_address(tokens: Seq<Tree>, call_site: Tag, mixed_site: Tag) -> Result<
    (Tree, int),
    Failure,
> {
    if marker_at_start(tokens) {
        Ok((Tree::Punct { ch: '#', joint: tokens[0]->joint, tag: mixed_site }, 2))
    } else if tokens.len() == 0 {
        Err(Failure::UnexpectedEndOfInput { expected: Expected::Token, anchor: call_site })
    } else {
        match navigated(tokens[0], tokens, 1) {
            Err(e) => Err(e),
            Ok((node, end)) => if end < tokens.len() {
                Err(
                    Failure::UnexpectedToken {
                        expected: Expected::Selector,
                        anchor: tokens[end].tag(),
                    },
                )
            } else {
                Ok((node, end))
            },
        }
    }
}

/// The spacing of the mark `#`, if `tokens` begins with the marker of the
/// current invocation.
fn marker_spacing(tokens: &[Node]) -> (joint: Option<bool>)
    ensures
        joint is Some <==> marker_at_start(forest(tokens@)),
        joint matches Some(j) ==> j == forest(tokens@)[0]->joint,
{
    if tokens.len() < 2 {
        return None;
    }
    match &tokens[0] {
        Node::Punct { ch, joint, .. } => {
            if *ch != '#' {
                return None;
            }
            match &tokens[1] {
                Node::Ident { name, .. } => {
                    if same_text(name.as_str(), "mixed") {
                        Some(*joint)
                    } else {
                        None
                    }
                },
                _ => None,
            }
        },
        _ => None,
    }
}

/// Parses the address segment `tokens`: either the marker `#mixed`, or a
/// base token followed by index selectors and nothing else. Returns the node
/// addressed and the number of tokens that the address takes up.
pub fn parse_address(tokens: &[Node], call_site: Tag, mixed_site: Tag) -> (r: Result<
    (Node, usize),
    Error,
>)
    ensures
        match r {
            Ok((node, used)) => parsed_address(forest(tokens@), call_site, mixed_site) == Ok::<
                (Tree, int),
                Failure,
            >((node@, used as int)),
            Err(e) => parsed_address(forest(tokens@), call_site, mixed_site) == Err::<
                (Tree, int),
                Failure,
            >(e@),
        },
{
    match marker_spacing(tokens) {
        Some(joint) => {
            return Ok((Node::Punct { ch: '#', joint, tag: mixed_site }, 2));
        },
        None => {},
    }
    if tokens.len() == 0 {
        return Err(Error::UnexpectedEndOfInput { expected: Expected::Token, anchor: call_site });
    }
    let (node, end) = navigate(&tokens[0], tokens, 1)?;
    if end < tokens.len() {
        return Err(
            Error::UnexpectedToken { expected: Expected::Selector, anchor: tokens[end].tag() },
        );
    }
    Ok((node.clone(), end))
}

} // verus!

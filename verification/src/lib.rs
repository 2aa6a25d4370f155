//! Span propagation over token trees.
//!
//! A block of code is given as a tree of tokens, each with a location tag.
//! The two entry points of this library rewrite the tags of parts of such
//! a block to the tag of a token that the caller addresses, so that what
//! is reported about the rewritten code later points at that token.
//!
//! The library works on its own model of token trees ([`tree::Node`]). Tags
//! are opaque numbers: a host that has richer locations keeps them in a
//! table and hands out their positions.

use vstd::prelude::*;
use vstd::slice::slice_subrange;

pub mod address;
pub mod body;
pub mod directive;
pub mod error;
pub mod navigate;
pub mod number;
pub mod render;
pub mod stamp;
pub mod text;
pub mod tree;
mod walk;

use crate::address::{parse_address, parsed_address};
use crate::body::{body_of, extract_body};
use crate::directive::{dispatch, dispatched};
use crate::error::{Error, Expected, Failure};
use crate::navigate::{navigate, navigated};
use crate::stamp::{stamp_block, stamped_block};
use crate::tree::{forest, lemma_forest_subrange, Node, Tag, Tree};

verus! {

/// The position of the first comma of `tokens` at or after `from`, at the
/// top level; the length of `tokens` if there is none.
pub open spec fn comma_from(tokens: Seq<Tree>, from: int) -> int
    decreases tokens.len() - from,
{
    if from < 0 || from >= tokens.len() {
        tokens.len() as int
    } else if tokens[from].is_punct(',') {
        from
    } else {
        comma_from(tokens, from + 1)
    }
}

/// The position that [`comma_from`] gives is that of a comma, unless it is
/// the end, and no comma stands between `from` and that position.
pub proof fn lemma_comma_is_first(tokens: Seq<Tree>, from: int)
    requires
        0 <= from <= tokens.len(),
    ensures
        from <= comma_from(tokens, from) <= tokens.len(),
        comma_from(tokens, from) < tokens.len() ==> tokens[comma_from(tokens, from)].is_punct(','),
        forall|i: int|
            from <= i < comma_from(tokens, from) ==> !(#[trigger] tokens[i]).is_punct(','),
    decreases tokens.len() - from,
{
    if from < tokens.len() && !tokens[from].is_punct(',') {
        lemma_comma_is_first(tokens, from + 1);
    }
}

/// What the full form makes of `input`, which reads `address , body`.
///
/// The first comma at the top level parts the address from the body; without
/// one the input is reported as ended, at `call_site`. The address is parsed
/// first, then the body is extracted from what follows the comma, then the
/// directives in the body are expanded for the node addressed. The first of
/// these steps that fails gives the error.
pub open spec fn set_span_of(input: Seq<Tree>, call_site: Tag, mixed_site: Tag) -> Result<
    Seq<Tree>,
    Failure,
> {
    let comma = comma_from(input, 0);
    if comma >= input.len() {
        Err(Failure::UnexpectedEndOfInput { expected: Expected::Comma, anchor: call_site })
    } else {
        match parsed_address(input.take(comma), call_site, mixed_site) {
            Err(e) => Err(e),
            Ok((target, _)) => match body_of(input.skip(comma + 1), call_site) {
                Err(e) => Err(e),
                Ok(body) => dispatched(body, target),
            },
        }
    }
}

/// What the short form makes of `input`, which reads `base [i]... , {...}`
/// with the comma left to choice.
///
/// The first token is the base, the bracket groups after it lead from the
/// base to the target. One comma may follow. Then exactly one group must
/// follow, of any delimiter and not looked through; its children are stamped
/// with the target's tag. An input that ends too early is reported at
/// `call_site`.
pub open spec fn set_span_all_of(input: Seq<Tree>, call_site: Tag) -> Result<Seq<Tree>, Failure> {
    if input.len() == 0 {
        Err(Failure::UnexpectedEndOfInput { expected: Expected::Token, anchor: call_site })
    } else {
        match navigated(input[0], input, 1) {
            Err(e) => Err(e),
            Ok((target, end)) => {
                let block = if end < input.len() && input[end].is_punct(',') {
                    end + 1
                } else {
                    end
                };
                stamped_block(input, block, target.tag(), call_site)
            },
        }
    }
}

/// Whether `node` is the punctuation mark `,`.
fn is_comma(node: &Node) -> (yes: bool)
    ensures
        yes == node@.is_punct(','),
{
    match node {
        Node::Punct { ch, .. } => *ch == ',',
        _ => false,
    }
}

/// The position of the first comma of `tokens`; their number if there is
/// none.
fn find_comma(tokens: &[Node]) -> (at: usize)
    ensures
        at == comma_from(forest(tokens@), 0),
        at <= tokens.len(),
{
    let mut at: usize = 0;
    while at < tokens.len()
        invariant
            at <= tokens.len(),
            comma_from(forest(tokens@), 0) == comma_from(forest(tokens@), at as int),
        decreases tokens.len() - at,
    {
        if is_comma(&tokens[at]) {
            return at;
        }
        at += 1;
    }
    at
}

/// The full form: `input` reads `address , body`. Sets the location tags in
/// the parts of the body that its directives mark to the tag of the node
/// addressed, and returns the body.
///
/// `call_site` is the location of the invocation, at which an input that
/// ends too early is reported; `mixed_site` is the location that the address
/// `#mixed` stands for.
pub fn set_span(input: &[Node], call_site: Tag, mixed_site: Tag) -> (r: Result<Vec<Node>, Error>)
    ensures
        match r {
            Ok(out) => set_span_of(forest(input@), call_site, mixed_site) == Ok::<
                Seq<Tree>,
                Failure,
            >(forest(out@)),
            Err(e) => set_span_of(forest(input@), call_site, mixed_site) == Err::<
                Seq<Tree>,
                Failure,
            >(e@),
        },
{
    let comma = find_comma(input);
    if comma >= input.len() {
        return Err(Error::UnexpectedEndOfInput { expected: Expected::Comma, anchor: call_site });
    }
    proof {
        lemma_forest_subrange(input@, 0, comma as int);
        lemma_forest_subrange(input@, comma + 1, input@.len() as int);
    }
    let (target, _) = parse_address(slice_subrange(input, 0, comma), call_site, mixed_site)?;
    let body = extract_body(slice_subrange(input, comma + 1, input.len()), call_site)?;
    dispatch(body, &target)
}

/// The short form: `input` reads `base [i]... , {...}`, with the comma left
/// to choice. Returns the children of the group, every location tag in them
/// set to the tag of the node that the selectors lead to from the base.
///
/// `call_site` is the location of the invocation, at which an input that
/// ends too early is reported.
pub fn set_span_all(input: &[Node], call_site: Tag) -> (r: Result<Vec<Node>, Error>)
    ensures
        match r {
            Ok(out) => set_span_all_of(forest(input@), call_site) == Ok::<Seq<Tree>, Failure>(
                forest(out@),
            ),
            Err(e) => set_span_all_of(forest(input@), call_site) == Err::<Seq<Tree>, Failure>(
                e@,
            ),
        },
{
    if input.len() == 0 {
        return Err(Error::UnexpectedEndOfInput { expected: Expected::Token, anchor: call_site });
    }
    let (target, end) = navigate(&input[0], input, 1)?;
    let block: usize = if end < input.len() && is_comma(&input[end]) {
        end + 1
    } else {
        end
    };
    stamp_block(input, block, target.tag(), call_site)
}

} // verus!

//! The span-stamping walker: overwrite every location tag of a subtree.

use vstd::prelude::*;
use crate::error::{Error, Expected, Failure};
use crate::tree::{forest, lemma_children_view, Node, Tag, Tree};
use crate::walk::retag;

verus! {

/// `t` with every location tag, at every depth, replaced by `tag`.
pub open spec fn stamped(t: Tree, tag: Tag) -> Tree
    decreases t,
{
    match t {
        Tree::Ident { name, .. } => Tree::Ident { name, tag },
        Tree::Punct { ch, joint, .. } => Tree::Punct { ch, joint, tag },
        Tree::Literal { text, .. } => Tree::Literal { text, tag },
        Tree::Group { delimiter, children, .. } => Tree::Group {
            delimiter,
            children: Seq::new(
                children.len(),
                |i: int|
                    if 0 <= i < children.len() {
                        stamped(children[i], tag)
                    } else {
                        arbitrary()
                    },
            ),
            tag,
            close_tag: tag,
        },
    }
}

/// Each tree of `ts` stamped with `tag`, in order.
pub open spec fn stamped_all(ts: Seq<Tree>, tag: Tag) -> Seq<Tree> {
    Seq::new(ts.len(), |i: int| stamped(ts[i], tag))
}

/// `a` and `b` have the same shape and the same token content; only their
/// location tags may differ.
pub open spec fn alike(a: Tree, b: Tree) -> bool
    decreases a,
{
    match a {
        Tree::Ident { name, .. } => b matches Tree::Ident { name: other, .. } && other == name,
        Tree::Punct { ch, joint, .. } => b matches Tree::Punct { ch: c, joint: j, .. } && c == ch
            && j == joint,
        Tree::Literal { text, .. } => b matches Tree::Literal { text: other, .. } && other == text,
        Tree::Group { delimiter, children, .. } => {
            &&& b matches Tree::Group { delimiter: d, children: others, .. }
            &&& d == delimiter
            &&& others.len() == children.len()
            &&& forall|i: int| 0 <= i < children.len() ==> alike(children[i], #[trigger] others[i])
        },
    }
}

/// Every token and every group of `t`, at every depth, carries exactly `tag`
/// (a group also on its closing delimiter).
pub open spec fn uniform(t: Tree, tag: Tag) -> bool
    decreases t,
{
    match t {
        Tree::Group { children, tag: own, close_tag, .. } => {
            &&& own == tag
            &&& close_tag == tag
            &&& forall|i: int| 0 <= i < children.len() ==> uniform(#[trigger] children[i], tag)
        },
        _ => t.tag() == tag,
    }
}

/// Stamping keeps shape and content, and leaves no tag but `tag`.
pub proof fn lemma_stamped_alike_uniform(t: Tree, tag: Tag)
    ensures
        alike(t, stamped(t, tag)),
        uniform(stamped(t, tag), tag),
    decreases t,
{
    match t {
        Tree::Group { delimiter, children, .. } => {
            let out = stamped(t, tag);
            assert forall|i: int| 0 <= i < children.len() implies alike(
                children[i],
                #[trigger] out->children[i],
            ) && uniform(out->children[i], tag) by {
                lemma_stamped_alike_uniform(children[i], tag);
            }
        },
        _ => {},
    }
}

/// Shape, content and a single tag determine a tree: the stamped tree is the
/// only one that is like `t` and carries `tag` throughout.
pub proof fn lemma_stamped_unique(t: Tree, r: Tree, tag: Tag)
    requires
        alike(t, r),
        uniform(r, tag),
    ensures
        r == stamped(t, tag),
    decreases t,
{
    match t {
        Tree::Group { delimiter, children, .. } => {
            let out = stamped(t, tag);
            assert forall|i: int| 0 <= i < children.len() implies r->children[i]
                == out->children[i] by {
                lemma_stamped_unique(children[i], r->children[i], tag);
            }
            assert(r->children =~= out->children);
        },
        _ => {},
    }
}

/// Stamping again leaves only the last tag: what was stamped before does
/// not show.
pub proof fn lemma_stamped_twice(t: Tree, first: Tag, last: Tag)
    ensures
        stamped(stamped(t, first), last) == stamped(t, last),
    decreases t,
{
    lemma_stamped_alike_uniform(t, last);
    lemma_stamped_alike_uniform(t, first);
    lemma_stamped_alike_uniform(stamped(t, first), last);
    lemma_alike_chain(t, stamped(t, first), stamped(stamped(t, first), last));
    lemma_stamped_unique(t, stamped(stamped(t, first), last), last);
}

/// Likeness carries over: what is like a tree that is like `a` is like `a`.
pub proof fn lemma_alike_chain(a: Tree, b: Tree, c: Tree)
    requires
        alike(a, b),
        alike(b, c),
    ensures
        alike(a, c),
    decreases a,
{
    match a {
        Tree::Group { children, .. } => {
            assert forall|i: int| 0 <= i < children.len() implies alike(
                children[i],
                #[trigger] c->children[i],
            ) by {
                assert(alike(children[i], b->children[i]));
                assert(alike(b->children[i], c->children[i]));
                lemma_alike_chain(children[i], b->children[i], c->children[i]);
            }
        },
        _ => {},
    }
}

/// The children of a stamped group are the stamped children of the group.
pub proof fn lemma_stamped_children(t: Tree, tag: Tag)
    requires
        t is Group,
    ensures
        stamped(t, tag)->children == stamped_all(t->children, tag),
{
    assert(stamped(t, tag)->children =~= stamped_all(t->children, tag));
}

/// A copy of `nodes` with every location tag, at every depth, replaced by
/// `tag`. Kinds, content, delimiters, order and nesting are kept.
///
/// The tree is walked with a list of the levels that are suspended, not by
/// recursion: the depth of nesting costs memory, but no stack.
pub fn stamp(nodes: &[Node], tag: Tag) -> (out: Vec<Node>)
    ensures
        forest(out@) == stamped_all(forest(nodes@), tag),
        out@.len() == nodes@.len(),
        forall|i: int| 0 <= i < nodes@.len() ==> alike(nodes@[i]@, #[trigger] out@[i]@),
        forall|i: int| 0 <= i < nodes@.len() ==> uniform(#[trigger] out@[i]@, tag),
{
    let out = retag(nodes, Some(tag));
    assert(forest(out@).len() == forest(nodes@).len());
    assert forall|i: int| 0 <= i < nodes@.len() implies alike(nodes@[i]@, #[trigger] out@[i]@)
        && uniform(out@[i]@, tag) by {
        lemma_stamped_alike_uniform(nodes@[i]@, tag);
        assert(forest(out@)[i] == stamped_all(forest(nodes@), tag)[i]);
    }
    out
}

/// A copy of `node` with every location tag replaced by `tag`.
pub fn stamp_node(node: &Node, tag: Tag) -> (out: Node)
    ensures
        out@ == stamped(node@, tag),
{
    match node {
        Node::Ident { name, .. } => Node::Ident { name: name.clone(), tag },
        Node::Punct { ch, joint, .. } => Node::Punct { ch: *ch, joint: *joint, tag },
        Node::Literal { text, .. } => Node::Literal { text: text.clone(), tag },
        Node::Group { delimiter, children, .. } => {
            let out = Node::Group {
                delimiter: *delimiter,
                children: stamp(children.as_slice(), tag),
                tag,
                close_tag: tag,
            };
            proof {
                lemma_children_view(node);
                lemma_children_view(&out);
                lemma_stamped_children(node@, tag);
            }
            out
        },
    }
}

/// The block that stands in `tokens` from position `pos` on, stamped: there
/// must be exactly one more token, a group of any delimiter, and the result
/// is its children stamped with `tag`. A missing group is reported at
/// `end_anchor`, any other fault at the token that is at fault.
pub open spec fn stamped_block(tokens: Seq<Tree>, pos: int, tag: Tag, end_anchor: Tag) -> Result<
    Seq<Tree>,
    Failure,
> {
    if pos < 0 || pos >= tokens.len() {
        Err(Failure::UnexpectedEndOfInput { expected: Expected::Group, anchor: end_anchor })
    } else if !(tokens[pos] is Group) {
        Err(Failure::UnexpectedToken { expected: Expected::Group, anchor: tokens[pos].tag() })
    } else if pos + 1 < tokens.len() {
        Err(
            Failure::UnexpectedToken {
                expected: Expected::EndOfInput,
                anchor: tokens[pos + 1].tag(),
            },
        )
    } else {
        Ok(stamped_all(tokens[pos]->children, tag))
    }
}

/// Stamps the block that stands in `tokens` from position `pos` on: the one
/// group that must follow there gives its children, stamped with `tag`.
pub fn stamp_block(tokens: &[Node], pos: usize, tag: Tag, end_anchor: Tag) -> (r: Result<
    Vec<Node>,
    Error,
>)
    ensures
        match r {
            Ok(out) => stamped_block(forest(tokens@), pos as int, tag, end_anchor) == Ok::<
                Seq<Tree>,
                Failure,
            >(forest(out@)),
            Err(e) => stamped_block(forest(tokens@), pos as int, tag, end_anchor) == Err::<
                Seq<Tree>,
                Failure,
            >(e@),
        },
{
    if pos >= tokens.len() {
        return Err(Error::UnexpectedEndOfInput { expected: Expected::Group, anchor: end_anchor });
    }
    match &tokens[pos] {
        Node::Group { children, .. } => {
            if tokens.len() - pos > 1 {
                return Err(
                    Error::UnexpectedToken {
                        expected: Expected::EndOfInput,
                        anchor: tokens[pos + 1].tag(),
                    },
                );
            }
            proof {
                lemma_children_view(&tokens[pos as int]);
            }
            Ok(stamp(children.as_slice(), tag))
        },
        other => Err(Error::UnexpectedToken { expected: Expected::Group, anchor: other.tag() }),
    }
}

} // verus!

//! The directive dispatcher: find the directives embedded in a body and put
//! what they expand to in their place.

use vstd::prelude::*;
use vstd::string::StringExecFns;
use crate::error::{Error, Failure};
use crate::navigate::{navigate, navigated};
use crate::stamp::{stamp, stamp_block, stamped_all, stamped_block};
use crate::text::same_text;
use crate::tree::{
    forest, lemma_children_view, lemma_forest_add, lemma_forest_push, lemma_node_count_step,
    node_count_from, Delimiter, Node, Tag, Tree,
};
use crate::walk::{
    behind_group, group_parts, lemma_suspended_pop, lemma_suspended_push, pending, suspended,
    Frame,
};

verus! {

/// The directives that a body may hold.
#[derive(Clone, Copy, Debug, PartialEq, Eq, Structural)]
pub enum Directive {
    /// `#set_span(...)`: stamp the argument's contents with the target's tag.
    SetSpan,
    /// `#set_index_span([i]... {...})`: descend from the target along the
    /// selectors, then stamp the block with the tag of the node reached.
    SetIndexSpan,
}

/// The directive that goes by `name`, if there is one.
pub open spec fn directive_named(name: Seq<char>) -> Option<Directive> {
    if name == "set_span"@ {
        Some(Directive::SetSpan)
    } else if name == "set_index_span"@ {
        Some(Directive::SetIndexSpan)
    } else {
        None
    }
}

/// A directive stands at position `i` of `ts`: the mark `#`, then a name,
/// then a group with a visible delimiter as its argument.
pub open spec fn directive_at(ts: Seq<Tree>, i: int) -> bool {
    &&& 0 <= i
    &&& i + 2 < ts.len()
    &&& ts[i].is_punct('#')
    &&& ts[i + 1] is Ident
    &&& ts[i + 2].is_solid_group()
}

/// What the directive `directive` expands to, given the children `items` of
/// its argument group, the location `arg_tag` of that group, and the target.
pub open spec fn expanded(directive: Directive, items: Seq<Tree>, arg_tag: Tag, target: Tree)
    -> Result<Seq<Tree>, Failure> {
    match directive {
        Directive::SetSpan => Ok(stamped_all(items, target.tag())),
        Directive::SetIndexSpan => match navigated(target, items, 0) {
            Err(e) => Err(e),
            Ok((refined, pos)) => stamped_block(items, pos, refined.tag(), arg_tag),
        },
    }
}

/// What the directive that stands at position `i` of `ts` expands to. A
/// name that is no directive's is an error, anchored at the name.
pub open spec fn expansion_at(ts: Seq<Tree>, i: int, target: Tree) -> Result<Seq<Tree>, Failure>
    recommends
        directive_at(ts, i),
{
    match directive_named(ts[i + 1]->name) {
        None => Err(
            Failure::UnrecognizedDirective { name: ts[i + 1]->name, anchor: ts[i + 1].tag() },
        ),
        Some(directive) => expanded(
            directive,
            ts[i + 2]->children,
            ts[i + 2]->Group_tag,
            target,
        ),
    }
}

/// `first`, then `rest`; the first error, should there be one.
pub open spec fn joined(first: Result<Seq<Tree>, Failure>, rest: Result<Seq<Tree>, Failure>)
    -> Result<Seq<Tree>, Failure> {
    match first {
        Err(e) => Err(e),
        Ok(head) => match rest {
            Err(e) => Err(e),
            Ok(tail) => Ok(head + tail),
        },
    }
}

/// The tokens of `body` from position `from` on, with every directive
/// replaced by its expansion.
///
/// The tokens are taken from left to right. Where a directive stands, its
/// three tokens give way to its expansion, and its argument is not searched
/// for further directives. Any other group is kept, with its own tags, around
/// its children treated in the same way; any other token is kept as it is.
/// The first error in this order is the result.
pub open spec fn dispatched_from(body: Seq<Tree>, from: int, target: Tree) -> Result<
    Seq<Tree>,
    Failure,
>
    decreases body, body.len() - from,
{
    if from < 0 || from >= body.len() {
        Ok(Seq::empty())
    } else if directive_at(body, from) {
        joined(expansion_at(body, from, target), dispatched_from(body, from + 3, target))
    } else {
        let head = match body[from] {
            Tree::Group { delimiter, children, tag, close_tag } => match dispatched_from(
                children,
                0,
                target,
            ) {
                Err(e) => Err(e),
                Ok(inner) => Ok(seq![Tree::Group { delimiter, children: inner, tag, close_tag }]),
            },
            token => Ok(seq![token]),
        };
        joined(head, dispatched_from(body, from + 1, target))
    }
}

/// `body` with every directive replaced by its expansion.
pub open spec fn dispatched(body: Seq<Tree>, target: Tree) -> Result<Seq<Tree>, Failure> {
    dispatched_from(body, 0, target)
}

/// No directive stands in `ts`, at any depth.
pub open spec fn free_of_directives(ts: Seq<Tree>) -> bool
    decreases ts,
{
    forall|i: int|
        0 <= i < ts.len() ==> {
            &&& !directive_at(ts, i)
            &&& (#[trigger] ts[i] matches Tree::Group { children, .. } ==> free_of_directives(
                children,
            ))
        }
}

/// Without a directive from `from` on, what is left of the body comes back
/// as it is.
proof fn lemma_free_rest_unchanged(body: Seq<Tree>, from: int, target: Tree)
    requires
        free_of_directives(body),
        0 <= from <= body.len(),
    ensures
        dispatched_from(body, from, target) == Ok::<Seq<Tree>, Failure>(body.skip(from)),
    decreases body, body.len() - from,
{
    if from < body.len() {
        assert(!directive_at(body, from));
        lemma_free_rest_unchanged(body, from + 1, target);
        match body[from] {
            Tree::Group { delimiter, children, tag, close_tag } => {
                lemma_free_rest_unchanged(children, 0, target);
                assert(children.skip(0) =~= children);
            },
            _ => {},
        }
        assert(seq![body[from]] + body.skip(from + 1) =~= body.skip(from));
    } else {
        assert(body.skip(from) =~= Seq::<Tree>::empty());
    }
}

/// A body that holds no directive, at any depth, passes through unchanged:
/// token for token, with every tag as it was, whatever the target.
pub proof fn lemma_plain_body_unchanged(body: Seq<Tree>, target: Tree)
    requires
        free_of_directives(body),
    ensures
        dispatched(body, target) == Ok::<Seq<Tree>, Failure>(body),
{
    lemma_free_rest_unchanged(body, 0, target);
    assert(body.skip(0) =~= body);
}

/// What is made of a body from a position on depends on nothing before
/// that position.
proof fn lemma_dispatched_skip(body: Seq<Tree>, from: int, target: Tree)
    requires
        0 <= from <= body.len(),
    ensures
        dispatched_from(body, from, target) == dispatched(body.skip(from), target),
    decreases body.len() - from,
{
    let rest = body.skip(from);
    if from < body.len() {
        assert(rest[0] == body[from]);
        assert(directive_at(body, from) == directive_at(rest, 0)) by {
            if from + 2 < body.len() {
                assert(rest[1] == body[from + 1]);
                assert(rest[2] == body[from + 2]);
            }
        }
        if directive_at(body, from) {
            assert(rest[1] == body[from + 1]);
            assert(rest[2] == body[from + 2]);
            lemma_dispatched_skip(body, from + 3, target);
            lemma_dispatched_skip(rest, 3, target);
            assert(rest.skip(3) =~= body.skip(from + 3));
        } else {
            lemma_dispatched_skip(body, from + 1, target);
            lemma_dispatched_skip(rest, 1, target);
            assert(rest.skip(1) =~= body.skip(from + 1));
        }
    }
}

/// Tokens without a directive, before whatever follows them, pass through
/// unchanged, and what follows is treated as if it stood alone.
proof fn lemma_plain_prefix(pre: Seq<Tree>, rest: Seq<Tree>, from: int, target: Tree)
    requires
        free_of_directives(pre),
        0 <= from <= pre.len(),
        rest.len() == 0 || !(rest[0] is Ident || rest[0] is Group),
    ensures
        dispatched_from(pre + rest, from, target) == joined(
            Ok(pre.skip(from)),
            dispatched(rest, target),
        ),
    decreases pre.len() - from,
{
    let body = pre + rest;
    if from < pre.len() {
        assert(body[from] == pre[from]);
        assert(!directive_at(pre, from));
        assert(!directive_at(body, from)) by {
            if from + 2 < body.len() {
                if from + 2 < pre.len() {
                    assert(body[from + 1] == pre[from + 1]);
                    assert(body[from + 2] == pre[from + 2]);
                } else if from + 1 < pre.len() {
                    assert(body[from + 2] == rest[0]);
                } else {
                    assert(body[from + 1] == rest[0]);
                }
            }
        }
        lemma_plain_prefix(pre, rest, from + 1, target);
        match pre[from] {
            Tree::Group { children, .. } => {
                lemma_plain_body_unchanged(children, target);
            },
            _ => {},
        }
        lemma_joined_piece(seq![pre[from]], pre.skip(from + 1), dispatched(rest, target));
        assert(seq![pre[from]] + pre.skip(from + 1) =~= pre.skip(from));
    } else {
        assert(pre.skip(from) =~= Seq::<Tree>::empty());
        lemma_dispatched_skip(body, from, target);
        assert(body.skip(from) =~= rest);
        lemma_joined_nothing(Seq::empty(), dispatched(rest, target));
    }
}

/// A directive is expanded in place: with no other directive before or
/// after it, the tokens before it and the tokens after it come back
/// unchanged, in their order, and its expansion stands between them.
pub proof fn lemma_directive_in_place(
    pre: Seq<Tree>,
    call: Seq<Tree>,
    post: Seq<Tree>,
    target: Tree,
)
    requires
        free_of_directives(pre),
        free_of_directives(post),
        call.len() == 3,
        directive_at(call, 0),
    ensures
        dispatched(pre + call + post, target) == joined(
            Ok(pre),
            joined(expansion_at(call, 0, target), Ok(post)),
        ),
{
    let rest = call + post;
    assert(pre + call + post =~= pre + rest);
    assert(rest[0] == call[0]);
    lemma_plain_prefix(pre, rest, 0, target);
    assert(pre.skip(0) =~= pre);
    assert(directive_at(rest, 0)) by {
        assert(rest[1] == call[1]);
        assert(rest[2] == call[2]);
    }
    assert(rest[1] == call[1]);
    assert(rest[2] == call[2]);
    lemma_dispatched_skip(rest, 3, target);
    assert(rest.skip(3) =~= post);
    lemma_plain_body_unchanged(post, target);
}

/// The directive that goes by `name`, if there is one.
pub fn recognize(name: &str) -> (found: Option<Directive>)
    ensures
        found == directive_named(name@),
{
    if same_text(name, "set_span") {
        Some(Directive::SetSpan)
    } else if same_text(name, "set_index_span") {
        Some(Directive::SetIndexSpan)
    } else {
        None
    }
}

/// The parts of the directive that stands at position `i` of `body`, if one
/// does: its name and the name's location, the children of its argument
/// group and that group's location.
fn directive_parts<'a>(body: &'a [Node], i: usize) -> (parts: Option<
    (&'a str, Tag, &'a [Node], Tag),
>)
    ensures
        parts is Some <==> directive_at(forest(body@), i as int),
        parts matches Some((name, name_tag, items, arg_tag)) ==> {
            &&& name@ == forest(body@)[i + 1]->name
            &&& name_tag == forest(body@)[i + 1].tag()
            &&& forest(items@) == forest(body@)[i + 2]->children
            &&& arg_tag == forest(body@)[i + 2]->Group_tag
        },
{
    if i >= body.len() || body.len() - i <= 2 {
        return None;
    }
    match &body[i] {
        Node::Punct { ch, .. } => {
            if *ch != '#' {
                return None;
            }
        },
        _ => {
            return None;
        },
    }
    match &body[i + 1] {
        Node::Ident { name, tag: name_tag } => match &body[i + 2] {
            Node::Group { delimiter, children, tag, .. } => {
                proof {
                    lemma_children_view(&body[i + 2]);
                }
                match delimiter {
                    Delimiter::Invisible => None,
                    _ => Some((name.as_str(), *name_tag, children.as_slice(), *tag)),
                }
            },
            _ => None,
        },
        _ => None,
    }
}

/// Expands the directive `directive`, given the children `items` of its
/// argument group, the location `arg_tag` of that group, and the target.
pub fn expand(directive: Directive, items: &[Node], arg_tag: Tag, target: &Node) -> (r: Result<
    Vec<Node>,
    Error,
>)
    ensures
        match r {
            Ok(out) => expanded(directive, forest(items@), arg_tag, target@) == Ok::<
                Seq<Tree>,
                Failure,
            >(forest(out@)),
            Err(e) => expanded(directive, forest(items@), arg_tag, target@) == Err::<
                Seq<Tree>,
                Failure,
            >(e@),
        },
{
    match directive {
        Directive::SetSpan => Ok(stamp(items, target.tag())),
        Directive::SetIndexSpan => {
            let (refined, pos) = navigate(target, items, 0)?;
            stamp_block(items, pos, refined.tag(), arg_tag)
        },
    }
}

/// The group that `frame` is suspended behind, around `inner` in place of
/// its children, as the one tree of a sequence; the error of `inner`, should
/// it be one.
spec fn regrouped(frame: Frame, inner: Result<Seq<Tree>, Failure>) -> Result<Seq<Tree>, Failure> {
    match inner {
        Err(e) => Err(e),
        Ok(children) => Ok(
            seq![
                Tree::Group {
                    delimiter: frame.delimiter,
                    children,
                    tag: frame.tag,
                    close_tag: frame.close_tag,
                },
            ],
        ),
    }
}

/// What the suspended frames make of `inner`, the outcome of the group that
/// the last of them is suspended in: each frame, from the last to the first,
/// sets the outcome into its group, between what it has done and what is
/// left for it to do.
spec fn resumed(frames: Seq<Frame>, inner: Result<Seq<Tree>, Failure>, target: Tree) -> Result<
    Seq<Tree>,
    Failure,
>
    decreases frames.len(),
{
    if frames.len() == 0 {
        inner
    } else {
        let frame = frames.last();
        let ts = forest(frame.siblings@);
        resumed(
            frames.drop_last(),
            joined(
                Ok(forest(frame.done@)),
                joined(regrouped(frame, inner), dispatched_from(ts, frame.next as int, target)),
            ),
            target,
        )
    }
}

/// An error inside is the error of the whole.
proof fn lemma_resumed_error(frames: Seq<Frame>, e: Failure, target: Tree)
    ensures
        resumed(frames, Err(e), target) == Err::<Seq<Tree>, Failure>(e),
    decreases frames.len(),
{
    if frames.len() > 0 {
        lemma_resumed_error(frames.drop_last(), e, target);
    }
}

/// What has been done, then a piece, then the rest: the piece may as well
/// count as done.
proof fn lemma_joined_piece(
    done: Seq<Tree>,
    piece: Seq<Tree>,
    rest: Result<Seq<Tree>, Failure>,
)
    ensures
        joined(Ok(done), joined(Ok(piece), rest)) == joined(Ok(done + piece), rest),
{
    match rest {
        Ok(tail) => {
            assert(done + (piece + tail) =~= (done + piece) + tail);
        },
        Err(_) => {},
    }
}

/// Nothing done and nothing left to do change no outcome.
proof fn lemma_joined_nothing(done: Seq<Tree>, rest: Result<Seq<Tree>, Failure>)
    ensures
        joined(Ok(Seq::empty()), rest) == rest,
        joined(Ok(done), Ok(Seq::empty())) == Ok::<Seq<Tree>, Failure>(done),
{
    match rest {
        Ok(tail) => {
            assert(Seq::<Tree>::empty() + tail =~= tail);
        },
        Err(_) => {},
    }
    assert(done + Seq::<Tree>::empty() =~= done);
}

/// Suspending a frame behind the group at the place before its `next`, to
/// scan the children of that group, changes nothing in the outcome.
proof fn lemma_suspend(frames: Seq<Frame>, frame: Frame, target: Tree)
    requires
        suspended(frames),
        behind_group(frame),
        !directive_at(forest(frame.siblings@), frame.next - 1),
    ensures
        suspended(frames.push(frame)),
        resumed(
            frames.push(frame),
            dispatched_from(forest(frame.siblings@)[frame.next - 1]->children, 0, target),
            target,
        ) == resumed(
            frames,
            joined(
                Ok(forest(frame.done@)),
                dispatched_from(forest(frame.siblings@), frame.next - 1, target),
            ),
            target,
        ),
        pending(frames.push(frame)) == pending(frames) + node_count_from(
            forest(frame.siblings@),
            frame.next as int,
        ),
{
    lemma_suspended_push(frames, frame);
}

/// Resuming the last frame: its group, around what the scan of the children
/// has come to, counts as done.
proof fn lemma_resume(frames: Seq<Frame>, inner: Seq<Tree>, target: Tree)
    requires
        frames.len() > 0,
        suspended(frames),
    ensures
        suspended(frames.drop_last()),
        ({
            let frame = frames.last();
            let ts = forest(frame.siblings@);
            &&& 1 <= frame.next <= frame.siblings@.len()
            &&& resumed(frames, Ok(inner), target) == resumed(
                frames.drop_last(),
                joined(
                    Ok(
                        forest(frame.done@).push(
                            Tree::Group {
                                delimiter: frame.delimiter,
                                children: inner,
                                tag: frame.tag,
                                close_tag: frame.close_tag,
                            },
                        ),
                    ),
                    dispatched_from(ts, frame.next as int, target),
                ),
                target,
            )
            &&& pending(frames) == pending(frames.drop_last()) + node_count_from(
                ts,
                frame.next as int,
            )
        }),
{
    let frame = frames.last();
    let ts = forest(frame.siblings@);
    lemma_suspended_pop(frames);
    let group = Tree::Group {
        delimiter: frame.delimiter,
        children: inner,
        tag: frame.tag,
        close_tag: frame.close_tag,
    };
    lemma_joined_piece(
        forest(frame.done@),
        seq![group],
        dispatched_from(ts, frame.next as int, target),
    );
    assert(forest(frame.done@) + seq![group] =~= forest(frame.done@).push(group));
}

/// Replaces every directive in `body` by what it expands to for `target`.
///
/// All other tokens are passed through in their order, with their tags; a
/// body without a directive comes back as it is. Directives are found at any
/// depth of nesting, but not inside the argument of another directive, and
/// every one that is found is expanded. The first error, from left to right,
/// ends the work: that of a directive's expansion, or the name of a
/// directive that is not known.
///
/// The body is scanned with a list of the levels that are suspended, not by
/// recursion: the depth of nesting costs memory, but no stack.
pub fn dispatch<'a>(body: &'a [Node], target: &Node) -> (r: Result<Vec<Node>, Error>)
    ensures
        match r {
            Ok(out) => dispatched(forest(body@), target@) == Ok::<Seq<Tree>, Failure>(
                forest(out@),
            ),
            Err(e) => dispatched(forest(body@), target@) == Err::<Seq<Tree>, Failure>(e@),
        },
{
    let mut outer: Vec<Frame<'a>> = Vec::new();
    let mut siblings: &'a [Node] = body;
    let mut next: usize = 0;
    let mut done: Vec<Node> = Vec::new();
    proof {
        lemma_joined_nothing(forest(done@), dispatched_from(forest(body@), 0, target@));
        assert(forest(done@) =~= Seq::<Tree>::empty());
    }
    loop
        invariant
            next <= siblings@.len(),
            suspended(outer@),
            dispatched(forest(body@), target@) == resumed(
                outer@,
                joined(Ok(forest(done@)), dispatched_from(forest(siblings@), next as int, target@)),
                target@,
            ),
        decreases pending(outer@) + node_count_from(forest(siblings@), next as int), outer@.len(),
    {
        let ghost ts = forest(siblings@);
        let ghost frames = outer@;
        let ghost rest = dispatched_from(ts, next as int, target@);
        if next >= siblings.len() {
            proof {
                lemma_joined_nothing(forest(done@), rest);
            }
            match outer.pop() {
                None => {
                    return Ok(done);
                },
                Some(frame) => {
                    proof {
                        lemma_resume(frames, forest(done@), target@);
                        assert(outer@ =~= frames.drop_last());
                        assert(frame == frames.last());
                    }
                    let group = Node::group(frame.delimiter, done, frame.tag, frame.close_tag);
                    proof {
                        lemma_forest_push(frame.done@, group);
                    }
                    siblings = frame.siblings;
                    next = frame.next;
                    done = frame.done;
                    done.push(group);
                },
            }
        } else {
            proof {
                lemma_node_count_step(ts, next as int);
            }
            match directive_parts(siblings, next) {
                Some((name, name_tag, items, arg_tag)) => {
                    let expansion = match recognize(name) {
                        Some(directive) => expand(directive, items, arg_tag, target),
                        None => Err(
                            Error::UnrecognizedDirective {
                                name: String::from_str(name),
                                anchor: name_tag,
                            },
                        ),
                    };
                    match expansion {
                        Err(e) => {
                            proof {
                                lemma_resumed_error(frames, e@, target@);
                            }
                            return Err(e);
                        },
                        Ok(mut piece) => {
                            proof {
                                lemma_forest_add(done@, piece@);
                                lemma_joined_piece(
                                    forest(done@),
                                    forest(piece@),
                                    dispatched_from(ts, next + 3, target@),
                                );
                                lemma_node_count_step(ts, next + 1);
                                lemma_node_count_step(ts, next + 2);
                            }
                            done.append(&mut piece);
                            next += 3;
                        },
                    }
                },
                None => match group_parts(&siblings[next]) {
                    Some((children, delimiter, tag, close_tag)) => {
                        let frame = Frame {
                            siblings,
                            next: next + 1,
                            done,
                            delimiter,
                            tag,
                            close_tag,
                        };
                        proof {
                            lemma_suspend(frames, frame, target@);
                            lemma_joined_nothing(
                                Seq::empty(),
                                dispatched_from(forest(children@), 0, target@),
                            );
                        }
                        outer.push(frame);
                        siblings = children;
                        next = 0;
                        done = Vec::new();
                        assert(forest(done@) =~= Seq::<Tree>::empty());
                    },
                    None => {
                        let token = siblings[next].clone();
                        proof {
                            lemma_forest_push(done@, token);
                            lemma_joined_piece(
                                forest(done@),
                                seq![token@],
                                dispatched_from(ts, next + 1, target@),
                            );
                            assert(forest(done@) + seq![token@] =~= forest(done@).push(token@));
                        }
                        done.push(token);
                        next += 1;
                    },
                },
            }
        }
    }
}

} // verus!

//! Walking a token tree without recursion: the levels that are suspended
//! while a group below them is walked.

use vstd::prelude::*;
use crate::stamp::{lemma_stamped_children, stamped, stamped_all};
use crate::tree::{
    forest, lemma_children_view, lemma_forest_push, lemma_node_count_step, node_count_from,
    Delimiter, Node, Tag, Tree,
};

verus! {

/// One level of a walk that is suspended behind a group: the nodes of the
/// level, the position after that group, what the nodes before the group
/// have come to, and the delimiter and the two tags of the group.
pub struct Frame<'a> {
    pub siblings: &'a [Node],
    pub next: usize,
    pub done: Vec<Node>,
    pub delimiter: Delimiter,
    pub tag: Tag,
    pub close_tag: Tag,
}

/// `frame` stands behind a group of its level, and holds the delimiter and
/// the tags of that group.
pub open spec fn behind_group(frame: Frame) -> bool {
    let ts = forest(frame.siblings@);
    &&& 1 <= frame.next <= ts.len()
    &&& ts[frame.next - 1] is Group
    &&& ts[frame.next - 1]->delimiter == frame.delimiter
    &&& ts[frame.next - 1]->Group_tag == frame.tag
    &&& ts[frame.next - 1]->close_tag == frame.close_tag
}

/// Every frame is suspended behind a group of its level.
pub open spec fn suspended(frames: Seq<Frame>) -> bool {
    forall|k: int| 0 <= k < frames.len() ==> behind_group(#[trigger] frames[k])
}

/// The number of nodes that the suspended frames have yet to take. With the
/// nodes left on the level that is walked, it bounds the steps of the walk.
pub open spec fn pending(frames: Seq<Frame>) -> nat
    decreases frames.len(),
{
    if frames.len() == 0 {
        0
    } else {
        pending(frames.drop_last()) + node_count_from(
            forest(frames.last().siblings@),
            frames.last().next as int,
        )
    }
}

/// One more frame, itself suspended behind a group, keeps the frames
/// suspended, and adds what it has yet to take.
pub proof fn lemma_suspended_push(frames: Seq<Frame>, frame: Frame)
    requires
        suspended(frames),
        behind_group(frame),
    ensures
        suspended(frames.push(frame)),
        frames.push(frame).drop_last() == frames,
        frames.push(frame).last() == frame,
        pending(frames.push(frame)) == pending(frames) + node_count_from(
            forest(frame.siblings@),
            frame.next as int,
        ),
{
    let longer = frames.push(frame);
    assert(longer.drop_last() =~= frames);
    assert forall|k: int| 0 <= k < longer.len() implies behind_group(#[trigger] longer[k]) by {
        if k < frames.len() {
            assert(longer[k] == frames[k]);
        }
    }
}

/// Without their last frame the frames stay suspended; the last one stands
/// behind a group, and what it has yet to take is no longer pending.
pub proof fn lemma_suspended_pop(frames: Seq<Frame>)
    requires
        frames.len() > 0,
        suspended(frames),
    ensures
        suspended(frames.drop_last()),
        behind_group(frames.last()),
        pending(frames) == pending(frames.drop_last()) + node_count_from(
            forest(frames.last().siblings@),
            frames.last().next as int,
        ),
{
    let shorter = frames.drop_last();
    assert(frames[frames.len() - 1] == frames.last());
    assert forall|k: int| 0 <= k < shorter.len() implies behind_group(#[trigger] shorter[k]) by {
        assert(shorter[k] == frames[k]);
    }
}

/// The children of `node`, its delimiter and its two tags, if it is a
/// group.
pub fn group_parts<'a>(node: &'a Node) -> (parts: Option<(&'a [Node], Delimiter, Tag, Tag)>)
    ensures
        parts is Some <==> node@ is Group,
        parts matches Some((children, delimiter, tag, close_tag)) ==> {
            &&& forest(children@) == node@->children
            &&& delimiter == node@->delimiter
            &&& tag == node@->Group_tag
            &&& close_tag == node@->close_tag
        },
{
    match node {
        Node::Group { delimiter, children, tag, close_tag } => {
            proof {
                lemma_children_view(node);
            }
            Some((children.as_slice(), *delimiter, *tag, *close_tag))
        },
        _ => None,
    }
}

/// `own`, or the tag of `choice` in its place, if there is one.
pub open spec fn chosen(own: Tag, choice: Option<Tag>) -> Tag {
    match choice {
        Some(tag) => tag,
        None => own,
    }
}

/// `t` stamped with the tag of `choice`, if there is one; `t` itself
/// without one.
pub open spec fn retagged(t: Tree, choice: Option<Tag>) -> Tree {
    match choice {
        Some(tag) => stamped(t, tag),
        None => t,
    }
}

/// Each tree of `ts` retagged, in order.
pub open spec fn retagged_all(ts: Seq<Tree>, choice: Option<Tag>) -> Seq<Tree> {
    match choice {
        Some(tag) => stamped_all(ts, tag),
        None => ts,
    }
}

/// What the suspended frames make of `inner`, the retagged children of the
/// group that the last of them is suspended behind: each frame, from the
/// last to the first, sets them into its group, between what it has done and
/// the retagged copies of what is left for it.
spec fn resumed(frames: Seq<Frame>, inner: Seq<Tree>, choice: Option<Tag>) -> Seq<Tree>
    decreases frames.len(),
{
    if frames.len() == 0 {
        inner
    } else {
        let frame = frames.last();
        let ts = forest(frame.siblings@);
        resumed(
            frames.drop_last(),
            forest(frame.done@).push(
                Tree::Group {
                    delimiter: frame.delimiter,
                    children: inner,
                    tag: chosen(frame.tag, choice),
                    close_tag: chosen(frame.close_tag, choice),
                },
            ) + retagged_all(ts.skip(frame.next as int), choice),
            choice,
        )
    }
}

/// The retagged copies of the trees from `next` on are the retagged copy of
/// the tree at `next` and those of the trees after it; and a retagged group
/// is the group around its retagged children.
proof fn lemma_retagged_step(ts: Seq<Tree>, next: int, choice: Option<Tag>)
    requires
        0 <= next < ts.len(),
    ensures
        retagged_all(ts.skip(next), choice) == seq![retagged(ts[next], choice)] + retagged_all(
            ts.skip(next + 1),
            choice,
        ),
        ts[next] matches Tree::Group { delimiter, children, tag, close_tag } ==> retagged(
            ts[next],
            choice,
        ) == (Tree::Group {
            delimiter,
            children: retagged_all(children, choice),
            tag: chosen(tag, choice),
            close_tag: chosen(close_tag, choice),
        }),
{
    assert(retagged_all(ts.skip(next), choice) =~= seq![retagged(ts[next], choice)] + retagged_all(
        ts.skip(next + 1),
        choice,
    ));
    if ts[next] is Group && choice is Some {
        lemma_stamped_children(ts[next], choice->Some_0);
    }
}

/// A copy of the token `node`, retagged; `None` for a group.
fn retag_token(node: &Node, choice: Option<Tag>) -> (out: Option<Node>)
    ensures
        out is None <==> node@ is Group,
        out matches Some(copy) ==> copy@ == retagged(node@, choice),
{
    match node {
        Node::Ident { name, tag } => Some(
            Node::Ident { name: name.clone(), tag: choose_tag(*tag, choice) },
        ),
        Node::Punct { ch, joint, tag } => Some(
            Node::Punct { ch: *ch, joint: *joint, tag: choose_tag(*tag, choice) },
        ),
        Node::Literal { text, tag } => Some(
            Node::Literal { text: text.clone(), tag: choose_tag(*tag, choice) },
        ),
        Node::Group { .. } => None,
    }
}

/// `own`, or the tag of `choice` in its place, if there is one.
fn choose_tag(own: Tag, choice: Option<Tag>) -> (tag: Tag)
    ensures
        tag == chosen(own, choice),
{
    match choice {
        Some(tag) => tag,
        None => own,
    }
}

/// A copy of `nodes`, every location tag at every depth replaced by the tag
/// of `choice`, if there is one; a plain copy without one.
///
/// The tree is walked with a list of the levels that are suspended, not by
/// recursion: the depth of nesting costs memory, but no stack.
pub fn retag<'a>(nodes: &'a [Node], choice: Option<Tag>) -> (out: Vec<Node>)
    ensures
        forest(out@) == retagged_all(forest(nodes@), choice),
{
    let mut outer: Vec<Frame<'a>> = Vec::new();
    let mut siblings: &'a [Node] = nodes;
    let mut next: usize = 0;
    let mut done: Vec<Node> = Vec::new();
    proof {
        assert(forest(nodes@).skip(0) =~= forest(nodes@));
        assert(forest(done@) + retagged_all(forest(nodes@), choice) =~= retagged_all(
            forest(nodes@),
            choice,
        ));
    }
    loop
        invariant
            next <= siblings@.len(),
            suspended(outer@),
            retagged_all(forest(nodes@), choice) == resumed(
                outer@,
                forest(done@) + retagged_all(forest(siblings@).skip(next as int), choice),
                choice,
            ),
        ensures
            forest(done@) == retagged_all(forest(nodes@), choice),
        decreases pending(outer@) + node_count_from(forest(siblings@), next as int), outer@.len(),
    {
        let ghost ts = forest(siblings@);
        let ghost frames = outer@;
        if next >= siblings.len() {
            assert(forest(done@) + retagged_all(ts.skip(next as int), choice) =~= forest(done@));
            match outer.pop() {
                None => {
                    break ;
                },
                Some(frame) => {
                    proof {
                        lemma_suspended_pop(frames);
                        assert(outer@ =~= frames.drop_last());
                        assert(frame == frames.last());
                    }
                    let group = Node::group(
                        frame.delimiter,
                        done,
                        choose_tag(frame.tag, choice),
                        choose_tag(frame.close_tag, choice),
                    );
                    proof {
                        lemma_forest_push(frame.done@, group);
                    }
                    siblings = frame.siblings;
                    next = frame.next;
                    done = frame.done;
                    done.push(group);
                },
            }
        } else {
            proof {
                lemma_node_count_step(ts, next as int);
                lemma_retagged_step(ts, next as int, choice);
            }
            let ghost after = retagged_all(ts.skip(next + 1), choice);
            match retag_token(&siblings[next], choice) {
                Some(copy) => {
                    proof {
                        lemma_forest_push(done@, copy);
                        assert(forest(done@) + (seq![copy@] + after) =~= forest(done@).push(copy@)
                            + after);
                    }
                    done.push(copy);
                    next += 1;
                },
                None => {
                    let (children, delimiter, tag, close_tag) = group_parts(
                        &siblings[next],
                    ).unwrap();
                    let frame = Frame { siblings, next: next + 1, done, delimiter, tag, close_tag };
                    proof {
                        lemma_suspended_push(frames, frame);
                        let group = retagged(ts[next as int], choice);
                        assert(forest(done@) + (seq![group] + after) =~= forest(done@).push(group)
                            + after);
                        assert(forest(children@).skip(0) =~= forest(children@));
                        assert(Seq::<Tree>::empty() + retagged_all(forest(children@), choice)
                            =~= retagged_all(forest(children@), choice));
                    }
                    outer.push(frame);
                    siblings = children;
                    next = 0;
                    done = Vec::new();
                    assert(forest(done@) =~= Seq::<Tree>::empty());
                },
            }
        }
    }
    done
}

} // verus!

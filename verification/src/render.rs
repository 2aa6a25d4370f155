//! Plain-text rendering of token trees, for messages.

use vstd::prelude::*;
use vstd::string::StringExecFns;
use crate::text::push_char;
use crate::tree::{forest, lemma_node_count_step, node_count_from, Delimiter, Node, Tree};
use crate::walk::{
    group_parts, lemma_suspended_pop, lemma_suspended_push, pending, suspended, Frame,
};

verus! {

/// The opening mark of a delimiter; nothing for an invisible one.
pub open spec fn open_mark(d: Delimiter) -> Seq<char> {
    match d {
        Delimiter::Parenthesis => seq!['('],
        Delimiter::Brace => seq!['{'],
        Delimiter::Bracket => seq!['['],
        Delimiter::Invisible => Seq::empty(),
    }
}

/// The closing mark of a delimiter; nothing for an invisible one.
pub open spec fn close_mark(d: Delimiter) -> Seq<char> {
    match d {
        Delimiter::Parenthesis => seq![')'],
        Delimiter::Brace => seq!['}'],
        Delimiter::Bracket => seq![']'],
        Delimiter::Invisible => Seq::empty(),
    }
}

/// What stands between `ts[i]` and the node before it: nothing at the start
/// and after a joint punctuation mark, one space otherwise.
pub open spec fn gap(ts: Seq<Tree>, i: int) -> Seq<char> {
    if i <= 0 || i >= ts.len() {
        Seq::empty()
    } else if ts[i - 1] matches Tree::Punct { joint, .. } && joint {
        Seq::empty()
    } else {
        seq![' ']
    }
}

/// The text of `t`: a token as it is spelled, a group as its marks around
/// the text of its children.
pub open spec fn rendered(t: Tree) -> Seq<char>
    decreases t, 0int,
{
    match t {
        Tree::Ident { name, .. } => name,
        Tree::Punct { ch, .. } => seq![ch],
        Tree::Literal { text, .. } => text,
        Tree::Group { delimiter, children, .. } => open_mark(delimiter) + rendered_first(
            children,
            children.len() as int,
        ) + close_mark(delimiter),
    }
}

/// The text of the first `n` trees of `ts`.
pub open spec fn rendered_first(ts: Seq<Tree>, n: int) -> Seq<char>
    decreases ts, n,
{
    if n <= 0 || n > ts.len() {
        Seq::empty()
    } else {
        rendered_first(ts, n - 1) + gap(ts, n - 1) + rendered(ts[n - 1])
    }
}

/// The mark that stands on both sides of an invisible group in a message,
/// where its own delimiters would show nothing.
pub open spec fn invisible_mark() -> char {
    '\u{d8}'
}

/// The text of `t` for a message: as [`rendered`], but an invisible group
/// is set between two marks.
pub open spec fn rendered_marked(t: Tree) -> Seq<char> {
    if t matches Tree::Group { delimiter, .. } && delimiter == Delimiter::Invisible {
        seq![invisible_mark()] + rendered(t) + seq![invisible_mark()]
    } else {
        rendered(t)
    }
}

/// Appends the opening mark of `d` to `out`.
fn push_open(out: &mut String, d: Delimiter)
    ensures
        final(out)@ == old(out)@ + open_mark(d),
{
    match d {
        Delimiter::Parenthesis => push_char(out, '('),
        Delimiter::Brace => push_char(out, '{'),
        Delimiter::Bracket => push_char(out, '['),
        Delimiter::Invisible => {},
    }
    assert(out@ =~= old(out)@ + open_mark(d));
}

/// Appends the closing mark of `d` to `out`.
fn push_close(out: &mut String, d: Delimiter)
    ensures
        final(out)@ == old(out)@ + close_mark(d),
{
    match d {
        Delimiter::Parenthesis => push_char(out, ')'),
        Delimiter::Brace => push_char(out, '}'),
        Delimiter::Bracket => push_char(out, ']'),
        Delimiter::Invisible => {},
    }
    assert(out@ =~= old(out)@ + close_mark(d));
}

/// The text of the trees of `ts` from position `next` on, each after its
/// gap.
spec fn rendered_rest(ts: Seq<Tree>, next: int) -> Seq<char>
    decreases ts.len() - next,
{
    if next < 0 || next >= ts.len() {
        Seq::empty()
    } else {
        gap(ts, next) + rendered(ts[next]) + rendered_rest(ts, next + 1)
    }
}

/// The text of the first trees and the text of the rest are the text of
/// all.
proof fn lemma_rendered_rest(ts: Seq<Tree>, n: int)
    requires
        0 <= n <= ts.len(),
    ensures
        rendered_first(ts, n) + rendered_rest(ts, n) == rendered_first(ts, ts.len() as int),
    decreases ts.len() - n,
{
    if n < ts.len() {
        lemma_rendered_rest(ts, n + 1);
        assert(rendered_first(ts, n) + (gap(ts, n) + rendered(ts[n]) + rendered_rest(ts, n + 1))
            =~= (rendered_first(ts, n) + gap(ts, n) + rendered(ts[n])) + rendered_rest(
            ts,
            n + 1,
        ));
    } else {
        assert(rendered_first(ts, n) + rendered_rest(ts, n) =~= rendered_first(ts, n));
    }
}

/// The text of a group is its opening mark, the text of its children and
/// its closing mark.
proof fn lemma_rendered_group(t: Tree)
    requires
        t is Group,
    ensures
        rendered(t) == open_mark(t->delimiter) + rendered_rest(t->children, 0) + close_mark(
            t->delimiter,
        ),
{
    lemma_rendered_rest(t->children, 0);
    assert(Seq::<char>::empty() + rendered_rest(t->children, 0) =~= rendered_rest(
        t->children,
        0,
    ));
}

/// `text`, and then what the suspended frames have yet to add to it: each
/// frame, from the last to the first, the closing mark of the group that it
/// is suspended behind and the text of its nodes that are left.
spec fn completed(frames: Seq<Frame>, text: Seq<char>) -> Seq<char>
    decreases frames.len(),
{
    if frames.len() == 0 {
        text
    } else {
        let frame = frames.last();
        completed(
            frames.drop_last(),
            text + close_mark(frame.delimiter) + rendered_rest(
                forest(frame.siblings@),
                frame.next as int,
            ),
        )
    }
}

/// A token taken: what was written and the text from the token on are what
/// is written now and the text after the token.
proof fn lemma_token_taken(written: Seq<char>, ts: Seq<Tree>, next: int)
    requires
        0 <= next < ts.len(),
    ensures
        written + rendered_rest(ts, next) == (written + gap(ts, next) + rendered(ts[next]))
            + rendered_rest(ts, next + 1),
{
    assert(written + (gap(ts, next) + rendered(ts[next]) + rendered_rest(ts, next + 1)) =~= (
    written + gap(ts, next) + rendered(ts[next])) + rendered_rest(ts, next + 1));
}

/// A group entered: what was written and the text from the group on are
/// what is written now, the text of the group's children, its closing mark
/// and the text after the group.
proof fn lemma_group_entered(written: Seq<char>, ts: Seq<Tree>, next: int)
    requires
        0 <= next < ts.len(),
        ts[next] is Group,
    ensures
        written + rendered_rest(ts, next) == (written + gap(ts, next) + open_mark(
            ts[next]->delimiter,
        )) + rendered_rest(ts[next]->children, 0) + close_mark(ts[next]->delimiter)
            + rendered_rest(ts, next + 1),
{
    lemma_rendered_group(ts[next]);
    let delimiter = ts[next]->delimiter;
    let inner = rendered_rest(ts[next]->children, 0);
    assert(written + (gap(ts, next) + (open_mark(delimiter) + inner + close_mark(delimiter))
        + rendered_rest(ts, next + 1)) =~= (written + gap(ts, next) + open_mark(delimiter)) + inner
        + close_mark(delimiter) + rendered_rest(ts, next + 1));
}

/// With one more frame suspended, the text is completed by what this frame
/// has yet to add, and then by the others.
proof fn lemma_completed_push(frames: Seq<Frame>, frame: Frame, text: Seq<char>)
    ensures
        completed(frames.push(frame), text) == completed(
            frames,
            text + close_mark(frame.delimiter) + rendered_rest(
                forest(frame.siblings@),
                frame.next as int,
            ),
        ),
{
    assert(frames.push(frame).drop_last() =~= frames);
}

/// Appends the text of the token `node` to `out`, and says so; leaves `out`
/// as it is for a group.
fn push_token(node: &Node, out: &mut String) -> (pushed: bool)
    ensures
        pushed <==> !(node@ is Group),
        pushed ==> final(out)@ == old(out)@ + rendered(node@),
        !pushed ==> final(out)@ == old(out)@,
{
    match node {
        Node::Ident { name, .. } => {
            out.append(name.as_str());
            true
        },
        Node::Punct { ch, .. } => {
            push_char(out, *ch);
            assert(out@ =~= old(out)@ + rendered(node@));
            true
        },
        Node::Literal { text, .. } => {
            out.append(text.as_str());
            true
        },
        Node::Group { .. } => false,
    }
}

/// Appends to `out` what stands between `siblings[next]` and the node
/// before it.
fn push_gap(siblings: &[Node], next: usize, out: &mut String)
    requires
        next < siblings@.len(),
    ensures
        final(out)@ == old(out)@ + gap(forest(siblings@), next as int),
{
    if next > 0 {
        let joint = match &siblings[next - 1] {
            Node::Punct { joint, .. } => *joint,
            _ => false,
        };
        if !joint {
            push_char(out, ' ');
        }
    }
    assert(out@ =~= old(out)@ + gap(forest(siblings@), next as int));
}

/// Appends the text of `node` to `out`.
///
/// A group is walked with a list of the levels that are suspended, not by
/// recursion: the depth of nesting costs memory, but no stack.
pub fn render_into<'a>(node: &'a Node, out: &mut String)
    ensures
        final(out)@ == old(out)@ + rendered(node@),
{
    let (children, root, _, _) = match group_parts(node) {
        Some(parts) => parts,
        None => {
            push_token(node, out);
            return ;
        },
    };
    push_open(out, root);
    let mut outer: Vec<Frame<'a>> = Vec::new();
    let mut siblings: &'a [Node] = children;
    let mut next: usize = 0;
    let ghost whole = old(out)@ + rendered(node@);
    proof {
        lemma_rendered_group(node@);
        assert(whole =~= (out@ + rendered_rest(forest(children@), 0)) + close_mark(root));
    }
    loop
        invariant_except_break
            next <= siblings@.len(),
            suspended(outer@),
            whole == completed(outer@, out@ + rendered_rest(forest(siblings@), next as int))
                + close_mark(root),
        ensures
            out@ == whole,
        decreases pending(outer@) + node_count_from(forest(siblings@), next as int), outer@.len(),
    {
        let ghost ts = forest(siblings@);
        let ghost frames = outer@;
        let ghost before = out@;
        if next >= siblings.len() {
            assert(before + rendered_rest(ts, next as int) =~= before);
            match outer.pop() {
                None => {
                    push_close(out, root);
                    break ;
                },
                Some(frame) => {
                    proof {
                        lemma_suspended_pop(frames);
                        assert(outer@ =~= frames.drop_last());
                        assert(frame == frames.last());
                    }
                    push_close(out, frame.delimiter);
                    siblings = frame.siblings;
                    next = frame.next;
                },
            }
        } else {
            proof {
                lemma_node_count_step(ts, next as int);
            }
            push_gap(siblings, next, out);
            if push_token(&siblings[next], out) {
                proof {
                    lemma_token_taken(before, ts, next as int);
                }
                next += 1;
            } else {
                let (children, delimiter, tag, close_tag) = group_parts(&siblings[next]).unwrap();
                push_open(out, delimiter);
                let frame = Frame {
                    siblings,
                    next: next + 1,
                    done: Vec::new(),
                    delimiter,
                    tag,
                    close_tag,
                };
                proof {
                    lemma_suspended_push(frames, frame);
                    lemma_group_entered(before, ts, next as int);
                    lemma_completed_push(frames, frame, out@ + rendered_rest(forest(children@), 0));
                }
                outer.push(frame);
                siblings = children;
                next = 0;
            }
        }
    }
}

/// The text of `node`.
pub fn render(node: &Node) -> (out: String)
    ensures
        out@ == rendered(node@),
{
    let mut out = String::new();
    render_into(node, &mut out);
    assert(out@ =~= rendered(node@));
    out
}

/// The text of `node` for a message: an invisible group is set between
/// two marks.
pub fn render_marked(node: &Node) -> (out: String)
    ensures
        out@ == rendered_marked(node@),
{
    let invisible = match node {
        Node::Group { delimiter: Delimiter::Invisible, .. } => true,
        _ => false,
    };
    let mut out = String::new();
    if invisible {
        push_char(&mut out, '\u{d8}');
    }
    render_into(node, &mut out);
    if invisible {
        push_char(&mut out, '\u{d8}');
    }
    assert(out@ =~= rendered_marked(node@));
    out
}

} // verus!

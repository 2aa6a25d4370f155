//! The token-tree model: tokens, groups and location tags.
//!
//! Executable code works on [`Node`]; contracts are stated over its
//! mathematical model [`Tree`], reached with `@`.

use vstd::prelude::*;
use vstd::string::StringExecFns;
use crate::walk::retag;

verus! {

/// An opaque location tag. The library only copies and compares tags.
pub type Tag = u64;

/// The delimiter kind of a group.
#[derive(Clone, Copy, Debug, PartialEq, Eq, Structural)]
pub enum Delimiter {
    Parenthesis,
    Brace,
    Bracket,
    /// A transparent wrapper with no visible delimiter.
    Invisible,
}

/// A node of a token tree: one of the three kinds of token, or a group.
#[derive(Debug, PartialEq, Eq)]
pub enum Node {
    Ident { name: String, tag: Tag },
    /// A punctuation mark; `joint` says that the next token follows it directly.
    Punct { ch: char, joint: bool, tag: Tag },
    Literal { text: String, tag: Tag },
    /// A delimited sequence of nodes. `tag` locates the group as a whole,
    /// `close_tag` its closing delimiter.
    Group { delimiter: Delimiter, children: Vec<Node>, tag: Tag, close_tag: Tag },
}

/// The mathematical model of a [`Node`].
pub enum Tree {
    Ident { name: Seq<char>, tag: Tag },
    Punct { ch: char, joint: bool, tag: Tag },
    Literal { text: Seq<char>, tag: Tag },
    Group { delimiter: Delimiter, children: Seq<Tree>, tag: Tag, close_tag: Tag },
}

impl Tree {
    /// The location tag of the node as a whole.
    pub open spec fn tag(self) -> Tag {
        match self {
            Tree::Ident { tag, .. } => tag,
            Tree::Punct { tag, .. } => tag,
            Tree::Literal { tag, .. } => tag,
            Tree::Group { tag, .. } => tag,
        }
    }

    /// A group with a visible delimiter.
    pub open spec fn is_solid_group(self) -> bool {
        self matches Tree::Group { delimiter, .. } && delimiter != Delimiter::Invisible
    }

    /// A group delimited by square brackets.
    pub open spec fn is_bracket_group(self) -> bool {
        self matches Tree::Group { delimiter, .. } && delimiter == Delimiter::Bracket
    }

    /// The punctuation mark `ch`, whatever its spacing.
    pub open spec fn is_punct(self, ch: char) -> bool {
        self matches Tree::Punct { ch: c, .. } && c == ch
    }

    /// The identifier spelled `name`.
    pub open spec fn is_ident(self, name: Seq<char>) -> bool {
        self matches Tree::Ident { name: n, .. } && n == name
    }
}

/// The model of `node`: the same tree, over mathematical sequences.
pub open spec fn tree_of(node: Node) -> Tree
    decreases node,
{
    match node {
        Node::Ident { name, tag } => Tree::Ident { name: name@, tag },
        Node::Punct { ch, joint, tag } => Tree::Punct { ch, joint, tag },
        Node::Literal { text, tag } => Tree::Literal { text: text@, tag },
        Node::Group { delimiter, children, tag, close_tag } => Tree::Group {
            delimiter,
            children: Seq::new(
                children@.len(),
                |i: int|
                    if 0 <= i < children@.len() {
                        tree_of(children@[i])
                    } else {
                        arbitrary()
                    },
            ),
            tag,
            close_tag,
        },
    }
}

impl View for Node {
    type V = Tree;

    open spec fn view(&self) -> Tree {
        tree_of(*self)
    }
}

/// The models of a sequence of nodes, in order.
pub open spec fn forest(nodes: Seq<Node>) -> Seq<Tree> {
    Seq::new(nodes.len(), |i: int| nodes[i]@)
}

/// The model of a group's children is the forest of its child nodes.
pub proof fn lemma_children_view(node: &Node)
    requires
        node is Group,
    ensures
        node@ is Group,
        node@->children == forest(node->children@),
        node@->delimiter == node->delimiter,
        node@->Group_tag == node->Group_tag,
        node@->close_tag == node->close_tag,
{
    assert(node@->children.len() == node->children@.len());
    assert(node@->children =~= forest(node->children@));
}

/// The number of nodes of `t`, itself counted.
pub open spec fn node_count(t: Tree) -> nat
    decreases t, 0int,
{
    match t {
        Tree::Group { children, .. } => 1 + node_count_from(children, 0),
        _ => 1,
    }
}

/// The number of nodes of the trees of `ts` from position `from` on.
pub open spec fn node_count_from(ts: Seq<Tree>, from: int) -> nat
    decreases ts, ts.len() - from,
{
    if from < 0 || from >= ts.len() {
        0
    } else {
        node_count(ts[from]) + node_count_from(ts, from + 1)
    }
}

/// The nodes from position `next` on are the node at `next` and those after
/// it; a token counts for one node, a group for one more than its children.
pub proof fn lemma_node_count_step(ts: Seq<Tree>, next: int)
    requires
        0 <= next < ts.len(),
    ensures
        node_count_from(ts, next) == node_count(ts[next]) + node_count_from(ts, next + 1),
        ts[next] is Group ==> node_count(ts[next]) == 1 + node_count_from(ts[next]->children, 0),
        !(ts[next] is Group) ==> node_count(ts[next]) == 1,
        node_count(ts[next]) >= 1,
{
}

/// The forest of a sequence with one more node is the forest with one more
/// tree.
pub proof fn lemma_forest_push(nodes: Seq<Node>, node: Node)
    ensures
        forest(nodes.push(node)) == forest(nodes).push(node@),
{
    assert(forest(nodes.push(node)) =~= forest(nodes).push(node@));
}

/// The forest of two sequences joined is their forests joined.
pub proof fn lemma_forest_add(a: Seq<Node>, b: Seq<Node>)
    ensures
        forest(a + b) == forest(a) + forest(b),
{
    assert(forest(a + b) =~= forest(a) + forest(b));
}

/// The forest of a part of a sequence is that part of its forest.
pub proof fn lemma_forest_subrange(nodes: Seq<Node>, from: int, to: int)
    requires
        0 <= from <= to <= nodes.len(),
    ensures
        forest(nodes.subrange(from, to)) == forest(nodes).subrange(from, to),
{
    assert(forest(nodes.subrange(from, to)) =~= forest(nodes).subrange(from, to));
}

impl Node {
    /// The identifier spelled `name`, located at `tag`.
    pub fn ident(name: &str, tag: Tag) -> (node: Node)
        ensures
            node@ == (Tree::Ident { name: name@, tag }),
    {
        Node::Ident { name: String::from_str(name), tag }
    }

    /// The punctuation mark `ch`, located at `tag`; `joint` if the next token
    /// follows it directly.
    pub fn punct(ch: char, joint: bool, tag: Tag) -> (node: Node)
        ensures
            node@ == (Tree::Punct { ch, joint, tag }),
    {
        Node::Punct { ch, joint, tag }
    }

    /// The literal spelled `text`, located at `tag`.
    pub fn literal(text: &str, tag: Tag) -> (node: Node)
        ensures
            node@ == (Tree::Literal { text: text@, tag }),
    {
        Node::Literal { text: String::from_str(text), tag }
    }

    /// The group of `children` within `delimiter`, located at `tag`, its
    /// closing delimiter at `close_tag`.
    pub fn group(delimiter: Delimiter, children: Vec<Node>, tag: Tag, close_tag: Tag) -> (node:
        Node)
        ensures
            node@ == (Tree::Group { delimiter, children: forest(children@), tag, close_tag }),
    {
        let node = Node::Group { delimiter, children, tag, close_tag };
        proof {
            lemma_children_view(&node);
        }
        node
    }

    /// The location tag of the node as a whole.
    pub fn tag(&self) -> (t: Tag)
        ensures
            t == self@.tag(),
    {
        match self {
            Node::Ident { tag, .. } => *tag,
            Node::Punct { tag, .. } => *tag,
            Node::Literal { tag, .. } => *tag,
            Node::Group { tag, .. } => *tag,
        }
    }
}

impl Clone for Node {
    /// A copy of the node and of all that it holds. A group is copied
    /// without recursion, so that the depth of nesting costs no stack.
    fn clone(&self) -> (res: Self)
        ensures
            res@ == self@,
    {
        match self {
            Node::Ident { name, tag } => Node::Ident { name: name.clone(), tag: *tag },
            Node::Punct { ch, joint, tag } => Node::Punct { ch: *ch, joint: *joint, tag: *tag },
            Node::Literal { text, tag } => Node::Literal { text: text.clone(), tag: *tag },
            Node::Group { delimiter, children, tag, close_tag } => {
                proof {
                    lemma_children_view(self);
                }
                Node::group(*delimiter, retag(children.as_slice(), None), *tag, *close_tag)
            },
        }
    }
}

} // verus!

//! What the scanner and the parser produce.

use crate::cursor::Span;
use vstd::prelude::*;

verus! {

/// A token: its type, and the span of source text that it was read from.
#[derive(Debug)]
pub struct Token<TT> {
    pub token_type: TT,
    pub span: Span,
}

impl<TT> Token<TT> {
    /// The token of this type over this span.
    pub fn new(token_type: TT, span: Span) -> (t: Token<TT>)
        ensures
            t == (Token { token_type, span }),
    {
        Token { token_type, span }
    }
}

/// The spans of some tokens, in their order.
pub open spec fn token_spans<TT>(tokens: Seq<Token<TT>>) -> Seq<Span> {
    tokens.map_values(|t: Token<TT>| t.span)
}

/// What a node holds in one place: a token, named by its index in the token
/// sequence that was parsed, or a node.
#[derive(Debug)]
pub enum Child {
    Token(usize),
    Node(Node),
}

/// A node of the tree that the parser builds: the span of the tokens that it
/// was built from, the variant that the rule gave it, and what the rule
/// bound while it matched.
#[derive(Debug)]
pub struct Node {
    pub span: Span,
    pub variant: u32,
    pub children: Vec<Child>,
}

/// A child as a mathematical value.
pub enum ChildView {
    Token(usize),
    Node(NodeView),
}

/// A node as a mathematical value.
pub struct NodeView {
    pub span: Span,
    pub variant: u32,
    pub children: Seq<ChildView>,
}

/// The mathematical value of a child.
pub open spec fn child_view(c: Child) -> ChildView
    decreases c,
{
    match c {
        Child::Token(i) => ChildView::Token(i),
        Child::Node(n) => ChildView::Node(node_view(n)),
    }
}

/// The mathematical values of the first `n` of some children.
pub open spec fn children_view(cs: Seq<Child>, n: int) -> Seq<ChildView>
    decreases cs, n,
{
    if n <= 0 || n > cs.len() {
        Seq::empty()
    } else {
        children_view(cs, n - 1).push(child_view(cs[n - 1]))
    }
}

/// The mathematical value of a node.
pub open spec fn node_view(n: Node) -> NodeView
    decreases n,
{
    NodeView {
        span: n.span,
        variant: n.variant,
        children: children_view(n.children@, n.children@.len() as int),
    }
}

impl View for Node {
    type V = NodeView;

    open spec fn view(&self) -> NodeView {
        node_view(*self)
    }
}

/// The mathematical values of some children.
pub open spec fn views(cs: Seq<Child>) -> Seq<ChildView> {
    children_view(cs, cs.len() as int)
}

/// The values of some children, one by one.
pub proof fn lemma_views(cs: Seq<Child>)
    ensures
        views(cs).len() == cs.len(),
        forall|i: int| 0 <= i < cs.len() ==> (#[trigger] views(cs)[i]) == child_view(cs[i]),
{
    lemma_views_upto(cs, cs.len() as int);
}

proof fn lemma_views_upto(cs: Seq<Child>, n: int)
    requires
        0 <= n <= cs.len(),
    ensures
        children_view(cs, n).len() == n,
        forall|i: int| 0 <= i < n ==> (#[trigger] children_view(cs, n)[i]) == child_view(cs[i]),
    decreases n,
{
    if n > 0 {
        lemma_views_upto(cs, n - 1);
    }
}

/// Appending a child appends its value.
pub proof fn lemma_views_push(cs: Seq<Child>, c: Child)
    ensures
        views(cs.push(c)) == views(cs).push(child_view(c)),
{
    lemma_views(cs);
    lemma_views(cs.push(c));
    assert(views(cs.push(c)) =~= views(cs).push(child_view(c)));
}

impl Node {
    /// A second tree with the same value.
    pub fn duplicate(&self) -> (n: Node)
        ensures
            n@ == self@,
        decreases *self,
    {
        let mut children: Vec<Child> = Vec::new();
        let mut i: usize = 0;
        while i < self.children.len()
            invariant
                i <= self.children@.len(),
                views(children@) == children_view(self.children@, i as int),
            decreases self.children@.len() - i,
        {
            let c = match &self.children[i] {
                Child::Token(t) => Child::Token(*t),
                Child::Node(n) => Child::Node(n.duplicate()),
            };
            proof {
                lemma_views_push(children@, c);
            }
            children.push(c);
            i = i + 1;
        }
        Node { span: self.span.duplicate(), variant: self.variant, children }
    }
}

} // verus!

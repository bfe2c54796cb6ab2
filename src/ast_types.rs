//! The syntax tree and its mathematical form.
use vstd::prelude::*;

verus! {

/// A node of the syntax tree. The number of an `Element` or a `Group` is its
/// subscript, that of a `FormulaUnit` its coefficient.
#[derive(Debug, PartialEq)]
pub enum Node {
    Element(u16, String),
    Group(u16, Vec<Node>),
    FormulaUnit(u16, Vec<Node>),
    Reactants(Vec<Node>),
    Products(Vec<Node>),
    Equation(Box<Node>, Box<Node>),
}

/// The mathematical form of a `Node`.
pub enum Tree {
    Element(u16, Seq<char>),
    Group(u16, Seq<Tree>),
    FormulaUnit(u16, Seq<Tree>),
    Reactants(Seq<Tree>),
    Products(Seq<Tree>),
    Equation(Box<Tree>, Box<Tree>),
}

/// The trees of a sequence of nodes, one for one.
pub open spec fn trees_of(v: Seq<Node>) -> Seq<Tree>
    decreases v,
{
    Seq::new(v.len(), |i: int| if 0 <= i < v.len() { v[i].tree() } else { Tree::Reactants(Seq::empty()) })
}

pub proof fn lemma_trees_of_push(v: Seq<Node>, n: Node)
    ensures
        trees_of(v.push(n)) == trees_of(v).push(n.tree()),
{
    assert(trees_of(v.push(n)) =~= trees_of(v).push(n.tree()));
}

pub proof fn lemma_trees_of_drop_last(v: Seq<Node>)
    requires
        v.len() > 0,
    ensures
        trees_of(v.drop_last()) == trees_of(v).drop_last(),
        trees_of(v).last() == v.last().tree(),
{
    assert(trees_of(v.drop_last()) =~= trees_of(v).drop_last());
}

pub proof fn lemma_trees_of_empty()
    ensures
        trees_of(Seq::<Node>::empty()) == Seq::<Tree>::empty(),
{
    assert(trees_of(Seq::<Node>::empty()) =~= Seq::<Tree>::empty());
}

impl Node {
    pub open spec fn tree(&self) -> Tree
        decreases self,
    {
        match self {
            Node::Element(n, s) => Tree::Element(*n, s@),
            Node::Group(n, v) => Tree::Group(*n, trees_of(v@)),
            Node::FormulaUnit(n, v) => Tree::FormulaUnit(*n, trees_of(v@)),
            Node::Reactants(v) => Tree::Reactants(trees_of(v@)),
            Node::Products(v) => Tree::Products(trees_of(v@)),
            Node::Equation(a, b) => Tree::Equation(Box::new(a.tree()), Box::new(b.tree())),
        }
    }
}

} // verus!

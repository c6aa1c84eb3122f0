//! Concrete syntax trees.

use crate::syntax::identity::SyntaxTreeId;
use vstd::prelude::*;

verus! {


/// A syntax tree as a mathematical value. A leaf is the position of its
/// token; a sequence carries the number of its identifier.
pub enum Tree {
    Leaf { index: nat },
    Sequence { id: nat, production: nat, fields: Seq<Tree> },
    Choice { production: nat, variant: nat, child: Box<Tree> },
    Repeat0 { items: Seq<Tree> },
    Repeat1 { items: Seq<Tree> },
    Optional { item: Option<Box<Tree>> },
    Punctuated { items: Seq<Tree>, separators: Seq<Tree> },
}

impl Tree {
    /// The identifiers that the sequences of the tree are stamped with, in
    /// the order in which the parse stamped them: those of the children
    /// before that of the sequence that holds them.
    pub open spec fn ids(self) -> Seq<nat>
        decreases self, 1nat, 0nat,
    {
        match self {
            Tree::Leaf { .. } => Seq::empty(),
            Tree::Sequence { id, fields, .. } => forest_ids(fields).push(id),
            Tree::Choice { child, .. } => child.ids(),
            Tree::Repeat0 { items } => forest_ids(items),
            Tree::Repeat1 { items } => forest_ids(items),
            Tree::Optional { item } => match item {
                Some(child) => child.ids(),
                None => Seq::empty(),
            },
            Tree::Punctuated { .. } => pairs_ids(self, 0),
        }
    }

    /// The positions of the tokens at the leaves of the tree, from left to
    /// right.
    pub open spec fn leaves(self) -> Seq<nat>
        decreases self, 1nat, 0nat,
    {
        match self {
            Tree::Leaf { index } => seq![index],
            Tree::Sequence { fields, .. } => forest_leaves(fields),
            Tree::Choice { child, .. } => child.leaves(),
            Tree::Repeat0 { items } => forest_leaves(items),
            Tree::Repeat1 { items } => forest_leaves(items),
            Tree::Optional { item } => match item {
                Some(child) => child.leaves(),
                None => Seq::empty(),
            },
            Tree::Punctuated { .. } => pairs_leaves(self, 0),
        }
    }
}

/// The identifiers in `trees`, tree by tree.
pub open spec fn forest_ids(trees: Seq<Tree>) -> Seq<nat>
    decreases trees, 0nat, 0nat,
{
    if trees.len() == 0 {
        Seq::empty()
    } else {
        trees.first().ids() + forest_ids(trees.drop_first())
    }
}

/// The identifiers in the items and separators of the punctuated list
/// `list` from the `k`-th of each on, each item followed by its separator.
pub open spec fn pairs_ids(list: Tree, k: nat) -> Seq<nat>
    decreases list, 0nat, list->Punctuated_items.len() + list->separators.len() - k,
{
    match list {
        Tree::Punctuated { items, separators } => {
            if k >= items.len() && k >= separators.len() {
                Seq::empty()
            } else {
                (if k < items.len() {
                    items[k as int].ids()
                } else {
                    Seq::empty()
                }) + (if k < separators.len() {
                    separators[k as int].ids()
                } else {
                    Seq::empty()
                }) + pairs_ids(list, k + 1)
            }
        },
        _ => Seq::empty(),
    }
}

/// The leaves of `trees`, tree by tree.
pub open spec fn forest_leaves(trees: Seq<Tree>) -> Seq<nat>
    decreases trees, 0nat, 0nat,
{
    if trees.len() == 0 {
        Seq::empty()
    } else {
        trees.first().leaves() + forest_leaves(trees.drop_first())
    }
}

/// The leaves of the items and separators of the punctuated list `list`
/// from the `k`-th of each on, each item followed by its separator.
pub open spec fn pairs_leaves(list: Tree, k: nat) -> Seq<nat>
    decreases list, 0nat, list->Punctuated_items.len() + list->separators.len() - k,
{
    match list {
        Tree::Punctuated { items, separators } => {
            if k >= items.len() && k >= separators.len() {
                Seq::empty()
            } else {
                (if k < items.len() {
                    items[k as int].leaves()
                } else {
                    Seq::empty()
                }) + (if k < separators.len() {
                    separators[k as int].leaves()
                } else {
                    Seq::empty()
                }) + pairs_leaves(list, k + 1)
            }
        },
        _ => Seq::empty(),
    }
}

/// Something that carries an identifier: a token record or a node of a
/// syntax tree.
pub trait SyntaxTree {
    fn id(&self) -> SyntaxTreeId;
}

/// A syntax tree over tokens of type `T`.
///
/// A leaf holds a token and the position at which it stood. A sequence is
/// stamped with an identifier of its own; a choice goes by the identifier
/// of the alternative that it wraps; lists and options carry none.
#[derive(Debug)]
pub enum SyntaxNode<T> {
    Leaf { index: usize, token: T },
    Sequence { id: SyntaxTreeId, production: usize, fields: Vec<SyntaxNode<T>> },
    Choice { production: usize, variant: usize, child: Box<SyntaxNode<T>> },
    Repeat0 { items: Vec<SyntaxNode<T>> },
    Repeat1 { items: Vec<SyntaxNode<T>> },
    Optional { item: Option<Box<SyntaxNode<T>>> },
    Punctuated { items: Vec<SyntaxNode<T>>, separators: Vec<SyntaxNode<T>> },
}

/// The trees of `nodes`.
pub open spec fn forest<T>(nodes: Seq<SyntaxNode<T>>) -> Seq<Tree>
    decreases nodes,
{
    if nodes.len() == 0 {
        Seq::empty()
    } else {
        forest(nodes.drop_last()).push(nodes.last().tree())
    }
}

/// The trees of `nodes` are as many as the nodes, and each is the tree of
/// its node.
pub proof fn lemma_forest<T>(nodes: Seq<SyntaxNode<T>>)
    ensures
        forest(nodes).len() == nodes.len(),
        forall|k: int| 0 <= k < nodes.len() ==> (#[trigger] forest(nodes)[k]) == nodes[k]@,
    decreases nodes.len(),
{
    if nodes.len() > 0 {
        lemma_forest(nodes.drop_last());
    }
}

/// The trees of a list with one node more.
pub proof fn lemma_forest_push<T>(nodes: Seq<SyntaxNode<T>>, node: SyntaxNode<T>)
    ensures
        forest(nodes.push(node)) == forest(nodes).push(node@),
{
    assert(nodes.push(node).drop_last() =~= nodes);
}

impl<T> View for SyntaxNode<T> {
    type V = Tree;

    open spec fn view(&self) -> Tree {
        self.tree()
    }
}

impl<T> SyntaxNode<T> {
    /// The tree as a mathematical value.
    pub open spec fn tree(&self) -> Tree
        decreases self,
    {
        match self {
            SyntaxNode::Leaf { index, .. } => Tree::Leaf { index: *index as nat },
            SyntaxNode::Sequence { id, production, fields } => Tree::Sequence {
                id: id.value(),
                production: *production as nat,
                fields: forest(fields@),
            },
            SyntaxNode::Choice { production, variant, child } => Tree::Choice {
                production: *production as nat,
                variant: *variant as nat,
                child: Box::new(child.tree()),
            },
            SyntaxNode::Repeat0 { items } => Tree::Repeat0 {
                items: forest(items@),
            },
            SyntaxNode::Repeat1 { items } => Tree::Repeat1 {
                items: forest(items@),
            },
            SyntaxNode::Optional { item } => Tree::Optional {
                item: match item {
                    Some(child) => Some(Box::new(child.tree())),
                    None => None,
                },
            },
            SyntaxNode::Punctuated { items, separators } => Tree::Punctuated {
                items: forest(items@),
                separators: forest(separators@),
            },
        }
    }
}

impl<T> SyntaxNode<T> {
    /// The node that bears the identifier of this one: the node itself,
    /// or, for a choice, the bearer of the alternative that it wraps.
    pub open spec fn bearer(&self) -> &SyntaxNode<T>
        decreases self,
    {
        match self {
            SyntaxNode::Choice { child, .. } => child.bearer(),
            _ => self,
        }
    }
}

impl<T: Clone> SyntaxNode<T> {
    /// Every leaf of the tree holds a copy of the token of `tokens` at the
    /// position that the leaf records.
    pub open spec fn agrees(&self, tokens: Seq<T>) -> bool
        decreases self,
    {
        match self {
            SyntaxNode::Leaf { index, token } => *index < tokens.len() && cloned(
                tokens[*index as int],
                *token,
            ),
            SyntaxNode::Sequence { fields, .. } => forall|k: int|
                0 <= k < fields@.len() ==> (#[trigger] fields@[k]).agrees(tokens),
            SyntaxNode::Choice { child, .. } => child.agrees(tokens),
            SyntaxNode::Repeat0 { items } => forall|k: int|
                0 <= k < items@.len() ==> (#[trigger] items@[k]).agrees(tokens),
            SyntaxNode::Repeat1 { items } => forall|k: int|
                0 <= k < items@.len() ==> (#[trigger] items@[k]).agrees(tokens),
            SyntaxNode::Optional { item } => match item {
                Some(child) => child.agrees(tokens),
                None => true,
            },
            SyntaxNode::Punctuated { items, separators } => {
                &&& forall|k: int| 0 <= k < items@.len() ==> (#[trigger] items@[k]).agrees(tokens)
                &&& forall|k: int|
                    0 <= k < separators@.len() ==> (#[trigger] separators@[k]).agrees(tokens)
            },
        }
    }
}

impl<T: SyntaxTree> SyntaxNode<T> {
    /// The identifier of the node: that of its token for a leaf, its own
    /// for a sequence, that of the wrapped alternative for a choice. Lists
    /// and options have none.
    pub fn id(&self) -> (r: Option<SyntaxTreeId>)
        ensures
            match self.bearer() {
                SyntaxNode::Leaf { token, .. } => r.is_some() && call_ensures(
                    T::id,
                    (token,),
                    r.unwrap(),
                ),
                SyntaxNode::Sequence { id, .. } => r == Some(*id),
                _ => r.is_none(),
            },
        decreases self,
    {
        match self {
            SyntaxNode::Leaf { token, .. } => Some(token.id()),
            SyntaxNode::Sequence { id, .. } => Some(*id),
            SyntaxNode::Choice { child, .. } => child.id(),
            _ => None,
        }
    }
}

} // verus!

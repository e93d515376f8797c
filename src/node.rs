use vstd::prelude::*;

use crate::number::Decimal;
use crate::render::{decimal_text, push_decimal};
use crate::tokenizer::string_from_chars;

verus! {

/// A number operand.
#[derive(Debug, Clone, Copy, PartialEq, Eq, Structural)]
pub struct Rational(pub Decimal);

/// A variable operand, by name.
#[derive(Debug, Clone, PartialEq)]
pub struct Variable(pub String);

/// The operands that a leaf of an expression tree can hold.
#[derive(Debug, Clone, PartialEq)]
pub enum Operand {
    Rational(Rational),
    Variable(Variable),
}

/// What a node of an expression tree holds: an operator or an operand.
#[derive(Debug, Clone, PartialEq)]
pub enum NodeObject {
    Operator(char),
    Operand(Operand),
}

/// A node of an expression tree. A binary operator has two children, a unary
/// one only a left child, and an operand none.
#[derive(Debug, PartialEq)]
pub struct Node {
    pub object: NodeObject,
    pub left: Option<Box<Node>>,
    pub right: Option<Box<Node>>,
}

/// An operand as the contracts see it.
pub enum LeafView {
    Number(Decimal),
    Variable(Seq<char>),
}

/// The shape of an expression tree as the contracts see it.
pub enum Tree {
    Leaf(LeafView),
    Unary(char, Box<Tree>),
    Binary(char, Box<Tree>, Box<Tree>),
    /// A node whose children do not fit its payload.
    Malformed,
}

impl View for Operand {
    type V = LeafView;

    open spec fn view(&self) -> LeafView {
        match self {
            Operand::Rational(Rational(d)) => LeafView::Number(*d),
            Operand::Variable(Variable(s)) => LeafView::Variable(s@),
        }
    }
}

impl View for Node {
    type V = Tree;

    open spec fn view(&self) -> Tree {
        self.tree()
    }
}

impl Node {
    /// The shape of the tree under this node.
    pub open spec fn tree(&self) -> Tree
        decreases self,
    {
        match self.object {
            NodeObject::Operand(o) => if self.left is None && self.right is None {
                Tree::Leaf(o@)
            } else {
                Tree::Malformed
            },
            NodeObject::Operator(c) => match (self.left, self.right) {
                (Some(l), Some(r)) => Tree::Binary(c, Box::new(l.tree()), Box::new(r.tree())),
                (Some(l), None) => Tree::Unary(c, Box::new(l.tree())),
                _ => Tree::Malformed,
            },
        }
    }
}

impl Tree {
    /// Every node fits its payload: no malformed node, and only `-` is unary.
    pub open spec fn well_formed(self) -> bool
        decreases self,
    {
        match self {
            Tree::Leaf(_) => true,
            Tree::Unary(c, e) => c == '-' && e.well_formed(),
            Tree::Binary(_, l, r) => l.well_formed() && r.well_formed(),
            Tree::Malformed => false,
        }
    }
}

impl Node {
    pub fn new(object: NodeObject, left: Option<Box<Node>>, right: Option<Box<Node>>) -> (r: Node)
        ensures
            r == (Node { object, left, right }),
    {
        Node { object, left, right }
    }

    /// A leaf that holds `operand`.
    pub fn operand(operand: Operand) -> (r: Node)
        ensures
            r@ == Tree::Leaf(operand@),
    {
        Node { object: NodeObject::Operand(operand), left: None, right: None }
    }

    /// The unary operator `op` over `child`.
    pub fn unary(op: char, child: Node) -> (r: Node)
        ensures
            r@ == Tree::Unary(op, Box::new(child@)),
    {
        Node { object: NodeObject::Operator(op), left: Some(Box::new(child)), right: None }
    }

    /// The binary operator `op` over `lhs` and `rhs`.
    pub fn binary(op: char, lhs: Node, rhs: Node) -> (r: Node)
        ensures
            r@ == Tree::Binary(op, Box::new(lhs@), Box::new(rhs@)),
    {
        Node {
            object: NodeObject::Operator(op),
            left: Some(Box::new(lhs)),
            right: Some(Box::new(rhs)),
        }
    }
}


/// Hands out `*counter` as a fresh node id and advances the counter.
pub fn get_id(counter: &mut usize) -> (r: usize)
    requires
        *old(counter) < usize::MAX,
    ensures
        r == *old(counter),
        *final(counter) == *old(counter) + 1,
{
    let id = *counter;
    *counter = id + 1;
    id
}

/// What a node of an exported graph shows.
#[derive(Debug, Clone, Copy, PartialEq, Eq, Structural)]
pub enum NodeKind {
    Operator(char),
    Number,
    Variable,
}

/// A node of an exported graph: its id, kind and label.
#[derive(Debug, Clone, PartialEq)]
pub struct GraphNode {
    pub id: usize,
    pub kind: NodeKind,
    pub label: String,
}

/// The label a node shows: its operator, number or variable name.
pub open spec fn label_of(object: NodeObject) -> Seq<char> {
    match object {
        NodeObject::Operator(c) => seq![c],
        NodeObject::Operand(Operand::Rational(Rational(d))) => decimal_text(d.units as nat),
        NodeObject::Operand(Operand::Variable(Variable(s))) => s@,
    }
}

pub open spec fn kind_of(object: NodeObject) -> NodeKind {
    match object {
        NodeObject::Operator(c) => NodeKind::Operator(c),
        NodeObject::Operand(Operand::Rational(_)) => NodeKind::Number,
        NodeObject::Operand(Operand::Variable(_)) => NodeKind::Variable,
    }
}

/// The graph node `g` shows `object` under the id `id`.
pub open spec fn shows(g: GraphNode, object: NodeObject, id: int) -> bool {
    g.id == id && g.kind == kind_of(object) && g.label@ == label_of(object)
}

/// `nodes` is `base` followed by one node for each of `objects`, in order,
/// numbered from `id` on.
pub open spec fn lists(nodes: Seq<GraphNode>, base: Seq<GraphNode>, objects: Seq<NodeObject>, id: int) -> bool {
    &&& nodes.len() == base.len() + objects.len()
    &&& nodes.subrange(0, base.len() as int) == base
    &&& forall|k: int| 0 <= k < objects.len() ==> shows(#[trigger] nodes[base.len() + k], objects[k], id + k)
}

proof fn lemma_lists_compose(
    a: Seq<GraphNode>,
    b: Seq<GraphNode>,
    c: Seq<GraphNode>,
    o1: Seq<NodeObject>,
    o2: Seq<NodeObject>,
    id: int,
)
    requires
        lists(b, a, o1, id),
        lists(c, b, o2, id + o1.len()),
    ensures
        lists(c, a, o1 + o2, id),
{
    assert forall|k: int| 0 <= k < b.len() implies c[k] == b[k] by {
        assert(c.subrange(0, b.len() as int)[k] == b[k]);
    }
    assert(c.subrange(0, a.len() as int) =~= a) by {
        assert forall|k: int| 0 <= k < a.len() implies c[k] == a[k] by {
            assert(b.subrange(0, a.len() as int)[k] == a[k]);
        }
    }
    let o = o1 + o2;
    assert forall|k: int| 0 <= k < o.len() implies shows(#[trigger] c[a.len() + k], o[k], id + k) by {
        if k < o1.len() {
            assert(c[a.len() + k] == b[a.len() + k]);
        } else {
            let m = k - o1.len();
            assert(c[b.len() + m] == c[a.len() + k]);
            assert(o[k] == o2[m]);
        }
    }
}

impl Node {
    /// Count of the nodes under and including this one.
    pub open spec fn size(&self) -> nat
        decreases self,
    {
        1 + match self.left {
            Some(l) => l.size(),
            None => 0,
        } + match self.right {
            Some(r) => r.size(),
            None => 0,
        }
    }

    /// Count of the nodes of the tree, where it fits in `usize`.
    pub fn node_count(&self) -> (r: Option<usize>)
        ensures
            r matches Some(n) ==> n == self.size(),
            r is None ==> self.size() > usize::MAX,
        decreases self,
    {
        let mut n: usize = 1;
        if let Some(l) = &self.left {
            match l.node_count() {
                Some(k) => {
                    if k > usize::MAX - n {
                        return None;
                    }
                    n = n + k;
                },
                None => {
                    return None;
                },
            }
        }
        if let Some(r) = &self.right {
            match r.node_count() {
                Some(k) => {
                    if k > usize::MAX - n {
                        return None;
                    }
                    n = n + k;
                },
                None => {
                    return None;
                },
            }
        }
        Some(n)
    }

    /// The payloads of the tree in pre-order: this node, then the left
    /// subtree, then the right one.
    pub open spec fn preorder(&self) -> Seq<NodeObject>
        decreases self,
    {
        seq![self.object] + (match self.left {
            Some(l) => l.preorder(),
            None => Seq::empty(),
        }) + (match self.right {
            Some(r) => r.preorder(),
            None => Seq::empty(),
        })
    }

    /// The parent-to-child edges of the tree whose nodes are numbered in
    /// pre-order from `id`: those of the left subtree, then the edge to the
    /// left child, then those of the right subtree and the edge to the right
    /// child.
    pub open spec fn child_edges(&self, id: int) -> Seq<(usize, usize)>
        decreases self,
    {
        let after = id + 1 + match self.left {
            Some(l) => l.size() as int,
            None => 0,
        };
        (match self.left {
            Some(l) => l.child_edges(id + 1).push((id as usize, (id + 1) as usize)),
            None => Seq::empty(),
        }) + (match self.right {
            Some(r) => r.child_edges(after).push((id as usize, after as usize)),
            None => Seq::empty(),
        })
    }

    pub proof fn lemma_preorder_len(&self)
        ensures
            self.preorder().len() == self.size(),
        decreases self,
    {
        if let Some(l) = self.left {
            l.lemma_preorder_len();
        }
        if let Some(r) = self.right {
            r.lemma_preorder_len();
        }
    }

    fn label(&self) -> (r: String)
        ensures
            r@ == label_of(self.object),
    {
        match &self.object {
            NodeObject::Operator(c) => {
                let v = vec![*c];
                assert(v@ =~= seq![*c]);
                string_from_chars(&v)
            },
            NodeObject::Operand(Operand::Rational(Rational(d))) => {
                let mut v: Vec<char> = Vec::new();
                push_decimal(&mut v, *d);
                assert(v@ =~= decimal_text(d.units as nat));
                string_from_chars(&v)
            },
            NodeObject::Operand(Operand::Variable(Variable(s))) => s.clone(),
        }
    }

    /// Numbers the nodes in depth-first order, the left child first, from
    /// `*counter` on, and appends each node and each parent-to-child edge.
    pub fn export(
        &self,
        counter: &mut usize,
        nodes: &mut Vec<GraphNode>,
        edges: &mut Vec<(usize, usize)>,
    ) -> (id: usize)
        requires
            *old(counter) + self.size() <= usize::MAX,
        ensures
            id == *old(counter),
            *final(counter) == *old(counter) + self.size(),
            lists(final(nodes)@, old(nodes)@, self.preorder(), id as int),
            final(edges)@ == old(edges)@ + self.child_edges(id as int),
        decreases self,
    {
        let ghost n0 = nodes@;
        let ghost e0 = edges@;
        let ghost obj = seq![self.object];
        proof {
            self.lemma_preorder_len();
        }
        let id = get_id(counter);
        let kind = match &self.object {
            NodeObject::Operator(c) => NodeKind::Operator(*c),
            NodeObject::Operand(Operand::Rational(_)) => NodeKind::Number,
            NodeObject::Operand(Operand::Variable(_)) => NodeKind::Variable,
        };
        nodes.push(GraphNode { id, kind, label: self.label() });
        assert(nodes@.subrange(0, n0.len() as int) =~= n0);
        assert(nodes@[n0.len() + 0int] == nodes@[n0.len() as int]);
        assert(lists(nodes@, n0, obj, id as int));
        let ghost mut done = obj;
        let ghost mut left_edges = Seq::<(usize, usize)>::empty();
        if let Some(l) = &self.left {
            let ghost n1 = nodes@;
            let ghost e1 = edges@;
            proof {
                l.lemma_preorder_len();
            }
            let child = l.export(counter, nodes, edges);
            proof {
                lemma_lists_compose(n0, n1, nodes@, obj, l.preorder(), id as int);
                done = obj + l.preorder();
                left_edges = l.child_edges(id + 1).push((id, child));
            }
            edges.push((id, child));
            assert(edges@ =~= e0 + left_edges);
        } else {
            assert(edges@ =~= e0 + left_edges);
        }
        let ghost mut right_edges = Seq::<(usize, usize)>::empty();
        if let Some(r) = &self.right {
            let ghost n2 = nodes@;
            let ghost e2 = edges@;
            proof {
                r.lemma_preorder_len();
            }
            let child = r.export(counter, nodes, edges);
            proof {
                lemma_lists_compose(n0, n2, nodes@, done, r.preorder(), id as int);
                done = done + r.preorder();
                right_edges = r.child_edges(child as int).push((id, child));
            }
            edges.push((id, child));
            assert(edges@ =~= e0 + left_edges + right_edges);
        } else {
            assert(edges@ =~= e0 + left_edges + right_edges);
        }
        assert(done =~= self.preorder());
        assert(left_edges + right_edges =~= self.child_edges(id as int));
        assert(edges@ =~= e0 + self.child_edges(id as int));
        id
    }
}
} // verus!

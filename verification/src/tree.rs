//! The lineage tree: every node knows its father, and many children may
//! share one father. A node therefore stands for the whole line of values
//! from itself up to the root.
use std::rc::Rc;
use vstd::prelude::*;

verus! {

/// A value and the node it descends from.
pub struct Node<T> {
    /// The node above, shared with its other children; `None` at the root.
    pub father: Option<Rc<Node<T>>>,
    /// The value of the node itself.
    pub value: T,
}

impl<T> View for Node<T> {
    type V = Seq<T>;

    /// The lineage of the node.
    open spec fn view(&self) -> Seq<T> {
        self.lineage()
    }
}

impl<T> Node<T> {
    /// The values from the node up to the root: its own value first, the
    /// root's value last.
    pub open spec fn lineage(&self) -> Seq<T>
        decreases self,
    {
        match self.father {
            None => seq![self.value],
            Some(father) => seq![self.value] + father.lineage(),
        }
    }

    /// A node without a father.
    pub fn new_root(value: T) -> (node: Rc<Node<T>>)
        ensures
            node@ == seq![value],
            node.father.is_none(),
            node.value == value,
    {
        Rc::new(Node { father: None, value })
    }

    /// A node below `father`, which stays shared with all its other children.
    pub fn new_child(value: T, father: &Rc<Node<T>>) -> (node: Rc<Node<T>>)
        ensures
            node@ == seq![value] + father@,
            node.father == Some(*father),
            node.value == value,
    {
        Rc::new(Node { father: Some(share(father)), value })
    }
}

impl<T: Copy> Node<T> {
    /// The lineage of a node as a list: the values from the node up to the
    /// root.
    pub fn values(node: &Rc<Node<T>>) -> (list: Vec<T>)
        ensures
            list@ == node@,
    {
        let ghost lineage = node@;
        let mut list: Vec<T> = Vec::new();
        let mut iter = TreeIterator::new(share(node));
        loop
            invariant
                lineage == node@,
                list@.len() <= lineage.len(),
                list@ == lineage.take(list@.len() as int),
                iter@ == lineage.skip(list@.len() as int),
            ensures
                list@ == node@,
            decreases lineage.len() - list@.len(),
        {
            let ghost seen = list@.len() as int;
            match iter.next() {
                None => {
                    assert(lineage.take(seen) =~= lineage);
                    break ;
                },
                Some(rr) => {
                    proof {
                        lemma_lineage(&*rr);
                        assert(rr@[0] == lineage[seen]);
                        assert(lineage.skip(seen).skip(1) =~= lineage.skip(seen + 1));
                    }
                    list.push(rr.value);
                    assert(list@ =~= lineage.take(seen + 1));
                },
            }
        }
        list
    }
}

/// A lineage is never empty, it starts with the node's own value, and what
/// follows is the lineage of the father.
pub proof fn lemma_lineage<T>(node: &Node<T>)
    ensures
        node@.len() >= 1,
        node@[0] == node.value,
        node@.skip(1) == match node.father {
            None => Seq::<T>::empty(),
            Some(father) => father@,
        },
{
    match node.father {
        None => {
            assert(node@.skip(1) =~= Seq::<T>::empty());
        },
        Some(father) => {
            assert(node@.skip(1) =~= father@);
        },
    }
}

/// `Rc::clone`: a second handle on the same node. Trusted to hand back a
/// pointer to the value that `node` points to.
#[verifier::external_body]
pub(crate) fn share<T>(node: &Rc<T>) -> (same: Rc<T>)
    ensures
        same == *node,
{
    Rc::clone(node)
}

/// A single pass from a node up to the root.
pub struct TreeIterator<T> {
    curr: Option<Rc<Node<T>>>,
}

impl<T> View for TreeIterator<T> {
    type V = Seq<T>;

    /// The values of the nodes that are still to come, next one first.
    closed spec fn view(&self) -> Seq<T> {
        match self.curr {
            None => Seq::empty(),
            Some(node) => node@,
        }
    }
}

impl<T> TreeIterator<T> {
    /// A pass that starts at `startnode` itself.
    pub fn new(startnode: Rc<Node<T>>) -> (iter: TreeIterator<T>)
        ensures
            iter@ == startnode@,
    {
        TreeIterator::<T> { curr: Some(share(&startnode)) }
    }

    /// The next node on the way to the root, or `None` once the root has
    /// been handed out. The node comes with its whole lineage, which is what
    /// the pass still had to yield; afterwards the pass stands at its father.
    pub fn next(&mut self) -> (node: Option<Rc<Node<T>>>)
        ensures
            old(self)@.len() == 0 ==> node.is_none() && final(self)@ == old(self)@,
            old(self)@.len() > 0 ==> node.is_some() && node.unwrap()@ == old(self)@ && final(self)@
                == old(self)@.skip(1),
    {
        let retval = match &self.curr {
            None => None,
            Some(cc) => Some(share(cc)),
        };
        proof {
            match &self.curr {
                None => {},
                Some(cc) => {
                    lemma_lineage(&**cc);
                },
            }
        }
        self.curr = match &self.curr {
            None => None,
            Some(cc) => match &cc.father {
                None => None,
                Some(ff) => Some(share(ff)),
            },
        };
        retval
    }
}

} // verus!

//! The fixed shape of the snake: an ordered list of links.
use vstd::prelude::*;

verus! {

/// How a segment continues from the one before it.
#[derive(Copy, Clone, Debug, PartialEq, Eq, Structural)]
pub enum Form {
    Straight,
    Turn,
}

/// The links of the snake, in the order in which they are laid.
pub struct Chain {
    pub dirs: Vec<Form>,
}

impl View for Chain {
    type V = Seq<Form>;

    /// The links in order.
    open spec fn view(&self) -> Seq<Form> {
        self.dirs@
    }
}

impl Chain {
    /// The chain without any link.
    pub fn new() -> (chain: Chain)
        ensures
            chain@ == Seq::<Form>::empty(),
    {
        Chain { dirs: Vec::new() }
    }

    /// An independent chain with the same links.
    pub fn copy(&self) -> (chain: Chain)
        ensures
            chain@ == self@,
    {
        let mut dirs: Vec<Form> = Vec::new();
        let mut i: usize = 0;
        while i < self.dirs.len()
            invariant
                i <= self.dirs.len(),
                dirs@ == self.dirs@.take(i as int),
            decreases self.dirs.len() - i,
        {
            dirs.push(self.dirs[i]);
            i += 1;
        }
        Chain { dirs }
    }

    /// Appends one link.
    pub fn add(&mut self, form: Form)
        ensures
            final(self)@ == old(self)@.push(form),
    {
        self.dirs.push(form);
    }

    /// The number of links.
    pub fn len(&self) -> (n: usize)
        ensures
            n == self@.len(),
    {
        self.dirs.len()
    }

    /// The link at `index`, or `None` past the end of the chain.
    pub fn get(&self, index: usize) -> (form: Option<Form>)
        ensures
            form == if index < self@.len() {
                Some(self@[index as int])
            } else {
                None
            },
    {
        if index < self.dirs.len() {
            Some(self.dirs[index])
        } else {
            None
        }
    }
}

} // verus!

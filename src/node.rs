use vstd::prelude::*;
use std::rc::Rc;

verus! {

/// A node of a chain whose downstream node may be shared by several nodes.
#[derive(Debug)]
pub struct Node {
    pub id: usize,
    pub downstream: Option<Rc<Node>>,
}

impl Node {
    /// A node with no downstream node.
    pub fn new(id: usize) -> (r: Self)
        ensures
            r.id == id,
            r.downstream is None,
    {
        Self { id: id, downstream: None }
    }

    /// Makes `downstream` the node after this one.
    pub fn update_downstream(&mut self, downstream: Rc<Node>)
        ensures
            final(self).id == old(self).id,
            final(self).downstream == Some(downstream),
    {
        self.downstream = Some(downstream);
    }

    /// Another handle on the node after this one, if any.
    pub fn get_downstream(&self) -> (r: Option<Rc<Node>>)
        ensures
            r is None <==> self.downstream is None,
            r matches Some(d) ==> *d == *self.downstream->Some_0,
    {
        match &self.downstream {
            Some(v) => Some(share(v)),
            None => None,
        }
    }
}

/// Relies on `Rc::clone`: a new handle on the same node.
#[verifier::external_body]
fn share(v: &Rc<Node>) -> (r: Rc<Node>)
    ensures
        *r == **v,
{
    Rc::clone(v)
}

} // verus!

//! A visitor together with a record of what was handed to it.
use crate::decode::{Value, ValueV, Visitor};
use vstd::prelude::*;

verus! {

/// A [`Visitor`] with the values handed to it so far, each with its path, and
/// whether it accepted each. Only [`VisitLog::hand`] adds to the record, and
/// it does so by handing the value to the visitor.
pub struct VisitLog<V> {
    visitor: V,
    handed: Ghost<Seq<(Seq<char>, ValueV)>>,
    accepted: Ghost<Seq<bool>>,
}

impl<V: Visitor> VisitLog<V> {
    /// The values handed to the visitor so far, in order, each with its path.
    pub closed spec fn handed(&self) -> Seq<(Seq<char>, ValueV)> {
        self.handed@
    }

    /// For each value handed over, whether the visitor accepted it.
    pub closed spec fn accepted(&self) -> Seq<bool> {
        self.accepted@
    }

    /// The visitor itself.
    pub closed spec fn inner(&self) -> V {
        self.visitor
    }

    /// `visitor`, to which nothing has been handed yet.
    pub fn new(visitor: V) -> (log: Self)
        ensures
            log.handed() == Seq::<(Seq<char>, ValueV)>::empty(),
            log.accepted() == Seq::<bool>::empty(),
            log.inner() == visitor,
    {
        VisitLog { visitor, handed: Ghost(Seq::empty()), accepted: Ghost(Seq::empty()) }
    }

    /// Hands `value`, at `path`, to the visitor and returns its answer.
    pub fn hand(&mut self, path: &str, value: &Value) -> (r: Result<(), V::Error>)
        ensures
            final(self).handed() == old(self).handed().push((path@, value@)),
            final(self).accepted() == old(self).accepted().push(r is Ok),
    {
        let r = self.visitor.visit(path, value);
        self.handed = Ghost(self.handed@.push((path@, value@)));
        self.accepted = Ghost(self.accepted@.push(r is Ok));
        r
    }

    /// The visitor.
    pub fn visitor(&self) -> (v: &V)
        ensures
            *v == self.inner(),
    {
        &self.visitor
    }

    /// The visitor, the record dropped.
    pub fn into_visitor(self) -> (v: V)
        ensures
            v == self.inner(),
    {
        self.visitor
    }
}

} // verus!

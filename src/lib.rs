//! A persistent singly-linked list with structural sharing.
//!
//! Nodes are immutable and shared through reference counting, so many
//! handles may point into one common suffix. Each handle sees the list as
//! the sequence of values from its own node down to the terminal root.
use std::rc::Rc;
use vstd::prelude::*;

verus! {

/// A node of the list: the terminal root, or a value with a shared tail.
pub enum ConsImpl<T> {
    Element(T, Rc<ConsImpl<T>>),
    Root,
}

impl<T> ConsImpl<T> {
    /// The values from this node down to the root, nearest first.
    pub open spec fn values(self) -> Seq<T>
        decreases self,
    {
        match self {
            ConsImpl::Element(v, tail) => seq![v] + (*tail).values(),
            ConsImpl::Root => Seq::empty(),
        }
    }
}

/// The list seen one node further on; the empty list stays empty.
pub open spec fn step<T>(s: Seq<T>) -> Seq<T> {
    if s.len() == 0 {
        s
    } else {
        s.drop_first()
    }
}

/// The list seen after following `next` `k` times.
pub open spec fn steps<T>(s: Seq<T>, k: nat) -> Seq<T>
    decreases k,
{
    if k == 0 {
        s
    } else {
        step(steps(s, (k - 1) as nat))
    }
}

/// Following `next` `k` times drops the first `k` values, or all of them.
pub proof fn lemma_steps_skip<T>(s: Seq<T>, k: nat)
    ensures
        steps(s, k) == s.skip(if k <= s.len() { k as int } else { s.len() as int }),
    decreases k,
{
    if k == 0 {
        assert(s.skip(0) =~= s);
    } else {
        lemma_steps_skip(s, (k - 1) as nat);
        if k <= s.len() {
            assert(steps(s, (k - 1) as nat).drop_first() =~= s.skip(k as int));
        }
    }
}

/// A handle on one position of one version of the list.
pub struct Cons<T> {
    implementation: Rc<ConsImpl<T>>,
}

impl<T> View for Cons<T> {
    type V = Seq<T>;

    closed spec fn view(&self) -> Seq<T> {
        (*self.implementation).values()
    }
}

impl<T> Clone for Cons<T> {
    /// Another handle on the same node.
    fn clone(&self) -> (r: Self)
        ensures
            r@ == self@,
    {
        Cons { implementation: self.implementation.clone() }
    }
}

impl<T> Default for Cons<T> {
    /// A handle on a fresh root: the empty list.
    fn default() -> (r: Self)
        ensures
            r@ == Seq::<T>::empty(),
    {
        Cons { implementation: Rc::new(ConsImpl::Root) }
    }
}

impl<T> Cons<T> {
    /// A new handle whose node holds `new` in front of this handle's node,
    /// which it shares rather than copies.
    pub fn append(&self, new: T) -> (r: Self)
        ensures
            r@ == seq![new] + self@,
    {
        Cons { implementation: Rc::new(ConsImpl::Element(new, self.implementation.clone())) }
    }

    /// The value at this handle's node, or `None` at the root.
    pub fn get(&self) -> (r: Option<&T>)
        ensures
            r == (if self@.len() == 0 { None } else { Some(&self@[0]) }),
    {
        match &*self.implementation {
            ConsImpl::Root => None,
            ConsImpl::Element(t, _) => Some(t),
        }
    }

    /// A handle on the tail of this handle's node; at the root, a handle on
    /// that same root.
    pub fn next(&self) -> (r: Self)
        ensures
            r@ == step(self@),
    {
        Cons {
            implementation: match &*self.implementation {
                ConsImpl::Root => self.implementation.clone(),
                ConsImpl::Element(_, tail) => tail.clone(),
            },
        }
    }

    /// Whether this handle is on a root, that is, whether `get` gives `None`.
    pub fn is_root(&self) -> (r: bool)
        ensures
            r == (self@.len() == 0),
    {
        self.get().is_none()
    }
}

impl<T: Clone> Cons<T> {
    /// Splices out the node after this one, for this handle only: the handle
    /// is pointed at a new node holding a clone of its value, whose tail is
    /// the node two steps on. Nodes are never changed, so other handles that
    /// share them keep seeing the removed value. Where nothing follows this
    /// node, this does nothing.
    pub fn delete_next(&mut self)
        ensures
            step(old(self)@).len() == 0 ==> final(self)@ == old(self)@,
            step(old(self)@).len() != 0 ==> {
                &&& final(self)@.len() == old(self)@.len() - 1
                &&& cloned(old(self)@[0], final(self)@[0])
                &&& final(self)@.drop_first() == old(self)@.subrange(2, old(self)@.len() as int)
            },
    {
        if self.next().is_root() {
            return;
        }
        let after = self.next().next();
        let current = self.implementation.clone();
        if let ConsImpl::Element(t, _) = &*current {
            self.implementation = Rc::new(ConsImpl::Element(t.clone(), after.implementation));
        }
    }

    /// Puts a node holding `item` right after this one, for this handle only:
    /// the handle is pointed at a new node holding a clone of its value,
    /// whose tail is the new node, and that one's tail is the old tail. Where
    /// nothing follows this node, this does nothing.
    pub fn insert_next(&mut self, item: T)
        ensures
            step(old(self)@).len() == 0 ==> final(self)@ == old(self)@,
            step(old(self)@).len() != 0 ==> {
                &&& final(self)@.len() == old(self)@.len() + 1
                &&& cloned(old(self)@[0], final(self)@[0])
                &&& final(self)@.drop_first() == seq![item] + old(self)@.drop_first()
            },
    {
        if self.next().is_root() {
            return;
        }
        let tail = self.next();
        let current = self.implementation.clone();
        if let ConsImpl::Element(t, _) = &*current {
            let inserted = Cons { implementation: Rc::new(ConsImpl::Element(item, tail.implementation)) };
            self.implementation = Rc::new(ConsImpl::Element(t.clone(), inserted.implementation));
            assert(self@.drop_first() =~= inserted@);
        }
    }
}

/// From any handle, following `next` at least as many times as the list is
/// long ends on a root, where `get` gives `None` and `is_root` holds, and
/// following `next` any number of times more stays there.
pub proof fn lemma_next_reaches_root<T>(h: Cons<T>, k: nat, more: nat)
    requires
        k >= h@.len(),
    ensures
        steps(h@, k).len() == 0,
        steps(h@, k + more) == steps(h@, k),
        step(steps(h@, k)) == steps(h@, k),
{
    lemma_steps_skip(h@, k);
    lemma_steps_skip(h@, k + more);
}

/// Following `next` never meets a node twice: each step before the root
/// drops exactly one value, so after `k` steps the list holds `len - k`
/// values, and the root is reached after exactly as many steps as the list
/// has values, that is, as many as there were appends building it from a
/// root.
pub proof fn lemma_next_acyclic<T>(h: Cons<T>, k: nat)
    requires
        k <= h@.len(),
    ensures
        steps(h@, k).len() == h@.len() - k,
        k < h@.len() ==> steps(h@, k).len() > 0,
        steps(h@, h@.len()).len() == 0,
{
    lemma_steps_skip(h@, k);
    lemma_steps_skip(h@, h@.len());
}

/// Appending leaves the receiver as it was: following `next` from the new
/// handle gives back exactly the receiver's list.
pub proof fn lemma_append_keeps_receiver<T>(h: Cons<T>, v: T)
    ensures
        step(seq![v] + h@) == h@,
{
    assert((seq![v] + h@).drop_first() =~= h@);
}

} // verus!

use vstd::prelude::*;

verus! {

/// An outbox of events: appended in causal order, handed out most recent first.
pub struct Events<E> {
    events: Vec<E>,
}

impl<E> View for Events<E> {
    type V = Seq<E>;

    /// The pending events, oldest first.
    closed spec fn view(&self) -> Seq<E> {
        self.events@
    }
}

impl<E> Events<E> {
    pub fn new() -> (r: Self)
        ensures
            r@ == Seq::<E>::empty(),
    {
        Events { events: Vec::new() }
    }

    pub fn add(&mut self, event: E)
        ensures
            final(self)@ == old(self)@.push(event),
    {
        self.events.push(event);
    }

    /// Takes out the most recent pending event.
    pub fn next(&mut self) -> (r: Option<E>)
        ensures
            old(self)@.len() == 0 ==> r.is_none() && final(self)@ == old(self)@,
            old(self)@.len() > 0 ==> r == Some(old(self)@.last()) && final(self)@
                == old(self)@.drop_last(),
    {
        if self.events.len() > 0 {
            self.events.pop()
        } else {
            None
        }
    }

    pub fn clear(&mut self)
        ensures
            final(self)@ == Seq::<E>::empty(),
    {
        self.events.clear();
    }

    pub fn len(&self) -> (r: usize)
        ensures
            r == self@.len(),
    {
        self.events.len()
    }
}

impl<E> Default for Events<E> {
    fn default() -> (r: Self)
        ensures
            r@ == Seq::<E>::empty(),
    {
        Events::new()
    }
}

} // verus!

//! A stream with one item of lookahead.

use vstd::prelude::*;

verus! {

/// A stream of items into which one item that was taken can be put back.
pub struct PutBack<T> {
    /// What is left of the stream, the last item first.
    it: Vec<T>,
    slot: Option<T>,
}

impl<T> View for PutBack<T> {
    type V = Seq<T>;

    /// The items that are still to come, in the order in which `next` hands
    /// them out.
    closed spec fn view(&self) -> Seq<T> {
        match self.slot {
            Some(s) => seq![s] + self.it@.reverse(),
            None => self.it@.reverse(),
        }
    }
}

impl<T> PutBack<T> {
    /// Whether an item was put back and not taken again.
    pub closed spec fn on_deck(&self) -> bool {
        self.slot is Some
    }

    /// A stream that hands out the items of `it` in order.
    pub fn new(it: Vec<T>) -> (p: Self)
        ensures
            p@ == it@,
            !p.on_deck(),
    {
        let mut src = it;
        let mut rev: Vec<T> = Vec::new();
        while src.len() > 0
            invariant
                src@ + rev@.reverse() == it@,
            decreases src.len(),
        {
            let ghost before = src@;
            let ghost done = rev@;
            let x = src.pop().unwrap();
            rev.push(x);
            assert(src@ + rev@.reverse() =~= before + done.reverse());
        }
        assert(rev@.reverse() =~= it@);
        Self { it: rev, slot: None }
    }

    /// Takes the next item: the one that was put back, or else the next of
    /// the stream.
    pub fn next(&mut self) -> (item: Option<T>)
        ensures
            !final(self).on_deck(),
            old(self)@.len() == 0 ==> item is None && final(self)@ == old(self)@,
            old(self)@.len() > 0 ==> item == Some(old(self)@[0]) && final(self)@ == old(
                self,
            )@.drop_first(),
    {
        match self.slot.take() {
            Some(s) => {
                assert(self@ =~= old(self)@.drop_first());
                Some(s)
            },
            None => {
                let item = self.it.pop();
                assert(self@ =~= (if old(self)@.len() > 0 {
                    old(self)@.drop_first()
                } else {
                    old(self)@
                }));
                item
            },
        }
    }

    /// Puts an item back: it is the next to be taken. No item may be on
    /// deck already.
    pub fn put_back(&mut self, s: T)
        requires
            !old(self).on_deck(),
        ensures
            final(self).on_deck(),
            final(self)@ == seq![s] + old(self)@,
    {
        self.slot = Some(s);
    }
}

} // verus!

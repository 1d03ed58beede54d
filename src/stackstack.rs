//! `StackStack64`: a stack of at most `STACKSTACK64_MAX` words held inline.
use vstd::prelude::*;

verus! {

pub const STACKSTACK64_MAX: usize = 320;

/// A stack of words in a fixed array; `stack[0..next]` holds the items, oldest first.
#[derive(PartialOrd, Ord, Clone, Copy, PartialEq, Eq, Debug)]
pub struct StackStack64 {
    pub next: usize,
    pub stack: [u64; STACKSTACK64_MAX],
}

impl View for StackStack64 {
    type V = Seq<u64>;

    open spec fn view(&self) -> Seq<u64> {
        self.stack@.take(self.next as int)
    }
}

impl StackStack64 {
    pub open spec fn wf(&self) -> bool {
        self.next <= STACKSTACK64_MAX
    }

    pub fn new() -> (r: StackStack64)
        ensures
            r.wf(),
            r.next == 0,
            r@ == Seq::<u64>::empty(),
    {
        let r = StackStack64 { next: 0, stack: [0u64; STACKSTACK64_MAX] };
        assert(r@ =~= Seq::<u64>::empty());
        r
    }

    pub fn push(&mut self, d: u64)
        requires
            old(self).wf(),
            old(self).next < STACKSTACK64_MAX,
        ensures
            final(self).wf(),
            final(self).next == old(self).next + 1,
            final(self)@ == old(self)@.push(d),
    {
        self.stack[self.next] = d;
        self.next += 1;
        assert(self@ =~= old(self)@.push(d));
    }

    pub fn pop(&mut self) -> (r: u64)
        requires
            old(self).wf(),
            old(self).next > 0,
        ensures
            final(self).wf(),
            final(self)@ == old(self)@.drop_last(),
            r == old(self)@.last(),
    {
        self.next -= 1;
        assert(self@ =~= old(self)@.drop_last());
        self.stack[self.next]
    }

    pub fn len(&self) -> (r: usize)
        ensures
            r == self.next,
    {
        self.next
    }

    pub fn clear(&mut self)
        ensures
            final(self).wf(),
            final(self).next == 0,
            final(self)@ == Seq::<u64>::empty(),
            final(self).stack == old(self).stack,
    {
        self.next = 0;
        assert(self@ =~= Seq::<u64>::empty());
    }
}

} // verus!

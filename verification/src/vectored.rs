//! A vectored write that is carried to its end: a sink may take only a part
//! of the slices it is handed, and is then handed what is left.

use vstd::prelude::*;
use crate::slices::{concat, lemma_concat_first, slices_view};

verus! {

/// The slices of one write and how far the sink has come with them.
pub struct VectoredWrite<'a> {
    slices: Vec<&'a [u8]>,
    /// Index of the first slice that the sink has not taken whole.
    start: usize,
}

impl<'a> VectoredWrite<'a> {
    /// The slice at `start`, if there is one, still has bytes to write.
    pub closed spec fn wf(&self) -> bool {
        &&& self.start <= self.slices@.len()
        &&& self.start < self.slices@.len() ==> self.slices@[self.start as int]@.len() > 0
    }

    /// The bytes that the sink has not taken yet.
    pub closed spec fn remaining(&self) -> Seq<u8> {
        concat(slices_view(self.slices@).skip(self.start as int))
    }

    /// A write of `slices`, of which nothing has been written.
    pub fn new(slices: Vec<&'a [u8]>) -> (w: Self)
        ensures
            w.wf(),
            w.remaining() == concat(slices_view(slices@)),
    {
        let mut start: usize = 0;
        assert(slices_view(slices@).skip(0) =~= slices_view(slices@));
        while start < slices.len() && slices[start].len() == 0
            invariant
                start <= slices@.len(),
                concat(slices_view(slices@).skip(start as int)) == concat(slices_view(slices@)),
            decreases slices@.len() - start,
        {
            proof {
                lemma_concat_first(slices_view(slices@).skip(start as int));
                assert(slices_view(slices@).skip(start as int).skip(1) =~= slices_view(
                    slices@,
                ).skip(start + 1));
            }
            start = start + 1;
        }
        VectoredWrite { slices, start }
    }

    /// Whether the sink has taken every byte.
    pub fn is_done(&self) -> (done: bool)
        requires
            self.wf(),
        ensures
            done <==> self.remaining().len() == 0,
    {
        proof {
            if self.start < self.slices@.len() {
                lemma_concat_first(slices_view(self.slices@).skip(self.start as int));
            }
        }
        self.start == self.slices.len()
    }

    /// The slices to hand to the sink next. The first of them is not empty.
    pub fn pending(&self) -> (slices: &[&'a [u8]])
        requires
            self.wf(),
        ensures
            concat(slices_view(slices@)) == self.remaining(),
            slices@.len() > 0 ==> slices@[0]@.len() > 0,
            slices@.len() == 0 <==> self.remaining().len() == 0,
    {
        let all = self.slices.as_slice();
        let slices = &all[self.start..all.len()];
        proof {
            assert(slices_view(slices@) =~= slices_view(self.slices@).skip(self.start as int));
            if self.start < self.slices@.len() {
                lemma_concat_first(slices_view(self.slices@).skip(self.start as int));
            }
        }
        slices
    }

    /// Takes note that the sink took `did_write` bytes of the pending
    /// slices: slices that it took whole are passed over, and a slice that
    /// it took in part keeps what is left of it. Returns `false`, with
    /// nothing changed, where `did_write` is more than was pending.
    pub fn advance(&mut self, did_write: usize) -> (ok: bool)
        requires
            old(self).wf(),
        ensures
            final(self).wf(),
            ok <==> did_write <= old(self).remaining().len(),
            ok ==> final(self).remaining() == old(self).remaining().skip(did_write as int),
            !ok ==> final(self).remaining() == old(self).remaining(),
    {
        let ghost view = slices_view(self.slices@);
        let ghost pending = self.remaining();
        let mut i: usize = self.start;
        let mut left: usize = did_write;
        assert(pending.skip(0) =~= pending);
        // Pass over the slices that were written whole.
        while i < self.slices.len() && left >= self.slices[i].len()
            invariant
                self.start <= i <= self.slices@.len(),
                left <= did_write,
                did_write - left <= pending.len(),
                concat(view.skip(i as int)) == pending.skip(did_write - left),
                view == slices_view(self.slices@),
                pending == self.remaining(),
                *self == *old(self),
            decreases self.slices@.len() - i,
        {
            proof {
                lemma_concat_first(view.skip(i as int));
                assert(view.skip(i as int).skip(1) =~= view.skip(i + 1));
                assert(view.skip(i as int)[0] == self.slices@[i as int]@);
                assert(pending.skip(did_write - left).skip(self.slices@[i as int]@.len() as int)
                    =~= pending.skip(did_write - left + self.slices@[i as int]@.len()));
                assert(concat(view.skip(i + 1)) =~= concat(view.skip(i as int)).skip(
                    self.slices@[i as int]@.len() as int,
                ));
            }
            left = left - self.slices[i].len();
            i = i + 1;
        }
        if i == self.slices.len() {
            assert(view.skip(i as int) =~= Seq::<Seq<u8>>::empty());
            if left > 0 {
                return false;
            }
            self.start = i;
            assert(pending.skip(did_write as int) =~= Seq::<u8>::empty());
            return true;
        }
        proof {
            lemma_concat_first(view.skip(i as int));
            assert(view.skip(i as int).skip(1) =~= view.skip(i + 1));
            assert(view.skip(i as int)[0] == self.slices@[i as int]@);
        }
        // Keep what is left of a slice that was written in part.
        let slice: &'a [u8] = self.slices[i];
        let tail: &'a [u8] = &slice[left..slice.len()];
        self.slices[i] = tail;
        self.start = i;
        proof {
            let after = slices_view(self.slices@);
            assert(after.skip(i as int).skip(1) =~= view.skip(i + 1));
            assert(after.skip(i as int)[0] == tail@);
            lemma_concat_first(after.skip(i as int));
            assert(tail@ + concat(view.skip(i + 1)) =~= (slice@ + concat(view.skip(i + 1))).skip(
                left as int,
            ));
            assert(pending.skip(did_write - left).skip(left as int) =~= pending.skip(
                did_write as int,
            ));
        }
        true
    }
}

} // verus!

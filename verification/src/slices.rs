//! Lists of byte slices, as a vectored write takes them, and the bytes that
//! they hold.

use vstd::prelude::*;

verus! {

/// The contents of a list of slices.
pub open spec fn slices_view(slices: Seq<&[u8]>) -> Seq<Seq<u8>> {
    Seq::new(slices.len(), |i: int| slices[i]@)
}

/// The bytes of `slices`, one slice after the other.
pub open spec fn concat(slices: Seq<Seq<u8>>) -> Seq<u8>
    decreases slices.len(),
{
    if slices.len() == 0 {
        Seq::empty()
    } else {
        concat(slices.drop_last()) + slices.last()
    }
}

/// The bytes of a list of slices start with its first slice.
pub proof fn lemma_concat_first(slices: Seq<Seq<u8>>)
    requires
        slices.len() > 0,
    ensures
        concat(slices) == slices[0] + concat(slices.skip(1)),
    decreases slices.len(),
{
    if slices.len() == 1 {
        assert(slices.drop_last() =~= Seq::<Seq<u8>>::empty());
        assert(slices.skip(1) =~= Seq::<Seq<u8>>::empty());
        assert(concat(slices) =~= slices[0] + concat(slices.skip(1)));
    } else {
        lemma_concat_first(slices.drop_last());
        assert(slices.drop_last().skip(1) =~= slices.skip(1).drop_last());
        assert(slices.drop_last()[0] == slices[0]);
        assert(slices.skip(1).last() == slices.last());
        assert(concat(slices) =~= slices[0] + concat(slices.skip(1)));
    }
}

/// The bytes of two lists of slices, one after the other, are the bytes of
/// the first list followed by those of the second.
pub proof fn lemma_concat_add(a: Seq<Seq<u8>>, b: Seq<Seq<u8>>)
    ensures
        concat(a + b) == concat(a) + concat(b),
    decreases b.len(),
{
    if b.len() == 0 {
        assert(a + b =~= a);
        assert(concat(a + b) =~= concat(a) + concat(b));
    } else {
        lemma_concat_add(a, b.drop_last());
        assert((a + b).drop_last() =~= a + b.drop_last());
        assert((a + b).last() == b.last());
        assert(concat(a + b) =~= concat(a) + concat(b));
    }
}

} // verus!

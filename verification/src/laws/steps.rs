//! Laws of walking over symbols step by step.

use vstd::prelude::*;

use crate::iter::{AccessUnsigned, WTIterator};

verus! {

/// A step from the front of a walk over symbols that can all be read gives the first
/// of them, and leaves the others.
pub proof fn front_step<'a, Q: AccessUnsigned>(
    it: &mut WTIterator<'a, Q>,
    before: Vec<Q::Item>,
    r: Option<Q::Item>,
    after: Vec<Q::Item>,
)
    requires
        forall|j: int|
            0 <= j < old(it).remaining().len() ==> (#[trigger] old(it).remaining()[j]) is Some,
        call_ensures(WTIterator::<'a, Q>::collect, (*old(it),), before),
        call_ensures(WTIterator::<'a, Q>::next, (it,), r),
        call_ensures(WTIterator::<'a, Q>::collect, (*final(it),), after),
    ensures
        r is Some <==> before.len() > 0,
        before.len() > 0 ==> r == Some(before[0]) && after@ == before@.drop_first(),
        before.len() == 0 ==> after.len() == 0,
{
    lemma_collected(old(it).remaining(), before@);
    assert forall|j: int| 0 <= j < final(it).remaining().len() implies (
    #[trigger] final(it).remaining()[j]) is Some by {
        if old(it).remaining().len() > 0 {
            assert(final(it).remaining()[j] == old(it).remaining()[j + 1]);
        }
    }
    lemma_collected(final(it).remaining(), after@);
    if before.len() > 0 {
        assert forall|j: int| 0 <= j < after.len() implies after[j] == before[j + 1] by {
            assert(final(it).remaining()[j] == Some(after[j]));
            assert(old(it).remaining()[j + 1] == Some(before[j + 1]));
        }
        assert(old(it).remaining()[0] == Some(before[0]));
        assert(after@ =~= before@.drop_first());
    }
}

/// A step from the back gives the last of them.
pub proof fn back_step<'a, Q: AccessUnsigned>(
    it: &mut WTIterator<'a, Q>,
    before: Vec<Q::Item>,
    r: Option<Q::Item>,
    after: Vec<Q::Item>,
)
    requires
        forall|j: int|
            0 <= j < old(it).remaining().len() ==> (#[trigger] old(it).remaining()[j]) is Some,
        call_ensures(WTIterator::<'a, Q>::collect, (*old(it),), before),
        call_ensures(WTIterator::<'a, Q>::next_back, (it,), r),
        call_ensures(WTIterator::<'a, Q>::collect, (*final(it),), after),
    ensures
        r is Some <==> before.len() > 0,
        before.len() > 0 ==> r == Some(before@.last()) && after@ == before@.drop_last(),
        before.len() == 0 ==> after.len() == 0,
{
    lemma_collected(old(it).remaining(), before@);
    assert forall|j: int| 0 <= j < final(it).remaining().len() implies (
    #[trigger] final(it).remaining()[j]) is Some by {
        if old(it).remaining().len() > 0 {
            assert(final(it).remaining()[j] == old(it).remaining()[j]);
        }
    }
    lemma_collected(final(it).remaining(), after@);
    if before.len() > 0 {
        assert forall|j: int| 0 <= j < after.len() implies after[j] == before[j] by {
            assert(final(it).remaining()[j] == Some(after[j]));
            assert(old(it).remaining()[j] == Some(before[j]));
        }
        assert(old(it).remaining()[before.len() - 1] == Some(before[before.len() - 1]));
        assert(after@ =~= before@.drop_last());
    }
}

/// All of what can be read is collected.
proof fn lemma_collected<A>(remaining: Seq<Option<A>>, out: Seq<A>)
    requires
        forall|j: int| 0 <= j < remaining.len() ==> (#[trigger] remaining[j]) is Some,
        out.len() <= remaining.len(),
        out.len() < remaining.len() ==> remaining[out.len() as int] is None,
    ensures
        out.len() == remaining.len(),
{
}

} // verus!

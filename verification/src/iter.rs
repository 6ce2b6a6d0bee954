//! Walking over the symbols of a sequence.

use vstd::prelude::*;

verus! {

/// Sequences that can be read at a position.
pub trait AccessUnsigned {
    type Item;

    /// The number of symbols.
    spec fn symbol_count(&self) -> nat;

    /// What reading position `i` gives.
    spec fn symbol_at(&self, i: int) -> Option<Self::Item>;

    spec fn access_wf(&self) -> bool;

    /// The number of symbols.
    fn sequence_len(&self) -> (n: usize)
        requires
            self.access_wf(),
        ensures
            n == self.symbol_count(),
    ;

    /// The symbol at position `i`.
    fn symbol(&self, i: usize) -> (r: Option<Self::Item>)
        requires
            self.access_wf(),
            i < self.symbol_count(),
        ensures
            r == self.symbol_at(i as int),
    ;
}

/// What reading the positions in order gives.
pub open spec fn symbols_of<Q: AccessUnsigned>(q: &Q) -> Seq<Option<Q::Item>> {
    Seq::new(q.symbol_count(), |i: int| q.symbol_at(i))
}

/// A walk over the symbols of a sequence from both ends.
pub struct WTIterator<'a, Q> {
    i: usize,
    end: usize,
    qwt: &'a Q,
}

impl<'a, Q: AccessUnsigned> WTIterator<'a, Q> {
    pub closed spec fn wf(&self) -> bool {
        &&& self.qwt.access_wf()
        &&& self.i <= self.end <= self.qwt.symbol_count()
    }

    /// What is still to come.
    pub closed spec fn remaining(&self) -> Seq<Option<Q::Item>> {
        symbols_of(self.qwt).subrange(self.i as int, self.end as int)
    }

    /// A walk over the whole sequence.
    pub fn new(qwt: &'a Q) -> (it: Self)
        requires
            qwt.access_wf(),
        ensures
            it.wf(),
            it.remaining() == symbols_of(qwt),
    {
        let it = WTIterator { i: 0, end: qwt.sequence_len(), qwt };
        assert(it.remaining() =~= symbols_of(qwt));
        it
    }

    /// The next symbol from the front.
    pub fn next(&mut self) -> (r: Option<Q::Item>)
        requires
            old(self).wf(),
        ensures
            final(self).wf(),
            if old(self).remaining().len() > 0 {
                &&& r == old(self).remaining().first()
                &&& final(self).remaining() == old(self).remaining().drop_first()
            } else {
                &&& r is None
                &&& final(self).remaining() == old(self).remaining()
            },
    {
        if self.i < self.end {
            let r = self.qwt.symbol(self.i);
            self.i = self.i + 1;
            assert(self.remaining() =~= old(self).remaining().drop_first());
            r
        } else {
            None
        }
    }

    /// The next symbol from the back.
    pub fn next_back(&mut self) -> (r: Option<Q::Item>)
        requires
            old(self).wf(),
        ensures
            final(self).wf(),
            if old(self).remaining().len() > 0 {
                &&& r == old(self).remaining().last()
                &&& final(self).remaining() == old(self).remaining().drop_last()
            } else {
                &&& r is None
                &&& final(self).remaining() == old(self).remaining()
            },
    {
        if self.i < self.end {
            self.end = self.end - 1;
            assert(self.remaining() =~= old(self).remaining().drop_last());
            self.qwt.symbol(self.end)
        } else {
            None
        }
    }

    /// The symbols that are still to come, up to the first that cannot be read.
    pub fn collect(self) -> (v: Vec<Q::Item>)
        requires
            self.wf(),
        ensures
            v.len() <= self.remaining().len(),
            forall|j: int| 0 <= j < v.len() ==> self.remaining()[j] == Some(#[trigger] v[j]),
            v.len() < self.remaining().len() ==> self.remaining()[v.len() as int] is None,
    {
        let mut v: Vec<Q::Item> = Vec::new();
        let mut at: usize = self.i;
        while at < self.end
            invariant
                self.wf(),
                self.i <= at <= self.end,
                v.len() == at - self.i,
                forall|j: int| 0 <= j < v.len() ==> self.remaining()[j] == Some(#[trigger] v[j]),
            decreases self.end - at,
        {
            match self.qwt.symbol(at) {
                Some(symbol) => {
                    v.push(symbol);
                },
                None => {
                    return v;
                },
            }
            at = at + 1;
        }
        v
    }
}

} // verus!

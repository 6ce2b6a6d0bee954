//! Checking that the sections of a level agree with its rows.

use vstd::prelude::*;

use super::encoder::{
    joined, none_taken, summarizes, LevelEncoder, LevelOutput, LevelSummary, MAX_LEVEL_ROWS,
};
use super::image::{
    data_bits, encodes_level, lemma_data_unique, lemma_row_at, lemma_rows_len, line_count, rows_of,
    sample_list, super_bytes, super_count, u32_bytes,
};
use super::level::row_at;

verus! {

/// Compares a section with bytes that come in piece by piece.
struct PrefixCheck<'a> {
    section: &'a [u8],
    at: usize,
    ok: bool,
    seen: Ghost<Seq<u8>>,
}

impl<'a> PrefixCheck<'a> {
    spec fn wf(&self) -> bool {
        &&& self.ok == self.seen@.is_prefix_of(self.section@)
        &&& self.ok ==> self.at == self.seen@.len()
    }

    fn new(section: &'a [u8]) -> (c: Self)
        ensures
            c.wf(),
            c.section == section,
            c.seen@ == Seq::<u8>::empty(),
    {
        PrefixCheck { section, at: 0, ok: true, seen: Ghost(Seq::empty()) }
    }

    fn feed(&mut self, piece: &Vec<u8>)
        requires
            old(self).wf(),
        ensures
            final(self).wf(),
            final(self).section == old(self).section,
            final(self).seen@ == old(self).seen@ + piece@,
    {
        let ghost before = self.seen@;
        let ghost after = before + piece@;
        self.seen = Ghost(after);
        if !self.ok {
            proof {
                if after.is_prefix_of(self.section@) {
                    assert forall|i: int| 0 <= i < before.len() implies before[i]
                        == self.section@[i] by {
                        assert(after[i] == self.section@[i]);
                    }
                    assert(before =~= self.section@.subrange(0, before.len() as int));
                }
            }
            return;
        }
        let total: usize = self.section.len();
        if piece.len() > total - self.at {
            self.ok = false;
            return;
        }
        let mut i: usize = 0;
        while i < piece.len()
            invariant
                i <= piece.len(),
                before.is_prefix_of(self.section@),
                self.at == before.len(),
                after == before + piece@,
                self.seen@ == after,
                before == old(self).seen@,
                total == self.section@.len(),
                after.len() <= total,
                self.section == old(self).section,
                self.ok,
                forall|j: int| 0 <= j < i ==> piece@[j] == self.section@[before.len() + j],
            decreases piece.len() - i,
        {
            if piece[i] != self.section[self.at + i] {
                self.ok = false;
                assert(after[before.len() + i] != self.section@[before.len() + i]);
                return;
            }
            i = i + 1;
        }
        self.at = self.at + piece.len();
        proof {
            assert forall|j: int| 0 <= j < after.len() implies after[j] == self.section@[j] by {
                if j < before.len() {
                    assert(before[j] == self.section@[j]);
                } else {
                    assert(piece@[j - before.len()] == self.section@[before.len() + (j
                        - before.len())]);
                }
            }
            assert(after =~= self.section@.subrange(0, after.len() as int));
        }
    }

    /// Whether the pieces are the whole section.
    fn complete(&self) -> (r: bool)
        requires
            self.wf(),
        ensures
            r == (self.seen@ == self.section@),
    {
        let r: bool = self.ok && self.at == self.section.len();
        proof {
            if r {
                assert(self.seen@ =~= self.section@);
            }
        }
        r
    }
}

/// What an audit found: a summary of the rows, and which sections are theirs.
pub struct LevelAudit {
    pub summary: LevelSummary,
    pub data_ok: bool,
    pub superblocks_ok: bool,
    pub select_ok: bool,
}

/// Checks of the select sections.
struct SelectChecks<'a> {
    c0: PrefixCheck<'a>,
    c1: PrefixCheck<'a>,
    c2: PrefixCheck<'a>,
    c3: PrefixCheck<'a>,
}

impl<'a> SelectChecks<'a> {
    spec fn wf(&self) -> bool {
        self.c0.wf() && self.c1.wf() && self.c2.wf() && self.c3.wf()
    }

    spec fn seen(&self) -> Seq<Seq<u8>> {
        seq![self.c0.seen@, self.c1.seen@, self.c2.seen@, self.c3.seen@]
    }

    spec fn sections(&self) -> Seq<Seq<u8>> {
        seq![self.c0.section@, self.c1.section@, self.c2.section@, self.c3.section@]
    }

    fn feed(&mut self, pieces: &Vec<Vec<u8>>)
        requires
            old(self).wf(),
            pieces.len() == 4,
        ensures
            final(self).wf(),
            final(self).sections() == old(self).sections(),
            final(self).seen() == joined(old(self).seen(), pieces@),
    {
        self.c0.feed(&pieces[0]);
        self.c1.feed(&pieces[1]);
        self.c2.feed(&pieces[2]);
        self.c3.feed(&pieces[3]);
        assert(self.seen() =~= joined(old(self).seen(), pieces@));
    }

    fn complete(&self) -> (r: bool)
        requires
            self.wf(),
        ensures
            r == (self.seen() == self.sections()),
    {
        let r: bool = self.c0.complete() && self.c1.complete() && self.c2.complete()
            && self.c3.complete();
        proof {
            if self.seen() == self.sections() {
                assert(self.seen()[0] == self.sections()[0]);
                assert(self.seen()[1] == self.sections()[1]);
                assert(self.seen()[2] == self.sections()[2]);
                assert(self.seen()[3] == self.sections()[3]);
            }
        }
        r
    }
}

/// Encodes the rows of the data lines anew, in pieces, and compares.
pub fn audit_level(
    b512: bool,
    n: usize,
    data: &[u8],
    superblocks: &[u8],
    select: [&[u8]; 4],
) -> (r: LevelAudit)
    requires
        n <= MAX_LEVEL_ROWS,
        data@.len() == 64 * line_count(n as int),
    ensures
        ({
            let rows = rows_of(data@, n as int);
            &&& summarizes(r.summary, rows, b512)
            &&& r.data_ok == data_bits(rows, data@)
            &&& r.superblocks_ok == (superblocks@ == super_bytes(
                rows,
                b512,
                super_count(n as int, b512),
            ))
            &&& r.select_ok == (forall|d: int|
                0 <= d < 4 ==> #[trigger] select@[d]@ == u32_bytes(
                    sample_list(rows, b512, d as u8),
                ))
        }),
{
    let ghost rows = rows_of(data@, n as int);
    proof {
        lemma_rows_len(data@, n as int);
    }
    let mut enc = LevelEncoder::new(b512);
    let mut data_check = PrefixCheck::new(data);
    let mut super_check = PrefixCheck::new(superblocks);
    let mut select_checks = SelectChecks {
        c0: PrefixCheck::new(select[0]),
        c1: PrefixCheck::new(select[1]),
        c2: PrefixCheck::new(select[2]),
        c3: PrefixCheck::new(select[3]),
    };
    let ghost sections = select_checks.sections();
    let mut p: usize = 0;
    proof {
        assert(rows.take(0) =~= Seq::<u8>::empty());
        assert(select_checks.seen() =~= none_taken());
    }
    while p < n
        invariant
            p <= n,
            n <= MAX_LEVEL_ROWS,
            data@.len() == 64 * line_count(n as int),
            rows == rows_of(data@, n as int),
            rows.len() == n,
            enc.wf(),
            enc.wide() == b512,
            enc.rows() == rows.take(p as int),
            data_check.wf(),
            data_check.section == data,
            data_check.seen@ == enc.taken_data(),
            super_check.wf(),
            super_check.section == superblocks,
            super_check.seen@ == enc.taken_superblocks(),
            select_checks.wf(),
            select_checks.sections() == sections,
            select_checks.seen() == enc.taken_select(),
        decreases n - p,
    {
        let digit: u8 = row_at(data, p);
        proof {
            lemma_row_at(data@, n as int, p as int);
            assert(rows.take(p + 1) =~= rows.take(p as int).push(digit));
        }
        let pushed = enc.push(digit, p as u64);
        assert(pushed is Ok);
        p = p + 1;
        if p % 2048 == 0 {
            let out: LevelOutput = enc.take_output();
            data_check.feed(&out.data);
            super_check.feed(&out.superblocks);
            select_checks.feed(&out.select);
        }
    }
    assert(rows.take(n as int) =~= rows);
    let ghost taken = enc.taken_data();
    let ghost taken_super = enc.taken_superblocks();
    let ghost taken_select = enc.taken_select();
    match enc.finish(n as u64) {
        Ok((out, summary)) => {
            data_check.feed(&out.data);
            super_check.feed(&out.superblocks);
            select_checks.feed(&out.select);
            let data_ok: bool = data_check.complete();
            let superblocks_ok: bool = super_check.complete();
            let select_ok: bool = select_checks.complete();
            proof {
                let whole = taken + out.data@;
                let sel = joined(taken_select, out.select@);
                assert(encodes_level(
                    rows,
                    b512,
                    whole,
                    taken_super + out.superblocks@,
                    sel,
                ));
                if data_bits(rows, data@) {
                    lemma_data_unique(rows, whole, data@);
                }
                assert forall|d: int| 0 <= d < 4 implies #[trigger] sections[d] == select@[d]@ by {}
                if select_ok {
                    assert forall|d: int| 0 <= d < 4 implies #[trigger] select@[d]@ == u32_bytes(
                        sample_list(rows, b512, d as u8),
                    ) by {
                        assert(sections[d] == sel[d]);
                    }
                }
                if forall|d: int|
                    0 <= d < 4 ==> #[trigger] select@[d]@ == u32_bytes(
                        sample_list(rows, b512, d as u8),
                    ) {
                    assert forall|d: int| 0 <= d < 4 implies sections[d] == sel[d] by {
                        assert(select@[d]@ == u32_bytes(sample_list(rows, b512, d as u8)));
                    }
                    assert(sections =~= sel);
                }
            }
            LevelAudit { summary, data_ok, superblocks_ok, select_ok }
        },
        Err(_) => vstd::pervasive::unreached(),
    }
}

} // verus!

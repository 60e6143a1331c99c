//! A process trace: an ordered list of bursts, each burst an ordered list
//! of page references made within one quantum. The trace also records the
//! set of distinct pages it ever references, used both as the process's
//! weight under the proportional policies and for bulk cleanup when the
//! trace is exhausted.

use vstd::prelude::*;

verus! {

/// Whether page `p` occurs anywhere in the bursts `bs`.
pub open spec fn trace_has_page(bs: Seq<Seq<usize>>, p: usize) -> bool {
    exists|i: int, j: int| 0 <= i < bs.len() && 0 <= j < bs[i].len() && bs[i][j] == p
}

/// The number of page references remaining in `bs`.
pub open spec fn trace_accesses(bs: Seq<Seq<usize>>) -> nat
    decreases bs.len(),
{
    if bs.len() == 0 {
        0
    } else {
        bs[0].len() + trace_accesses(bs.drop_first())
    }
}

/// A page occurs in a trace exactly when it occurs in the first burst
/// or somewhere in the rest; an empty trace holds no page at all.
pub proof fn lemma_trace_has_page_step(bs: Seq<Seq<usize>>, p: usize)
    ensures
        bs.len() > 0 ==> (trace_has_page(bs, p) <==> (bs[0].contains(p) || trace_has_page(
            bs.drop_first(),
            p,
        ))),
        bs.len() == 0 ==> !trace_has_page(bs, p),
{
    if bs.len() > 0 {
        if trace_has_page(bs, p) {
            let (i, j) = choose|i: int, j: int|
                0 <= i < bs.len() && 0 <= j < bs[i].len() && bs[i][j] == p;
            if i > 0 {
                assert(bs.drop_first()[i - 1][j] == p);
            }
        }
        if bs[0].contains(p) {
            let j = choose|j: int| 0 <= j < bs[0].len() && bs[0][j] == p;
            assert(bs[0][j] == p);
        }
        if trace_has_page(bs.drop_first(), p) {
            let (i, j) = choose|i: int, j: int|
                0 <= i < bs.drop_first().len() && 0 <= j < bs.drop_first()[i].len()
                    && bs.drop_first()[i][j] == p;
            assert(bs[i + 1][j] == p);
        }
    }
}

/// A count of references is never negative.
pub proof fn lemma_trace_accesses_nonneg(bs: Seq<Seq<usize>>)
    ensures
        trace_accesses(bs) >= 0,
    decreases bs.len(),
{
    if bs.len() > 0 {
        lemma_trace_accesses_nonneg(bs.drop_first());
    }
}

/// A deterministic trace of page references, consumed one burst at a time.
#[derive(Debug)]
pub struct Process {
    calls: Vec<Vec<usize>>,
    used_pages: Vec<usize>,
    pages_count: usize,
}

impl Process {
    /// The bursts still to be consumed, oldest first.
    pub closed spec fn bursts(&self) -> Seq<Seq<usize>> {
        self.calls@.map_values(|b: Vec<usize>| b@)
    }

    /// The distinct pages this process ever references.
    pub closed spec fn pages(&self) -> Seq<usize> {
        self.used_pages@
    }

    /// The recorded distinct-page count.
    pub closed spec fn page_count_spec(&self) -> usize {
        self.pages_count
    }

    /// Well-formed: the page list holds no duplicates, counts itself
    /// correctly, and covers every page of the remaining trace.
    pub open spec fn wf(&self) -> bool {
        &&& forall|i: int, j: int|
            0 <= i < j < self.pages().len() ==> self.pages()[i] != self.pages()[j]
        &&& self.page_count_spec() == self.pages().len()
        &&& forall|i: int, j: int|
            0 <= i < self.bursts().len() && 0 <= j < self.bursts()[i].len()
                ==> self.pages().contains(#[trigger] self.bursts()[i][j])
    }

    /// Builds a trace from its bursts, collecting the distinct pages.
    pub fn from_bursts(calls: Vec<Vec<usize>>) -> (r: Process)
        ensures
            r.wf(),
            r.bursts() == calls@.map_values(|b: Vec<usize>| b@),
            forall|p: usize| r.pages().contains(p) <==> trace_has_page(r.bursts(), p),
    {
        let ghost bs = calls@.map_values(|b: Vec<usize>| b@);
        let mut used_pages: Vec<usize> = Vec::new();
        let mut i: usize = 0;
        while i < calls.len()
            invariant
                0 <= i <= calls@.len(),
                bs == calls@.map_values(|b: Vec<usize>| b@),
                forall|a: int, b: int|
                    0 <= a < b < used_pages@.len() ==> used_pages@[a] != used_pages@[b],
                forall|p: usize|
                    used_pages@.contains(p) <==> exists|a: int, b: int|
                        0 <= a < i && 0 <= b < bs[a].len() && bs[a][b] == p,
            decreases calls@.len() - i,
        {
            let burst = &calls[i];
            let mut j: usize = 0;
            while j < burst.len()
                invariant
                    0 <= i < calls@.len(),
                    0 <= j <= burst@.len(),
                    burst@ == bs[i as int],
                    bs == calls@.map_values(|b: Vec<usize>| b@),
                    forall|a: int, b: int|
                        0 <= a < b < used_pages@.len() ==> used_pages@[a] != used_pages@[b],
                    forall|p: usize|
                        used_pages@.contains(p) <==> (exists|a: int, b: int|
                            0 <= a < i && 0 <= b < bs[a].len() && bs[a][b] == p) || (exists|b: int|
                            0 <= b < j && bs[i as int][b] == p),
                decreases burst@.len() - j,
            {
                let page = burst[j];
                let mut seen = false;
                let mut k: usize = 0;
                while k < used_pages.len()
                    invariant
                        0 <= k <= used_pages@.len(),
                        seen <==> exists|c: int| 0 <= c < k && used_pages@[c] == page,
                    decreases used_pages@.len() - k,
                {
                    if used_pages[k] == page {
                        seen = true;
                    }
                    k += 1;
                }
                assert(seen <==> used_pages@.contains(page));
                let ghost up0 = used_pages@;
                assert(forall|p: usize|
                    up0.contains(p) <==> (exists|a: int, b: int|
                        0 <= a < i && 0 <= b < bs[a].len() && bs[a][b] == p) || (exists|b: int|
                        0 <= b < j && bs[i as int][b] == p));
                if !seen {
                    used_pages.push(page);
                    assert(used_pages@ == up0.push(page));
                    assert forall|p: usize| used_pages@.contains(p) <==> (up0.contains(p) || p
                        == page) by {
                        if used_pages@.contains(p) {
                            let c = choose|c: int|
                                0 <= c < used_pages@.len() && used_pages@[c] == p;
                            if c < up0.len() {
                                assert(up0[c] == p);
                            }
                        }
                        if up0.contains(p) {
                            let c = choose|c: int| 0 <= c < up0.len() && up0[c] == p;
                            assert(used_pages@[c] == p);
                        }
                        if p == page {
                            assert(used_pages@[up0.len() as int] == page);
                        }
                    }
                    assert forall|a: int, b: int|
                        0 <= a < b < used_pages@.len() implies used_pages@[a]
                        != used_pages@[b] by {
                        if b < up0.len() {
                            assert(used_pages@[a] == up0[a] && used_pages@[b] == up0[b]);
                        } else {
                            assert(used_pages@[b] == page);
                            assert(used_pages@[a] == up0[a]);
                            assert(!up0.contains(page));
                        }
                    }
                }
                assert forall|p: usize| used_pages@.contains(p) implies ((exists|a: int, b: int|
                    0 <= a < i && 0 <= b < bs[a].len() && bs[a][b] == p) || (exists|b: int|
                    0 <= b < j + 1 && bs[i as int][b] == p)) by {
                    if up0.contains(p) {
                        if exists|b: int| 0 <= b < j && bs[i as int][b] == p {
                            let b = choose|b: int| 0 <= b < j && bs[i as int][b] == p;
                            assert(0 <= b < j + 1 && bs[i as int][b] == p);
                        }
                    } else {
                        assert(p == page);
                        assert(bs[i as int][j as int] == page);
                    }
                }
                assert forall|p: usize| ((exists|a: int, b: int|
                    0 <= a < i && 0 <= b < bs[a].len() && bs[a][b] == p) || (exists|b: int|
                    0 <= b < j + 1 && bs[i as int][b] == p)) implies used_pages@.contains(p) by {
                    if exists|b: int| 0 <= b < j + 1 && bs[i as int][b] == p {
                        let b = choose|b: int| 0 <= b < j + 1 && bs[i as int][b] == p;
                        if b == j {
                            assert(p == page);
                            if seen {
                                assert(used_pages@.contains(page));
                            }
                        } else {
                            assert(0 <= b < j && bs[i as int][b] == p);
                            assert(up0.contains(p));
                        }
                    } else {
                        assert(up0.contains(p));
                    }
                }
                j += 1;
            }
            i += 1;
        }
        assert forall|p: usize| used_pages@.contains(p) <==> trace_has_page(bs, p) by {}
        let pages_count = used_pages.len();
        Process { calls, used_pages, pages_count }
    }

    /// True when no burst remains.
    pub fn is_empty(&self) -> (r: bool)
        ensures
            r == (self.bursts().len() == 0),
    {
        self.calls.len() == 0
    }

    /// Pops and returns the oldest remaining burst.
    pub fn next(&mut self) -> (r: Option<Vec<usize>>)
        requires
            old(self).wf(),
        ensures
            final(self).wf(),
            final(self).pages() == old(self).pages(),
            final(self).page_count_spec() == old(self).page_count_spec(),
            old(self).bursts().len() == 0 ==> r is None && final(self).bursts() == old(
                self,
            ).bursts(),
            old(self).bursts().len() > 0 ==> {
                &&& r is Some
                &&& r->Some_0@ == old(self).bursts()[0]
                &&& final(self).bursts() == old(self).bursts().drop_first()
            },
    {
        if self.calls.len() == 0 {
            return None;
        }
        let burst = self.calls.remove(0);
        assert(self.bursts() =~= old(self).bursts().drop_first());
        Some(burst)
    }

    /// The number of distinct pages this process ever references.
    pub fn get_page_count(&self) -> (r: usize)
        ensures
            r == self.page_count_spec(),
    {
        self.pages_count
    }

    /// The distinct pages this process ever references.
    pub fn get_used_pages(&self) -> (r: &Vec<usize>)
        ensures
            r@ == self.pages(),
    {
        &self.used_pages
    }
}

} // verus!

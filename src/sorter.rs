//! The sort operator's driver: batches are staged and sorted into runs,
//! runs in memory are spilled into merged runs under memory pressure,
//! spills are compacted level by level, and everything is merged into the
//! output.
use vstd::prelude::*;
use crate::keys::{lemma_lex_irreflexive, lemma_lex_le_transitive, lemma_lex_total, lex_le, lex_lt};
use crate::sort::{
    batches_view, consecutive, keys_fit, lemma_hi_mono, merge_runs, row_between, row_key, rows_between,
    run_keys, sort_batches, sorted_selection, SortedRun,
};

verus! {

/// Number of spills of one level that are merged into a single spill of the
/// next level.
pub const SPILL_MERGING_SIZE: usize = 32;

/// A chain of runs over the batches `lo .. hi`, one after another, each
/// well-formed and covering at least one batch.
#[verifier::opaque]
pub open spec fn chain(bs: Seq<Seq<Seq<u8>>>, limit: nat, runs: Seq<SortedRun>, lo: int, hi: int) -> bool {
    &&& consecutive(runs)
    &&& forall|r: int| 0 <= r < runs.len() ==> (#[trigger] runs[r]).wf(bs, limit) && runs[r].lo < runs[r].hi
    &&& runs.len() == 0 ==> lo == hi
    &&& runs.len() > 0 ==> runs[0].lo == lo && runs.last().hi == hi
}

proof fn lemma_chain_len(bs: Seq<Seq<Seq<u8>>>, limit: nat, runs: Seq<SortedRun>, lo: int, hi: int)
    requires
        chain(bs, limit, runs, lo, hi),
    ensures
        runs.len() <= hi - lo,
        lo <= hi,
        runs.len() == 0 ==> lo == hi,
    decreases runs.len(),
{
    reveal(chain);
    if runs.len() > 0 {
        let d = runs.drop_last();
        if d.len() > 0 {
            assert(runs[runs.len() - 2].hi == runs.last().lo);
            lemma_chain_len(bs, limit, d, lo, d.last().hi as int);
        }
    }
}

proof fn lemma_chain_concat(
    bs: Seq<Seq<Seq<u8>>>,
    limit: nat,
    a: Seq<SortedRun>,
    b: Seq<SortedRun>,
    lo: int,
    mid: int,
    hi: int,
)
    requires
        chain(bs, limit, a, lo, mid),
        chain(bs, limit, b, mid, hi),
    ensures
        chain(bs, limit, a + b, lo, hi),
{
    reveal(chain);
    let c = a + b;
    assert forall|r: int| 0 <= r < c.len() - 1 implies (#[trigger] c[r]).hi == c[r + 1].lo by {
        if r < a.len() - 1 {
            assert(c[r] == a[r] && c[r + 1] == a[r + 1]);
        } else if r == a.len() - 1 {
        } else {
            assert(c[r] == b[r - a.len()] && c[r + 1] == b[r + 1 - a.len()]);
        }
    }
    assert forall|r: int| 0 <= r < c.len() implies (#[trigger] c[r]).wf(bs, limit) && c[r].lo < c[r].hi by {
        if r < a.len() {
            assert(c[r] == a[r]);
        } else {
            assert(c[r] == b[r - a.len()]);
        }
    }
    if a.len() == 0 {
        assert(c =~= b);
    }
    if b.len() == 0 {
        assert(c =~= a);
    }
}

#[verifier::rlimit(60)]
proof fn lemma_chain_split(bs: Seq<Seq<Seq<u8>>>, limit: nat, c: Seq<SortedRun>, lo: int, hi: int, i: int) -> (mid: int)
    requires
        chain(bs, limit, c, lo, hi),
        0 <= i <= c.len(),
    ensures
        chain(bs, limit, c.subrange(0, i), lo, mid),
        chain(bs, limit, c.subrange(i, c.len() as int), mid, hi),
        i < c.len() ==> mid == c[i].lo,
{
    reveal(chain);
    let a = c.subrange(0, i);
    let b = c.subrange(i, c.len() as int);
    let mid = if i < c.len() {
        c[i].lo as int
    } else {
        hi
    };
    if i > 0 && i < c.len() {
        assert(c[i - 1].hi == c[i].lo);
    }
    assert forall|r: int| 0 <= r < a.len() - 1 implies (#[trigger] a[r]).hi == a[r + 1].lo by {
        assert(c[r].hi == c[r + 1].lo);
    }
    assert forall|r: int| 0 <= r < b.len() - 1 implies (#[trigger] b[r]).hi == b[r + 1].lo by {
        assert(c[r + i].hi == c[r + i + 1].lo);
    }
    assert forall|r: int| 0 <= r < a.len() implies (#[trigger] a[r]).wf(bs, limit) && a[r].lo < a[r].hi by {
        assert(c[r].wf(bs, limit));
    }
    assert forall|r: int| 0 <= r < b.len() implies (#[trigger] b[r]).wf(bs, limit) && b[r].lo < b[r].hi by {
        assert(c[r + i].wf(bs, limit));
    }
    mid
}

proof fn lemma_chain_single(bs: Seq<Seq<Seq<u8>>>, limit: nat, run: SortedRun)
    requires
        run.wf(bs, limit),
        run.lo < run.hi,
    ensures
        chain(bs, limit, seq![run], run.lo as int, run.hi as int),
{
    reveal(chain);
}

proof fn lemma_chain_empty(bs: Seq<Seq<Seq<u8>>>, limit: nat, at: int)
    ensures
        chain(bs, limit, Seq::empty(), at, at),
{
    reveal(chain);
}

/// Merges a non-empty chain of runs into one run over the same batches; a
/// single run comes back as it is.
fn merge_chain(
    batches: &Vec<Vec<Vec<u8>>>,
    mut runs: Vec<SortedRun>,
    limit: usize,
    Ghost(lo): Ghost<int>,
    Ghost(hi): Ghost<int>,
) -> (r: SortedRun)
    requires
        keys_fit(batches@),
        batches@.len() < usize::MAX / 4,
        hi <= batches@.len(),
        runs@.len() >= 1,
        chain(batches_view(batches@), limit as nat, runs@, lo, hi),
    ensures
        r.wf(batches_view(batches@), limit as nat),
        r.lo == lo,
        r.hi == hi,
        r.lo < r.hi,
        runs@.len() == 1 ==> r == runs@[0],
{
    proof {
        reveal(chain);
        lemma_chain_len(batches_view(batches@), limit as nat, runs@, lo, hi);
        assert(runs@[0].lo < runs@[0].hi);
        if runs@.len() > 1 {
            assert(runs@[0].hi <= runs@.last().hi) by {
                lemma_chain_mono(batches_view(batches@), limit as nat, runs@, lo, hi);
            }
        }
    }
    if runs.len() == 1 {
        match runs.pop() {
            Some(run) => {
                return run;
            },
            None => {
                proof {
                    assert(false);
                }
            },
        }
    }
    merge_runs(batches, &runs, limit)
}

proof fn lemma_chain_mono(bs: Seq<Seq<Seq<u8>>>, limit: nat, runs: Seq<SortedRun>, lo: int, hi: int)
    requires
        chain(bs, limit, runs, lo, hi),
        runs.len() >= 1,
    ensures
        runs[0].hi <= runs.last().hi,
    decreases runs.len(),
{
    reveal(chain);
    if runs.len() > 1 {
        let d = runs.drop_last();
        assert(runs[runs.len() - 2].hi == runs.last().lo);
        assert(runs.last().wf(bs, limit));
        lemma_chain_mono(bs, limit, d, lo, d.last().hi as int);
    }
}

proof fn lemma_rows_between_same(bs1: Seq<Seq<Seq<u8>>>, bs2: Seq<Seq<Seq<u8>>>, lo: int, hi: int)
    requires
        0 <= lo,
        hi <= bs1.len(),
        hi <= bs2.len(),
        forall|i: int| 0 <= i < hi ==> #[trigger] bs1[i] == bs2[i],
    ensures
        rows_between(bs1, lo, hi) == rows_between(bs2, lo, hi),
    decreases hi - lo,
{
    if lo < hi {
        assert(bs1[hi - 1] == bs2[hi - 1]);
        lemma_rows_between_same(bs1, bs2, lo, hi - 1);
    }
}

/// A run only reads the batches it covers.
proof fn lemma_run_same_batches(bs1: Seq<Seq<Seq<u8>>>, bs2: Seq<Seq<Seq<u8>>>, limit: nat, run: SortedRun)
    requires
        run.wf(bs1, limit),
        run.hi <= bs2.len(),
        forall|i: int| 0 <= i < run.hi ==> #[trigger] bs1[i] == bs2[i],
    ensures
        run.wf(bs2, limit),
{
    let lo = run.lo as int;
    let hi = run.hi as int;
    let rows = run.rows@;
    lemma_rows_between_same(bs1, bs2, lo, hi);
    assert forall|id: (usize, usize)| #[trigger] row_between(bs2, lo, hi, id) <==> row_between(bs1, lo, hi, id) by {
        if lo <= id.0 < hi {
            assert(bs1[id.0 as int] == bs2[id.0 as int]);
        }
    }
    assert forall|id: (usize, usize)| row_between(bs1, lo, hi, id) implies #[trigger] row_key(bs2, id) == row_key(bs1, id) by {
        assert(bs1[id.0 as int] == bs2[id.0 as int]);
    }
    assert(run_keys(bs2, rows) =~= run_keys(bs1, rows)) by {
        assert forall|x: int| 0 <= x < rows.len() implies run_keys(bs2, rows)[x] == run_keys(bs1, rows)[x] by {
            assert(row_between(bs1, lo, hi, rows[x]));
        }
    }
}

/// A chain only reads the batches it covers.
proof fn lemma_chain_same_batches(
    bs1: Seq<Seq<Seq<u8>>>,
    bs2: Seq<Seq<Seq<u8>>>,
    limit: nat,
    runs: Seq<SortedRun>,
    lo: int,
    hi: int,
)
    requires
        chain(bs1, limit, runs, lo, hi),
        hi <= bs2.len(),
        forall|i: int| 0 <= i < hi ==> #[trigger] bs1[i] == bs2[i],
    ensures
        chain(bs2, limit, runs, lo, hi),
    decreases runs.len(),
{
    reveal(chain);
    if runs.len() > 0 {
        let d = runs.drop_last();
        let mid = runs.last().lo as int;
        if d.len() > 0 {
            assert(runs[runs.len() - 2].hi == runs.last().lo);
        }
        assert(chain(bs1, limit, d, lo, mid)) by {
            assert forall|r: int| 0 <= r < d.len() - 1 implies (#[trigger] d[r]).hi == d[r + 1].lo by {
                assert(runs[r].hi == runs[r + 1].lo);
            }
            assert forall|r: int| 0 <= r < d.len() implies (#[trigger] d[r]).wf(bs1, limit) && d[r].lo < d[r].hi by {
                assert(runs[r].wf(bs1, limit));
            }
        }
        assert(runs.last().wf(bs1, limit));
        lemma_chain_same_batches(bs1, bs2, limit, d, lo, mid);
        lemma_run_same_batches(bs1, bs2, limit, runs.last());
        assert forall|r: int| 0 <= r < runs.len() implies (#[trigger] runs[r]).wf(bs2, limit) && runs[r].lo < runs[r].hi by {
            if r < d.len() {
                assert(d[r] == runs[r]);
            }
        }
    }
}

/// The sort operator's state: the batches seen so far (the first
/// `num_batches` of the input), those staged for the next partial sort,
/// the sorted runs in memory and the spills with their levels.
pub struct ExternalSorter {
    limit: usize,
    staging_rows: usize,
    num_batches: usize,
    staging_lo: usize,
    staged: usize,
    spilled_hi: usize,
    in_mem: Vec<SortedRun>,
    spills: Vec<SortedRun>,
    levels: Vec<usize>,
}

impl ExternalSorter {
    /// Consistent with the input `batches`, of which the sorter has seen
    /// the first `num_batches`.
    pub closed spec fn wf(&self, batches: Seq<Vec<Vec<u8>>>) -> bool {
        let bs = batches_view(batches);
        let lim = self.limit as nat;
        &&& self.num_batches <= batches.len() < usize::MAX / 4
        &&& keys_fit(batches)
        &&& self.spilled_hi <= self.staging_lo <= self.num_batches
        &&& self.staged <= self.staging_rows
        &&& levels_bounded(self.spills@, self.levels@)
        &&& levels_compacted(self.levels@)
        &&& chain(bs, lim, self.spills@, 0, self.spilled_hi as int)
        &&& chain(bs, lim, self.in_mem@, self.spilled_hi as int, self.staging_lo as int)
    }

    /// The spills' levels, oldest spill first.
    pub closed spec fn spill_levels(&self) -> Seq<usize> {
        self.levels@
    }

    /// How many batches the sorter has seen.
    pub closed spec fn seen(&self) -> nat {
        self.num_batches as nat
    }

    /// The number of rows kept.
    pub closed spec fn spec_limit(&self) -> usize {
        self.limit
    }

    /// The number of staged rows that triggers a partial sort.
    pub closed spec fn spec_staging_rows(&self) -> usize {
        self.staging_rows
    }

    /// The number of rows staged and not yet sorted.
    pub closed spec fn staged_rows(&self) -> nat {
        self.staged as nat
    }

    /// A sorter that keeps the first `limit` rows and sorts staged batches
    /// into a run once at least `staging_rows` rows wait.
    pub fn new(limit: usize, staging_rows: usize) -> (r: Self)
        ensures
            r.seen() == 0,
            r.spec_limit() == limit,
            r.spec_staging_rows() == staging_rows,
            r.staged_rows() == 0,
            r.runs_in_memory() == 0,
            forall|batches: Seq<Vec<Vec<u8>>>|
                batches.len() < usize::MAX / 4 && keys_fit(batches) ==> #[trigger] r.wf(batches),
    {
        let r = ExternalSorter {
            limit,
            staging_rows,
            num_batches: 0,
            staging_lo: 0,
            staged: 0,
            spilled_hi: 0,
            in_mem: Vec::new(),
            spills: Vec::new(),
            levels: Vec::new(),
        };
        proof {
            assert forall|batches: Seq<Vec<Vec<u8>>>| batches.len() < usize::MAX / 4 && keys_fit(batches) implies #[trigger] r.wf(batches) by {
                lemma_chain_empty(batches_view(batches), limit as nat, 0);
                reveal(levels_bounded);
                reveal(levels_compacted);
            }
        }
        r
    }

    /// The sorter reads only the batches it has seen: batches appended to
    /// the input leave it consistent.
    pub proof fn lemma_append_batches(&self, batches: Seq<Vec<Vec<u8>>>, more: Seq<Vec<Vec<u8>>>)
        requires
            self.wf(batches),
            batches.len() <= more.len() < usize::MAX / 4,
            more.subrange(0, batches.len() as int) == batches,
            keys_fit(more),
        ensures
            self.wf(more),
    {
        let bs1 = batches_view(batches);
        let bs2 = batches_view(more);
        assert forall|i: int| 0 <= i < batches.len() implies #[trigger] bs1[i] == bs2[i] by {
            assert(more.subrange(0, batches.len() as int)[i] == more[i]);
        }
        lemma_chain_same_batches(bs1, bs2, self.limit as nat, self.spills@, 0, self.spilled_hi as int);
        lemma_chain_same_batches(bs1, bs2, self.limit as nat, self.in_mem@, self.spilled_hi as int, self.staging_lo as int);
    }

    /// How many sorted runs are held in memory.
    pub closed spec fn runs_in_memory(&self) -> nat {
        self.in_mem@.len()
    }

    /// The number of sorted runs held in memory.
    pub fn num_runs_in_memory(&self) -> (r: usize)
        ensures
            r == self.runs_in_memory(),
    {
        self.in_mem.len()
    }

    /// Takes in the next batch of `batches` (batch `seen()`): stages it, and
    /// sorts the staged batches into a run once enough rows wait.
    pub fn insert_batch(&mut self, batches: &Vec<Vec<Vec<u8>>>)
        requires
            old(self).wf(batches@),
            old(self).seen() < batches@.len(),
        ensures
            final(self).wf(batches@),
            final(self).seen() == old(self).seen() + 1,
            final(self).spec_limit() == old(self).spec_limit(),
            final(self).spec_staging_rows() == old(self).spec_staging_rows(),
            ({
                let len = batches@[old(self).seen() as int]@.len();
                if old(self).staged_rows() + len >= old(self).spec_staging_rows() {
                    final(self).staged_rows() == 0 && final(self).runs_in_memory() == old(self).runs_in_memory() + 1
                } else {
                    final(self).staged_rows() == old(self).staged_rows() + len && final(self).runs_in_memory()
                        == old(self).runs_in_memory()
                }
            }),
    {
        let ghost bs = batches_view(batches@);
        let ghost lim = self.limit as nat;
        let b = self.num_batches;
        let len = batches[b].len();
        if len >= self.staging_rows - self.staged {
            let run = sort_batches(batches, self.staging_lo, b + 1, self.limit);
            let ghost old_mem = self.in_mem@;
            self.in_mem.push(run);
            proof {
                assert(self.in_mem@ == old_mem + seq![run]);
                lemma_chain_single(bs, lim, run);
                lemma_chain_concat(bs, lim, old_mem, seq![run], self.spilled_hi as int, self.staging_lo as int, b + 1);
            }
            self.staging_lo = b + 1;
            self.staged = 0;
        } else {
            self.staged = self.staged + len;
        }
        self.num_batches = b + 1;
    }

    /// Sorts what is staged into a run.
    fn flush_staging(&mut self, batches: &Vec<Vec<Vec<u8>>>)
        requires
            old(self).wf(batches@),
        ensures
            final(self).wf(batches@),
            final(self).staging_lo == final(self).num_batches,
            final(self).num_batches == old(self).num_batches,
            final(self).spills@ == old(self).spills@,
            final(self).spilled_hi == old(self).spilled_hi,
            final(self).limit == old(self).limit,
            final(self).staging_rows == old(self).staging_rows,
            final(self).staged == 0,
    {
        let ghost bs = batches_view(batches@);
        let ghost lim = self.limit as nat;
        if self.staging_lo < self.num_batches {
            let run = sort_batches(batches, self.staging_lo, self.num_batches, self.limit);
            let ghost old_mem = self.in_mem@;
            self.in_mem.push(run);
            proof {
                assert(self.in_mem@ == old_mem + seq![run]);
                lemma_chain_single(bs, lim, run);
                lemma_chain_concat(bs, lim, old_mem, seq![run], self.spilled_hi as int, self.staging_lo as int, self.num_batches as int);
            }
            self.staging_lo = self.num_batches;
        }
        self.staged = 0;
    }

    /// Frees memory on the memory manager's request: sorts what is staged,
    /// merges the runs in memory into a spill of level 0, and merges spills
    /// level by level once `SPILL_MERGING_SIZE` of one level gather.
    pub fn spill(&mut self, batches: &Vec<Vec<Vec<u8>>>)
        requires
            old(self).wf(batches@),
        ensures
            final(self).wf(batches@),
            final(self).seen() == old(self).seen(),
            final(self).spec_limit() == old(self).spec_limit(),
            final(self).spec_staging_rows() == old(self).spec_staging_rows(),
            final(self).staged_rows() == 0,
            final(self).runs_in_memory() == 0,
            levels_compacted(final(self).spill_levels()),
    {
        let ghost bs = batches_view(batches@);
        let ghost lim = self.limit as nat;
        let ghost old_levels = self.levels@;
        self.flush_staging(batches);
        if self.in_mem.len() > 0 {
            proof {
                lemma_chain_len(bs, lim, self.in_mem@, self.spilled_hi as int, self.staging_lo as int);
            }
            let ghost before_split = self.in_mem@;
            let runs = self.in_mem.split_off(0);
            assert(runs@ =~= before_split);
            let spill = merge_chain(batches, runs, self.limit, Ghost(self.spilled_hi as int), Ghost(self.staging_lo as int));
            let ghost old_spills = self.spills@;
            let ghost lv0 = self.levels@;
            self.spills.push(spill);
            self.levels.push(0);
            self.in_mem = Vec::new();
            proof {
                assert(self.spills@ == old_spills + seq![spill]);
                lemma_push_level_zero(old_spills, lv0, spill);
                lemma_chain_single(bs, lim, spill);
                lemma_chain_concat(bs, lim, old_spills, seq![spill], 0, self.spilled_hi as int, self.staging_lo as int);
                lemma_chain_empty(bs, lim, self.staging_lo as int);
            }
            self.spilled_hi = self.staging_lo;
            compact_spills(batches, &mut self.spills, &mut self.levels, self.limit, Ghost(self.spilled_hi as int));
        }
    }

    /// The sorted output over all batches seen: what is staged is sorted,
    /// and the runs in memory (after the spills, as one more spill, if
    /// there are any) are merged.
    pub fn output(self, batches: &Vec<Vec<Vec<u8>>>) -> (r: SortedRun)
        requires
            self.wf(batches@),
        ensures
            r.wf(batches_view(batches@), self.spec_limit() as nat),
            r.lo == 0,
            r.hi == self.seen(),
            sorted_selection(batches_view(batches@), 0, self.seen() as int, self.spec_limit() as nat, r.rows@),
    {
        let ghost bs = batches_view(batches@);
        let ghost lim = self.limit as nat;
        let mut this = self;
        this.flush_staging(batches);
        let n = this.num_batches;
        let limit = this.limit;
        proof {
            lemma_chain_len(bs, lim, this.spills@, 0, this.spilled_hi as int);
            lemma_chain_len(bs, lim, this.in_mem@, this.spilled_hi as int, n as int);
        }
        if this.spills.len() == 0 {
            if this.in_mem.len() == 0 {
                let r = SortedRun { lo: 0, hi: n, key_store: Vec::new(), rows: Vec::new() };
                proof {
                    assert(run_keys(bs, r.rows@) =~= Seq::<Seq<u8>>::empty());
                    assert(r.key_store@ =~= crate::keys::encode_keys(Seq::<Seq<u8>>::empty()));
                    assert(rows_between(bs, 0, n as int) == 0);
                }
                return r;
            }
            let ghost before_split = this.in_mem@;
            let runs = this.in_mem.split_off(0);
            assert(runs@ =~= before_split);
            let r = merge_chain(batches, runs, limit, Ghost(0), Ghost(n as int));
            return r;
        }
        if this.in_mem.len() > 0 {
            let ghost before_split = this.in_mem@;
            let runs = this.in_mem.split_off(0);
            assert(runs@ =~= before_split);
            let spill = merge_chain(batches, runs, limit, Ghost(this.spilled_hi as int), Ghost(n as int));
            let ghost old_spills = this.spills@;
            this.spills.push(spill);
            proof {
                assert(this.spills@ == old_spills + seq![spill]);
                lemma_chain_single(bs, lim, spill);
                lemma_chain_concat(bs, lim, old_spills, seq![spill], 0, this.spilled_hi as int, n as int);
            }
        }
        let ghost before_split = this.spills@;
        let runs = this.spills.split_off(0);
        assert(runs@ =~= before_split);
        merge_chain(batches, runs, limit, Ghost(0), Ghost(n as int))
    }
}

/// Sorts all rows of `batches` by key, keeping the first `limit` of them:
/// the batches go into a sorter one by one, and whenever `spill_runs` runs
/// are held in memory the sorter spills, as under memory pressure.
pub fn external_sort(
    batches: &Vec<Vec<Vec<u8>>>,
    limit: usize,
    staging_rows: usize,
    spill_runs: usize,
) -> (r: SortedRun)
    requires
        keys_fit(batches@),
        batches@.len() < usize::MAX / 4,
    ensures
        r.wf(batches_view(batches@), limit as nat),
        r.lo == 0,
        r.hi == batches@.len(),
        sorted_selection(batches_view(batches@), 0, batches@.len() as int, limit as nat, r.rows@),
{
    let mut sorter = ExternalSorter::new(limit, staging_rows);
    assert(sorter.wf(batches@));
    let n = batches.len();
    let mut b: usize = 0;
    while b < n
        invariant
            b <= n == batches@.len(),
            sorter.wf(batches@),
            sorter.seen() == b,
            sorter.spec_limit() == limit,
            sorter.spec_staging_rows() == staging_rows,
        decreases n - b,
    {
        sorter.insert_batch(batches);
        if sorter.num_runs_in_memory() >= spill_runs {
            sorter.spill(batches);
        }
        b = b + 1;
    }
    sorter.output(batches)
}

/// How many of the last spills, up to `SPILL_MERGING_SIZE`, share the
/// level of the last one.
fn trailing_same_level(levels: &Vec<usize>) -> (r: usize)
    requires
        levels@.len() >= SPILL_MERGING_SIZE,
    ensures
        r <= SPILL_MERGING_SIZE,
        forall|i: int|
            levels@.len() - r <= i < levels@.len() ==> #[trigger] levels@[i] == levels@.last(),
        r < SPILL_MERGING_SIZE ==> levels@[levels@.len() - 1 - r] != levels@.last(),
{
    let k = levels.len();
    let level = levels[k - 1];
    let mut same: usize = 0;
    while same < SPILL_MERGING_SIZE && levels[k - 1 - same] == level
        invariant
            same <= SPILL_MERGING_SIZE <= k,
            k == levels@.len(),
            level == levels@.last(),
            forall|i: int| k - same <= i < k ==> #[trigger] levels@[i] == level,
        decreases SPILL_MERGING_SIZE - same,
    {
        same = same + 1;
    }
    same
}

/// Spill levels along the spill list, oldest first: they never grow toward
/// newer spills, and no `SPILL_MERGING_SIZE` spills in a row share a level,
/// so no level holds `SPILL_MERGING_SIZE` spills.
#[verifier::opaque]
pub open spec fn levels_compacted(levels: Seq<usize>) -> bool {
    &&& forall|i: int, j: int| 0 <= i < j < levels.len() ==> #[trigger] levels[i] >= #[trigger] levels[j]
    &&& forall|i: int|
        0 <= i && i + SPILL_MERGING_SIZE - 1 < levels.len() ==> #[trigger] levels[i] > levels[i
            + SPILL_MERGING_SIZE - 1]
}

/// How many spills have level `l`.
pub open spec fn level_count(levels: Seq<usize>, l: usize) -> nat
    decreases levels.len(),
{
    if levels.len() == 0 {
        0
    } else {
        level_count(levels.drop_last(), l) + if levels.last() == l {
            1nat
        } else {
            0nat
        }
    }
}

proof fn lemma_level_count_zero(levels: Seq<usize>, l: usize)
    requires
        forall|i: int| 0 <= i < levels.len() ==> #[trigger] levels[i] > l,
    ensures
        level_count(levels, l) == 0,
    decreases levels.len(),
{
    if levels.len() > 0 {
        lemma_level_count_zero(levels.drop_last(), l);
    }
}

/// In levels that never grow toward the end, the spills of the newest
/// spill's level are the last ones.
proof fn lemma_level_count_tail(levels: Seq<usize>, l: usize)
    requires
        levels.len() > 0,
        levels.last() == l,
        forall|i: int, j: int| 0 <= i < j < levels.len() ==> #[trigger] levels[i] >= #[trigger] levels[j],
    ensures
        level_count(levels, l) <= levels.len(),
        forall|j: int| levels.len() - level_count(levels, l) <= j < levels.len() ==> #[trigger] levels[j] == l,
    decreases levels.len(),
{
    let d = levels.drop_last();
    assert(level_count(levels, l) == level_count(d, l) + 1);
    if d.len() == 0 {
        assert(level_count(d, l) == 0);
    } else if d.last() == l {
        assert forall|i: int, j: int| 0 <= i < j < d.len() implies #[trigger] d[i] >= #[trigger] d[j] by {
            assert(levels[i] >= levels[j]);
        }
        lemma_level_count_tail(d, l);
        assert forall|j: int| levels.len() - level_count(levels, l) <= j < levels.len() implies #[trigger] levels[j] == l by {
            if j < levels.len() - 1 {
                assert(levels[j] == d[j]);
            }
        }
    } else {
        assert forall|i: int| 0 <= i < d.len() implies #[trigger] d[i] > l by {
            assert(levels[i] >= levels[d.len() - 1]);
            assert(levels[d.len() - 1] >= levels[levels.len() - 1]);
        }
        lemma_level_count_zero(d, l);
    }
}

/// After compaction no level holds `SPILL_MERGING_SIZE` spills.
pub proof fn lemma_compacted_level_counts(levels: Seq<usize>, l: usize)
    requires
        levels_compacted(levels),
    ensures
        level_count(levels, l) < SPILL_MERGING_SIZE,
    decreases levels.len(),
{
    reveal(levels_compacted);
    if levels.len() > 0 {
        let d = levels.drop_last();
        assert(levels_compacted(d)) by {
            reveal(levels_compacted);
            assert forall|i: int, j: int| 0 <= i < j < d.len() implies #[trigger] d[i] >= #[trigger] d[j] by {
                assert(levels[i] >= levels[j]);
            }
            assert forall|i: int| 0 <= i && i + SPILL_MERGING_SIZE - 1 < d.len() implies #[trigger] d[i] > d[i + SPILL_MERGING_SIZE - 1] by {
                assert(levels[i] > levels[i + SPILL_MERGING_SIZE - 1]);
            }
        }
        if levels.last() == l {
            lemma_level_count_tail(levels, l);
            let n = levels.len() as int;
            if level_count(levels, l) >= SPILL_MERGING_SIZE {
                assert(levels[n - SPILL_MERGING_SIZE] == l);
                assert(levels[n - SPILL_MERGING_SIZE] > levels[n - 1]);
            }
        } else {
            lemma_compacted_level_counts(d, l);
        }
    }
}

/// Levels never grow toward newer spills, and every run of
/// `SPILL_MERGING_SIZE` equal levels ends at the newest spill.
#[verifier::opaque]
pub open spec fn levels_nearly_compacted(levels: Seq<usize>) -> bool {
    &&& forall|i: int, j: int| 0 <= i < j < levels.len() ==> #[trigger] levels[i] >= #[trigger] levels[j]
    &&& forall|i: int|
        0 <= i && i + SPILL_MERGING_SIZE - 1 < levels.len() - 1 ==> #[trigger] levels[i] > levels[i
            + SPILL_MERGING_SIZE - 1]
}

/// A spill's level is below the number of batches it covers.
#[verifier::opaque]
pub open spec fn levels_bounded(spills: Seq<SortedRun>, levels: Seq<usize>) -> bool {
    &&& levels.len() == spills.len()
    &&& forall|i: int| 0 <= i < levels.len() ==> #[trigger] levels[i] < spills[i].hi - spills[i].lo
}

proof fn lemma_merge_levels(
    whole: Seq<SortedRun>,
    old_levels: Seq<usize>,
    merged: SortedRun,
    level: usize,
    at: int,
)
    requires
        at == whole.len() - SPILL_MERGING_SIZE,
        0 <= at,
        levels_bounded(whole, old_levels),
        levels_nearly_compacted(old_levels),
        forall|i: int| at <= i < old_levels.len() ==> #[trigger] old_levels[i] == level,
        merged.hi - merged.lo > level + 1,
        level + 1 <= usize::MAX,
    ensures
        levels_bounded(whole.subrange(0, at).push(merged), old_levels.subrange(0, at).push((level + 1) as usize)),
        levels_nearly_compacted(old_levels.subrange(0, at).push((level + 1) as usize)),
{
    reveal(levels_bounded);
    reveal(levels_nearly_compacted);
    let nl = old_levels.subrange(0, at).push((level + 1) as usize);
    let ns = whole.subrange(0, at).push(merged);
    if at > 0 {
        // the spill before the group sits above its level
        assert(old_levels[at - 1] > old_levels[at - 1 + SPILL_MERGING_SIZE - 1]);
    }
    assert forall|i: int, j: int| 0 <= i < j < nl.len() implies #[trigger] nl[i] >= #[trigger] nl[j] by {
        if j == nl.len() - 1 {
            assert(old_levels[i] >= old_levels[at - 1]);
        } else {
            assert(old_levels[i] >= old_levels[j]);
        }
    }
    assert forall|i: int| 0 <= i && i + SPILL_MERGING_SIZE - 1 < nl.len() - 1 implies #[trigger] nl[i] > nl[i + SPILL_MERGING_SIZE - 1] by {
        assert(old_levels[i] > old_levels[i + SPILL_MERGING_SIZE - 1]);
    }
    assert forall|i: int| 0 <= i < nl.len() implies #[trigger] nl[i] < ns[i].hi - ns[i].lo by {
        if i < nl.len() - 1 {
            assert(nl[i] == old_levels[i] && ns[i] == whole[i]);
        }
    }
}

proof fn lemma_push_level_zero(spills: Seq<SortedRun>, levels: Seq<usize>, spill: SortedRun)
    requires
        levels_bounded(spills, levels),
        levels_compacted(levels),
        spill.lo < spill.hi,
    ensures
        levels_bounded(spills.push(spill), levels.push(0usize)),
        levels_nearly_compacted(levels.push(0usize)),
{
    reveal(levels_bounded);
    reveal(levels_compacted);
    reveal(levels_nearly_compacted);
    let nl = levels.push(0usize);
    let ns = spills.push(spill);
    assert forall|i: int| 0 <= i < nl.len() implies #[trigger] nl[i] < ns[i].hi - ns[i].lo by {
        if i < levels.len() {
            assert(nl[i] == levels[i] && ns[i] == spills[i]);
        }
    }
    assert forall|i: int, j: int| 0 <= i < j < nl.len() implies #[trigger] nl[i] >= #[trigger] nl[j] by {
        if j < levels.len() {
            assert(levels[i] >= levels[j]);
        }
    }
    assert forall|i: int| 0 <= i && i + SPILL_MERGING_SIZE - 1 < nl.len() - 1 implies #[trigger] nl[i] > nl[i + SPILL_MERGING_SIZE - 1] by {
        assert(levels[i] > levels[i + SPILL_MERGING_SIZE - 1]);
    }
}

/// Where fewer than `SPILL_MERGING_SIZE` spills, or fewer than that many
/// at the end, share the newest spill's level, the levels are compacted.
proof fn lemma_compaction_done(levels: Seq<usize>, same: int)
    requires
        levels_nearly_compacted(levels),
        levels.len() < SPILL_MERGING_SIZE || (0 <= same < SPILL_MERGING_SIZE && same < levels.len()
            && levels[levels.len() - 1 - same] != levels.last()),
    ensures
        levels_compacted(levels),
{
    reveal(levels_nearly_compacted);
    reveal(levels_compacted);
    let n = levels.len() as int;
    assert forall|i: int| 0 <= i && i + SPILL_MERGING_SIZE - 1 < n implies #[trigger] levels[i] > levels[i + SPILL_MERGING_SIZE - 1] by {
        if i + SPILL_MERGING_SIZE - 1 == n - 1 {
            assert(levels[n - 1 - same] >= levels[n - 1]);
            if i < n - 1 - same {
                assert(levels[i] >= levels[n - 1 - same]);
            }
        }
    }
}

proof fn lemma_bounded_len(spills: Seq<SortedRun>, levels: Seq<usize>)
    requires
        levels_bounded(spills, levels),
    ensures
        levels.len() == spills.len(),
        forall|i: int| 0 <= i < levels.len() ==> #[trigger] levels[i] < spills[i].hi - spills[i].lo,
{
    reveal(levels_bounded);
}

/// The last `SPILL_MERGING_SIZE` spills, all of level `level`, cover more
/// than `level + 1` batches together.
proof fn lemma_group_covers(
    bs: Seq<Seq<Seq<u8>>>,
    limit: nat,
    whole: Seq<SortedRun>,
    levels: Seq<usize>,
    hi: int,
    level: usize,
)
    requires
        whole.len() >= SPILL_MERGING_SIZE,
        chain(bs, limit, whole, 0, hi),
        levels_bounded(whole, levels),
        forall|i: int| whole.len() - SPILL_MERGING_SIZE <= i < levels.len() ==> #[trigger] levels[i] == level,
    ensures
        hi - whole[whole.len() - SPILL_MERGING_SIZE].lo > level + 1,
        hi <= bs.len() ==> level + 1 < bs.len(),
{
    reveal(chain);
    reveal(levels_bounded);
    let k = whole.len() as int;
    let at = k - SPILL_MERGING_SIZE;
    assert forall|r: int| 0 <= r < k implies (#[trigger] whole[r]).lo <= whole[r].hi by {
        assert(whole[r].wf(bs, limit));
    }
    lemma_hi_mono(whole, at, k - 2);
    assert(whole[k - 2].hi == whole[k - 1].lo);
    assert(whole[k - 2].lo < whole[k - 2].hi);
    assert(levels[k - 1] == level);
    assert(whole[k - 1].wf(bs, limit));
}

/// Merges the last `SPILL_MERGING_SIZE` spills, all of level `level`, into
/// one spill of level `level + 1`.
fn merge_last_spills(
    batches: &Vec<Vec<Vec<u8>>>,
    spills: &mut Vec<SortedRun>,
    levels: &mut Vec<usize>,
    limit: usize,
    level: usize,
    Ghost(hi): Ghost<int>,
)
    requires
        keys_fit(batches@),
        batches@.len() < usize::MAX / 4,
        hi <= batches@.len(),
        old(spills)@.len() >= SPILL_MERGING_SIZE,
        chain(batches_view(batches@), limit as nat, old(spills)@, 0, hi),
        levels_bounded(old(spills)@, old(levels)@),
        levels_nearly_compacted(old(levels)@),
        forall|i: int|
            old(levels)@.len() - SPILL_MERGING_SIZE <= i < old(levels)@.len() ==> #[trigger] old(levels)@[i]
                == level,
    ensures
        final(spills)@.len() == old(spills)@.len() - SPILL_MERGING_SIZE + 1,
        chain(batches_view(batches@), limit as nat, final(spills)@, 0, hi),
        levels_bounded(final(spills)@, final(levels)@),
        levels_nearly_compacted(final(levels)@),
        final(levels)@ == old(levels)@.subrange(0, old(levels)@.len() - SPILL_MERGING_SIZE).push(
            (level + 1) as usize,
        ),
        final(spills)@.subrange(0, final(spills)@.len() - 1) == old(spills)@.subrange(
            0,
            old(spills)@.len() - SPILL_MERGING_SIZE,
        ),
{
    let ghost bs = batches_view(batches@);
    let k = spills.len();
    let at = k - SPILL_MERGING_SIZE;
    let ghost whole = spills@;
    let ghost old_levels = levels@;
    proof {
        lemma_bounded_len(whole, old_levels);
        lemma_group_covers(bs, limit as nat, whole, old_levels, hi, level);
    }
    let group = spills.split_off(at);
    let _ = levels.split_off(at);
    let ghost mid = lemma_chain_split(bs, limit as nat, whole, 0, hi, at as int);
    assert(group@ == whole.subrange(at as int, k as int));
    assert(spills@ == whole.subrange(0, at as int));
    proof {
        lemma_chain_len(bs, limit as nat, whole, 0, hi);
    }
    let merged = merge_chain(batches, group, limit, Ghost(mid), Ghost(hi));
    let ghost prefix = spills@;
    let ghost prefix_levels = levels@;
    spills.push(merged);
    levels.push(level + 1);
    proof {
        assert(spills@ == prefix + seq![merged]);
        lemma_chain_single(bs, limit as nat, merged);
        lemma_chain_concat(bs, limit as nat, prefix, seq![merged], 0, mid, hi);
        assert(prefix_levels == old_levels.subrange(0, at as int));
        assert(spills@.subrange(0, spills@.len() - 1) =~= prefix);
        lemma_merge_levels(whole, old_levels, merged, level, at as int);
        assert(levels@ == old_levels.subrange(0, at as int).push((level + 1) as usize));
    }
}

/// While the last `SPILL_MERGING_SIZE` spills share one level, merges them
/// into a single spill of the next level; spills before them stay as they
/// are.
fn compact_spills(
    batches: &Vec<Vec<Vec<u8>>>,
    spills: &mut Vec<SortedRun>,
    levels: &mut Vec<usize>,
    limit: usize,
    Ghost(hi): Ghost<int>,
)
    requires
        keys_fit(batches@),
        batches@.len() < usize::MAX / 4,
        hi <= batches@.len(),
        chain(batches_view(batches@), limit as nat, old(spills)@, 0, hi),
        levels_bounded(old(spills)@, old(levels)@),
        levels_nearly_compacted(old(levels)@),
    ensures
        chain(batches_view(batches@), limit as nat, final(spills)@, 0, hi),
        levels_bounded(final(spills)@, final(levels)@),
        levels_compacted(final(levels)@),
{
    let mut go = true;
    while go
        invariant
            keys_fit(batches@),
            batches@.len() < usize::MAX / 4,
            hi <= batches@.len(),
            chain(batches_view(batches@), limit as nat, spills@, 0, hi),
            levels_bounded(spills@, levels@),
            levels_nearly_compacted(levels@),
            !go ==> levels_compacted(levels@),
        decreases spills@.len() + (if go {
            1int
        } else {
            0int
        }),
    {
        proof {
            lemma_bounded_len(spills@, levels@);
        }
        if spills.len() < SPILL_MERGING_SIZE {
            proof {
                lemma_compaction_done(levels@, 0);
            }
            go = false;
        } else {
            let level = levels[levels.len() - 1];
            let same = trailing_same_level(levels);
            if same < SPILL_MERGING_SIZE {
                proof {
                    lemma_compaction_done(levels@, same as int);
                }
                go = false;
            } else {
                merge_last_spills(batches, spills, levels, limit, level, Ghost(hi));
            }
        }
    }
}

/// With a limit no smaller than the number of input rows, the sort keeps every row
/// exactly once: its output is a permutation of the input rows.
pub proof fn lemma_unlimited_sort_keeps_every_row(
    bs: Seq<Seq<Seq<u8>>>,
    lo: int,
    hi: int,
    limit: nat,
    rows: Seq<(usize, usize)>,
)
    requires
        sorted_selection(bs, lo, hi, limit, rows),
        limit >= rows_between(bs, lo, hi),
    ensures
        rows.len() == rows_between(bs, lo, hi),
        rows.no_duplicates(),
        forall|id: (usize, usize)| row_between(bs, lo, hi, id) <==> #[trigger] rows.contains(id),
{
    assert forall|id: (usize, usize)| #[trigger] rows.contains(id) implies row_between(bs, lo, hi, id) by {
        let i = choose|i: int| 0 <= i < rows.len() && rows[i] == id;
        assert(row_between(bs, lo, hi, rows[i]));
    }
}

/// Two sorted selections of the same rows with the same limit carry the
/// same keys in the same order, whatever produced them: in particular the
/// sort's output keys do not depend on when, or how often, it spilled.
pub proof fn lemma_spilling_transparency(
    bs: Seq<Seq<Seq<u8>>>,
    lo: int,
    hi: int,
    limit: nat,
    rows1: Seq<(usize, usize)>,
    rows2: Seq<(usize, usize)>,
)
    requires
        sorted_selection(bs, lo, hi, limit, rows1),
        sorted_selection(bs, lo, hi, limit, rows2),
    ensures
        run_keys(bs, rows1) == run_keys(bs, rows2),
{
    let k1 = run_keys(bs, rows1);
    let k2 = run_keys(bs, rows2);
    assert forall|i: int| 0 <= i < k1.len() implies k1[i] == k2[i] by {
        lemma_same_key_at(bs, lo, hi, limit, rows1, rows2, i);
    }
    assert(k1 =~= k2);
}

proof fn lemma_same_key_at(
    bs: Seq<Seq<Seq<u8>>>,
    lo: int,
    hi: int,
    limit: nat,
    rows1: Seq<(usize, usize)>,
    rows2: Seq<(usize, usize)>,
    i: int,
)
    requires
        sorted_selection(bs, lo, hi, limit, rows1),
        sorted_selection(bs, lo, hi, limit, rows2),
        0 <= i < rows1.len(),
    ensures
        run_keys(bs, rows1)[i] == run_keys(bs, rows2)[i],
    decreases i,
{
    let k1 = run_keys(bs, rows1);
    let k2 = run_keys(bs, rows2);
    assert forall|j: int| 0 <= j < i implies k1[j] == k2[j] by {
        lemma_same_key_at(bs, lo, hi, limit, rows1, rows2, j);
    }
    lemma_lex_total(k1[i], k2[i]);
    if lex_lt(k1[i], k2[i]) {
        lemma_no_smaller_key_at(bs, lo, hi, limit, rows1, rows2, i);
    } else if lex_lt(k2[i], k1[i]) {
        assert forall|j: int| 0 <= j < i implies k2[j] == k1[j] by {}
        lemma_no_smaller_key_at(bs, lo, hi, limit, rows2, rows1, i);
    }
}

/// Where two selections agree on their first `i` keys, the first cannot
/// hold a strictly smaller key at `i`: its first `i + 1` rows would all sit
/// among the first `i` rows of the second.
proof fn lemma_no_smaller_key_at(
    bs: Seq<Seq<Seq<u8>>>,
    lo: int,
    hi: int,
    limit: nat,
    rows1: Seq<(usize, usize)>,
    rows2: Seq<(usize, usize)>,
    i: int,
)
    requires
        sorted_selection(bs, lo, hi, limit, rows1),
        sorted_selection(bs, lo, hi, limit, rows2),
        0 <= i < rows1.len(),
        forall|j: int| 0 <= j < i ==> run_keys(bs, rows1)[j] == run_keys(bs, rows2)[j],
    ensures
        !lex_lt(run_keys(bs, rows1)[i], run_keys(bs, rows2)[i]),
{
    let k1 = run_keys(bs, rows1);
    let k2 = run_keys(bs, rows2);
    if lex_lt(k1[i], k2[i]) {
        let x = rows1.take(i + 1);
        let y = rows2.take(i);
        assert forall|a: (usize, usize)| x.to_set().contains(a) implies y.to_set().contains(a) by {
            let pos1 = choose|p: int| 0 <= p < x.len() && x[p] == a;
            assert(x[pos1] == rows1[pos1]);
            let ka = row_key(bs, a);
            assert(ka == k1[pos1]);
            // `a` sorts no later than key `i` of the first selection
            assert(lex_le(ka, k1[i])) by {
                if pos1 < i {
                    assert(lex_le(k1[pos1], k1[i]));
                } else {
                    lemma_lex_irreflexive(ka);
                }
            }
            assert(row_between(bs, lo, hi, rows1[pos1]));
            if !rows2.contains(a) {
                assert(lex_le(row_key(bs, rows2[i]), ka));
                assert(row_key(bs, rows2[i]) == k2[i]);
                lemma_lex_le_transitive(k2[i], ka, k1[i]);
            } else {
                let pos2 = choose|p: int| 0 <= p < rows2.len() && rows2[p] == a;
                assert(k2[pos2] == ka);
                if pos2 >= i {
                    if pos2 > i {
                        assert(lex_le(k2[i], k2[pos2]));
                    } else {
                        lemma_lex_irreflexive(ka);
                    }
                    lemma_lex_le_transitive(k2[i], ka, k1[i]);
                }
                assert(y[pos2] == a);
            }
        }
        x.unique_seq_to_set();
        y.lemma_cardinality_of_set();
        vstd::set_lib::lemma_len_subset(x.to_set(), y.to_set());
    }
}

} // verus!

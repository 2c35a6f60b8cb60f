//! The external sort: input rows are identified by `(batch, row)` and ranked
//! by their encoded keys. Staged batches are sorted into runs, and runs are
//! merged through a loser tree, with an optional limit on the number of
//! rows kept.
use vstd::prelude::*;
use itertools::Itertools;
use crate::keys::{
    copy_key, encode_keys, key_seqs, last_key, lemma_encode_keys_step,
    lemma_lex_irreflexive, lemma_lex_le_transitive, lemma_token_at, lex_le,
    SortedKeysReader, SortedKeysWriter,
};
use crate::loser_tree::{opt_key, ranks_before, LoserTree};

verus! {

/// The keys of the input batches, batch by batch and row by row.
pub open spec fn batches_view(b: Seq<Vec<Vec<u8>>>) -> Seq<Seq<Seq<u8>>> {
    b.map_values(|v: Vec<Vec<u8>>| key_seqs(v@))
}

/// `id` names a row of the input.
pub open spec fn valid_row(bs: Seq<Seq<Seq<u8>>>, id: (usize, usize)) -> bool {
    id.0 < bs.len() && id.1 < bs[id.0 as int].len()
}

/// `id` names a row of one of the batches `lo .. hi`.
pub open spec fn row_between(bs: Seq<Seq<Seq<u8>>>, lo: int, hi: int, id: (usize, usize)) -> bool {
    lo <= id.0 < hi && valid_row(bs, id)
}

/// The encoded key of row `id`.
pub open spec fn row_key(bs: Seq<Seq<Seq<u8>>>, id: (usize, usize)) -> Seq<u8> {
    bs[id.0 as int][id.1 as int]
}

/// The keys of a sequence of rows.
pub open spec fn run_keys(bs: Seq<Seq<Seq<u8>>>, rows: Seq<(usize, usize)>) -> Seq<Seq<u8>> {
    rows.map_values(|id: (usize, usize)| row_key(bs, id))
}

/// Keys in non-decreasing order.
pub open spec fn keys_sorted(ks: Seq<Seq<u8>>) -> bool {
    forall|i: int, j: int| 0 <= i < j < ks.len() ==> lex_le(#[trigger] ks[i], #[trigger] ks[j])
}

/// Number of rows in the batches `lo .. hi`.
pub open spec fn rows_between(bs: Seq<Seq<Seq<u8>>>, lo: int, hi: int) -> nat
    decreases hi - lo,
{
    if hi <= lo {
        0
    } else {
        rows_between(bs, lo, hi - 1) + bs[hi - 1].len()
    }
}

/// The smaller of two counts.
pub open spec fn min_nat(a: nat, b: nat) -> nat {
    if a < b {
        a
    } else {
        b
    }
}

/// A sorted run over the input: rows in key order, each once, with the key
/// store holding their keys.
pub struct SortedRun {
    /// First batch the run covers.
    pub lo: usize,
    /// End of the batches the run covers.
    pub hi: usize,
    pub key_store: Vec<u8>,
    pub rows: Vec<(usize, usize)>,
}

impl SortedRun {
    /// Well-formed over the input `bs`: the run is the sorted selection of
    /// at most `limit` rows of its batches, and its key store holds their
    /// keys.
    pub open spec fn wf(&self, bs: Seq<Seq<Seq<u8>>>, limit: nat) -> bool {
        &&& self.lo <= self.hi <= bs.len()
        &&& sorted_selection(bs, self.lo as int, self.hi as int, limit, self.rows@)
        &&& self.key_store@ == encode_keys(run_keys(bs, self.rows@))
    }
}

/// The rows of the batches `lo .. hi`, taken up to `limit`, are exactly
/// `rows`: in key order, each once, `min(limit, n)` of them, and every row
/// left out sorts no earlier than any row kept; where all `n` are kept,
/// every row is there.
pub open spec fn sorted_selection(
    bs: Seq<Seq<Seq<u8>>>,
    lo: int,
    hi: int,
    limit: nat,
    rows: Seq<(usize, usize)>,
) -> bool {
    &&& forall|i: int| 0 <= i < rows.len() ==> row_between(bs, lo, hi, #[trigger] rows[i])
    &&& rows.no_duplicates()
    &&& keys_sorted(run_keys(bs, rows))
    &&& rows.len() == min_nat(limit, rows_between(bs, lo, hi))
    &&& rows.len() == rows_between(bs, lo, hi) ==> forall|id: (usize, usize)|
        row_between(bs, lo, hi, id) ==> #[trigger] rows.contains(id)
    &&& forall|id: (usize, usize)|
        #![trigger rows.contains(id)]
        row_between(bs, lo, hi, id) && !rows.contains(id) ==> forall|i: int|
            0 <= i < rows.len() ==> lex_le(#[trigger] row_key(bs, rows[i]), row_key(bs, id))
}

proof fn lemma_rows_between_mono(bs: Seq<Seq<Seq<u8>>>, lo: int, a: int, b: int)
    requires
        lo <= a <= b,
    ensures
        rows_between(bs, lo, a) <= rows_between(bs, lo, b),
    decreases b - a,
{
    if a < b {
        lemma_rows_between_mono(bs, lo, a, b - 1);
    }
}

/// Relies on `Itertools::sorted_unstable` (itertools 0.15): it collects the
/// entries and sorts them with `slice::sort_unstable`, so they come out as
/// a permutation of what went in, in ascending order of the tuples; the
/// first component, a `Vec<u8>`, is the most significant and orders
/// lexicographically.
#[verifier::external_body]
fn sort_entries(v: Vec<(Vec<u8>, usize, usize)>) -> (r: Vec<(Vec<u8>, usize, usize)>)
    ensures
        r@.to_multiset() == v@.to_multiset(),
        forall|i: int, j: int| 0 <= i < j < r@.len() ==> lex_le(#[trigger] r@[i].0@, #[trigger] r@[j].0@),
{
    v.into_iter().sorted_unstable().collect()
}

/// Position of row `id` when the batches `lo ..` are laid end to end.
spec fn flat_pos(bs: Seq<Seq<Seq<u8>>>, lo: int, id: (usize, usize)) -> int {
    rows_between(bs, lo, id.0 as int) + id.1
}

/// Sorts the rows of the batches `lo .. hi` by key and keeps the first
/// `limit` of them (the partial sort of staged batches).
pub fn sort_batches(batches: &Vec<Vec<Vec<u8>>>, lo: usize, hi: usize, limit: usize) -> (r:
    SortedRun)
    requires
        lo <= hi <= batches@.len(),
        keys_fit(batches@),
    ensures
        r.wf(batches_view(batches@), limit as nat),
        r.lo == lo,
        r.hi == hi,
{
    let ghost bs = batches_view(batches@);
    let mut entries: Vec<(Vec<u8>, usize, usize)> = Vec::new();
    let mut b: usize = lo;
    while b < hi
        invariant
            lo <= b <= hi <= batches@.len(),
            bs == batches_view(batches@),
            entries@.len() == rows_between(bs, lo as int, b as int),
            forall|j: int|
                #![trigger entries@[j]]
                0 <= j < entries@.len() ==> {
                    let id = (entries@[j].1, entries@[j].2);
                    &&& row_between(bs, lo as int, b as int, id)
                    &&& entries@[j].0@ == row_key(bs, id)
                    &&& flat_pos(bs, lo as int, id) == j
                },
        decreases hi - b,
    {
        let batch = &batches[b];
        let ghost base = entries@.len();
        let mut i: usize = 0;
        while i < batch.len()
            invariant
                lo <= b < hi <= batches@.len(),
                bs == batches_view(batches@),
                *batch == batches@[b as int],
                i <= batch@.len(),
                base == rows_between(bs, lo as int, b as int),
                entries@.len() == base + i,
                forall|j: int|
                    #![trigger entries@[j]]
                    0 <= j < entries@.len() ==> {
                        let id = (entries@[j].1, entries@[j].2);
                        &&& row_between(bs, lo as int, b + 1, id)
                        &&& entries@[j].0@ == row_key(bs, id)
                        &&& flat_pos(bs, lo as int, id) == j
                        &&& (id.0 == b ==> id.1 < i)
                    },
            decreases batch@.len() - i,
        {
            let key = copy_key(batch[i].as_slice());
            proof {
                assert(bs[b as int] == key_seqs(batch@));
                assert(key_seqs(batch@)[i as int] == batch@[i as int]@);
            }
            entries.push((key, b, i));
            i = i + 1;
        }
        proof {
            assert(bs[b as int] == key_seqs(batch@));
            assert(entries@.len() == rows_between(bs, lo as int, b + 1));
            assert forall|j: int| 0 <= j < entries@.len() implies #[trigger] row_between(
                bs,
                lo as int,
                b + 1,
                (entries@[j].1, entries@[j].2),
            ) by {}
        }
        b = b + 1;
    }
    let ghost unsorted = entries@;
    proof {
        // every row of the batches sits at its flat position
        assert forall|id: (usize, usize)| row_between(bs, lo as int, hi as int, id) implies #[trigger] flat_pos(bs, lo as int, id) < unsorted.len()
            && (unsorted[flat_pos(bs, lo as int, id)].1, unsorted[flat_pos(bs, lo as int, id)].2) == id by {
            lemma_rows_between_mono(bs, lo as int, id.0 + 1, hi as int);
            let j = flat_pos(bs, lo as int, id);
            let other = (unsorted[j].1, unsorted[j].2);
            if other != id {
                if other.0 < id.0 {
                    lemma_rows_between_mono(bs, lo as int, other.0 + 1, id.0 as int);
                } else if other.0 > id.0 {
                    lemma_rows_between_mono(bs, lo as int, id.0 + 1, other.0 as int);
                }
            }
        }
        assert(unsorted.no_duplicates());
        unsorted.lemma_multiset_has_no_duplicates();
    }
    let entries = sort_entries(entries);
    let ghost sorted = entries@;
    proof {
        sorted.to_multiset_ensures();
        unsorted.to_multiset_ensures();
        assert forall|x| sorted.to_multiset().contains(x) implies sorted.to_multiset().count(x) == 1 by {
            assert(unsorted.to_multiset().contains(x));
        }
        sorted.lemma_multiset_has_no_duplicates_conv();
        assert forall|j: int| 0 <= j < sorted.len() implies unsorted.contains(#[trigger] sorted[j]) by {
            assert(sorted.to_multiset().count(sorted[j]) > 0);
        }
    }
    let n = entries.len();
    let m = if limit < n {
        limit
    } else {
        n
    };
    let mut rows: Vec<(usize, usize)> = Vec::new();
    let mut key_store: Vec<u8> = Vec::new();
    let mut writer = SortedKeysWriter::new();
    let mut k: usize = 0;
    while k < m
        invariant
            k <= m <= n,
            n == entries@.len(),
            entries@ == sorted,
            rows@.len() == k,
            forall|j: int| 0 <= j < k ==> #[trigger] rows@[j] == (sorted[j].1, sorted[j].2),
            key_store@ == encode_keys(run_keys(bs, rows@)),
            writer@ == crate::keys::last_key(run_keys(bs, rows@)),
            forall|j: int| 0 <= j < sorted.len() ==> unsorted.contains(#[trigger] sorted[j]),
            forall|j: int|
                #![trigger unsorted[j]]
                0 <= j < unsorted.len() ==> {
                    let id = (unsorted[j].1, unsorted[j].2);
                    &&& row_between(bs, lo as int, hi as int, id)
                    &&& unsorted[j].0@ == row_key(bs, id)
                },
            keys_fit(batches@),
            bs == batches_view(batches@),
        decreases m - k,
    {
        let ghost rk = run_keys(bs, rows@);
        proof {
            assert(unsorted.contains(sorted[k as int]));
            let j = choose|j: int| 0 <= j < unsorted.len() && unsorted[j] == sorted[k as int];
            assert(unsorted[j] == sorted[k as int]);
            assert(bs[sorted[k as int].1 as int] == key_seqs(batches@[sorted[k as int].1 as int]@));
        }
        writer.write_key(entries[k].0.as_slice(), &mut key_store);
        rows.push((entries[k].1, entries[k].2));
        proof {
            let nk = run_keys(bs, rows@);
            assert(nk.take(k as int) =~= rk);
            assert(nk.take(k + 1) =~= nk);
            lemma_encode_keys_step(nk, k as int);
            assert(rk =~= run_keys(bs, rows@.take(k as int)));
        }
        k = k + 1;
    }
    let r = SortedRun { lo, hi, key_store, rows };
    proof {
        sorted.to_multiset_ensures();
        unsorted.to_multiset_ensures();
        let rows_s = r.rows@;
        // each kept row is an input row with its own key
        assert forall|j: int| 0 <= j < sorted.len() implies row_between(bs, lo as int, hi as int, (#[trigger] sorted[j].1, sorted[j].2))
            && sorted[j].0@ == row_key(bs, (sorted[j].1, sorted[j].2)) by {
            assert(unsorted.contains(sorted[j]));
            let u = choose|u: int| 0 <= u < unsorted.len() && unsorted[u] == sorted[j];
            assert(unsorted[u] == sorted[j]);
        }
        // distinct entries carry distinct rows
        assert forall|a: int, c: int| 0 <= a < sorted.len() && 0 <= c < sorted.len() && a != c implies
            (#[trigger] sorted[a].1, sorted[a].2) != (#[trigger] sorted[c].1, sorted[c].2) by {
            if (sorted[a].1, sorted[a].2) == (sorted[c].1, sorted[c].2) {
                assert(unsorted.contains(sorted[a]));
                assert(unsorted.contains(sorted[c]));
                let u = choose|u: int| 0 <= u < unsorted.len() && unsorted[u] == sorted[a];
                let v = choose|v: int| 0 <= v < unsorted.len() && unsorted[v] == sorted[c];
                assert(unsorted[u] == sorted[a]);
                assert(unsorted[v] == sorted[c]);
                assert(u == v);
            }
        }
        assert(rows_s.no_duplicates());
        assert forall|i: int, j: int| 0 <= i < j < run_keys(bs, rows_s).len() implies lex_le(
            #[trigger] run_keys(bs, rows_s)[i],
            #[trigger] run_keys(bs, rows_s)[j],
        ) by {
            assert(lex_le(sorted[i].0@, sorted[j].0@));
        }
        // every row of the batches is somewhere in the sorted entries
        assert forall|id: (usize, usize)| m == rows_between(bs, lo as int, hi as int) && row_between(bs, lo as int, hi as int, id) implies #[trigger] rows_s.contains(id) by {
            let u = flat_pos(bs, lo as int, id);
            assert(unsorted.contains(unsorted[u]));
            assert(unsorted.to_multiset().count(unsorted[u]) > 0);
            assert(sorted.contains(unsorted[u]));
            let p = choose|p: int| 0 <= p < sorted.len() && sorted[p] == unsorted[u];
            assert(sorted[p] == unsorted[u]);
            assert(rows_s[p] == id);
        }
        assert forall|id: (usize, usize)| row_between(bs, lo as int, hi as int, id) && !rows_s.contains(id)
            implies forall|i: int|
            0 <= i < rows_s.len() ==> lex_le(#[trigger] row_key(bs, rows_s[i]), row_key(bs, id)) by {
            let u = flat_pos(bs, lo as int, id);
            assert(unsorted.contains(unsorted[u]));
            assert(unsorted.to_multiset().count(unsorted[u]) > 0);
            assert(sorted.contains(unsorted[u]));
            let p = choose|p: int| 0 <= p < sorted.len() && sorted[p] == unsorted[u];
            assert(sorted[p] == unsorted[u]);
            if p < m {
                assert(rows_s[p] == id);
            }
            assert forall|i: int| 0 <= i < rows_s.len() implies lex_le(#[trigger] row_key(bs, rows_s[i]), row_key(bs, id)) by {
                assert(lex_le(sorted[i].0@, sorted[p].0@));
            }
        }
    }
    r
}

// ---------------------------------------------------------------------------
// Sums over runs
// ---------------------------------------------------------------------------
/// `f(0) + ... + f(n - 1)`.
pub open spec fn sum_of(f: spec_fn(int) -> nat, n: int) -> nat
    decreases n,
{
    if n <= 0 {
        0
    } else {
        sum_of(f, n - 1) + f(n - 1)
    }
}

proof fn lemma_sum_zero(f: spec_fn(int) -> nat, n: int)
    requires
        forall|i: int| 0 <= i < n ==> #[trigger] f(i) == 0,
    ensures
        sum_of(f, n) == 0,
    decreases n,
{
    if n > 0 {
        lemma_sum_zero(f, n - 1);
    }
}

proof fn lemma_sum_le(f: spec_fn(int) -> nat, g: spec_fn(int) -> nat, n: int)
    requires
        forall|i: int| 0 <= i < n ==> #[trigger] f(i) <= g(i),
    ensures
        sum_of(f, n) <= sum_of(g, n),
    decreases n,
{
    if n > 0 {
        lemma_sum_le(f, g, n - 1);
    }
}

/// Where `f <= g <= h` term by term and the sums of `f` and `h` agree,
/// all three agree term by term.
proof fn lemma_sum_le_eq(f: spec_fn(int) -> nat, g: spec_fn(int) -> nat, h: spec_fn(int) -> nat, n: int)
    requires
        forall|i: int| 0 <= i < n ==> #[trigger] f(i) <= g(i),
        forall|i: int| 0 <= i < n ==> #[trigger] g(i) <= h(i),
        sum_of(f, n) == sum_of(h, n),
    ensures
        forall|i: int| 0 <= i < n ==> #[trigger] f(i) == g(i) && g(i) == h(i),
    decreases n,
{
    if n > 0 {
        lemma_sum_le(f, h, n - 1);
        assert(f(n - 1) <= g(n - 1) <= h(n - 1));
        lemma_sum_le_eq(f, g, h, n - 1);
    }
}

proof fn lemma_sum_eq(f: spec_fn(int) -> nat, g: spec_fn(int) -> nat, n: int)
    requires
        forall|i: int| 0 <= i < n ==> #[trigger] f(i) == g(i),
    ensures
        sum_of(f, n) == sum_of(g, n),
    decreases n,
{
    if n > 0 {
        lemma_sum_eq(f, g, n - 1);
    }
}

proof fn lemma_sum_bump(f: spec_fn(int) -> nat, g: spec_fn(int) -> nat, n: int, w: int)
    requires
        0 <= w < n,
        forall|i: int| 0 <= i < n && i != w ==> #[trigger] f(i) == g(i),
        g(w) == f(w) + 1,
    ensures
        sum_of(g, n) == sum_of(f, n) + 1,
    decreases n,
{
    if n - 1 == w {
        lemma_sum_eq(f, g, n - 1);
    } else {
        lemma_sum_bump(f, g, n - 1, w);
    }
}

/// One term bounds the sum from below; where it equals the sum, every other
/// term is zero.
proof fn lemma_sum_term(f: spec_fn(int) -> nat, n: int, r: int)
    requires
        0 <= r < n,
    ensures
        sum_of(f, n) >= f(r),
        sum_of(f, n) == f(r) ==> forall|i: int| 0 <= i < n && i != r ==> #[trigger] f(i) == 0,
    decreases n,
{
    if n - 1 != r {
        lemma_sum_term(f, n - 1, r);
    } else {
        assert forall|i: int| 0 <= i < n - 1 && sum_of(f, n) == f(r) implies #[trigger] f(i) == 0 by {
            lemma_sum_term(f, n - 1, i);
        }
    }
}

proof fn lemma_rows_between_split(bs: Seq<Seq<Seq<u8>>>, a: int, b: int, c: int)
    requires
        a <= b <= c,
    ensures
        rows_between(bs, a, c) == rows_between(bs, a, b) + rows_between(bs, b, c),
    decreases c - b,
{
    if b < c {
        lemma_rows_between_split(bs, a, b, c - 1);
    }
}

/// Runs that cover consecutive batch ranges, one after another.
pub open spec fn consecutive(runs: Seq<SortedRun>) -> bool {
    forall|r: int| 0 <= r < runs.len() - 1 ==> (#[trigger] runs[r]).hi == runs[r + 1].lo
}

proof fn lemma_consecutive_rows(bs: Seq<Seq<Seq<u8>>>, runs: Seq<SortedRun>, k: int)
    requires
        1 <= k <= runs.len(),
        consecutive(runs),
        forall|r: int| 0 <= r < runs.len() ==> (#[trigger] runs[r]).lo <= runs[r].hi,
    ensures
        runs[0].lo <= runs[k - 1].hi,
        rows_between(bs, runs[0].lo as int, runs[k - 1].hi as int) == sum_of(
            |r: int| rows_between(bs, runs[r].lo as int, runs[r].hi as int),
            k,
        ),
    decreases k,
{
    let f = |r: int| rows_between(bs, runs[r].lo as int, runs[r].hi as int);
    assert(sum_of(f, k) == sum_of(f, k - 1) + f(k - 1));
    if k > 1 {
        lemma_consecutive_rows(bs, runs, k - 1);
        assert(runs[k - 2].hi == runs[k - 1].lo);
        lemma_rows_between_split(bs, runs[0].lo as int, runs[k - 1].lo as int, runs[k - 1].hi as int);
    } else {
        assert(sum_of(f, 0) == 0);
    }
}

proof fn lemma_find_run(runs: Seq<SortedRun>, k: int, b: int) -> (r: int)
    requires
        1 <= k <= runs.len(),
        consecutive(runs),
        runs[0].lo <= b < runs[k - 1].hi,
        forall|r: int| 0 <= r < runs.len() ==> (#[trigger] runs[r]).lo <= runs[r].hi,
    ensures
        0 <= r < k,
        runs[r].lo <= b < runs[r].hi,
    decreases k,
{
    if runs[k - 1].lo <= b {
        k - 1
    } else {
        assert(runs[k - 2].hi == runs[k - 1].lo);
        lemma_find_run(runs, k - 1, b)
    }
}

// ---------------------------------------------------------------------------
// k-way merge
// ---------------------------------------------------------------------------
/// The current key of a cursor that has consumed `c` rows of a run with
/// keys `ks`.
pub open spec fn cursor_key(ks: Seq<Seq<u8>>, c: int) -> Option<Seq<u8>> {
    if c < ks.len() {
        Some(ks[c])
    } else {
        None
    }
}

/// Every key of the input is short enough to be stored.
pub open spec fn keys_fit(batches: Seq<Vec<Vec<u8>>>) -> bool {
    forall|b: int, i: int|
        0 <= b < batches.len() && 0 <= i < batches[b]@.len() ==> #[trigger] batches[b]@[i]@.len()
            < usize::MAX
}

proof fn lemma_row_key(batches: Seq<Vec<Vec<u8>>>, id: (usize, usize))
    requires
        keys_fit(batches),
        valid_row(batches_view(batches), id),
    ensures
        row_key(batches_view(batches), id) == batches[id.0 as int]@[id.1 as int]@,
        row_key(batches_view(batches), id).len() < usize::MAX,
{
    let bs = batches_view(batches);
    assert(bs[id.0 as int] == key_seqs(batches[id.0 as int]@));
}

/// The keys of a run, in its order.
pub open spec fn keys_of(bs: Seq<Seq<Seq<u8>>>, run: SortedRun) -> Seq<Seq<u8>> {
    run_keys(bs, run.rows@)
}

/// Reads key `c` of `run` from its key store at `pos`, where `prev` is the
/// key before it: the key and the position after its token.
fn read_run_key(
    batches: &Vec<Vec<Vec<u8>>>,
    run: &SortedRun,
    limit: usize,
    prev: Vec<u8>,
    c: usize,
    pos: usize,
) -> (r: (Vec<u8>, usize))
    requires
        keys_fit(batches@),
        run.wf(batches_view(batches@), limit as nat),
        c < run.rows@.len(),
        prev@ == last_key(keys_of(batches_view(batches@), *run).take(c as int)),
        pos == encode_keys(keys_of(batches_view(batches@), *run).take(c as int)).len(),
    ensures
        r.0@ == keys_of(batches_view(batches@), *run)[c as int],
        r.1 == encode_keys(keys_of(batches_view(batches@), *run).take(c + 1)).len(),
{
    let ghost bs = batches_view(batches@);
    let ghost k = keys_of(bs, *run);
    proof {
        lemma_token_at(k, c as int);
        assert(row_between(bs, run.lo as int, run.hi as int, run.rows@[c as int]));
        lemma_row_key(batches@, run.rows@[c as int]);
        assert(k[c as int] == row_key(bs, run.rows@[c as int]));
    }
    let mut rd = SortedKeysReader::with_key(prev);
    assert(run.key_store@.len() == run.key_store.len());
    match rd.read_key(run.key_store.as_slice(), pos) {
        Some(np) => (copy_key(rd.cur_key()), np),
        None => {
            proof {
                assert(false);
            }
            (Vec::new(), pos)
        },
    }
}

proof fn lemma_sorted_push(ks: Seq<Seq<u8>>, key: Seq<u8>)
    requires
        keys_sorted(ks),
        ks.len() > 0 ==> lex_le(ks.last(), key),
    ensures
        keys_sorted(ks.push(key)),
{
    let nk = ks.push(key);
    assert forall|i: int, j: int| 0 <= i < j < nk.len() implies lex_le(#[trigger] nk[i], #[trigger] nk[j]) by {
        if j == nk.len() - 1 {
            if i < ks.len() - 1 {
                assert(lex_le(ks[i], ks[ks.len() - 1]));
            } else {
                lemma_lex_irreflexive(ks[i]);
            }
            lemma_lex_le_transitive(nk[i], ks.last(), key);
        } else {
            assert(nk[i] == ks[i]);
            assert(nk[j] == ks[j]);
        }
    }
}

/// The cursor state of a merge over `runs`: cursor `q` has consumed
/// `consumed[q]` rows, `tree` holds the cursors' current keys, and
/// `positions[q]` is where the cursor's next token starts.
pub open spec fn cursors_ok(
    ks: Seq<Seq<Seq<u8>>>,
    consumed: Seq<usize>,
    tree: Seq<Option<Seq<u8>>>,
    positions: Seq<usize>,
) -> bool {
    &&& consumed.len() == ks.len()
    &&& tree.len() == ks.len()
    &&& positions.len() == ks.len()
    &&& forall|q: int|
        0 <= q < ks.len() ==> {
            &&& consumed[q] <= ks[q].len()
            &&& #[trigger] tree[q] == cursor_key(ks[q], consumed[q] as int)
            &&& consumed[q] < ks[q].len() ==> positions[q] == encode_keys(ks[q].take(consumed[q] + 1)).len()
        }
}

/// What the merge has emitted so far: `out[k]` is row `src[k].1` of run
/// `src[k].0`, every consumed position is emitted once, and the keys come
/// out sorted, none larger than any cursor's current key.
pub open spec fn emitted_ok(
    bs: Seq<Seq<Seq<u8>>>,
    runs: Seq<SortedRun>,
    ks: Seq<Seq<Seq<u8>>>,
    consumed: Seq<usize>,
    src: Seq<(int, int)>,
    out: Seq<(usize, usize)>,
) -> bool {
    &&& out.len() == src.len()
    &&& out.len() == sum_of(|q: int| consumed[q] as nat, runs.len() as int)
    &&& forall|k: int|
        #![trigger src[k]]
        0 <= k < src.len() ==> {
            &&& 0 <= src[k].0 < runs.len()
            &&& 0 <= src[k].1 < consumed[src[k].0]
            &&& out[k] == runs[src[k].0].rows@[src[k].1]
        }
    &&& src.no_duplicates()
    &&& forall|q: int, i: int| 0 <= q < runs.len() && 0 <= i < consumed[q] ==> #[trigger] src.contains((q, i))
    &&& keys_sorted(run_keys(bs, out))
    &&& out.len() > 0 ==> forall|q: int|
        0 <= q < runs.len() && consumed[q] < ks[q].len() ==> lex_le(
            run_keys(bs, out).last(),
            #[trigger] ks[q][consumed[q] as int],
        )
}

/// Merges runs over consecutive batch ranges into one run over their union,
/// keeping at most `limit` rows: a loser tree picks the cursor with the
/// smallest key at each step, and each cursor reads its run's key store.
#[verifier::rlimit(50)]
pub fn merge_runs(batches: &Vec<Vec<Vec<u8>>>, runs: &Vec<SortedRun>, limit: usize) -> (r: SortedRun)
    requires
        1 <= runs@.len() < usize::MAX / 4,
        forall|i: int| 0 <= i < runs@.len() ==> (#[trigger] runs@[i]).wf(batches_view(batches@), limit as nat),
        consecutive(runs@),
        keys_fit(batches@),
    ensures
        r.wf(batches_view(batches@), limit as nat),
        r.lo == runs@[0].lo,
        r.hi == runs@.last().hi,
{
    let ghost bs = batches_view(batches@);
    let nr = runs.len();
    let ghost ks = runs@.map_values(|run: SortedRun| keys_of(bs, run));
    // open every cursor on its first key
    let mut init: Vec<Option<Vec<u8>>> = Vec::new();
    let mut positions: Vec<usize> = Vec::new();
    let mut consumed: Vec<usize> = Vec::new();
    let mut r: usize = 0;
    while r < nr
        invariant
            r <= nr,
            nr == runs@.len(),
            ks == runs@.map_values(|run: SortedRun| keys_of(bs, run)),
            bs == batches_view(batches@),
            keys_fit(batches@),
            forall|i: int| 0 <= i < runs@.len() ==> (#[trigger] runs@[i]).wf(bs, limit as nat),
            init@.len() == r,
            positions@.len() == r,
            consumed@.len() == r,
            forall|q: int| 0 <= q < r ==> #[trigger] consumed@[q] == 0,
            forall|q: int| 0 <= q < r ==> opt_key(#[trigger] init@[q]) == cursor_key(ks[q], 0),
            forall|q: int|
                0 <= q < r && 0 < ks[q].len() ==> #[trigger] positions@[q] == encode_keys(ks[q].take(1)).len(),
        decreases nr - r,
    {
        let run = &runs[r];
        proof {
            assert(ks[r as int] == keys_of(bs, *run));
            assert(keys_of(bs, *run).take(0) =~= Seq::<Seq<u8>>::empty());
        }
        if run.rows.len() > 0 {
            let (key, np) = read_run_key(batches, run, limit, Vec::new(), 0, 0);
            positions.push(np);
            init.push(Some(key));
        } else {
            positions.push(0);
            init.push(None);
        }
        let ghost c0 = consumed@;
        consumed.push(0);
        proof {
            assert(opt_key(init@[r as int]) == cursor_key(ks[r as int], 0));
            assert(0 < ks[r as int].len() ==> positions@[r as int] == encode_keys(ks[r as int].take(1)).len());
            assert forall|q: int| 0 <= q < r + 1 implies #[trigger] consumed@[q] == 0 by {
                if q < r {
                    assert(c0[q] == 0);
                }
            }
        }
        r = r + 1;
    }
    proof {
        lemma_sum_zero(|q: int| consumed@[q] as nat, nr as int);
    }
    let ghost init_keys = init@;
    let mut tree = LoserTree::new(init);
    proof {
        assert forall|q: int| 0 <= q < nr implies #[trigger] tree@[q] == cursor_key(
            ks[q],
            consumed@[q] as int,
        ) by {
            assert(consumed@[q] == 0);
            assert(opt_key(init_keys[q]) == cursor_key(ks[q], 0));
        }
        assert forall|q: int| 0 <= q < nr && consumed@[q] < ks[q].len() implies #[trigger] positions@[q] == encode_keys(ks[q].take(consumed@[q] + 1)).len() by {
            assert(consumed@[q] == 0);
        }
    }
    let mut out: Vec<(usize, usize)> = Vec::new();
    let mut key_store: Vec<u8> = Vec::new();
    let mut writer = SortedKeysWriter::new();
    let ghost mut src: Seq<(int, int)> = Seq::empty();
    let mut done = false;
    while !done && out.len() < limit
        invariant
            nr == runs@.len(),
            1 <= nr < usize::MAX / 4,
            ks == runs@.map_values(|run: SortedRun| keys_of(bs, run)),
            bs == batches_view(batches@),
            keys_fit(batches@),
            forall|i: int| 0 <= i < runs@.len() ==> (#[trigger] runs@[i]).wf(bs, limit as nat),
            tree.wf(),
            cursors_ok(ks, consumed@, tree@, positions@),
            emitted_ok(bs, runs@, ks, consumed@, src, out@),
            out@.len() <= limit,
            key_store@ == encode_keys(run_keys(bs, out@)),
            writer@ == last_key(run_keys(bs, out@)),
            done ==> forall|q: int| 0 <= q < nr ==> #[trigger] consumed@[q] == ks[q].len(),
        decreases limit - out@.len() + (if done {
            0int
        } else {
            1int
        }),
    {
        let w = tree.peek();
        let finished = match tree.key(w) {
            None => true,
            Some(_) => false,
        };
        if finished {
            proof {
                assert forall|q: int| 0 <= q < nr implies #[trigger] consumed@[q] == ks[q].len() by {
                    assert(!ranks_before(tree@[q], tree@[w as int]));
                    assert(tree@[q] == cursor_key(ks[q], consumed@[q] as int));
                }
            }
            done = true;
        } else {
            let key = match tree.key(w) {
                Some(k) => copy_key(k.as_slice()),
                None => Vec::new(),
            };
            let c = consumed[w];
            let run = &runs[w];
            let id = run.rows[c];
            let ghost kw = ks[w as int];
            let ghost old_out = out@;
            let ghost old_consumed = consumed@;
            let ghost old_positions = positions@;
            let ghost old_tree = tree@;
            let ghost old_src = src;
            proof {
                assert(kw == keys_of(bs, *run));
                assert(tree@[w as int] == cursor_key(kw, c as int));
                assert(key@ == kw[c as int]);
                // the emitted key is no larger than any cursor's key
                assert forall|q: int| 0 <= q < nr && consumed@[q] < ks[q].len() implies lex_le(
                    key@,
                    #[trigger] ks[q][consumed@[q] as int],
                ) by {
                    assert(!ranks_before(tree@[q], tree@[w as int]));
                    assert(tree@[q] == cursor_key(ks[q], consumed@[q] as int));
                }
                if old_out.len() > 0 {
                    assert(lex_le(run_keys(bs, old_out).last(), ks[w as int][consumed@[w as int] as int]));
                }
                lemma_sorted_push(run_keys(bs, old_out), key@);
            }
            writer.write_key(key.as_slice(), &mut key_store);
            out.push(id);
            proof {
                let nk = run_keys(bs, out@);
                assert(nk =~= run_keys(bs, old_out).push(key@));
                assert(nk.take(old_out.len() as int) =~= run_keys(bs, old_out));
                assert(nk.take(out@.len() as int) =~= nk);
                lemma_encode_keys_step(nk, old_out.len() as int);
                src = src.push((w as int, c as int));
            }
            let nc = c + 1;
            consumed.set(w, nc);
            if nc < run.rows.len() {
                proof {
                    assert(kw.take(nc as int).last() == kw[c as int]);
                }
                let (next, np) = read_run_key(batches, run, limit, key, nc, positions[w]);
                positions.set(w, np);
                proof {
                    assert(lex_le(kw[c as int], kw[nc as int]));
                }
                tree.replace_winner_key(Some(next));
            } else {
                tree.replace_winner_key(None);
            }
            proof {
                lemma_sum_bump(
                    |q: int| old_consumed[q] as nat,
                    |q: int| consumed@[q] as nat,
                    nr as int,
                    w as int,
                );
                assert forall|q: int| 0 <= q < nr implies {
                    &&& consumed@[q] <= ks[q].len()
                    &&& #[trigger] tree@[q] == cursor_key(ks[q], consumed@[q] as int)
                    &&& consumed@[q] < ks[q].len() ==> positions@[q] == encode_keys(
                        ks[q].take(consumed@[q] + 1),
                    ).len()
                } by {
                    if q != w {
                        assert(old_tree[q] == cursor_key(ks[q], old_consumed[q] as int));
                    }
                }
                assert forall|a: int, b: int|
                    0 <= a < src.len() && 0 <= b < src.len() && a != b implies src[a] != src[b] by {
                    if a < src.len() - 1 && b < src.len() - 1 {
                        assert(src[a] == old_src[a]);
                        assert(src[b] == old_src[b]);
                    } else if a == src.len() - 1 {
                        assert(src[b] == old_src[b]);
                    } else {
                        assert(src[a] == old_src[a]);
                    }
                }
                assert forall|k: int| 0 <= k < src.len() implies {
                    &&& 0 <= #[trigger] src[k].0 < nr
                    &&& 0 <= src[k].1 < consumed@[src[k].0]
                    &&& out@[k] == runs@[src[k].0].rows@[src[k].1]
                } by {
                    if k < src.len() - 1 {
                        assert(src[k] == old_src[k]);
                        assert(out@[k] == old_out[k]);
                    }
                }
                assert forall|q: int, i: int| 0 <= q < nr && 0 <= i < consumed@[q] implies #[trigger] src.contains((q, i)) by {
                    if q == w && i == c {
                        assert(src[src.len() - 1] == (q, i));
                    } else {
                        assert(old_src.contains((q, i)));
                        let k = choose|k: int| 0 <= k < old_src.len() && old_src[k] == (q, i);
                        assert(src[k] == (q, i));
                    }
                }
                let nk = run_keys(bs, out@);
                assert(nk.last() == key@);
                assert forall|q: int|
                    0 <= q < nr && consumed@[q] < ks[q].len() implies lex_le(
                    nk.last(),
                    #[trigger] ks[q][consumed@[q] as int],
                ) by {
                    if q == w {
                        assert(lex_le(kw[c as int], kw[nc as int]));
                    } else {
                        assert(consumed@[q] == old_consumed[q]);
                    }
                }
            }
        }
    }
    let lo = runs[0].lo;
    let hi = runs[nr - 1].hi;
    proof {
        assert forall|q: int| 0 <= q < nr implies #[trigger] consumed@[q] <= ks[q].len() by {
            assert(tree@[q] == cursor_key(ks[q], consumed@[q] as int));
        }
        lemma_merge_selection(bs, runs@, limit as nat, ks, consumed@, src, out@, done);
        assert forall|q: int| 0 <= q < nr implies (#[trigger] runs@[q]).lo <= runs@[q].hi by {
            assert(runs@[q].wf(bs, limit as nat));
        }
        lemma_hi_mono(runs@, 0, nr - 1);
        assert(runs@[nr - 1].wf(bs, limit as nat));
    }
    SortedRun { lo, hi, key_store, rows: out }
}

/// Where a merge stops, what it emitted is the sorted selection of the
/// union of its runs' batches.
proof fn lemma_merge_selection(
    bs: Seq<Seq<Seq<u8>>>,
    runs: Seq<SortedRun>,
    lim: nat,
    ks: Seq<Seq<Seq<u8>>>,
    consumed: Seq<usize>,
    src: Seq<(int, int)>,
    outs: Seq<(usize, usize)>,
    done: bool,
)
    requires
        1 <= runs.len(),
        ks == runs.map_values(|run: SortedRun| keys_of(bs, run)),
        forall|i: int| 0 <= i < runs.len() ==> (#[trigger] runs[i]).wf(bs, lim),
        consecutive(runs),
        consumed.len() == runs.len(),
        forall|q: int| 0 <= q < runs.len() ==> #[trigger] consumed[q] <= ks[q].len(),
        emitted_ok(bs, runs, ks, consumed, src, outs),
        outs.len() <= lim,
        !done ==> outs.len() == lim,
        done ==> forall|q: int| 0 <= q < runs.len() ==> #[trigger] consumed[q] == ks[q].len(),
    ensures
        sorted_selection(bs, runs[0].lo as int, runs.last().hi as int, lim, outs),
{
    let nr = runs.len() as int;
    let lo = runs[0].lo;
    let hi = runs.last().hi;
    let sel_lens = |q: int| runs[q].rows@.len();
    let totals = |q: int| rows_between(bs, runs[q].lo as int, runs[q].hi as int);
    let cons = |q: int| consumed[q] as nat;
    assert forall|q: int| 0 <= q < nr implies (#[trigger] runs[q]).lo <= runs[q].hi by {}
    lemma_consecutive_rows(bs, runs, nr);
    let total = rows_between(bs, lo as int, hi as int);
    assert forall|q: int| 0 <= q < nr implies #[trigger] sel_lens(q) <= totals(q) by {}
    lemma_sum_le(sel_lens, totals, nr);
    assert forall|q: int| 0 <= q < nr implies #[trigger] cons(q) <= sel_lens(q) by {
        assert(consumed[q] <= ks[q].len());
    }
    lemma_sum_le(cons, sel_lens, nr);
    // each output row belongs to the union and comes from one cursor position
    assert forall|k: int| 0 <= k < outs.len() implies row_between(bs, lo as int, hi as int, #[trigger] outs[k]) by {
        let q = src[k].0;
        let i = src[k].1;
        assert(runs[q].wf(bs, lim));
        assert(row_between(bs, runs[q].lo as int, runs[q].hi as int, runs[q].rows@[i]));
        lemma_hi_mono(runs, 0, q);
        lemma_hi_mono(runs, q, nr - 1);
    }
    // distinct positions give distinct rows
    assert forall|a: int, b: int| 0 <= a < outs.len() && 0 <= b < outs.len() && a != b implies outs[a] != outs[b] by {
        let (qa, ia) = src[a];
        let (qb, ib) = src[b];
        assert(src[a] != src[b]);
        assert(runs[qa].wf(bs, lim));
        assert(runs[qb].wf(bs, lim));
        if qa == qb {
            assert(runs[qa].rows@.no_duplicates());
        } else if outs[a] == outs[b] {
            assert(row_between(bs, runs[qa].lo as int, runs[qa].hi as int, runs[qa].rows@[ia]));
            assert(row_between(bs, runs[qb].lo as int, runs[qb].hi as int, runs[qb].rows@[ib]));
            if qa < qb {
                lemma_hi_lo(runs, qa, qb);
            } else {
                lemma_hi_lo(runs, qb, qa);
            }
        }
    }
    assert(outs.no_duplicates());
    // how many rows come out
    if done {
        assert forall|q: int| 0 <= q < nr implies #[trigger] cons(q) == sel_lens(q) by {
            assert(consumed[q] == ks[q].len());
        }
        lemma_sum_eq(cons, sel_lens, nr);
        if exists|q: int| 0 <= q < nr && #[trigger] totals(q) >= lim {
            let q = choose|q: int| 0 <= q < nr && #[trigger] totals(q) >= lim;
            assert(runs[q].wf(bs, lim));
            lemma_sum_term(sel_lens, nr, q);
            lemma_sum_term(totals, nr, q);
        } else {
            assert forall|q: int| 0 <= q < nr implies #[trigger] sel_lens(q) == totals(q) by {
                assert(runs[q].wf(bs, lim));
            }
            lemma_sum_eq(sel_lens, totals, nr);
        }
    }
    assert(outs.len() == min_nat(lim, total));
    // an output as long as the union holds every row of it
    assert forall|id: (usize, usize)| outs.len() == total && row_between(bs, lo as int, hi as int, id) implies #[trigger] outs.contains(id) by {
        let q = lemma_find_run(runs, nr, id.0 as int);
        assert(runs[q].wf(bs, lim));
        lemma_sum_le_eq(cons, sel_lens, totals, nr);
        assert(cons(q) == sel_lens(q) && sel_lens(q) == totals(q));
        assert(runs[q].rows@.contains(id));
        let i = choose|i: int| 0 <= i < runs[q].rows@.len() && runs[q].rows@[i] == id;
        assert(consumed[q] == ks[q].len());
        assert(src.contains((q, i)));
        let k = choose|k: int| 0 <= k < src.len() && src[k] == (q, i);
        assert(outs[k] == id);
    }
    // a row left out sorts no earlier than any row kept
    assert forall|id: (usize, usize)| row_between(bs, lo as int, hi as int, id) && !outs.contains(id)
        implies forall|j: int| 0 <= j < outs.len() ==> lex_le(#[trigger] row_key(bs, outs[j]), row_key(bs, id)) by {
        if outs.len() > 0 {
            lemma_excluded_row(bs, runs, lim, ks, consumed, src, outs, id);
        }
    }
}

proof fn lemma_excluded_row(
    bs: Seq<Seq<Seq<u8>>>,
    runs: Seq<SortedRun>,
    lim: nat,
    ks: Seq<Seq<Seq<u8>>>,
    consumed: Seq<usize>,
    src: Seq<(int, int)>,
    outs: Seq<(usize, usize)>,
    id: (usize, usize),
)
    requires
        1 <= runs.len(),
        ks == runs.map_values(|run: SortedRun| keys_of(bs, run)),
        forall|i: int| 0 <= i < runs.len() ==> (#[trigger] runs[i]).wf(bs, lim),
        consecutive(runs),
        consumed.len() == runs.len(),
        forall|q: int| 0 <= q < runs.len() ==> #[trigger] consumed[q] <= ks[q].len(),
        emitted_ok(bs, runs, ks, consumed, src, outs),
        outs.len() <= lim,
        outs.len() > 0,
        row_between(bs, runs[0].lo as int, runs.last().hi as int, id),
        !outs.contains(id),
    ensures
        forall|j: int| 0 <= j < outs.len() ==> lex_le(#[trigger] row_key(bs, outs[j]), row_key(bs, id)),
{
    let nr = runs.len() as int;
    let cons = |q: int| consumed[q] as nat;
    assert forall|q: int| 0 <= q < nr implies (#[trigger] runs[q]).lo <= runs[q].hi by {}
    let q = lemma_find_run(runs, nr, id.0 as int);
    let kq = ks[q];
    let nk = run_keys(bs, outs);
    let last = nk.last();
    let x = row_key(bs, id);
    assert(runs[q].wf(bs, lim));
    assert(kq == run_keys(bs, runs[q].rows@));
    // the last key kept bounds every key kept
    assert forall|j: int| 0 <= j < outs.len() implies lex_le(#[trigger] row_key(bs, outs[j]), last) by {
        assert(nk[j] == row_key(bs, outs[j]));
        if j < outs.len() - 1 {
            assert(lex_le(nk[j], nk[outs.len() - 1]));
        } else {
            lemma_lex_irreflexive(last);
        }
    }
    if runs[q].rows@.contains(id) {
        let i = choose|i: int| 0 <= i < runs[q].rows@.len() && runs[q].rows@[i] == id;
        if i < consumed[q] {
            assert(src.contains((q, i)));
            let k = choose|k: int| 0 <= k < src.len() && src[k] == (q, i);
            assert(outs[k] == id);
        }
        let cq = consumed[q] as int;
        assert(kq[i] == x);
        if cq < i {
            assert(lex_le(kq[cq], kq[i]));
        } else {
            lemma_lex_irreflexive(kq[i]);
        }
        assert(lex_le(last, kq[cq]));
        lemma_lex_le_transitive(last, kq[cq], x);
    } else {
        // the run of `id` left it out: that run is full, and its last key bounds `x`
        assert(runs[q].rows@.len() >= lim);
        let lq = kq.last();
        assert(lex_le(lq, x));
        let cq = consumed[q] as int;
        if cq < kq.len() {
            if cq < kq.len() - 1 {
                assert(lex_le(kq[cq], kq[kq.len() - 1]));
            } else {
                lemma_lex_irreflexive(lq);
            }
            assert(lex_le(last, kq[cq]));
            lemma_lex_le_transitive(last, kq[cq], lq);
        } else {
            lemma_sum_term(cons, nr, q);
            let k = outs.len() - 1;
            let (sq, si) = src[k];
            if sq != q {
                assert(cons(sq) == 0);
            }
            assert(outs[k] == runs[q].rows@[si]);
            assert(last == kq[si]);
            if si < kq.len() - 1 {
                assert(lex_le(kq[si], kq[kq.len() - 1]));
            } else {
                lemma_lex_irreflexive(lq);
            }
        }
        lemma_lex_le_transitive(last, lq, x);
    }
    assert forall|j: int| 0 <= j < outs.len() implies lex_le(#[trigger] row_key(bs, outs[j]), x) by {
        lemma_lex_le_transitive(row_key(bs, outs[j]), last, x);
    }
}

pub proof fn lemma_hi_mono(runs: Seq<SortedRun>, a: int, b: int)
    requires
        0 <= a <= b < runs.len(),
        consecutive(runs),
        forall|r: int| 0 <= r < runs.len() ==> (#[trigger] runs[r]).lo <= runs[r].hi,
    ensures
        runs[a].hi <= runs[b].hi,
        runs[a].lo <= runs[b].lo,
    decreases b - a,
{
    if a < b {
        lemma_hi_mono(runs, a, b - 1);
        assert(runs[b - 1].hi == runs[b].lo);
    }
}

proof fn lemma_hi_lo(runs: Seq<SortedRun>, a: int, b: int)
    requires
        0 <= a < b < runs.len(),
        consecutive(runs),
        forall|r: int| 0 <= r < runs.len() ==> (#[trigger] runs[r]).lo <= runs[r].hi,
    ensures
        runs[a].hi <= runs[b].lo,
{
    lemma_hi_mono(runs, a, b - 1);
    assert(runs[b - 1].hi == runs[b].lo);
}

} // verus!

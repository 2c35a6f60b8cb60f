//! Pruning sort-key columns out of sorted runs: a key column need not be
//! stored with the rows, since it can be decoded back from the row key.
//! The plan says which columns stay and where each column is restored from.
use vstd::prelude::*;

verus! {

/// Where a restored column comes from.
#[derive(Clone, Copy, Debug, PartialEq, Eq, Structural)]
pub enum ColMapper {
    /// Column `k` of the pruned batch.
    FromPrunedBatch(usize),
    /// The value of sort expression `e`, decoded from the key.
    FromKey(usize),
}

/// Column `c` is what some sort expression is.
pub open spec fn is_key_column(key_columns: Seq<Option<usize>>, c: int) -> bool {
    exists|e: int| 0 <= e < key_columns.len() && #[trigger] key_columns[e] == Some(c as usize)
}

/// `e` is the first sort expression that is column `c`.
pub open spec fn first_key_of(key_columns: Seq<Option<usize>>, c: int, e: int) -> bool {
    &&& 0 <= e < key_columns.len()
    &&& key_columns[e] == Some(c as usize)
    &&& forall|f: int| 0 <= f < e ==> #[trigger] key_columns[f] != Some(c as usize)
}

/// The pruning plan of a sort over rows of `num_columns` columns.
pub struct SortKeyPruning {
    /// The columns kept with the rows, in order.
    pub pruned_columns: Vec<usize>,
    /// For each column, where it is restored from.
    pub restored: Vec<ColMapper>,
}

impl SortKeyPruning {
    /// The plan for rows of `num_columns` columns sorted by expressions of
    /// which `key_columns[e]` is `Some(c)` where expression `e` is plain
    /// column `c`.
    pub open spec fn plans(&self, num_columns: nat, key_columns: Seq<Option<usize>>) -> bool {
        &&& forall|k: int|
            0 <= k < self.pruned_columns@.len() ==> #[trigger] self.pruned_columns@[k] < num_columns
                && !is_key_column(key_columns, self.pruned_columns@[k] as int)
        &&& forall|k1: int, k2: int|
            0 <= k1 < k2 < self.pruned_columns@.len() ==> #[trigger] self.pruned_columns@[k1]
                < #[trigger] self.pruned_columns@[k2]
        &&& self.restored@.len() == num_columns
        &&& forall|c: int|
            0 <= c < num_columns ==> match #[trigger] self.restored@[c] {
                ColMapper::FromKey(e) => first_key_of(key_columns, c, e as int),
                ColMapper::FromPrunedBatch(k) => k < self.pruned_columns@.len() && self.pruned_columns@[k as int]
                    == c && !is_key_column(key_columns, c),
            }
    }

    /// No column is kept with the rows: every column is a sort key.
    pub fn is_all_pruned(&self) -> (r: bool)
        ensures
            r == (self.pruned_columns@.len() == 0),
    {
        self.pruned_columns.len() == 0
    }
}

/// Plans which columns of rows of `num_columns` columns are kept beside the
/// sort keys, and where each column is restored from.
pub fn plan_sort_key_pruning(num_columns: usize, key_columns: &Vec<Option<usize>>) -> (r: SortKeyPruning)
    ensures
        r.plans(num_columns as nat, key_columns@),
{
    let mut pruned: Vec<usize> = Vec::new();
    let mut restored: Vec<ColMapper> = Vec::new();
    let mut c: usize = 0;
    while c < num_columns
        invariant
            c <= num_columns,
            restored@.len() == c,
            forall|k: int|
                0 <= k < pruned@.len() ==> #[trigger] pruned@[k] < c && !is_key_column(
                    key_columns@,
                    pruned@[k] as int,
                ),
            forall|k1: int, k2: int|
                0 <= k1 < k2 < pruned@.len() ==> #[trigger] pruned@[k1] < #[trigger] pruned@[k2],
            forall|d: int|
                0 <= d < c ==> match #[trigger] restored@[d] {
                    ColMapper::FromKey(e) => first_key_of(key_columns@, d, e as int),
                    ColMapper::FromPrunedBatch(k) => k < pruned@.len() && pruned@[k as int] == d
                        && !is_key_column(key_columns@, d),
                },
        decreases num_columns - c,
    {
        // the first sort expression that is this column, if any
        let mut e: usize = 0;
        while e < key_columns.len() && key_columns[e] != Some(c)
            invariant
                e <= key_columns@.len(),
                forall|f: int| 0 <= f < e ==> #[trigger] key_columns@[f] != Some(c),
            decreases key_columns@.len() - e,
        {
            e = e + 1;
        }
        let ghost pruned0 = pruned@;
        let ghost r0 = restored@;
        if e < key_columns.len() {
            restored.push(ColMapper::FromKey(e));
        } else {
            proof {
                assert(!is_key_column(key_columns@, c as int));
            }
            restored.push(ColMapper::FromPrunedBatch(pruned.len()));
            pruned.push(c);
        }
        proof {
            assert forall|d: int| 0 <= d < c + 1 implies match #[trigger] restored@[d] {
                ColMapper::FromKey(e) => first_key_of(key_columns@, d, e as int),
                ColMapper::FromPrunedBatch(k) => k < pruned@.len() && pruned@[k as int] == d
                    && !is_key_column(key_columns@, d),
            } by {
                if d < c {
                    assert(restored@[d] == r0[d]);
                    match r0[d] {
                        ColMapper::FromPrunedBatch(k) => {
                            assert(pruned@[k as int] == pruned0[k as int]);
                        },
                        _ => {},
                    }
                }
            }
        }
        c = c + 1;
    }
    SortKeyPruning { pruned_columns: pruned, restored }
}

/// The columns of a row kept beside its key.
pub open spec fn pruned_row<T>(plan: SortKeyPruning, row: Seq<T>) -> Seq<T> {
    plan.pruned_columns@.map_values(|c: usize| row[c as int])
}

/// Keeps the columns of `row` that the plan keeps.
pub fn prune_row<T: Copy>(plan: &SortKeyPruning, row: &Vec<T>) -> (r: Vec<T>)
    requires
        forall|k: int| 0 <= k < plan.pruned_columns@.len() ==> #[trigger] plan.pruned_columns@[k] < row@.len(),
    ensures
        r@ == pruned_row(*plan, row@),
{
    let mut r: Vec<T> = Vec::new();
    let mut k: usize = 0;
    while k < plan.pruned_columns.len()
        invariant
            k <= plan.pruned_columns@.len(),
            forall|q: int| 0 <= q < plan.pruned_columns@.len() ==> #[trigger] plan.pruned_columns@[q] < row@.len(),
            r@ == pruned_row(*plan, row@).take(k as int),
        decreases plan.pruned_columns@.len() - k,
    {
        let c = plan.pruned_columns[k];
        r.push(row[c]);
        proof {
            assert(r@ =~= pruned_row(*plan, row@).take(k + 1));
        }
        k = k + 1;
    }
    assert(r@ =~= pruned_row(*plan, row@));
    r
}

/// The row rebuilt from its kept columns and the values of the sort
/// expressions decoded from its key.
pub open spec fn restored_row<T>(plan: SortKeyPruning, pruned: Seq<T>, key_values: Seq<T>) -> Seq<T> {
    plan.restored@.map_values(
        |m: ColMapper|
            match m {
                ColMapper::FromPrunedBatch(k) => pruned[k as int],
                ColMapper::FromKey(e) => key_values[e as int],
            },
    )
}

/// Rebuilds a row from its kept columns and its decoded key values.
pub fn restore_row<T: Copy>(
    plan: &SortKeyPruning,
    num_columns: usize,
    key_columns: &Vec<Option<usize>>,
    pruned: &Vec<T>,
    key_values: &Vec<T>,
) -> (r: Vec<T>)
    requires
        plan.plans(num_columns as nat, key_columns@),
        pruned@.len() == plan.pruned_columns@.len(),
        key_values@.len() == key_columns@.len(),
    ensures
        r@ == restored_row(*plan, pruned@, key_values@),
{
    let mut r: Vec<T> = Vec::new();
    let mut c: usize = 0;
    while c < plan.restored.len()
        invariant
            c <= plan.restored@.len(),
            plan.plans(num_columns as nat, key_columns@),
            pruned@.len() == plan.pruned_columns@.len(),
            key_values@.len() == key_columns@.len(),
            r@ == restored_row(*plan, pruned@, key_values@).take(c as int),
        decreases plan.restored@.len() - c,
    {
        let v = match plan.restored[c] {
            ColMapper::FromPrunedBatch(k) => pruned[k],
            ColMapper::FromKey(e) => key_values[e],
        };
        r.push(v);
        proof {
            assert(r@ =~= restored_row(*plan, pruned@, key_values@).take(c + 1));
        }
        c = c + 1;
    }
    assert(r@ =~= restored_row(*plan, pruned@, key_values@));
    r
}

/// Pruning a row and restoring it from the values of its sort keys gives
/// the row back.
pub proof fn lemma_prune_restore_round_trip<T>(
    plan: SortKeyPruning,
    num_columns: nat,
    key_columns: Seq<Option<usize>>,
    row: Seq<T>,
    key_values: Seq<T>,
)
    requires
        plan.plans(num_columns, key_columns),
        num_columns <= usize::MAX,
        row.len() == num_columns,
        key_values.len() == key_columns.len(),
        forall|e: int|
            0 <= e < key_columns.len() && #[trigger] key_columns[e] is Some ==> key_columns[e].unwrap()
                < num_columns && key_values[e] == row[key_columns[e].unwrap() as int],
    ensures
        restored_row(plan, pruned_row(plan, row), key_values) == row,
{
    let restored = restored_row(plan, pruned_row(plan, row), key_values);
    assert forall|c: int| 0 <= c < row.len() implies restored[c] == row[c] by {
        match plan.restored@[c] {
            ColMapper::FromKey(e) => {
                assert(key_columns[e as int] == Some(c as usize));
                assert(key_columns[e as int] is Some);
                assert(key_values[e as int] == row[key_columns[e as int].unwrap() as int]);
            },
            ColMapper::FromPrunedBatch(k) => {
                assert(pruned_row(plan, row)[k as int] == row[plan.pruned_columns@[k as int] as int]);
            },
        }
    }
    assert(restored =~= row);
}

} // verus!

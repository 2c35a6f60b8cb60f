//! Row keys of integer columns, made by arrow's row format: byte strings
//! that compare as the rows do under the configured SQL ordering.
use vstd::prelude::*;
use std::sync::Arc;
use arrow::array::{ArrayRef, Int64Array};
use arrow::compute::SortOptions;
use arrow::datatypes::DataType;
use arrow::error::ArrowError;
use arrow::row::{RowConverter, SortField};
use crate::keys::{copy_key, key_seqs, lex_le, lex_lt};
use crate::join::{
    in_join, keeps_unmatched_left, keeps_unmatched_right, key_match, keys_view, left_matched, left_ordered,
    nulls_follow_keys, pairs_matched, preserves_left, preserves_right, right_matched, right_ordered,
    sort_merge_join, JoinPair, JoinType,
};
use crate::sort::{
    batches_view, keys_sorted, min_nat, row_between, row_key, rows_between, run_keys, sorted_selection,
};
use crate::sorter::external_sort;

verus! {

#[verifier::external_type_specification]
#[verifier::external_body]
pub struct ExArrowError(ArrowError);

#[verifier::external_type_specification]
#[verifier::external_body]
pub struct ExRowConverter(RowConverter);

/// The order of one key column: `(descending, nulls_first)`.
pub type KeyOrder = (bool, bool);

/// SQL comparison of two values of one key column: negative, zero or
/// positive. Nulls are equal to each other and sort first or last as the
/// order says, whichever the direction.
pub open spec fn field_cmp(a: Option<i64>, b: Option<i64>, o: KeyOrder) -> int {
    match (a, b) {
        (None, None) => 0,
        (None, Some(_)) => if o.1 {
            -1
        } else {
            1
        },
        (Some(_), None) => if o.1 {
            1
        } else {
            -1
        },
        (Some(x), Some(y)) => if x == y {
            0
        } else if (x < y) != o.0 {
            -1
        } else {
            1
        },
    }
}

/// SQL comparison of two rows of key values, column by column from `k` on.
pub open spec fn rows_cmp_from(a: Seq<Option<i64>>, b: Seq<Option<i64>>, orders: Seq<KeyOrder>, k: int) -> int
    decreases orders.len() - k,
{
    if k < 0 || k >= orders.len() {
        0
    } else if field_cmp(a[k], b[k], orders[k]) != 0 {
        field_cmp(a[k], b[k], orders[k])
    } else {
        rows_cmp_from(a, b, orders, k + 1)
    }
}

/// SQL comparison of two rows of key values.
pub open spec fn rows_cmp(a: Seq<Option<i64>>, b: Seq<Option<i64>>, orders: Seq<KeyOrder>) -> int {
    rows_cmp_from(a, b, orders, 0)
}

/// The columns' values.
pub open spec fn cols_view(cols: Seq<Vec<Option<i64>>>) -> Seq<Seq<Option<i64>>> {
    cols.map_values(|c: Vec<Option<i64>>| c@)
}

/// Row `i` of a table given by its columns.
pub open spec fn table_row(cols: Seq<Seq<Option<i64>>>, i: int) -> Seq<Option<i64>> {
    cols.map_values(|c: Seq<Option<i64>>| c[i])
}

/// A table of `n` rows given by at least one column.
pub open spec fn table_of(cols: Seq<Seq<Option<i64>>>, n: nat) -> bool {
    &&& cols.len() >= 1
    &&& forall|c: int| 0 <= c < cols.len() ==> (#[trigger] cols[c]).len() == n
}

/// Row `i` holds a null.
pub open spec fn row_has_null(row: Seq<Option<i64>>) -> bool {
    exists|c: int| 0 <= c < row.len() && #[trigger] row[c] is None
}

/// What arrow's row format makes of the rows of `cols` under `orders`.
pub uninterp spec fn row_keys(cols: Seq<Seq<Option<i64>>>, orders: Seq<KeyOrder>) -> Seq<Seq<u8>>;

proof fn lemma_rows_cmp_from(a: Seq<Option<i64>>, b: Seq<Option<i64>>, orders: Seq<KeyOrder>, k: int)
    requires
        0 <= k <= orders.len(),
        a.len() == orders.len(),
        b.len() == orders.len(),
    ensures
        rows_cmp_from(b, a, orders, k) == -rows_cmp_from(a, b, orders, k),
        rows_cmp_from(a, b, orders, k) == 0 ==> a.subrange(k, a.len() as int) == b.subrange(k, b.len() as int),
    decreases orders.len() - k,
{
    if k < orders.len() {
        lemma_rows_cmp_from(a, b, orders, k + 1);
        if field_cmp(a[k], b[k], orders[k]) == 0 {
            assert(a.subrange(k, a.len() as int) =~= seq![a[k]] + a.subrange(k + 1, a.len() as int));
            assert(b.subrange(k, b.len() as int) =~= seq![b[k]] + b.subrange(k + 1, b.len() as int));
        }
    } else {
        assert(a.subrange(k, a.len() as int) =~= b.subrange(k, b.len() as int));
    }
}

/// SQL row comparison is antisymmetric, and rows compare equal only when
/// they hold the same values.
pub proof fn lemma_rows_cmp(a: Seq<Option<i64>>, b: Seq<Option<i64>>, orders: Seq<KeyOrder>)
    requires
        a.len() == orders.len(),
        b.len() == orders.len(),
    ensures
        rows_cmp(b, a, orders) == -rows_cmp(a, b, orders),
        rows_cmp(a, b, orders) == 0 <==> a == b,
{
    lemma_rows_cmp_from(a, b, orders, 0);
    assert(a.subrange(0, a.len() as int) =~= a);
    assert(b.subrange(0, b.len() as int) =~= b);
    if a == b {
        lemma_rows_cmp_self(a, orders, 0);
    }
}

proof fn lemma_rows_cmp_self(a: Seq<Option<i64>>, orders: Seq<KeyOrder>, k: int)
    requires
        0 <= k <= orders.len(),
        a.len() == orders.len(),
    ensures
        rows_cmp_from(a, a, orders, k) == 0,
    decreases orders.len() - k,
{
    if k < orders.len() {
        lemma_rows_cmp_self(a, orders, k + 1);
    }
}

/// Why row keys could not be made.
#[derive(Clone, Copy, Debug, PartialEq, Eq, Structural)]
pub enum KeyError {
    /// The row format refused the columns.
    Encoding,
}

/// Relies on `RowConverter::new` (arrow-row 60): a converter for one Int64
/// field per order, each with its `SortOptions`. Int64 is not nested, so
/// the fields are supported and get a stateless codec: it does not fail.
#[verifier::external_body]
fn new_row_converter(orders: &Vec<KeyOrder>) -> (r: Result<RowConverter, ArrowError>)
    ensures
        r is Ok,
{
    RowConverter::new(
        orders.iter().map(|&(descending, nulls_first)| SortField::new_with_options(
            DataType::Int64,
            SortOptions { descending, nulls_first },
        )).collect(),
    )
}

/// Relies on `RowConverter::convert_columns` (arrow-row 60): one key per
/// row, and, as its documentation states, the keys compare as bytes the way
/// the rows compare under `lexsort` with the converter's sort options; an
/// Int64 field takes 9 bytes of a key (its source's fixed-width encoding).
/// It panics unless it is given one column per field, all of one length,
/// and fails only on a wrong column count, length or type, which the
/// requirements rule out.
#[verifier::external_body]
fn convert_columns(enc: &KeyEncoder, cols: &Vec<Vec<Option<i64>>>) -> (r: Result<Vec<Vec<u8>>, ArrowError>)
    requires
        cols@.len() == enc.orders@.len(),
        table_of(cols_view(cols@), cols@[0]@.len()),
    ensures
        r is Ok,
        r matches Ok(keys) ==> {
            &&& keys@.len() == cols@[0]@.len()
            &&& key_seqs(keys@) == row_keys(cols_view(cols@), enc.orders@)
            &&& forall|i: int| 0 <= i < keys@.len() ==> (#[trigger] keys@[i])@.len() == 9 * cols@.len()
            &&& forall|i: int, j: int|
                0 <= i < keys@.len() && 0 <= j < keys@.len() ==> (lex_lt(
                    #[trigger] keys@[i]@,
                    #[trigger] keys@[j]@,
                ) <==> rows_cmp(table_row(cols_view(cols@), i), table_row(cols_view(cols@), j), enc.orders@)
                    < 0) && (keys@[i]@ == keys@[j]@ <==> rows_cmp(
                    table_row(cols_view(cols@), i),
                    table_row(cols_view(cols@), j),
                    enc.orders@,
                ) == 0)
        },
{
    let arrays: Vec<ArrayRef> = cols.iter().map(|c| Arc::<Int64Array>::from(Int64Array::from(c.clone())) as ArrayRef).collect();
    enc.converter.convert_columns(&arrays).map(|rows| rows.iter().map(|row| row.as_ref().to_vec()).collect())
}

/// Makes the row keys of tables with one Int64 column per key order. The
/// converter is always the one made from `orders`: the fields are private
/// and `try_new` is the only place that builds an encoder.
pub struct KeyEncoder {
    converter: RowConverter,
    orders: Vec<KeyOrder>,
}

/// Row keys of a table, with whether each row's key holds a null.
pub struct EncodedRows {
    pub keys: Vec<Vec<u8>>,
    pub has_null: Vec<bool>,
}

impl KeyEncoder {
    /// The key orders the encoder was made for.
    pub closed spec fn spec_orders(&self) -> Seq<KeyOrder> {
        self.orders@
    }

    pub fn try_new(orders: Vec<KeyOrder>) -> (r: Result<KeyEncoder, KeyError>)
        ensures
            r is Ok,
            r matches Ok(e) ==> e.spec_orders() == orders@,
    {
        match new_row_converter(&orders) {
            Ok(converter) => Ok(KeyEncoder { converter, orders }),
            Err(_) => Err(KeyError::Encoding),
        }
    }

    /// The row keys of the table `cols` (one column per key order), and
    /// which rows hold a null.
    pub fn encode(&self, cols: &Vec<Vec<Option<i64>>>) -> (r: Result<EncodedRows, KeyError>)
        requires
            cols@.len() == self.spec_orders().len(),
            table_of(cols_view(cols@), cols@[0]@.len()),
        ensures
            r is Ok,
            r matches Ok(e) ==> {
                let cv = cols_view(cols@);
                &&& e.keys@.len() == cols@[0]@.len()
                &&& e.has_null@.len() == e.keys@.len()
                &&& key_seqs(e.keys@) == row_keys(cv, self.spec_orders())
                &&& forall|i: int| 0 <= i < e.keys@.len() ==> (#[trigger] e.keys@[i])@.len() == 9 * cols@.len()
                &&& forall|i: int| 0 <= i < e.keys@.len() ==> #[trigger] e.has_null@[i] == row_has_null(table_row(cv, i))
                &&& forall|i: int, j: int|
                    0 <= i < e.keys@.len() && 0 <= j < e.keys@.len() ==> (lex_lt(
                        #[trigger] e.keys@[i]@,
                        #[trigger] e.keys@[j]@,
                    ) <==> rows_cmp(table_row(cv, i), table_row(cv, j), self.spec_orders()) < 0) && (e.keys@[i]@
                        == e.keys@[j]@ <==> rows_cmp(table_row(cv, i), table_row(cv, j), self.spec_orders()) == 0)
            },
    {
        let keys = match convert_columns(self, cols) {
            Ok(keys) => keys,
            Err(_) => {
                return Err(KeyError::Encoding);
            },
        };
        let ghost cv = cols_view(cols@);
        let n = cols[0].len();
        let mut has_null: Vec<bool> = Vec::new();
        let mut i: usize = 0;
        while i < n
            invariant
                i <= n,
                n == cols@[0]@.len(),
                cv == cols_view(cols@),
                table_of(cv, n as nat),
                has_null@.len() == i,
                forall|q: int| 0 <= q < i ==> #[trigger] has_null@[q] == row_has_null(table_row(cv, q)),
            decreases n - i,
        {
            let mut c: usize = 0;
            let mut null = false;
            while c < cols.len()
                invariant
                    c <= cols@.len(),
                    i < n,
                    cv == cols_view(cols@),
                    table_of(cv, n as nat),
                    null == exists|d: int| 0 <= d < c && #[trigger] table_row(cv, i as int)[d] is None,
                decreases cols@.len() - c,
            {
                proof {
                    assert(cv[c as int] == cols@[c as int]@);
                    assert(table_row(cv, i as int)[c as int] == cols@[c as int]@[i as int]);
                }
                if cols[c][i].is_none() {
                    null = true;
                }
                c = c + 1;
            }
            proof {
                assert(table_row(cv, i as int).len() == cols@.len());
            }
            has_null.push(null);
            i = i + 1;
        }
        Ok(EncodedRows { keys, has_null })
    }
}

/// The rows of a table of `n` rows are in SQL order.
pub open spec fn rows_sorted(cols: Seq<Seq<Option<i64>>>, n: nat, orders: Seq<KeyOrder>) -> bool {
    forall|a: int, b: int|
        0 <= a < b < n ==> rows_cmp(#[trigger] table_row(cols, a), #[trigger] table_row(cols, b), orders) <= 0
}

/// Left row `a` and right row `b` satisfy the equi-join: equal key values,
/// none of them null.
pub open spec fn rows_match(lv: Seq<Seq<Option<i64>>>, nl: nat, rv: Seq<Seq<Option<i64>>>, nr: nat, a: int, b: int) -> bool {
    0 <= a < nl && 0 <= b < nr && !row_has_null(table_row(lv, a)) && table_row(lv, a) == table_row(rv, b)
}

/// The join of two tables of key values by its definition (see `in_join`).
pub open spec fn in_join_rows(
    t: JoinType,
    lv: Seq<Seq<Option<i64>>>,
    nl: nat,
    rv: Seq<Seq<Option<i64>>>,
    nr: nat,
    p: JoinPair,
) -> bool {
    match p {
        (Some(a), Some(b)) => pairs_matched(t) && rows_match(lv, nl, rv, nr, a as int, b as int),
        (Some(a), None) => a < nl && if t == JoinType::LeftSemi {
            exists|b: int| #[trigger] rows_match(lv, nl, rv, nr, a as int, b)
        } else {
            keeps_unmatched_left(t) && !exists|b: int| #[trigger] rows_match(lv, nl, rv, nr, a as int, b)
        },
        (None, Some(b)) => b < nr && if t == JoinType::RightSemi {
            exists|a: int| #[trigger] rows_match(lv, nl, rv, nr, a, b as int)
        } else {
            keeps_unmatched_right(t) && !exists|a: int| #[trigger] rows_match(lv, nl, rv, nr, a, b as int)
        },
        (None, None) => false,
    }
}

/// Joins two tables of key values, each sorted in SQL order under the
/// encoder's orders: both are encoded by one converter, and the merge join
/// runs on the keys. The result holds, once each, exactly the rows of the
/// join of kind `t` by its definition on the values; for the kinds that
/// preserve one side's order, that side's rows come out in input order.
pub fn join_columns(
    t: JoinType,
    enc: &KeyEncoder,
    left: &Vec<Vec<Option<i64>>>,
    right: &Vec<Vec<Option<i64>>>,
) -> (r: Result<Vec<JoinPair>, KeyError>)
    requires
        left@.len() == enc.spec_orders().len(),
        right@.len() == enc.spec_orders().len(),
        table_of(cols_view(left@), left@[0]@.len()),
        table_of(cols_view(right@), right@[0]@.len()),
        left@[0]@.len() + right@[0]@.len() <= usize::MAX,
        rows_sorted(cols_view(left@), left@[0]@.len(), enc.spec_orders()),
        rows_sorted(cols_view(right@), right@[0]@.len(), enc.spec_orders()),
    ensures
        r is Ok,
        r matches Ok(pairs) ==> {
            let lv = cols_view(left@);
            let rv = cols_view(right@);
            let nl = left@[0]@.len();
            let nr = right@[0]@.len();
            &&& pairs@.no_duplicates()
            &&& forall|p: JoinPair| #[trigger] pairs@.contains(p) <==> in_join_rows(t, lv, nl, rv, nr, p)
            &&& preserves_left(t) ==> left_ordered(pairs@, nl as int)
            &&& preserves_right(t) ==> right_ordered(pairs@, nr as int)
        },
{
    let ghost orders = enc.spec_orders();
    let ghost lv = cols_view(left@);
    let ghost rv = cols_view(right@);
    let nl = left[0].len();
    let nr = right[0].len();
    // both tables, one above the other
    let mut all: Vec<Vec<Option<i64>>> = Vec::new();
    let mut c: usize = 0;
    while c < left.len()
        invariant
            c <= left@.len(),
            left@.len() == right@.len(),
            lv == cols_view(left@),
            rv == cols_view(right@),
            table_of(lv, nl as nat),
            table_of(rv, nr as nat),
            all@.len() == c,
            forall|d: int| 0 <= d < c ==> (#[trigger] all@[d])@ == lv[d] + rv[d],
        decreases left@.len() - c,
    {
        let mut col: Vec<Option<i64>> = Vec::new();
        let mut i: usize = 0;
        while i < nl
            invariant
                i <= nl,
                c < left@.len(),
                lv == cols_view(left@),
                table_of(lv, nl as nat),
                col@ == lv[c as int].take(i as int),
            decreases nl - i,
        {
            proof {
                assert(lv[c as int] == left@[c as int]@);
            }
            col.push(left[c][i]);
            proof {
                assert(col@ =~= lv[c as int].take(i + 1));
            }
            i = i + 1;
        }
        let mut j: usize = 0;
        while j < nr
            invariant
                j <= nr,
                c < right@.len(),
                rv == cols_view(right@),
                table_of(rv, nr as nat),
                table_of(lv, nl as nat),
                c < lv.len(),
                col@ == lv[c as int] + rv[c as int].take(j as int),
            decreases nr - j,
        {
            proof {
                assert(rv[c as int] == right@[c as int]@);
            }
            col.push(right[c][j]);
            proof {
                assert(col@ =~= lv[c as int] + rv[c as int].take(j + 1));
            }
            j = j + 1;
        }
        proof {
            assert(lv[c as int].take(nl as int) =~= lv[c as int]);
            assert(rv[c as int].take(nr as int) =~= rv[c as int]);
        }
        all.push(col);
        c = c + 1;
    }
    let ghost av = cols_view(all@);
    proof {
        assert forall|d: int| 0 <= d < av.len() implies (#[trigger] av[d]).len() == nl + nr by {
            assert(av[d] == all@[d]@);
        }
        assert forall|a: int| 0 <= a < nl implies #[trigger] table_row(av, a) == table_row(lv, a) by {
            assert forall|d: int| 0 <= d < av.len() implies table_row(av, a)[d] == table_row(lv, a)[d] by {
                assert(av[d] == all@[d]@);
            }
            assert(table_row(av, a) =~= table_row(lv, a));
        }
        assert forall|b: int| 0 <= b < nr implies #[trigger] table_row(av, nl + b) == table_row(rv, b) by {
            assert forall|d: int| 0 <= d < av.len() implies table_row(av, nl + b)[d] == table_row(rv, b)[d] by {
                assert(av[d] == all@[d]@);
            }
            assert(table_row(av, nl + b) =~= table_row(rv, b));
        }
    }
    let encoded = match enc.encode(&all) {
        Ok(e) => e,
        Err(e) => {
            return Err(e);
        },
    };
    let mut lk = encoded.keys;
    let mut ln = encoded.has_null;
    let ghost ak = lk@;
    let ghost an = ln@;
    let rk = lk.split_off(nl);
    let rn = ln.split_off(nl);
    proof {
        lemma_join_inputs(orders, av, lv, rv, nl as nat, nr as nat, ak, an, lk@, ln@, rk@, rn@);
    }
    let pairs = sort_merge_join(t, &lk, &ln, &rk, &rn);
    proof {
        assert forall|p: JoinPair| #[trigger] pairs@.contains(p) <==> in_join_rows(t, lv, nl as nat, rv, nr as nat, p) by {
            lemma_same_join(t, lv, nl as nat, rv, nr as nat, keys_view(lk@), ln@, keys_view(rk@), p);
        }
    }
    Ok(pairs)
}

/// The keys and null flags of the two tables, encoded together, are fit for
/// the merge join, and match exactly where the rows do.
proof fn lemma_join_inputs(
    orders: Seq<KeyOrder>,
    av: Seq<Seq<Option<i64>>>,
    lv: Seq<Seq<Option<i64>>>,
    rv: Seq<Seq<Option<i64>>>,
    nl: nat,
    nr: nat,
    ak: Seq<Vec<u8>>,
    an: Seq<bool>,
    lk: Seq<Vec<u8>>,
    ln: Seq<bool>,
    rk: Seq<Vec<u8>>,
    rn: Seq<bool>,
)
    requires
        av.len() == orders.len(),
        lv.len() == orders.len(),
        rv.len() == orders.len(),
        table_of(lv, nl),
        table_of(rv, nr),
        forall|a: int| 0 <= a < nl ==> #[trigger] table_row(av, a) == table_row(lv, a),
        forall|b: int| 0 <= b < nr ==> #[trigger] table_row(av, nl + b) == table_row(rv, b),
        ak.len() == nl + nr,
        an.len() == nl + nr,
        lk == ak.subrange(0, nl as int),
        ln == an.subrange(0, nl as int),
        rk == ak.subrange(nl as int, (nl + nr) as int),
        rn == an.subrange(nl as int, (nl + nr) as int),
        forall|i: int| 0 <= i < ak.len() ==> #[trigger] an[i] == row_has_null(table_row(av, i)),
        forall|i: int, j: int|
            0 <= i < ak.len() && 0 <= j < ak.len() ==> (lex_lt(#[trigger] ak[i]@, #[trigger] ak[j]@)
                <==> rows_cmp(table_row(av, i), table_row(av, j), orders) < 0) && (ak[i]@ == ak[j]@
                <==> rows_cmp(table_row(av, i), table_row(av, j), orders) == 0),
        rows_sorted(lv, nl, orders),
        rows_sorted(rv, nr, orders),
    ensures
        keys_sorted(keys_view(lk)),
        keys_sorted(keys_view(rk)),
        nulls_follow_keys(keys_view(lk), ln, keys_view(rk), rn),
        forall|a: int, b: int|
            #[trigger] key_match(keys_view(lk), ln, keys_view(rk), a, b) <==> rows_match(lv, nl, rv, nr, a, b),
{
    let lkv = keys_view(lk);
    let rkv = keys_view(rk);
    assert forall|a: int| 0 <= a < nl implies #[trigger] table_row(lv, a).len() == orders.len() by {}
    assert forall|b: int| 0 <= b < nr implies #[trigger] table_row(rv, b).len() == orders.len() by {}
    assert forall|i: int, j: int| 0 <= i < j < lkv.len() implies lex_le(#[trigger] lkv[i], #[trigger] lkv[j]) by {
        assert(lkv[i] == ak[i]@ && lkv[j] == ak[j]@);
        assert(rows_cmp(table_row(lv, i), table_row(lv, j), orders) <= 0);
        lemma_rows_cmp(table_row(lv, i), table_row(lv, j), orders);
    }
    assert forall|i: int, j: int| 0 <= i < j < rkv.len() implies lex_le(#[trigger] rkv[i], #[trigger] rkv[j]) by {
        assert(rkv[i] == ak[nl + i]@ && rkv[j] == ak[nl + j]@);
        assert(rows_cmp(table_row(rv, i), table_row(rv, j), orders) <= 0);
        lemma_rows_cmp(table_row(rv, i), table_row(rv, j), orders);
    }
    // equal keys: equal rows, so the same nulls
    assert forall|a: int, b: int| 0 <= a < lkv.len() && 0 <= b < lkv.len() && lkv[a] == lkv[b] implies #[trigger] ln[a] == #[trigger] ln[b] by {
        assert(lkv[a] == ak[a]@ && lkv[b] == ak[b]@);
        lemma_rows_cmp(table_row(av, a), table_row(av, b), orders);
        assert(ln[a] == an[a] && ln[b] == an[b]);
    }
    assert forall|a: int, b: int| 0 <= a < rkv.len() && 0 <= b < rkv.len() && rkv[a] == rkv[b] implies #[trigger] rn[a] == #[trigger] rn[b] by {
        assert(rkv[a] == ak[nl + a]@ && rkv[b] == ak[nl + b]@);
        lemma_rows_cmp(table_row(av, nl + a), table_row(av, nl + b), orders);
        assert(rn[a] == an[nl + a] && rn[b] == an[nl + b]);
    }
    assert forall|a: int, b: int| 0 <= a < lkv.len() && 0 <= b < rkv.len() && lkv[a] == rkv[b] implies #[trigger] ln[a] == #[trigger] rn[b] by {
        assert(lkv[a] == ak[a]@ && rkv[b] == ak[nl + b]@);
        lemma_rows_cmp(table_row(av, a), table_row(av, nl + b), orders);
        assert(ln[a] == an[a] && rn[b] == an[nl + b]);
    }
    assert forall|a: int, b: int| #[trigger] key_match(lkv, ln, rkv, a, b) <==> rows_match(lv, nl, rv, nr, a, b) by {
        if 0 <= a < nl && 0 <= b < nr {
            assert(lkv[a] == ak[a]@ && rkv[b] == ak[nl + b]@);
            lemma_rows_cmp(table_row(av, a), table_row(av, nl + b), orders);
            assert(ln[a] == an[a]);
        }
    }
}

/// Where key matching and row matching agree, so do the two definitions
/// of the join.
proof fn lemma_same_join(
    t: JoinType,
    lv: Seq<Seq<Option<i64>>>,
    nl: nat,
    rv: Seq<Seq<Option<i64>>>,
    nr: nat,
    lk: Seq<Seq<u8>>,
    ln: Seq<bool>,
    rk: Seq<Seq<u8>>,
    p: JoinPair,
)
    requires
        lk.len() == nl,
        rk.len() == nr,
        forall|a: int, b: int| #[trigger] key_match(lk, ln, rk, a, b) <==> rows_match(lv, nl, rv, nr, a, b),
    ensures
        in_join(t, lk, ln, rk, p) <==> in_join_rows(t, lv, nl, rv, nr, p),
{
    match p {
        (Some(a), None) => {
            if left_matched(lk, ln, rk, a as int) {
                let b = choose|b: int| #[trigger] key_match(lk, ln, rk, a as int, b);
                assert(rows_match(lv, nl, rv, nr, a as int, b));
            }
            if exists|b: int| #[trigger] rows_match(lv, nl, rv, nr, a as int, b) {
                let b = choose|b: int| #[trigger] rows_match(lv, nl, rv, nr, a as int, b);
                assert(key_match(lk, ln, rk, a as int, b));
            }
        },
        (None, Some(b)) => {
            if right_matched(lk, ln, rk, b as int) {
                let a = choose|a: int| #[trigger] key_match(lk, ln, rk, a, b as int);
                assert(rows_match(lv, nl, rv, nr, a, b as int));
            }
            if exists|a: int| #[trigger] rows_match(lv, nl, rv, nr, a, b as int) {
                let a = choose|a: int| #[trigger] rows_match(lv, nl, rv, nr, a, b as int);
                assert(key_match(lk, ln, rk, a, b as int));
            }
        },
        _ => {},
    }
}

// ---------------------------------------------------------------------------
// Sorting tables of key values
// ---------------------------------------------------------------------------
/// The key values of the input batches, each a table given by its columns.
pub open spec fn tables_view(batches: Seq<Vec<Vec<Option<i64>>>>) -> Seq<Seq<Seq<Option<i64>>>> {
    batches.map_values(|b: Vec<Vec<Option<i64>>>| cols_view(b@))
}

/// Every batch is a table of `k` columns.
pub open spec fn tables_of(bv: Seq<Seq<Seq<Option<i64>>>>, k: nat) -> bool {
    forall|b: int| 0 <= b < bv.len() ==> (#[trigger] bv[b]).len() == k && table_of(bv[b], bv[b][0].len())
}

/// Number of rows of the batches before batch `n`.
pub open spec fn rows_before(bv: Seq<Seq<Seq<Option<i64>>>>, n: int) -> nat
    decreases n,
{
    if n <= 0 {
        0
    } else {
        rows_before(bv, n - 1) + bv[n - 1][0].len()
    }
}

/// The key values of row `id` of the batches.
pub open spec fn value_row(bv: Seq<Seq<Seq<Option<i64>>>>, id: (usize, usize)) -> Seq<Option<i64>> {
    table_row(bv[id.0 as int], id.1 as int)
}

/// `id` names a row of the batches.
pub open spec fn valid_value_row(bv: Seq<Seq<Seq<Option<i64>>>>, id: (usize, usize)) -> bool {
    id.0 < bv.len() && id.1 < bv[id.0 as int][0].len()
}

/// `rows` is the sort of the batches' rows in SQL order, keeping the first
/// `limit`: each row once, `min(limit, n)` of them, in order, and every row
/// left out sorts no earlier than any row kept; where all `n` are kept,
/// every row is there.
pub open spec fn sorted_value_selection(
    bv: Seq<Seq<Seq<Option<i64>>>>,
    orders: Seq<KeyOrder>,
    limit: nat,
    rows: Seq<(usize, usize)>,
) -> bool {
    &&& forall|x: int| 0 <= x < rows.len() ==> valid_value_row(bv, #[trigger] rows[x])
    &&& rows.no_duplicates()
    &&& forall|x: int, y: int|
        0 <= x < y < rows.len() ==> rows_cmp(value_row(bv, #[trigger] rows[x]), value_row(bv, #[trigger] rows[y]), orders)
            <= 0
    &&& rows.len() == min_nat(limit, rows_before(bv, bv.len() as int))
    &&& rows.len() == rows_before(bv, bv.len() as int) ==> forall|id: (usize, usize)|
        valid_value_row(bv, id) ==> #[trigger] rows.contains(id)
    &&& forall|id: (usize, usize)|
        #![trigger rows.contains(id)]
        valid_value_row(bv, id) && !rows.contains(id) ==> forall|x: int|
            0 <= x < rows.len() ==> rows_cmp(value_row(bv, #[trigger] rows[x]), value_row(bv, id), orders) <= 0
}

proof fn lemma_rows_before_mono(bv: Seq<Seq<Seq<Option<i64>>>>, a: int, b: int)
    requires
        0 <= a <= b,
    ensures
        rows_before(bv, a) <= rows_before(bv, b),
    decreases b - a,
{
    if a < b {
        lemma_rows_before_mono(bv, a, b - 1);
    }
}

/// Sorts the rows of tables of key values (one column per key order of the
/// encoder) in SQL order, keeping the first `limit`: all rows are encoded
/// by one converter, and the external sort runs on the keys with the given
/// staging and spilling settings.
pub fn sort_columns(
    enc: &KeyEncoder,
    batches: &Vec<Vec<Vec<Option<i64>>>>,
    limit: usize,
    staging_rows: usize,
    spill_runs: usize,
) -> (r: Result<Vec<(usize, usize)>, KeyError>)
    requires
        1 <= enc.spec_orders().len() < usize::MAX / 9,
        batches@.len() < usize::MAX / 4,
        tables_of(tables_view(batches@), enc.spec_orders().len()),
        rows_before(tables_view(batches@), batches@.len() as int) <= usize::MAX,
    ensures
        r is Ok,
        r matches Ok(rows) ==> sorted_value_selection(tables_view(batches@), enc.spec_orders(), limit as nat, rows@),
{
    let ghost orders = enc.spec_orders();
    let ghost bv = tables_view(batches@);
    let k = enc.orders.len();
    let nb = batches.len();
    let ghost total = rows_before(bv, nb as int);
    // all rows, batch after batch
    let mut all: Vec<Vec<Option<i64>>> = Vec::new();
    let mut c: usize = 0;
    while c < k
        invariant
            c <= k,
            k == orders.len(),
            nb == batches@.len(),
            bv == tables_view(batches@),
            tables_of(bv, k as nat),
            total == rows_before(bv, nb as int),
            total <= usize::MAX,
            all@.len() == c,
            forall|d: int| 0 <= d < c ==> (#[trigger] all@[d])@.len() == total,
            forall|d: int, b: int, i: int|
                0 <= d < c && 0 <= b < nb && 0 <= i < bv[b][0].len() ==> (#[trigger] all@[d])@[rows_before(bv, b) + i]
                    == #[trigger] bv[b][d][i],
        decreases k - c,
    {
        let col = concat_column(batches, c, Ghost(bv), Ghost(k as nat));
        all.push(col);
        c = c + 1;
    }
    let ghost av = cols_view(all@);
    proof {
        assert forall|d: int| 0 <= d < av.len() implies (#[trigger] av[d]).len() == total by {
            assert(av[d] == all@[d]@);
        }
        assert forall|b: int, i: int| 0 <= b < nb && 0 <= i < bv[b][0].len() implies #[trigger] table_row(av, rows_before(bv, b) + i)
            == table_row(bv[b], i) by {
            assert forall|d: int| 0 <= d < k implies table_row(av, rows_before(bv, b) + i)[d] == table_row(bv[b], i)[d] by {
                assert(av[d] == all@[d]@);
            }
            assert(table_row(av, rows_before(bv, b) + i) =~= table_row(bv[b], i));
        }
    }
    let encoded = match enc.encode(&all) {
        Ok(e) => e,
        Err(e) => {
            return Err(e);
        },
    };
    let keys = encoded.keys;
    let ghost ak = keys@;
    // the keys, batch by batch
    let mut kb: Vec<Vec<Vec<u8>>> = Vec::new();
    let mut pos: usize = 0;
    let mut b: usize = 0;
    while b < nb
        invariant
            b <= nb,
            nb == batches@.len(),
            bv == tables_view(batches@),
            tables_of(bv, k as nat),
            k == orders.len(),
            k < usize::MAX / 9,
            total == rows_before(bv, nb as int),
            total <= usize::MAX,
            ak == keys@,
            ak.len() == total,
            forall|g: int| 0 <= g < ak.len() ==> (#[trigger] ak[g])@.len() == 9 * k,
            pos == rows_before(bv, b as int),
            kb@.len() == b,
            forall|b2: int| 0 <= b2 < b ==> (#[trigger] kb@[b2])@.len() == bv[b2][0].len(),
            forall|b2: int, i: int|
                0 <= b2 < b && 0 <= i < bv[b2][0].len() ==> (#[trigger] kb@[b2]@[i])@ == ak[rows_before(bv, b2) + i]@,
        decreases nb - b,
    {
        let batch = &batches[b];
        proof {
            assert(bv[b as int] == cols_view(batch@));
            assert(bv[b as int][0] == batch@[0]@);
            lemma_rows_before_mono(bv, b + 1, nb as int);
        }
        let len = batch[0].len();
        let mut bk: Vec<Vec<u8>> = Vec::new();
        let mut i: usize = 0;
        while i < len
            invariant
                i <= len,
                len == bv[b as int][0].len(),
                pos == rows_before(bv, b as int),
                pos + len <= ak.len(),
                ak.len() <= usize::MAX,
                ak == keys@,
                bk@.len() == i,
                forall|q: int| 0 <= q < i ==> (#[trigger] bk@[q])@ == ak[pos + q]@,
            decreases len - i,
        {
            let key = copy_key(keys[pos + i].as_slice());
            bk.push(key);
            i = i + 1;
        }
        kb.push(bk);
        pos = pos + len;
        b = b + 1;
    }
    proof {
        assert forall|b2: int, i: int| 0 <= b2 < kb@.len() && 0 <= i < kb@[b2]@.len() implies #[trigger] kb@[b2]@[i]@.len()
            < usize::MAX by {
            lemma_rows_before_mono(bv, b2 + 1, nb as int);
        }
    }
    let run = external_sort(&kb, limit, staging_rows, spill_runs);
    proof {
        lemma_value_selection(orders, bv, av, ak, kb@, limit as nat, run.rows@);
    }
    Ok(run.rows)
}

/// Column `c` of all the batches, one after another.
fn concat_column(
    batches: &Vec<Vec<Vec<Option<i64>>>>,
    c: usize,
    Ghost(bv): Ghost<Seq<Seq<Seq<Option<i64>>>>>,
    Ghost(k): Ghost<nat>,
) -> (col: Vec<Option<i64>>)
    requires
        bv == tables_view(batches@),
        tables_of(bv, k),
        c < k,
        rows_before(bv, batches@.len() as int) <= usize::MAX,
    ensures
        col@.len() == rows_before(bv, batches@.len() as int),
        forall|b: int, i: int|
            0 <= b < batches@.len() && 0 <= i < bv[b][0].len() ==> col@[rows_before(bv, b) + i] == #[trigger] bv[b][c as int][i],
{
    let nb = batches.len();
    let mut col: Vec<Option<i64>> = Vec::new();
    let mut b: usize = 0;
    while b < nb
        invariant
            b <= nb,
            c < k,
            nb == batches@.len(),
            bv == tables_view(batches@),
            tables_of(bv, k),
            rows_before(bv, nb as int) <= usize::MAX,
            col@.len() == rows_before(bv, b as int),
            forall|b2: int, i: int|
                0 <= b2 < b && 0 <= i < bv[b2][0].len() ==> col@[rows_before(bv, b2) + i] == #[trigger] bv[b2][c as int][i],
        decreases nb - b,
    {
        let batch = &batches[b];
        proof {
            assert(bv[b as int] == cols_view(batch@));
            assert(bv[b as int][c as int] == batch@[c as int]@);
            assert(bv[b as int][0] == batch@[0]@);
            lemma_rows_before_mono(bv, b + 1, nb as int);
        }
        let len = batch[0].len();
        let ghost col0 = col@;
        let mut i: usize = 0;
        while i < len
            invariant
                i <= len,
                len == bv[b as int][0].len(),
                bv[b as int][c as int].len() == len,
                bv[b as int][c as int] == batch@[c as int]@,
                c < batch@.len(),
                col0.len() + len <= usize::MAX,
                col@.len() == col0.len() + i,
                forall|q: int| 0 <= q < col0.len() ==> #[trigger] col@[q] == col0[q],
                forall|q: int| 0 <= q < i ==> #[trigger] col@[col0.len() + q] == bv[b as int][c as int][q],
            decreases len - i,
        {
            col.push(batch[c][i]);
            i = i + 1;
        }
        proof {
            assert forall|b2: int, i2: int| 0 <= b2 < b + 1 && 0 <= i2 < bv[b2][0].len() implies col@[rows_before(bv, b2) + i2]
                == #[trigger] bv[b2][c as int][i2] by {
                if b2 < b {
                    lemma_rows_before_mono(bv, b2 + 1, b as int);
                    assert(col@[rows_before(bv, b2) + i2] == col0[rows_before(bv, b2) + i2]);
                } else {
                    assert(col@[col0.len() + i2] == bv[b as int][c as int][i2]);
                }
            }
        }
        b = b + 1;
    }
    col
}

/// The external sort's guarantee on the keys carries over to the rows'
/// values.
proof fn lemma_value_selection(
    orders: Seq<KeyOrder>,
    bv: Seq<Seq<Seq<Option<i64>>>>,
    av: Seq<Seq<Option<i64>>>,
    ak: Seq<Vec<u8>>,
    kb: Seq<Vec<Vec<u8>>>,
    limit: nat,
    rows: Seq<(usize, usize)>,
)
    requires
        tables_of(bv, orders.len()),
        av.len() == orders.len(),
        ak.len() == rows_before(bv, bv.len() as int),
        kb.len() == bv.len(),
        forall|b: int| 0 <= b < kb.len() ==> (#[trigger] kb[b])@.len() == bv[b][0].len(),
        forall|b: int, i: int|
            0 <= b < kb.len() && 0 <= i < bv[b][0].len() ==> (#[trigger] kb[b]@[i])@ == ak[rows_before(bv, b) + i]@,
        forall|b: int, i: int|
            0 <= b < bv.len() && 0 <= i < bv[b][0].len() ==> #[trigger] table_row(av, rows_before(bv, b) + i)
                == table_row(bv[b], i),
        forall|i: int, j: int|
            0 <= i < ak.len() && 0 <= j < ak.len() ==> (lex_lt(#[trigger] ak[i]@, #[trigger] ak[j]@)
                <==> rows_cmp(table_row(av, i), table_row(av, j), orders) < 0),
        sorted_selection(batches_view(kb), 0, kb.len() as int, limit, rows),
    ensures
        sorted_value_selection(bv, orders, limit, rows),
{
    let kbv = batches_view(kb);
    let n = kb.len() as int;
    assert forall|b: int| 0 <= b < n implies #[trigger] kbv[b].len() == bv[b][0].len() by {}
    lemma_rows_between_before(kbv, bv, n);
    // a row's key is its global key
    assert forall|id: (usize, usize)| #[trigger] valid_value_row(bv, id) implies row_between(kbv, 0, n, id) && row_key(kbv, id)
        == ak[rows_before(bv, id.0 as int) + id.1]@ && rows_before(bv, id.0 as int) + id.1 < ak.len() by {
        assert(kbv[id.0 as int] == key_seqs(kb[id.0 as int]@));
        lemma_rows_before_mono(bv, id.0 + 1, n);
    }
    assert forall|id: (usize, usize)| row_between(kbv, 0, n, id) implies #[trigger] valid_value_row(bv, id) by {}
    // key order is value order
    assert forall|id1: (usize, usize), id2: (usize, usize)| valid_value_row(bv, id1) && valid_value_row(bv, id2) implies (lex_le(
        #[trigger] row_key(kbv, id1),
        #[trigger] row_key(kbv, id2),
    ) <==> rows_cmp(value_row(bv, id1), value_row(bv, id2), orders) <= 0) by {
        let g1 = rows_before(bv, id1.0 as int) + id1.1;
        let g2 = rows_before(bv, id2.0 as int) + id2.1;
        assert(table_row(av, g1) == value_row(bv, id1));
        assert(table_row(av, g2) == value_row(bv, id2));
        assert(lex_lt(ak[g2]@, ak[g1]@) <==> rows_cmp(table_row(av, g2), table_row(av, g1), orders) < 0);
        lemma_rows_cmp(value_row(bv, id1), value_row(bv, id2), orders);
    }
    assert forall|x: int, y: int| 0 <= x < y < rows.len() implies rows_cmp(value_row(bv, #[trigger] rows[x]), value_row(bv, #[trigger] rows[y]), orders)
        <= 0 by {
        assert(row_between(kbv, 0, n, rows[x]));
        assert(row_between(kbv, 0, n, rows[y]));
        assert(run_keys(kbv, rows)[x] == row_key(kbv, rows[x]));
        assert(run_keys(kbv, rows)[y] == row_key(kbv, rows[y]));
    }
    assert forall|id: (usize, usize)| valid_value_row(bv, id) && !rows.contains(id) implies forall|x: int|
        0 <= x < rows.len() ==> rows_cmp(value_row(bv, #[trigger] rows[x]), value_row(bv, id), orders) <= 0 by {
        assert forall|x: int| 0 <= x < rows.len() implies rows_cmp(value_row(bv, #[trigger] rows[x]), value_row(bv, id), orders) <= 0 by {
            assert(row_between(kbv, 0, n, rows[x]));
            assert(lex_le(row_key(kbv, rows[x]), row_key(kbv, id)));
        }
    }
    assert forall|x: int| 0 <= x < rows.len() implies valid_value_row(bv, #[trigger] rows[x]) by {
        assert(row_between(kbv, 0, n, rows[x]));
    }
}

proof fn lemma_rows_between_before(kbv: Seq<Seq<Seq<u8>>>, bv: Seq<Seq<Seq<Option<i64>>>>, m: int)
    requires
        0 <= m <= kbv.len(),
        kbv.len() <= bv.len(),
        forall|b: int| 0 <= b < kbv.len() ==> #[trigger] kbv[b].len() == bv[b][0].len(),
    ensures
        rows_between(kbv, 0, m) == rows_before(bv, m),
    decreases m,
{
    if m > 0 {
        lemma_rows_between_before(kbv, bv, m - 1);
    }
}

} // verus!

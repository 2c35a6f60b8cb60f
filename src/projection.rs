//! Column pruning for the join: from the output columns asked for, the
//! columns each input must provide, and where the join keys and the
//! residual filter's columns sit among them.
use vstd::prelude::*;
use crate::join::JoinType;

verus! {

/// Where an output column of a join comes from: `(true, c)` for column `c`
/// of the left input, `(false, c)` for column `c` of the right input.
pub type ColumnSource = (bool, usize);

/// Output column `col` of the unpruned join of kind `t`, whose left input
/// has `nlf` columns: matched kinds put the left columns first, Semi and
/// Anti kinds output one side's columns only.
pub open spec fn output_source(t: JoinType, nlf: nat, col: nat) -> ColumnSource {
    match t {
        JoinType::Inner | JoinType::Left | JoinType::Right | JoinType::Full => if col < nlf {
            (true, col as usize)
        } else {
            (false, (col - nlf) as usize)
        },
        JoinType::LeftSemi | JoinType::LeftAnti => (true, col as usize),
        JoinType::RightSemi | JoinType::RightAnti => (false, col as usize),
    }
}

/// The columns of a pruned join.
pub struct JoinProjection {
    /// Columns read from the left input; the first `num_left_output` are
    /// output, the rest are needed by the keys or the filter only.
    pub left_projection: Vec<usize>,
    /// Columns read from the right input, likewise.
    pub right_projection: Vec<usize>,
    pub num_left_output: usize,
    pub num_right_output: usize,
    /// Output column `c` asked for is column `output_order[c]` of the
    /// pruned output (the left output columns, then the right ones).
    pub output_order: Vec<usize>,
    /// Positions of the left join keys in `left_projection`.
    pub on_left: Vec<usize>,
    /// Positions of the right join keys in `right_projection`.
    pub on_right: Vec<usize>,
    /// The filter's columns: side (`true` for left) and position in that
    /// side's projection.
    pub filter_columns: Vec<ColumnSource>,
}

/// Column `c` of the pruned join's inputs as output: the left output
/// columns, then the right ones.
pub open spec fn projected_source(p: JoinProjection, c: int) -> ColumnSource {
    if c < p.num_left_output {
        (true, p.left_projection@[c])
    } else {
        (false, p.right_projection@[c - p.num_left_output])
    }
}

/// The number of output columns of the unpruned join.
pub open spec fn num_output_fields(t: JoinType, nlf: nat, nrf: nat) -> nat {
    match t {
        JoinType::Inner | JoinType::Left | JoinType::Right | JoinType::Full => nlf + nrf,
        JoinType::LeftSemi | JoinType::LeftAnti => nlf,
        JoinType::RightSemi | JoinType::RightAnti => nrf,
    }
}

/// The input columns of one side (`left`) that the output columns
/// `projection` read, in the order asked.
pub open spec fn side_columns(t: JoinType, nlf: nat, projection: Seq<usize>, left: bool) -> Seq<usize>
    decreases projection.len(),
{
    if projection.len() == 0 {
        Seq::empty()
    } else {
        let rest = side_columns(t, nlf, projection.drop_last(), left);
        let src = output_source(t, nlf, projection.last() as nat);
        if src.0 == left {
            rest.push(src.1)
        } else {
            rest
        }
    }
}

/// An output column asked for is past the join's columns.
#[derive(Clone, Copy, Debug, PartialEq, Eq, Structural)]
pub enum ProjectionError {
    IndexOutOfRange { index: usize, num_fields: usize },
}

/// Where `x` is in `v`, or appends it; returns its position.
fn position_or_push(v: &mut Vec<usize>, x: usize) -> (r: usize)
    ensures
        r < final(v)@.len(),
        final(v)@[r as int] == x,
        final(v)@ == old(v)@ || final(v)@ == old(v)@.push(x),
        final(v)@.subrange(0, old(v)@.len() as int) == old(v)@,
{
    let mut k: usize = 0;
    while k < v.len()
        invariant
            k <= v@.len(),
            v@ == old(v)@,
        decreases v@.len() - k,
    {
        if v[k] == x {
            return k;
        }
        k = k + 1;
    }
    v.push(x);
    assert(v@.subrange(0, old(v)@.len() as int) =~= old(v)@);
    v.len() - 1
}

/// Plans the pruned join of kind `t`, whose inputs have `num_left_fields`
/// and `num_right_fields` columns, for the output columns `projection`: the
/// columns of each input to read, the order in which the pruned output
/// gives the asked columns, and the positions of the join keys `on_left` /
/// `on_right` and of the filter's columns among the columns read.
pub fn project_join(
    t: JoinType,
    num_left_fields: usize,
    num_right_fields: usize,
    on_left: &Vec<usize>,
    on_right: &Vec<usize>,
    filter_columns: &Vec<ColumnSource>,
    projection: &Vec<usize>,
) -> (r: Result<JoinProjection, ProjectionError>)
    ensures
        (exists|c: int| 0 <= c < projection@.len() && #[trigger] projection@[c] >= num_output_fields(
            t,
            num_left_fields as nat,
            num_right_fields as nat,
        )) <==> r is Err,
        r matches Ok(r) ==> {
            let nlf = num_left_fields as nat;
            &&& r.num_left_output + r.num_right_output == projection@.len()
            &&& r.left_projection@.subrange(0, r.num_left_output as int) == side_columns(t, nlf, projection@, true)
            &&& r.right_projection@.subrange(0, r.num_right_output as int) == side_columns(t, nlf, projection@, false)
            &&& r.output_order@.len() == projection@.len()
            &&& forall|c: int|
                0 <= c < projection@.len() ==> r.output_order@[c] < projection@.len() && #[trigger] projected_source(
                    r,
                    r.output_order@[c] as int,
                ) == output_source(t, nlf, projection@[c] as nat)
            &&& r.on_left@.len() == on_left@.len()
            &&& r.on_right@.len() == on_right@.len()
            &&& r.filter_columns@.len() == filter_columns@.len()
            &&& forall|k: int|
                0 <= k < on_left@.len() ==> #[trigger] r.on_left@[k] < r.left_projection@.len()
                    && r.left_projection@[r.on_left@[k] as int] == on_left@[k]
            &&& forall|k: int|
                0 <= k < on_right@.len() ==> #[trigger] r.on_right@[k] < r.right_projection@.len()
                    && r.right_projection@[r.on_right@[k] as int] == on_right@[k]
            &&& forall|k: int|
                0 <= k < filter_columns@.len() ==> {
                    let (side, pos) = #[trigger] r.filter_columns@[k];
                    &&& side == filter_columns@[k].0
                    &&& side ==> pos < r.left_projection@.len() && r.left_projection@[pos as int]
                        == filter_columns@[k].1
                    &&& !side ==> pos < r.right_projection@.len() && r.right_projection@[pos as int]
                        == filter_columns@[k].1
                }
        },
{
    let ghost nlf = num_left_fields as nat;
    // past `usize::MAX` fields, every index exists
    let mut every_index_exists = false;
    let num_fields: usize = match t {
        JoinType::Inner | JoinType::Left | JoinType::Right | JoinType::Full => {
            if num_left_fields > usize::MAX - num_right_fields {
                every_index_exists = true;
                usize::MAX
            } else {
                num_left_fields + num_right_fields
            }
        },
        JoinType::LeftSemi | JoinType::LeftAnti => num_left_fields,
        JoinType::RightSemi | JoinType::RightAnti => num_right_fields,
    };
    let ghost nof = num_output_fields(t, num_left_fields as nat, num_right_fields as nat);
    // every asked column must exist
    let mut q: usize = 0;
    while q < projection.len()
        invariant
            q <= projection@.len(),
            nof == num_output_fields(t, num_left_fields as nat, num_right_fields as nat),
            every_index_exists ==> nof > usize::MAX,
            !every_index_exists ==> num_fields == nof,
            forall|c: int| 0 <= c < q ==> #[trigger] projection@[c] < nof,
        decreases projection@.len() - q,
    {
        if !every_index_exists && projection[q] >= num_fields {
            assert(0 <= q < projection@.len() && projection@[q as int] >= num_output_fields(
                t,
                num_left_fields as nat,
                num_right_fields as nat,
            ));
            return Err(ProjectionError::IndexOutOfRange { index: projection[q], num_fields });
        }
        q = q + 1;
    }
    let mut left: Vec<usize> = Vec::new();
    let mut right: Vec<usize> = Vec::new();
    let mut sides: Vec<bool> = Vec::new();
    let mut k: usize = 0;
    while k < projection.len()
        invariant
            k <= projection@.len(),
            nlf == num_left_fields,
            forall|c: int| 0 <= c < projection@.len() ==> #[trigger] projection@[c] < nof,
            nof == num_output_fields(t, num_left_fields as nat, num_right_fields as nat),
            left@ == side_columns(t, nlf, projection@.take(k as int), true),
            right@ == side_columns(t, nlf, projection@.take(k as int), false),
            sides@.len() == k,
            forall|c: int| 0 <= c < k ==> #[trigger] sides@[c] == output_source(t, nlf, projection@[c] as nat).0,
        decreases projection@.len() - k,
    {
        let i = projection[k];
        proof {
            assert(projection@.take(k + 1).drop_last() =~= projection@.take(k as int));
        }
        match t {
            JoinType::Inner | JoinType::Left | JoinType::Right | JoinType::Full => {
                if i < num_left_fields {
                    left.push(i);
                    sides.push(true);
                } else {
                    right.push(i - num_left_fields);
                    sides.push(false);
                }
            },
            JoinType::LeftSemi | JoinType::LeftAnti => {
                left.push(i);
                sides.push(true);
            },
            JoinType::RightSemi | JoinType::RightAnti => {
                right.push(i);
                sides.push(false);
            },
        }
        k = k + 1;
    }
    proof {
        assert(projection@.take(projection@.len() as int) =~= projection@);
    }
    let num_left_output = left.len();
    let num_right_output = right.len();
    let ghost left_out = left@;
    let ghost right_out = right@;
    // where each asked column sits in the pruned output
    let mut order: Vec<usize> = Vec::new();
    let mut nl: usize = 0;
    let mut nr: usize = 0;
    let mut c: usize = 0;
    while c < projection.len()
        invariant
            c <= projection@.len(),
            nlf == num_left_fields,
            forall|c0: int| 0 <= c0 < projection@.len() ==> #[trigger] projection@[c0] < num_output_fields(t, num_left_fields as nat, num_right_fields as nat),
            sides@.len() == projection@.len(),
            forall|d: int| 0 <= d < projection@.len() ==> #[trigger] sides@[d] == output_source(t, nlf, projection@[d] as nat).0,
            left_out == side_columns(t, nlf, projection@, true),
            right_out == side_columns(t, nlf, projection@, false),
            num_left_output == left_out.len(),
            num_right_output == right_out.len(),
            nl == side_columns(t, nlf, projection@.take(c as int), true).len(),
            nr == side_columns(t, nlf, projection@.take(c as int), false).len(),
            order@.len() == c,
            forall|d: int|
                0 <= d < c ==> #[trigger] order@[d] < projection@.len() && (order@[d] >= num_left_output
                    ==> order@[d] - num_left_output < right_out.len()) && (if order@[d] < num_left_output {
                    (true, left_out[order@[d] as int])
                } else {
                    (false, right_out[order@[d] - num_left_output])
                }) == output_source(t, nlf, projection@[d] as nat),
        decreases projection@.len() - c,
    {
        proof {
            assert(projection@.take(c + 1).drop_last() =~= projection@.take(c as int));
            lemma_side_columns_prefix(t, nlf, projection@, c + 1, true);
            lemma_side_columns_prefix(t, nlf, projection@, c + 1, false);
            lemma_side_columns_len(t, nlf, projection@);
        }
        if sides[c] {
            order.push(nl);
            nl = nl + 1;
        } else {
            order.push(num_left_output + nr);
            nr = nr + 1;
        }
        c = c + 1;
    }
    let mut on_l: Vec<usize> = Vec::new();
    let mut q: usize = 0;
    while q < on_left.len()
        invariant
            q <= on_left@.len(),
            forall|c0: int| 0 <= c0 < projection@.len() ==> #[trigger] projection@[c0] < num_output_fields(t, num_left_fields as nat, num_right_fields as nat),
            on_l@.len() == q,
            left@.len() >= left_out.len(),
            left@.subrange(0, left_out.len() as int) == left_out,
            forall|x: int|
                0 <= x < q ==> #[trigger] on_l@[x] < left@.len() && left@[on_l@[x] as int] == on_left@[x],
        decreases on_left@.len() - q,
    {
        let ghost before = left@;
        let pos = position_or_push(&mut left, on_left[q]);
        proof {
            assert forall|x: int| 0 <= x < q implies left@[on_l@[x] as int] == before[on_l@[x] as int] by {
                assert(left@.subrange(0, before.len() as int)[on_l@[x] as int] == left@[on_l@[x] as int]);
            }
            assert(left@.subrange(0, left_out.len() as int) =~= before.subrange(0, left_out.len() as int)) by {
                assert(left@.subrange(0, before.len() as int) == before);
                assert forall|y: int| 0 <= y < left_out.len() implies left@[y] == before[y] by {
                    assert(left@.subrange(0, before.len() as int)[y] == left@[y]);
                }
            }
        }
        on_l.push(pos);
        q = q + 1;
    }
    let mut on_r: Vec<usize> = Vec::new();
    let mut q: usize = 0;
    while q < on_right.len()
        invariant
            q <= on_right@.len(),
            forall|c0: int| 0 <= c0 < projection@.len() ==> #[trigger] projection@[c0] < num_output_fields(t, num_left_fields as nat, num_right_fields as nat),
            on_r@.len() == q,
            right@.len() >= right_out.len(),
            right@.subrange(0, right_out.len() as int) == right_out,
            forall|x: int|
                0 <= x < q ==> #[trigger] on_r@[x] < right@.len() && right@[on_r@[x] as int] == on_right@[x],
        decreases on_right@.len() - q,
    {
        let ghost before = right@;
        let pos = position_or_push(&mut right, on_right[q]);
        proof {
            assert forall|x: int| 0 <= x < q implies right@[on_r@[x] as int] == before[on_r@[x] as int] by {
                assert(right@.subrange(0, before.len() as int)[on_r@[x] as int] == right@[on_r@[x] as int]);
            }
            assert(right@.subrange(0, right_out.len() as int) =~= before.subrange(0, right_out.len() as int)) by {
                assert(right@.subrange(0, before.len() as int) == before);
                assert forall|y: int| 0 <= y < right_out.len() implies right@[y] == before[y] by {
                    assert(right@.subrange(0, before.len() as int)[y] == right@[y]);
                }
            }
        }
        on_r.push(pos);
        q = q + 1;
    }
    let ghost left_keys = left@;
    let ghost right_keys = right@;
    let mut filt: Vec<ColumnSource> = Vec::new();
    let mut q: usize = 0;
    while q < filter_columns.len()
        invariant
            q <= filter_columns@.len(),
            forall|c0: int| 0 <= c0 < projection@.len() ==> #[trigger] projection@[c0] < num_output_fields(t, num_left_fields as nat, num_right_fields as nat),
            filt@.len() == q,
            left@.len() >= left_keys.len(),
            right@.len() >= right_keys.len(),
            left@.subrange(0, left_keys.len() as int) == left_keys,
            right@.subrange(0, right_keys.len() as int) == right_keys,
            forall|x: int|
                0 <= x < q ==> {
                    let (side, pos) = #[trigger] filt@[x];
                    &&& side == filter_columns@[x].0
                    &&& side ==> pos < left@.len() && left@[pos as int] == filter_columns@[x].1
                    &&& !side ==> pos < right@.len() && right@[pos as int] == filter_columns@[x].1
                },
        decreases filter_columns@.len() - q,
    {
        let (side, col) = filter_columns[q];
        let ghost lb = left@;
        let ghost rb = right@;
        let pos = if side {
            position_or_push(&mut left, col)
        } else {
            position_or_push(&mut right, col)
        };
        proof {
            assert forall|x: int| 0 <= x < q implies {
                let (side, pos) = #[trigger] filt@[x];
                &&& side ==> pos < left@.len() && left@[pos as int] == filter_columns@[x].1
                &&& !side ==> pos < right@.len() && right@[pos as int] == filter_columns@[x].1
            } by {
                let (side2, q2) = filt@[x];
                if side2 {
                    assert(left@.subrange(0, lb.len() as int)[q2 as int] == left@[q2 as int]);
                } else {
                    assert(right@.subrange(0, rb.len() as int)[q2 as int] == right@[q2 as int]);
                }
            }
            assert forall|y: int| 0 <= y < left_keys.len() implies left@[y] == left_keys[y] by {
                assert(left@.subrange(0, lb.len() as int)[y] == left@[y]);
                assert(lb.subrange(0, left_keys.len() as int)[y] == lb[y]);
            }
            assert forall|y: int| 0 <= y < right_keys.len() implies right@[y] == right_keys[y] by {
                assert(right@.subrange(0, rb.len() as int)[y] == right@[y]);
                assert(rb.subrange(0, right_keys.len() as int)[y] == rb[y]);
            }
            assert(left@.subrange(0, left_keys.len() as int) =~= left_keys);
            assert(right@.subrange(0, right_keys.len() as int) =~= right_keys);
        }
        filt.push((side, pos));
        q = q + 1;
    }
    let r = JoinProjection {
        left_projection: left,
        right_projection: right,
        num_left_output,
        num_right_output,
        output_order: order,
        on_left: on_l,
        on_right: on_r,
        filter_columns: filt,
    };
    proof {
        assert forall|x: int| 0 <= x < on_left@.len() implies #[trigger] r.on_left@[x] < r.left_projection@.len()
            && r.left_projection@[r.on_left@[x] as int] == on_left@[x] by {
            let p = r.on_left@[x] as int;
            assert(r.left_projection@.subrange(0, left_keys.len() as int)[p] == r.left_projection@[p]);
        }
        assert forall|x: int| 0 <= x < on_right@.len() implies #[trigger] r.on_right@[x] < r.right_projection@.len()
            && r.right_projection@[r.on_right@[x] as int] == on_right@[x] by {
            let p = r.on_right@[x] as int;
            assert(r.right_projection@.subrange(0, right_keys.len() as int)[p] == r.right_projection@[p]);
        }
        assert(r.left_projection@.subrange(0, num_left_output as int) =~= left_out) by {
            assert forall|y: int| 0 <= y < num_left_output implies r.left_projection@[y] == left_out[y] by {
                assert(r.left_projection@.subrange(0, left_keys.len() as int)[y] == r.left_projection@[y]);
                assert(left_keys.subrange(0, left_out.len() as int)[y] == left_keys[y]);
            }
        }
        assert(r.right_projection@.subrange(0, num_right_output as int) =~= right_out) by {
            assert forall|y: int| 0 <= y < num_right_output implies r.right_projection@[y] == right_out[y] by {
                assert(r.right_projection@.subrange(0, right_keys.len() as int)[y] == r.right_projection@[y]);
                assert(right_keys.subrange(0, right_out.len() as int)[y] == right_keys[y]);
            }
        }
        assert forall|c: int| 0 <= c < projection@.len() implies r.output_order@[c] < projection@.len() && #[trigger] projected_source(r, r.output_order@[c] as int) == output_source(t, nlf, projection@[c] as nat) by {
            let o = r.output_order@[c] as int;
            if o < num_left_output {
                assert(r.left_projection@.subrange(0, num_left_output as int)[o] == r.left_projection@[o]);
            } else {
                assert(r.right_projection@.subrange(0, num_right_output as int)[o - num_left_output] == r.right_projection@[o - num_left_output]);
            }
        }
        assert(r.num_left_output + r.num_right_output == projection@.len()) by {
            lemma_side_columns_len(t, nlf, projection@);
        }
        assert(r.output_order@.len() == projection@.len());
        assert(r.on_left@.len() == on_left@.len());
        assert(r.on_right@.len() == on_right@.len());
        assert(r.filter_columns@.len() == filter_columns@.len());
    }
    Ok(r)
}

proof fn lemma_side_columns_len(t: JoinType, nlf: nat, projection: Seq<usize>)
    ensures
        side_columns(t, nlf, projection, true).len() + side_columns(t, nlf, projection, false).len() == projection.len(),
    decreases projection.len(),
{
    if projection.len() > 0 {
        lemma_side_columns_len(t, nlf, projection.drop_last());
    }
}

/// The columns asked before `k` are a prefix of the side's columns, and
/// column `k - 1` of its side sits right after them.
proof fn lemma_side_columns_prefix(t: JoinType, nlf: nat, projection: Seq<usize>, k: int, left: bool)
    requires
        1 <= k <= projection.len(),
    ensures
        ({
            let before = side_columns(t, nlf, projection.take(k - 1), left);
            let all = side_columns(t, nlf, projection, left);
            let src = output_source(t, nlf, projection[k - 1] as nat);
            &&& before.len() <= all.len()
            &&& all.subrange(0, before.len() as int) == before
            &&& src.0 == left ==> before.len() < all.len() && all[before.len() as int] == src.1
        }),
    decreases projection.len(),
{
    let before = side_columns(t, nlf, projection.take(k - 1), left);
    let all = side_columns(t, nlf, projection, left);
    if k == projection.len() {
        assert(projection.take(k - 1) =~= projection.drop_last());
        assert(all.subrange(0, before.len() as int) =~= before);
    } else {
        let d = projection.drop_last();
        assert(d.take(k - 1) =~= projection.take(k - 1));
        assert(d[k - 1] == projection[k - 1]);
        lemma_side_columns_prefix(t, nlf, d, k, left);
        let mid = side_columns(t, nlf, d, left);
        assert(all.subrange(0, mid.len() as int) =~= mid);
        assert(all.subrange(0, before.len() as int) =~= mid.subrange(0, before.len() as int));
    }
}

} // verus!

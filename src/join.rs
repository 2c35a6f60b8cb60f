//! The sort-merge join: two inputs sorted by their encoded join keys are
//! walked by two cursors, equal-key groups are joined, and rows without a
//! partner are padded or dropped according to the join kind. A row whose
//! join key holds a null matches nothing.
use vstd::prelude::*;
use crate::keys::{key_lt, lemma_lex_asymmetric, lemma_lex_irreflexive, lemma_lex_total, lemma_lex_transitive, lex_le, lex_lt};
use crate::sort::keys_sorted;

verus! {

/// The kinds of join.
#[derive(Clone, Copy, Debug)]
pub enum JoinType {
    Inner,
    Left,
    Right,
    Full,
    LeftSemi,
    LeftAnti,
    RightSemi,
    RightAnti,
}

/// One output row of a join: the left row and the right row it pairs, a
/// missing side standing for null padding.
pub type JoinPair = (Option<usize>, Option<usize>);

/// The join keys of one input, row by row, with whether each key holds a
/// null.
pub open spec fn keys_view(keys: Seq<Vec<u8>>) -> Seq<Seq<u8>> {
    keys.map_values(|k: Vec<u8>| k@)
}

/// Equal encoded keys agree on whether they hold a null: nullness is
/// encoded in the key itself.
pub open spec fn nulls_follow_keys(
    lk: Seq<Seq<u8>>,
    ln: Seq<bool>,
    rk: Seq<Seq<u8>>,
    rn: Seq<bool>,
) -> bool {
    &&& lk.len() == ln.len()
    &&& rk.len() == rn.len()
    &&& forall|a: int, b: int|
        0 <= a < lk.len() && 0 <= b < lk.len() && lk[a] == lk[b] ==> #[trigger] ln[a] == #[trigger] ln[b]
    &&& forall|a: int, b: int|
        0 <= a < rk.len() && 0 <= b < rk.len() && rk[a] == rk[b] ==> #[trigger] rn[a] == #[trigger] rn[b]
    &&& forall|a: int, b: int|
        0 <= a < lk.len() && 0 <= b < rk.len() && lk[a] == rk[b] ==> #[trigger] ln[a] == #[trigger] rn[b]
}

/// Left row `a` and right row `b` satisfy the equi-join: equal keys
/// without nulls.
pub open spec fn key_match(lk: Seq<Seq<u8>>, ln: Seq<bool>, rk: Seq<Seq<u8>>, a: int, b: int) -> bool {
    0 <= a < lk.len() && 0 <= b < rk.len() && !ln[a] && lk[a] == rk[b]
}

/// Left row `a` has a partner on the right.
pub open spec fn left_matched(lk: Seq<Seq<u8>>, ln: Seq<bool>, rk: Seq<Seq<u8>>, a: int) -> bool {
    exists|b: int| #[trigger] key_match(lk, ln, rk, a, b)
}

/// Right row `b` has a partner on the left.
pub open spec fn right_matched(lk: Seq<Seq<u8>>, ln: Seq<bool>, rk: Seq<Seq<u8>>, b: int) -> bool {
    exists|a: int| #[trigger] key_match(lk, ln, rk, a, b)
}

pub open spec fn pairs_matched(t: JoinType) -> bool {
    matches!(t, JoinType::Inner | JoinType::Left | JoinType::Right | JoinType::Full)
}

pub open spec fn keeps_unmatched_left(t: JoinType) -> bool {
    matches!(t, JoinType::Left | JoinType::Full | JoinType::LeftAnti)
}

pub open spec fn keeps_unmatched_right(t: JoinType) -> bool {
    matches!(t, JoinType::Right | JoinType::Full | JoinType::RightAnti)
}

/// The kinds whose output follows the order of the left input.
pub open spec fn preserves_left(t: JoinType) -> bool {
    matches!(t, JoinType::Inner | JoinType::Left | JoinType::LeftSemi | JoinType::LeftAnti)
}

/// The kinds whose output follows the order of the right input.
pub open spec fn preserves_right(t: JoinType) -> bool {
    matches!(t, JoinType::Right | JoinType::RightSemi | JoinType::RightAnti)
}

/// The join by its definition: which output rows the join of kind `t`
/// holds. Matched pairs for Inner, Left, Right and Full; unmatched rows
/// padded for the outer kinds and kept alone for Anti; matched rows kept
/// alone, once each, for Semi.
pub open spec fn in_join(t: JoinType, lk: Seq<Seq<u8>>, ln: Seq<bool>, rk: Seq<Seq<u8>>, p: JoinPair) -> bool {
    match p {
        (Some(a), Some(b)) => pairs_matched(t) && key_match(lk, ln, rk, a as int, b as int),
        (Some(a), None) => a < lk.len() && if t == JoinType::LeftSemi {
            left_matched(lk, ln, rk, a as int)
        } else {
            keeps_unmatched_left(t) && !left_matched(lk, ln, rk, a as int)
        },
        (None, Some(b)) => b < rk.len() && if t == JoinType::RightSemi {
            right_matched(lk, ln, rk, b as int)
        } else {
            keeps_unmatched_right(t) && !right_matched(lk, ln, rk, b as int)
        },
        (None, None) => false,
    }
}

/// Which input's order the join's output follows: `Some(true)` for the
/// left, `Some(false)` for the right, `None` for a Full join.
pub fn preserved_side(t: JoinType) -> (r: Option<bool>)
    ensures
        r == Some(true) <==> preserves_left(t),
        r == Some(false) <==> preserves_right(t),
        r is None <==> t == JoinType::Full,
{
    match t {
        JoinType::Inner | JoinType::Left | JoinType::LeftSemi | JoinType::LeftAnti => Some(true),
        JoinType::Right | JoinType::RightSemi | JoinType::RightAnti => Some(false),
        JoinType::Full => None,
    }
}

/// The left row of an output row, or -1 where it is padded.
pub open spec fn left_of(p: JoinPair) -> int {
    match p.0 {
        Some(a) => a as int,
        None => -1,
    }
}

/// The right row of an output row, or -1 where it is padded.
pub open spec fn right_of(p: JoinPair) -> int {
    match p.1 {
        Some(b) => b as int,
        None => -1,
    }
}

/// The part of the join that involves only left rows before `i` and right
/// rows before `j`.
pub open spec fn in_region(p: JoinPair, i: int, j: int) -> bool {
    match p {
        (Some(a), Some(b)) => a < i && b < j,
        (Some(a), None) => a < i,
        (None, Some(b)) => b < j,
        (None, None) => false,
    }
}

/// Three-way comparison of two keys: negative, zero or positive as `a`
/// sorts before, equal to, or after `b`.
pub fn key_cmp(a: &[u8], b: &[u8]) -> (r: i8)
    ensures
        r < 0 <==> lex_lt(a@, b@),
        r > 0 <==> lex_lt(b@, a@),
        r == 0 <==> a@ == b@,
{
    proof {
        lemma_lex_total(a@, b@);
        lemma_lex_irreflexive(a@);
    }
    if key_lt(a, b) {
        proof {
            lemma_lex_asymmetric(a@, b@);
        }
        -1
    } else if key_lt(b, a) {
        1
    } else {
        0
    }
}

/// `new` is `old` followed by the pairs of left rows `i .. ie` with right
/// rows `j .. je`, each once, in left-major or right-major order.
pub open spec fn product_appended(
    old: Seq<JoinPair>,
    new: Seq<JoinPair>,
    i: int,
    ie: int,
    j: int,
    je: int,
    left_major: bool,
) -> bool {
    &&& new.subrange(0, old.len() as int) == old
    &&& new.len() >= old.len()
    &&& forall|x: int|
        old.len() <= x < new.len() ==> {
            &&& (#[trigger] new[x]).0 is Some
            &&& new[x].1 is Some
            &&& i <= left_of(new[x]) < ie
            &&& j <= right_of(new[x]) < je
        }
    &&& forall|a: int, b: int|
        i <= a < ie && j <= b < je ==> #[trigger] new.contains((Some(a as usize), Some(b as usize)))
    &&& forall|x: int, y: int| old.len() <= x < y < new.len() ==> #[trigger] new[x] != #[trigger] new[y]
    &&& left_major ==> forall|x: int, y: int|
        old.len() <= x < y < new.len() ==> left_of(#[trigger] new[x]) <= left_of(#[trigger] new[y])
    &&& !left_major ==> forall|x: int, y: int|
        old.len() <= x < y < new.len() ==> right_of(#[trigger] new[x]) <= right_of(#[trigger] new[y])
}

/// The pair of outer row `o` with inner row `n`: the outer row is the left
/// one where `left_major`.
pub open spec fn oriented(left_major: bool, o: int, n: int) -> JoinPair {
    if left_major {
        (Some(o as usize), Some(n as usize))
    } else {
        (Some(n as usize), Some(o as usize))
    }
}

/// Appends the pairs of left rows `i .. ie` with right rows `j .. je`:
/// left row by left row where `left_major`, else right row by right row.
fn emit_product(out: &mut Vec<JoinPair>, i: usize, ie: usize, j: usize, je: usize, left_major: bool)
    requires
        i < ie,
        j < je,
    ensures
        product_appended(old(out)@, final(out)@, i as int, ie as int, j as int, je as int, left_major),
{
    let ghost start = old(out)@.len();
    let (olo, ohi, ilo, ihi) = if left_major {
        (i, ie, j, je)
    } else {
        (j, je, i, ie)
    };
    let mut o = olo;
    while o < ohi
        invariant
            olo <= o <= ohi,
            olo < ohi,
            ilo < ihi,
            (olo, ohi, ilo, ihi) == if left_major {
                (i, ie, j, je)
            } else {
                (j, je, i, ie)
            },
            out@.subrange(0, start as int) == old(out)@,
            start == old(out)@.len(),
            out@.len() == start + (o - olo) * (ihi - ilo),
            forall|x: int|
                start <= x < out@.len() ==> {
                    &&& (#[trigger] out@[x]).0 is Some
                    &&& out@[x].1 is Some
                    &&& i <= left_of(out@[x]) < ie
                    &&& j <= right_of(out@[x]) < je
                    &&& if left_major {
                        left_of(out@[x]) < o
                    } else {
                        right_of(out@[x]) < o
                    }
                },
            forall|oo: int, ii: int|
                olo <= oo < o && ilo <= ii < ihi ==> #[trigger] out@.contains(oriented(left_major, oo, ii)),
            forall|x: int, y: int| start <= x < y < out@.len() ==> #[trigger] out@[x] != #[trigger] out@[y],
            left_major ==> forall|x: int, y: int|
                start <= x < y < out@.len() ==> left_of(#[trigger] out@[x]) <= left_of(#[trigger] out@[y]),
            !left_major ==> forall|x: int, y: int|
                start <= x < y < out@.len() ==> right_of(#[trigger] out@[x]) <= right_of(#[trigger] out@[y]),
        decreases ohi - o,
    {
        let ghost before = out@;
        let mut n = ilo;
        while n < ihi
            invariant
                olo <= o < ohi,
                ilo <= n <= ihi,
                (olo, ohi, ilo, ihi) == if left_major {
                    (i, ie, j, je)
                } else {
                    (j, je, i, ie)
                },
                out@.subrange(0, before.len() as int) == before,
                out@.len() == before.len() + (n - ilo),
                start <= before.len(),
                forall|x: int|
                    before.len() <= x < out@.len() ==> #[trigger] out@[x] == oriented(
                        left_major,
                        o as int,
                        ilo + (x - before.len()),
                    ),
            decreases ihi - n,
        {
            if left_major {
                out.push((Some(o), Some(n)));
            } else {
                out.push((Some(n), Some(o)));
            }
            n = n + 1;
        }
        proof {
            assert(out@.len() == start + (o + 1 - olo) * (ihi - ilo)) by (nonlinear_arith)
                requires
                    out@.len() == before.len() + (ihi - ilo),
                    before.len() == start + (o - olo) * (ihi - ilo),
            ;
            assert forall|x: int| start <= x < out@.len() implies {
                &&& (#[trigger] out@[x]).0 is Some
                &&& out@[x].1 is Some
                &&& i <= left_of(out@[x]) < ie
                &&& j <= right_of(out@[x]) < je
                &&& if left_major {
                    left_of(out@[x]) < o + 1
                } else {
                    right_of(out@[x]) < o + 1
                }
            } by {
                if x < before.len() {
                    assert(out@[x] == before[x]);
                }
            }
            assert forall|oo: int, ii: int| olo <= oo < o + 1 && ilo <= ii < ihi implies #[trigger] out@.contains(oriented(left_major, oo, ii)) by {
                let p = oriented(left_major, oo, ii);
                if oo < o {
                    assert(before.contains(p));
                    let k = choose|k: int| 0 <= k < before.len() && before[k] == p;
                    assert(out@[k] == before[k]);
                } else {
                    let k = before.len() + (ii - ilo);
                    assert(out@[k] == p);
                }
            }
            assert forall|x: int, y: int| start <= x < y < out@.len() implies #[trigger] out@[x] != #[trigger] out@[y] by {
                if y >= before.len() && x < before.len() {
                    assert(out@[x] == before[x]);
                } else if x < before.len() {
                    assert(out@[x] == before[x]);
                    assert(out@[y] == before[y]);
                }
            }
            if left_major {
                assert forall|x: int, y: int| start <= x < y < out@.len() implies left_of(#[trigger] out@[x]) <= left_of(#[trigger] out@[y]) by {
                    if x < before.len() {
                        assert(out@[x] == before[x]);
                    }
                    if y < before.len() {
                        assert(out@[y] == before[y]);
                    }
                }
            } else {
                assert forall|x: int, y: int| start <= x < y < out@.len() implies right_of(#[trigger] out@[x]) <= right_of(#[trigger] out@[y]) by {
                    if x < before.len() {
                        assert(out@[x] == before[x]);
                    }
                    if y < before.len() {
                        assert(out@[y] == before[y]);
                    }
                }
            }
            assert(out@.subrange(0, start as int) =~= before.subrange(0, start as int));
        }
        o = o + 1;
    }
    proof {
        assert forall|a: int, b: int| i <= a < ie && j <= b < je implies #[trigger] out@.contains((Some(a as usize), Some(b as usize))) by {
            if left_major {
                assert(out@.contains(oriented(left_major, a, b)));
            } else {
                assert(out@.contains(oriented(left_major, b, a)));
            }
        }
    }
}

/// The output row that keeps row `a` of one side alone.
pub open spec fn single(left: bool, a: int) -> JoinPair {
    if left {
        (Some(a as usize), None)
    } else {
        (None, Some(a as usize))
    }
}

/// `new` is `old` followed by the rows `lo .. hi` of one side, each alone,
/// in order.
pub open spec fn rows_appended(old: Seq<JoinPair>, new: Seq<JoinPair>, lo: int, hi: int, left: bool) -> bool {
    &&& new.len() == old.len() + (hi - lo)
    &&& forall|x: int| 0 <= x < old.len() ==> #[trigger] new[x] == old[x]
    &&& forall|x: int| old.len() <= x < new.len() ==> #[trigger] new[x] == single(left, lo + (x - old.len()))
}

/// Appends the rows `lo .. hi` of one side, each alone, in order.
fn emit_rows(out: &mut Vec<JoinPair>, lo: usize, hi: usize, left: bool)
    requires
        lo <= hi,
    ensures
        rows_appended(old(out)@, final(out)@, lo as int, hi as int, left),
{
    let ghost start = old(out)@.len();
    let mut a = lo;
    while a < hi
        invariant
            lo <= a <= hi,
            start == old(out)@.len(),
            out@.len() == start + (a - lo),
            forall|x: int| 0 <= x < start ==> #[trigger] out@[x] == old(out)@[x],
            forall|x: int| start <= x < out@.len() ==> #[trigger] out@[x] == single(left, lo + (x - start)),
        decreases hi - a,
    {
        if left {
            out.push((Some(a), None));
        } else {
            out.push((None, Some(a)));
        }
        a = a + 1;
    }
}

/// No left row before `i` matches a right row from `j` on, and no left row
/// from `i` on matches a right row before `j`.
pub open spec fn separated(lk: Seq<Seq<u8>>, ln: Seq<bool>, rk: Seq<Seq<u8>>, i: int, j: int) -> bool {
    &&& forall|a: int, b: int| 0 <= a < i && j <= b < rk.len() ==> !#[trigger] key_match(lk, ln, rk, a, b)
    &&& forall|a: int, b: int| i <= a < lk.len() && 0 <= b < j ==> !#[trigger] key_match(lk, ln, rk, a, b)
}

/// `out` holds, once each, exactly the rows of the join that lie before
/// `(i, j)`.
pub open spec fn covers(
    t: JoinType,
    lk: Seq<Seq<u8>>,
    ln: Seq<bool>,
    rk: Seq<Seq<u8>>,
    out: Seq<JoinPair>,
    i: int,
    j: int,
) -> bool {
    &&& out.no_duplicates()
    &&& forall|p: JoinPair| #[trigger] out.contains(p) <==> in_join(t, lk, ln, rk, p) && in_region(p, i, j)
}

/// Every output row has a left row before `i`, in non-decreasing order.
pub open spec fn left_ordered(out: Seq<JoinPair>, i: int) -> bool {
    &&& forall|x: int| 0 <= x < out.len() ==> 0 <= left_of(#[trigger] out[x]) < i
    &&& forall|x: int, y: int| 0 <= x < y < out.len() ==> left_of(#[trigger] out[x]) <= left_of(#[trigger] out[y])
}

/// Every output row has a right row before `j`, in non-decreasing order.
pub open spec fn right_ordered(out: Seq<JoinPair>, j: int) -> bool {
    &&& forall|x: int| 0 <= x < out.len() ==> 0 <= right_of(#[trigger] out[x]) < j
    &&& forall|x: int, y: int| 0 <= x < y < out.len() ==> right_of(#[trigger] out[x]) <= right_of(#[trigger] out[y])
}

/// Past an equal-key group `i .. ie` of a sorted sequence, keys are larger.
proof fn lemma_past_group(ks: Seq<Seq<u8>>, i: int, ie: int, a: int)
    requires
        keys_sorted(ks),
        0 <= i < ie <= a < ks.len(),
        ks[ie] != ks[i],
    ensures
        lex_lt(ks[i], ks[a]),
{
    assert(lex_le(ks[i], ks[ie]));
    lemma_lex_total(ks[i], ks[ie]);
    if ie < a {
        assert(lex_le(ks[ie], ks[a]));
        lemma_lex_total(ks[ie], ks[a]);
        if ks[ie] != ks[a] {
            lemma_lex_transitive(ks[i], ks[ie], ks[a]);
        }
    }
}

/// Left row `i` sorts before the current right row (or ties with it while
/// holding a null): it matches nothing.
proof fn lemma_left_alone(lk: Seq<Seq<u8>>, ln: Seq<bool>, rk: Seq<Seq<u8>>, rn: Seq<bool>, i: int, j: int)
    requires
        keys_sorted(rk),
        nulls_follow_keys(lk, ln, rk, rn),
        separated(lk, ln, rk, i, j),
        0 <= i < lk.len(),
        0 <= j < rk.len(),
        lex_lt(lk[i], rk[j]) || (lk[i] == rk[j] && ln[i]),
    ensures
        !left_matched(lk, ln, rk, i),
        separated(lk, ln, rk, i + 1, j),
{
    assert forall|b: int| !#[trigger] key_match(lk, ln, rk, i, b) by {
        if 0 <= b < rk.len() && j <= b && !ln[i] && lk[i] == rk[b] {
            if b > j {
                assert(lex_le(rk[j], rk[b]));
            }
            if lex_lt(lk[i], rk[j]) {
                if b > j {
                    lemma_lex_total(rk[j], rk[b]);
                    if rk[j] != rk[b] {
                        lemma_lex_transitive(lk[i], rk[j], rk[b]);
                    }
                }
                lemma_lex_irreflexive(lk[i]);
            }
        }
    }
}

/// The current right row sorts before left row `i`: it matches nothing.
proof fn lemma_right_alone(lk: Seq<Seq<u8>>, ln: Seq<bool>, rk: Seq<Seq<u8>>, rn: Seq<bool>, i: int, j: int)
    requires
        keys_sorted(lk),
        nulls_follow_keys(lk, ln, rk, rn),
        separated(lk, ln, rk, i, j),
        0 <= i < lk.len(),
        0 <= j < rk.len(),
        lex_lt(rk[j], lk[i]),
    ensures
        !right_matched(lk, ln, rk, j),
        separated(lk, ln, rk, i, j + 1),
{
    assert forall|a: int| !#[trigger] key_match(lk, ln, rk, a, j) by {
        if 0 <= a < lk.len() && i <= a && lk[a] == rk[j] {
            if a > i {
                assert(lex_le(lk[i], lk[a]));
                lemma_lex_total(lk[i], lk[a]);
                if lk[i] != lk[a] {
                    lemma_lex_transitive(rk[j], lk[i], lk[a]);
                }
            }
            lemma_lex_irreflexive(rk[j]);
        }
    }
}

/// Joins two inputs sorted by their encoded join keys. `lnulls[a]` tells
/// whether left row `a`'s key holds a null (likewise on the right). The
/// output holds, once each, exactly the rows of the join of kind `t` by its
/// definition; for the kinds that preserve one side's order, that side's
/// rows come out in input order.
pub fn sort_merge_join(
    t: JoinType,
    lkeys: &Vec<Vec<u8>>,
    lnulls: &Vec<bool>,
    rkeys: &Vec<Vec<u8>>,
    rnulls: &Vec<bool>,
) -> (out: Vec<JoinPair>)
    requires
        keys_sorted(keys_view(lkeys@)),
        keys_sorted(keys_view(rkeys@)),
        nulls_follow_keys(keys_view(lkeys@), lnulls@, keys_view(rkeys@), rnulls@),
    ensures
        out@.no_duplicates(),
        forall|p: JoinPair|
            #[trigger] out@.contains(p) <==> in_join(t, keys_view(lkeys@), lnulls@, keys_view(rkeys@), p),
        preserves_left(t) ==> left_ordered(out@, lkeys@.len() as int),
        preserves_right(t) ==> right_ordered(out@, rkeys@.len() as int),
{
    let ghost lk = keys_view(lkeys@);
    let ghost ln = lnulls@;
    let ghost rk = keys_view(rkeys@);
    let ghost rn = rnulls@;
    let nl = lkeys.len();
    let nr = rkeys.len();
    let mut out: Vec<JoinPair> = Vec::new();
    let mut i: usize = 0;
    let mut j: usize = 0;
    proof {
        assert forall|p: JoinPair| #[trigger] out@.contains(p) <==> in_join(t, lk, ln, rk, p) && in_region(p, 0, 0) by {}
    }
    while i < nl && j < nr
        invariant
            lk == keys_view(lkeys@),
            rk == keys_view(rkeys@),
            ln == lnulls@,
            rn == rnulls@,
            nl == lk.len(),
            nr == rk.len(),
            keys_sorted(lk),
            keys_sorted(rk),
            nulls_follow_keys(lk, ln, rk, rn),
            i <= nl,
            j <= nr,
            separated(lk, ln, rk, i as int, j as int),
            covers(t, lk, ln, rk, out@, i as int, j as int),
            preserves_left(t) ==> left_ordered(out@, i as int),
            preserves_right(t) ==> right_ordered(out@, j as int),
        decreases nl - i + nr - j,
    {
        let c = key_cmp(lkeys[i].as_slice(), rkeys[j].as_slice());
        let ghost old_out = out@;
        if c < 0 || (c == 0 && lnulls[i]) {
            proof {
                lemma_left_alone(lk, ln, rk, rn, i as int, j as int);
            }
            if matches!(t, JoinType::Left | JoinType::Full | JoinType::LeftAnti) {
                out.push((Some(i), None));
            }
            proof {
                lemma_cover_left_alone(t, lk, ln, rk, rn, old_out, out@, i as int, j as int);
            }
            i = i + 1;
        } else if c > 0 {
            proof {
                lemma_right_alone(lk, ln, rk, rn, i as int, j as int);
            }
            if matches!(t, JoinType::Right | JoinType::Full | JoinType::RightAnti) {
                out.push((None, Some(j)));
            }
            proof {
                lemma_cover_right_alone(t, lk, ln, rk, rn, old_out, out@, i as int, j as int);
            }
            j = j + 1;
        } else {
            // an equal-key group on each side
            let mut ie = i + 1;
            while ie < nl && key_cmp(lkeys[ie].as_slice(), lkeys[i].as_slice()) == 0
                invariant
                    i < ie <= nl,
                    nl == lk.len(),
                    lk == keys_view(lkeys@),
                    forall|a: int| i <= a < ie ==> #[trigger] lk[a] == lk[i as int],
                decreases nl - ie,
            {
                ie = ie + 1;
            }
            let mut je = j + 1;
            while je < nr && key_cmp(rkeys[je].as_slice(), rkeys[j].as_slice()) == 0
                invariant
                    j < je <= nr,
                    nr == rk.len(),
                    rk == keys_view(rkeys@),
                    forall|b: int| j <= b < je ==> #[trigger] rk[b] == rk[j as int],
                decreases nr - je,
            {
                je = je + 1;
            }
            match t {
                JoinType::Inner | JoinType::Left | JoinType::Full => emit_product(&mut out, i, ie, j, je, true),
                JoinType::Right => emit_product(&mut out, i, ie, j, je, false),
                JoinType::LeftSemi => emit_rows(&mut out, i, ie, true),
                JoinType::RightSemi => emit_rows(&mut out, j, je, false),
                JoinType::LeftAnti | JoinType::RightAnti => {},
            }
            proof {
                lemma_cover_group(t, lk, ln, rk, rn, old_out, out@, i as int, ie as int, j as int, je as int);
            }
            i = ie;
            j = je;
        }
    }
    // one side is exhausted: the rest of the other matches nothing
    let ghost old_out = out@;
    if matches!(t, JoinType::Left | JoinType::Full | JoinType::LeftAnti) {
        emit_rows(&mut out, i, nl, true);
    }
    proof {
        lemma_cover_left_tail(t, lk, ln, rk, rn, old_out, out@, i as int, j as int);
    }
    let ghost mid_out = out@;
    if matches!(t, JoinType::Right | JoinType::Full | JoinType::RightAnti) {
        emit_rows(&mut out, j, nr, false);
    }
    proof {
        lemma_cover_right_tail(t, lk, ln, rk, rn, mid_out, out@, j as int);
        assert forall|p: JoinPair| #[trigger] out@.contains(p) <==> in_join(t, lk, ln, rk, p) by {
            if in_join(t, lk, ln, rk, p) {
                assert(in_region(p, nl as int, nr as int));
            }
        }
    }
    out
}

/// `p` keeps one of the rows `lo .. hi` of one side alone.
pub open spec fn in_rows(p: JoinPair, lo: int, hi: int, left: bool) -> bool {
    match p {
        (Some(a), None) => left && lo <= a < hi,
        (None, Some(b)) => !left && lo <= b < hi,
        _ => false,
    }
}

/// `p` pairs a left row of `i .. ie` with a right row of `j .. je`.
pub open spec fn in_box(p: JoinPair, i: int, ie: int, j: int, je: int) -> bool {
    match p {
        (Some(a), Some(b)) => i <= a < ie && j <= b < je,
        _ => false,
    }
}

proof fn lemma_rows_appended(old: Seq<JoinPair>, new: Seq<JoinPair>, lo: int, hi: int, left: bool)
    requires
        rows_appended(old, new, lo, hi, left),
        lo <= hi,
        0 <= lo,
        hi <= usize::MAX,
    ensures
        forall|p: JoinPair| #[trigger] new.contains(p) <==> old.contains(p) || in_rows(p, lo, hi, left),
        old.no_duplicates() && (forall|p: JoinPair| in_rows(p, lo, hi, left) ==> !old.contains(p))
            ==> new.no_duplicates(),
{
    assert forall|p: JoinPair| #[trigger] new.contains(p) <==> old.contains(p) || in_rows(p, lo, hi, left) by {
        if new.contains(p) {
            let k = choose|k: int| 0 <= k < new.len() && new[k] == p;
            if k < old.len() {
                assert(old[k] == p);
            }
        }
        if old.contains(p) {
            let k = choose|k: int| 0 <= k < old.len() && old[k] == p;
            assert(new[k] == p);
        }
        if in_rows(p, lo, hi, left) {
            let a = if left {
                p.0.unwrap() as int
            } else {
                p.1.unwrap() as int
            };
            let k = old.len() + (a - lo);
            assert(new[k] == single(left, a));
        }
    }
    if old.no_duplicates() && (forall|p: JoinPair| in_rows(p, lo, hi, left) ==> !old.contains(p)) {
        assert forall|x: int, y: int| 0 <= x < new.len() && 0 <= y < new.len() && x != y implies new[x] != new[y] by {
            if x < old.len() && y < old.len() {
                assert(new[x] == old[x] && new[y] == old[y]);
            } else if x < old.len() {
                assert(new[x] == old[x]);
                assert(old.contains(new[x]));
                assert(in_rows(new[y], lo, hi, left));
            } else if y < old.len() {
                assert(new[y] == old[y]);
                assert(old.contains(new[y]));
                assert(in_rows(new[x], lo, hi, left));
            } else {
                assert(new[x] == single(left, lo + (x - old.len())));
                assert(new[y] == single(left, lo + (y - old.len())));
            }
        }
    }
}

proof fn lemma_product_appended(
    old: Seq<JoinPair>,
    new: Seq<JoinPair>,
    i: int,
    ie: int,
    j: int,
    je: int,
    left_major: bool,
)
    requires
        product_appended(old, new, i, ie, j, je, left_major),
        0 <= i,
        0 <= j,
        ie <= usize::MAX,
        je <= usize::MAX,
    ensures
        forall|x: int| 0 <= x < old.len() ==> #[trigger] new[x] == old[x],
        forall|x: int| old.len() <= x < new.len() ==> in_box(#[trigger] new[x], i, ie, j, je),
        forall|p: JoinPair| #[trigger] new.contains(p) <==> old.contains(p) || in_box(p, i, ie, j, je),
        old.no_duplicates() && (forall|p: JoinPair| in_box(p, i, ie, j, je) ==> !old.contains(p))
            ==> new.no_duplicates(),
{
    assert forall|x: int| 0 <= x < old.len() implies #[trigger] new[x] == old[x] by {
        assert(new.subrange(0, old.len() as int)[x] == new[x]);
    }
    assert forall|x: int| old.len() <= x < new.len() implies in_box(#[trigger] new[x], i, ie, j, je) by {}
    assert forall|p: JoinPair| #[trigger] new.contains(p) <==> old.contains(p) || in_box(p, i, ie, j, je) by {
        if new.contains(p) {
            let k = choose|k: int| 0 <= k < new.len() && new[k] == p;
            if k < old.len() {
                assert(old[k] == p);
            }
        }
        if old.contains(p) {
            let k = choose|k: int| 0 <= k < old.len() && old[k] == p;
            assert(new[k] == p);
        }
        if in_box(p, i, ie, j, je) {
            let a = p.0.unwrap() as int;
            let b = p.1.unwrap() as int;
            assert(new.contains((Some(a as usize), Some(b as usize))));
        }
    }
    if old.no_duplicates() && (forall|p: JoinPair| in_box(p, i, ie, j, je) ==> !old.contains(p)) {
        assert forall|x: int, y: int| 0 <= x < new.len() && 0 <= y < new.len() && x != y implies new[x] != new[y] by {
            if x < old.len() && y < old.len() {
                assert(new[x] == old[x] && new[y] == old[y]);
            } else if x < old.len() {
                assert(new[x] == old[x]);
                assert(old.contains(new[x]));
                assert(in_box(new[y], i, ie, j, je));
            } else if y < old.len() {
                assert(new[y] == old[y]);
                assert(old.contains(new[y]));
                assert(in_box(new[x], i, ie, j, je));
            } else if x < y {
                assert(new[x] != new[y]);
            } else {
                assert(new[y] != new[x]);
            }
        }
    }
}

proof fn lemma_cover_left_alone(
    t: JoinType,
    lk: Seq<Seq<u8>>,
    ln: Seq<bool>,
    rk: Seq<Seq<u8>>,
    rn: Seq<bool>,
    old: Seq<JoinPair>,
    new: Seq<JoinPair>,
    i: int,
    j: int,
)
    requires
        0 <= i < lk.len() <= usize::MAX,
        0 <= j <= rk.len() <= usize::MAX,
        !left_matched(lk, ln, rk, i),
        covers(t, lk, ln, rk, old, i, j),
        new == (if keeps_unmatched_left(t) {
            old.push((Some(i as usize), None))
        } else {
            old
        }),
        preserves_left(t) ==> left_ordered(old, i),
        preserves_right(t) ==> right_ordered(old, j),
    ensures
        covers(t, lk, ln, rk, new, i + 1, j),
        preserves_left(t) ==> left_ordered(new, i + 1),
        preserves_right(t) ==> right_ordered(new, j),
{
    let x = (Some(i as usize), None::<usize>);
    assert(!old.contains(x)) by {
        if old.contains(x) {
            assert(in_region(x, i, j));
        }
    }
    if keeps_unmatched_left(t) {
        lemma_push(old, x);
    }
    assert forall|p: JoinPair| #[trigger] new.contains(p) <==> in_join(t, lk, ln, rk, p) && in_region(p, i + 1, j) by {
        if p.0 == Some(i as usize) && p.1 is Some {
            assert(!key_match(lk, ln, rk, i, p.1.unwrap() as int));
        }
    }
    if preserves_left(t) && keeps_unmatched_left(t) {
        assert forall|a: int, b: int| 0 <= a < b < new.len() implies left_of(#[trigger] new[a]) <= left_of(#[trigger] new[b]) by {
            if b < old.len() {
                assert(new[a] == old[a] && new[b] == old[b]);
            } else {
                assert(new[a] == old[a]);
            }
        }
        assert forall|a: int| 0 <= a < new.len() implies 0 <= left_of(#[trigger] new[a]) < i + 1 by {
            if a < old.len() {
                assert(new[a] == old[a]);
            }
        }
    }
}

proof fn lemma_push(s: Seq<JoinPair>, x: JoinPair)
    requires
        !s.contains(x),
    ensures
        forall|p: JoinPair| #[trigger] s.push(x).contains(p) <==> s.contains(p) || p == x,
        s.no_duplicates() ==> s.push(x).no_duplicates(),
        forall|k: int| 0 <= k < s.len() ==> #[trigger] s.push(x)[k] == s[k],
{
    let n = s.push(x);
    assert forall|p: JoinPair| #[trigger] n.contains(p) <==> s.contains(p) || p == x by {
        if n.contains(p) {
            let k = choose|k: int| 0 <= k < n.len() && n[k] == p;
            if k < s.len() {
                assert(s[k] == p);
            }
        }
        if s.contains(p) {
            let k = choose|k: int| 0 <= k < s.len() && s[k] == p;
            assert(n[k] == p);
        }
        if p == x {
            assert(n[s.len() as int] == x);
        }
    }
    if s.no_duplicates() {
        assert forall|a: int, b: int| 0 <= a < n.len() && 0 <= b < n.len() && a != b implies n[a] != n[b] by {
            if a < s.len() && b < s.len() {
                assert(n[a] == s[a] && n[b] == s[b]);
            } else if a < s.len() {
                assert(n[a] == s[a]);
            } else if b < s.len() {
                assert(n[b] == s[b]);
            }
        }
    }
}

proof fn lemma_cover_right_alone(
    t: JoinType,
    lk: Seq<Seq<u8>>,
    ln: Seq<bool>,
    rk: Seq<Seq<u8>>,
    rn: Seq<bool>,
    old: Seq<JoinPair>,
    new: Seq<JoinPair>,
    i: int,
    j: int,
)
    requires
        0 <= i <= lk.len() <= usize::MAX,
        0 <= j < rk.len() <= usize::MAX,
        !right_matched(lk, ln, rk, j),
        covers(t, lk, ln, rk, old, i, j),
        new == (if keeps_unmatched_right(t) {
            old.push((None, Some(j as usize)))
        } else {
            old
        }),
        preserves_left(t) ==> left_ordered(old, i),
        preserves_right(t) ==> right_ordered(old, j),
    ensures
        covers(t, lk, ln, rk, new, i, j + 1),
        preserves_left(t) ==> left_ordered(new, i),
        preserves_right(t) ==> right_ordered(new, j + 1),
{
    let x = (None::<usize>, Some(j as usize));
    assert(!old.contains(x)) by {
        if old.contains(x) {
            assert(in_region(x, i, j));
        }
    }
    if keeps_unmatched_right(t) {
        lemma_push(old, x);
    }
    assert forall|p: JoinPair| #[trigger] new.contains(p) <==> in_join(t, lk, ln, rk, p) && in_region(p, i, j + 1) by {
        if p.1 == Some(j as usize) && p.0 is Some {
            assert(!key_match(lk, ln, rk, p.0.unwrap() as int, j));
        }
    }
    if preserves_right(t) && keeps_unmatched_right(t) {
        assert forall|a: int, b: int| 0 <= a < b < new.len() implies right_of(#[trigger] new[a]) <= right_of(#[trigger] new[b]) by {
            if b < old.len() {
                assert(new[a] == old[a] && new[b] == old[b]);
            } else {
                assert(new[a] == old[a]);
            }
        }
        assert forall|a: int| 0 <= a < new.len() implies 0 <= right_of(#[trigger] new[a]) < j + 1 by {
            if a < old.len() {
                assert(new[a] == old[a]);
            }
        }
    }
}

/// The inputs of a merge join: both sorted, nulls following keys.
pub open spec fn join_inputs(lk: Seq<Seq<u8>>, ln: Seq<bool>, rk: Seq<Seq<u8>>, rn: Seq<bool>) -> bool {
    &&& keys_sorted(lk)
    &&& keys_sorted(rk)
    &&& nulls_follow_keys(lk, ln, rk, rn)
}

/// What an equal-key group appends to the output, by join kind.
pub open spec fn group_appended(
    t: JoinType,
    old: Seq<JoinPair>,
    new: Seq<JoinPair>,
    i: int,
    ie: int,
    j: int,
    je: int,
) -> bool {
    match t {
        JoinType::Inner | JoinType::Left | JoinType::Full => product_appended(old, new, i, ie, j, je, true),
        JoinType::Right => product_appended(old, new, i, ie, j, je, false),
        JoinType::LeftSemi => rows_appended(old, new, i, ie, true),
        JoinType::RightSemi => rows_appended(old, new, j, je, false),
        JoinType::LeftAnti | JoinType::RightAnti => new == old,
    }
}

proof fn lemma_cover_group(
    t: JoinType,
    lk: Seq<Seq<u8>>,
    ln: Seq<bool>,
    rk: Seq<Seq<u8>>,
    rn: Seq<bool>,
    old: Seq<JoinPair>,
    new: Seq<JoinPair>,
    i: int,
    ie: int,
    j: int,
    je: int,
)
    requires
        join_inputs(lk, ln, rk, rn),
        0 <= i < ie <= lk.len(),
        0 <= j < je <= rk.len(),
        lk.len() <= usize::MAX,
        rk.len() <= usize::MAX,
        lk[i] == rk[j],
        !ln[i],
        forall|a: int| i <= a < ie ==> #[trigger] lk[a] == lk[i],
        ie < lk.len() ==> lk[ie] != lk[i],
        forall|b: int| j <= b < je ==> #[trigger] rk[b] == rk[j],
        je < rk.len() ==> rk[je] != rk[j],
        separated(lk, ln, rk, i, j),
        covers(t, lk, ln, rk, old, i, j),
        preserves_left(t) ==> left_ordered(old, i),
        preserves_right(t) ==> right_ordered(old, j),
        group_appended(t, old, new, i, ie, j, je),
    ensures
        separated(lk, ln, rk, ie, je),
        covers(t, lk, ln, rk, new, ie, je),
        preserves_left(t) ==> left_ordered(new, ie),
        preserves_right(t) ==> right_ordered(new, je),
{
    // rows of the two groups match each other, and only each other
    assert forall|a: int, b: int| i <= a < ie && j <= b < je implies #[trigger] key_match(lk, ln, rk, a, b) by {
        assert(lk[a] == lk[i]);
        assert(ln[a] == ln[i]);
    }
    assert forall|a: int, b: int| 0 <= a < ie && je <= b < rk.len() implies !#[trigger] key_match(lk, ln, rk, a, b) by {
        if a >= i {
            lemma_past_group(rk, j, je, b);
            lemma_lex_irreflexive(rk[j]);
        }
    }
    assert forall|a: int, b: int| ie <= a < lk.len() && 0 <= b < je implies !#[trigger] key_match(lk, ln, rk, a, b) by {
        if b >= j {
            lemma_past_group(lk, i, ie, a);
            lemma_lex_irreflexive(lk[i]);
        }
    }
    assert forall|a: int| i <= a < ie implies #[trigger] left_matched(lk, ln, rk, a) by {
        assert(key_match(lk, ln, rk, a, j));
    }
    assert forall|b: int| j <= b < je implies #[trigger] right_matched(lk, ln, rk, b) by {
        assert(key_match(lk, ln, rk, i, b));
    }
    // what the group adds
    let seg = |p: JoinPair| match t {
        JoinType::Inner | JoinType::Left | JoinType::Full | JoinType::Right => in_box(p, i, ie, j, je),
        JoinType::LeftSemi => in_rows(p, i, ie, true),
        JoinType::RightSemi => in_rows(p, j, je, false),
        JoinType::LeftAnti | JoinType::RightAnti => false,
    };
    assert forall|p: JoinPair| seg(p) implies !old.contains(p) by {
        if old.contains(p) {
            assert(in_region(p, i, j));
        }
    }
    match t {
        JoinType::Inner | JoinType::Left | JoinType::Full => lemma_product_appended(old, new, i, ie, j, je, true),
        JoinType::Right => lemma_product_appended(old, new, i, ie, j, je, false),
        JoinType::LeftSemi => lemma_rows_appended(old, new, i, ie, true),
        JoinType::RightSemi => lemma_rows_appended(old, new, j, je, false),
        JoinType::LeftAnti | JoinType::RightAnti => {},
    }
    assert forall|p: JoinPair| #[trigger] new.contains(p) <==> old.contains(p) || seg(p) by {}
    assert forall|p: JoinPair| #[trigger] new.contains(p) <==> in_join(t, lk, ln, rk, p) && in_region(p, ie, je) by {
        match p {
            (Some(a), Some(b)) => {
                if a < ie && b < je && !(a < i && b < j) && !(i <= a && j <= b) {
                    assert(!key_match(lk, ln, rk, a as int, b as int));
                }
            },
            _ => {},
        }
    }
    if preserves_left(t) {
        assert forall|x: int| 0 <= x < new.len() implies 0 <= left_of(#[trigger] new[x]) < ie by {
            if x < old.len() {
                assert(new[x] == old[x]);
            }
        }
        assert forall|x: int, y: int| 0 <= x < y < new.len() implies left_of(#[trigger] new[x]) <= left_of(#[trigger] new[y]) by {
            if y < old.len() {
                assert(new[x] == old[x] && new[y] == old[y]);
            } else if x < old.len() {
                assert(new[x] == old[x]);
            }
        }
    }
    if preserves_right(t) {
        assert forall|x: int| 0 <= x < new.len() implies 0 <= right_of(#[trigger] new[x]) < je by {
            if x < old.len() {
                assert(new[x] == old[x]);
            }
        }
        assert forall|x: int, y: int| 0 <= x < y < new.len() implies right_of(#[trigger] new[x]) <= right_of(#[trigger] new[y]) by {
            if y < old.len() {
                assert(new[x] == old[x] && new[y] == old[y]);
            } else if x < old.len() {
                assert(new[x] == old[x]);
            }
        }
    }
}

proof fn lemma_cover_left_tail(
    t: JoinType,
    lk: Seq<Seq<u8>>,
    ln: Seq<bool>,
    rk: Seq<Seq<u8>>,
    rn: Seq<bool>,
    old: Seq<JoinPair>,
    new: Seq<JoinPair>,
    i: int,
    j: int,
)
    requires
        0 <= i <= lk.len() <= usize::MAX,
        0 <= j <= rk.len(),
        i == lk.len() || j == rk.len(),
        separated(lk, ln, rk, i, j),
        covers(t, lk, ln, rk, old, i, j),
        preserves_left(t) ==> left_ordered(old, i),
        preserves_right(t) ==> right_ordered(old, j),
        keeps_unmatched_left(t) ==> rows_appended(old, new, i, lk.len() as int, true),
        !keeps_unmatched_left(t) ==> new == old,
    ensures
        separated(lk, ln, rk, lk.len() as int, j),
        covers(t, lk, ln, rk, new, lk.len() as int, j),
        preserves_left(t) ==> left_ordered(new, lk.len() as int),
        preserves_right(t) ==> right_ordered(new, j),
{
    let nl = lk.len() as int;
    assert forall|a: int| i <= a < nl implies !#[trigger] left_matched(lk, ln, rk, a) by {
        assert forall|b: int| !#[trigger] key_match(lk, ln, rk, a, b) by {}
    }
    assert forall|p: JoinPair| in_rows(p, i, nl, true) implies !old.contains(p) by {
        if old.contains(p) {
            assert(in_region(p, i, j));
        }
    }
    if keeps_unmatched_left(t) {
        lemma_rows_appended(old, new, i, nl, true);
    }
    assert forall|p: JoinPair| #[trigger] new.contains(p) <==> in_join(t, lk, ln, rk, p) && in_region(p, nl, j) by {
        match p {
            (Some(a), Some(b)) => {
                if i <= a < nl && b < j {
                    assert(!key_match(lk, ln, rk, a as int, b as int));
                }
            },
            _ => {},
        }
    }
    if preserves_left(t) && keeps_unmatched_left(t) {
        assert forall|x: int| 0 <= x < new.len() implies 0 <= left_of(#[trigger] new[x]) < nl by {
            if x < old.len() {
                assert(new[x] == old[x]);
            }
        }
        assert forall|x: int, y: int| 0 <= x < y < new.len() implies left_of(#[trigger] new[x]) <= left_of(#[trigger] new[y]) by {
            if y < old.len() {
                assert(new[x] == old[x] && new[y] == old[y]);
            } else if x < old.len() {
                assert(new[x] == old[x]);
            }
        }
    }
}

proof fn lemma_cover_right_tail(
    t: JoinType,
    lk: Seq<Seq<u8>>,
    ln: Seq<bool>,
    rk: Seq<Seq<u8>>,
    rn: Seq<bool>,
    old: Seq<JoinPair>,
    new: Seq<JoinPair>,
    j: int,
)
    requires
        0 <= j <= rk.len() <= usize::MAX,
        separated(lk, ln, rk, lk.len() as int, j),
        covers(t, lk, ln, rk, old, lk.len() as int, j),
        preserves_left(t) ==> left_ordered(old, lk.len() as int),
        preserves_right(t) ==> right_ordered(old, j),
        keeps_unmatched_right(t) ==> rows_appended(old, new, j, rk.len() as int, false),
        !keeps_unmatched_right(t) ==> new == old,
    ensures
        covers(t, lk, ln, rk, new, lk.len() as int, rk.len() as int),
        preserves_left(t) ==> left_ordered(new, lk.len() as int),
        preserves_right(t) ==> right_ordered(new, rk.len() as int),
{
    let nl = lk.len() as int;
    let nr = rk.len() as int;
    assert forall|b: int| j <= b < nr implies !#[trigger] right_matched(lk, ln, rk, b) by {
        assert forall|a: int| !#[trigger] key_match(lk, ln, rk, a, b) by {}
    }
    assert forall|p: JoinPair| in_rows(p, j, nr, false) implies !old.contains(p) by {
        if old.contains(p) {
            assert(in_region(p, nl, j));
        }
    }
    if keeps_unmatched_right(t) {
        lemma_rows_appended(old, new, j, nr, false);
    }
    assert forall|p: JoinPair| #[trigger] new.contains(p) <==> in_join(t, lk, ln, rk, p) && in_region(p, nl, nr) by {
        match p {
            (Some(a), Some(b)) => {
                if a < nl && j <= b < nr {
                    assert(!key_match(lk, ln, rk, a as int, b as int));
                }
            },
            _ => {},
        }
    }
    if preserves_right(t) && keeps_unmatched_right(t) {
        assert forall|x: int| 0 <= x < new.len() implies 0 <= right_of(#[trigger] new[x]) < nr by {
            if x < old.len() {
                assert(new[x] == old[x]);
            }
        }
        assert forall|x: int, y: int| 0 <= x < y < new.len() implies right_of(#[trigger] new[x]) <= right_of(#[trigger] new[y]) by {
            if y < old.len() {
                assert(new[x] == old[x] && new[y] == old[y]);
            } else if x < old.len() {
                assert(new[x] == old[x]);
            }
        }
    }
}

/// A row whose join key holds a null matches no row: it is in no matched
/// pair and never kept by a Semi join, while the outer and Anti kinds that
/// keep its side's unmatched rows keep it, padded or alone.
pub proof fn lemma_null_key_never_matches(
    t: JoinType,
    lk: Seq<Seq<u8>>,
    ln: Seq<bool>,
    rk: Seq<Seq<u8>>,
    rn: Seq<bool>,
    a: usize,
    b: usize,
)
    requires
        nulls_follow_keys(lk, ln, rk, rn),
    ensures
        a < lk.len() && ln[a as int] ==> {
            &&& forall|r: usize| !#[trigger] in_join(t, lk, ln, rk, (Some(a), Some(r)))
            &&& in_join(t, lk, ln, rk, (Some(a), None)) <==> keeps_unmatched_left(t)
        },
        b < rk.len() && rn[b as int] ==> {
            &&& forall|l: usize| !#[trigger] in_join(t, lk, ln, rk, (Some(l), Some(b)))
            &&& in_join(t, lk, ln, rk, (None, Some(b))) <==> keeps_unmatched_right(t)
        },
{
    if a < lk.len() && ln[a as int] {
        assert(!left_matched(lk, ln, rk, a as int));
    }
    if b < rk.len() && rn[b as int] {
        assert forall|l: int| !#[trigger] key_match(lk, ln, rk, l, b as int) by {
            if key_match(lk, ln, rk, l, b as int) {
                assert(ln[l] == rn[b as int]);
            }
        }
        assert(!right_matched(lk, ln, rk, b as int));
    }
}

/// For the kinds that preserve the left input's order, the output's left
/// rows come with non-decreasing keys (likewise on the right).
pub proof fn lemma_join_sort_preservation(
    t: JoinType,
    lk: Seq<Seq<u8>>,
    rk: Seq<Seq<u8>>,
    out: Seq<JoinPair>,
)
    requires
        keys_sorted(lk),
        keys_sorted(rk),
        preserves_left(t) ==> left_ordered(out, lk.len() as int),
        preserves_right(t) ==> right_ordered(out, rk.len() as int),
    ensures
        preserves_left(t) ==> forall|x: int, y: int|
            0 <= x < y < out.len() ==> lex_le(lk[left_of(#[trigger] out[x])], lk[left_of(#[trigger] out[y])]),
        preserves_right(t) ==> forall|x: int, y: int|
            0 <= x < y < out.len() ==> lex_le(rk[right_of(#[trigger] out[x])], rk[right_of(#[trigger] out[y])]),
{
    if preserves_left(t) {
        assert forall|x: int, y: int| 0 <= x < y < out.len() implies lex_le(lk[left_of(#[trigger] out[x])], lk[left_of(#[trigger] out[y])]) by {
            let a = left_of(out[x]);
            let c = left_of(out[y]);
            if a < c {
                assert(lex_le(lk[a], lk[c]));
            } else {
                lemma_lex_irreflexive(lk[a]);
            }
        }
    }
    if preserves_right(t) {
        assert forall|x: int, y: int| 0 <= x < y < out.len() implies lex_le(rk[right_of(#[trigger] out[x])], rk[right_of(#[trigger] out[y])]) by {
            let a = right_of(out[x]);
            let c = right_of(out[y]);
            if a < c {
                assert(lex_le(rk[a], rk[c]));
            } else {
                lemma_lex_irreflexive(rk[a]);
            }
        }
    }
}

// ---------------------------------------------------------------------------
// Residual filter
// ---------------------------------------------------------------------------
/// The rows of `pairs` whose filter value is true; a null filter value
/// (`None`) counts as false.
pub open spec fn filtered(pairs: Seq<JoinPair>, mask: Seq<Option<bool>>) -> Seq<JoinPair>
    decreases pairs.len(),
{
    if pairs.len() == 0 || mask.len() == 0 {
        Seq::empty()
    } else {
        let rest = filtered(pairs.drop_last(), mask.drop_last());
        if mask.last() == Some(true) {
            rest.push(pairs.last())
        } else {
            rest
        }
    }
}

/// Keeps the pairs whose residual filter evaluated to true, in order;
/// `mask[k]` is the filter's value on the joined row of `pairs[k]`.
pub fn filter_pairs(pairs: &Vec<JoinPair>, mask: &Vec<Option<bool>>) -> (r: Vec<JoinPair>)
    requires
        pairs@.len() == mask@.len(),
    ensures
        r@ == filtered(pairs@, mask@),
{
    let mut r: Vec<JoinPair> = Vec::new();
    let mut k: usize = 0;
    while k < pairs.len()
        invariant
            k <= pairs@.len(),
            pairs@.len() == mask@.len(),
            r@ == filtered(pairs@.take(k as int), mask@.take(k as int)),
        decreases pairs@.len() - k,
    {
        proof {
            assert(pairs@.take(k + 1).drop_last() =~= pairs@.take(k as int));
            assert(mask@.take(k + 1).drop_last() =~= mask@.take(k as int));
        }
        if mask[k] == Some(true) {
            r.push(pairs[k]);
        }
        k = k + 1;
    }
    assert(pairs@.take(pairs@.len() as int) =~= pairs@);
    assert(mask@.take(mask@.len() as int) =~= mask@);
    r
}

/// Filtering the pairs flushed chunk by chunk gives what filtering the whole
/// unfiltered output at once gives.
pub proof fn lemma_filter_by_chunks(
    first: Seq<JoinPair>,
    first_mask: Seq<Option<bool>>,
    second: Seq<JoinPair>,
    second_mask: Seq<Option<bool>>,
)
    requires
        first.len() == first_mask.len(),
        second.len() == second_mask.len(),
    ensures
        filtered(first + second, first_mask + second_mask) == filtered(first, first_mask) + filtered(second, second_mask),
    decreases second.len(),
{
    if second.len() == 0 {
        assert(first + second =~= first);
        assert(first_mask + second_mask =~= first_mask);
        assert(filtered(first, first_mask) + filtered(second, second_mask) =~= filtered(first, first_mask));
    } else {
        lemma_filter_by_chunks(first, first_mask, second.drop_last(), second_mask.drop_last());
        assert((first + second).drop_last() =~= first + second.drop_last());
        assert((first_mask + second_mask).drop_last() =~= first_mask + second_mask.drop_last());
        if second_mask.last() == Some(true) {
            assert(filtered(first, first_mask) + filtered(second, second_mask) =~= (filtered(first, first_mask) + filtered(
                second.drop_last(),
                second_mask.drop_last(),
            )).push(second.last()));
        }
    }
}

// ---------------------------------------------------------------------------
// Buffering of output pairs
// ---------------------------------------------------------------------------
/// `floor(log10(n))` for `n >= 1`.
pub open spec fn log10_floor(n: nat) -> nat
    decreases n,
{
    if n < 10 {
        0
    } else {
        1 + log10_floor(n / 10)
    }
}

/// The number of pairs buffered before the join builds an output batch:
/// the batch size divided by its decimal logarithm, so that batches stay
/// small and are coalesced downstream.
pub fn join_sub_batch_size(batch_size: usize) -> (r: usize)
    requires
        batch_size >= 10,
    ensures
        log10_floor(batch_size as nat) >= 1,
        r == batch_size / (log10_floor(batch_size as nat) as usize),
{
    let mut n = batch_size;
    let mut log: usize = 0;
    while n >= 10
        invariant
            log + log10_floor(n as nat) == log10_floor(batch_size as nat),
            log + n <= batch_size,
            n >= 1,
        decreases n,
    {
        n = n / 10;
        log = log + 1;
    }
    proof {
        lemma_log10_bound(batch_size as nat);
    }
    batch_size / log
}

proof fn lemma_log10_bound(n: nat)
    ensures
        n >= 10 ==> log10_floor(n) >= 1,
    decreases n,
{
    if n >= 10 {
        lemma_log10_bound(n / 10);
    }
}

/// Buffers the join's output pairs and hands them out in chunks of
/// `batch_size`.
pub struct Joiner {
    pending: Vec<JoinPair>,
    batch_size: usize,
}

impl View for Joiner {
    type V = Seq<JoinPair>;

    closed spec fn view(&self) -> Seq<JoinPair> {
        self.pending@
    }
}

impl Joiner {
    pub closed spec fn spec_batch_size(&self) -> usize {
        self.batch_size
    }

    pub fn new(batch_size: usize) -> (r: Self)
        ensures
            r@ == Seq::<JoinPair>::empty(),
            r.spec_batch_size() == batch_size,
    {
        Joiner { pending: Vec::new(), batch_size }
    }

    pub fn is_empty(&self) -> (r: bool)
        ensures
            r == (self@.len() == 0),
    {
        self.pending.len() == 0
    }

    /// Buffers `p`; once `batch_size` pairs wait, hands them all out.
    pub fn accept_pair(&mut self, p: JoinPair) -> (r: Option<Vec<JoinPair>>)
        ensures
            final(self).spec_batch_size() == old(self).spec_batch_size(),
            old(self)@.len() + 1 >= old(self).spec_batch_size() ==> r is Some && r.unwrap()@ == old(
                self,
            )@.push(p) && final(self)@ == Seq::<JoinPair>::empty(),
            old(self)@.len() + 1 < old(self).spec_batch_size() ==> r is None && final(self)@ == old(
                self,
            )@.push(p),
    {
        self.pending.push(p);
        if self.pending.len() >= self.batch_size {
            Some(self.flush())
        } else {
            None
        }
    }

    /// Hands out every buffered pair, in order.
    pub fn flush(&mut self) -> (r: Vec<JoinPair>)
        ensures
            r@ == old(self)@,
            final(self)@ == Seq::<JoinPair>::empty(),
            final(self).spec_batch_size() == old(self).spec_batch_size(),
    {
        self.pending.split_off(0)
    }
}

// ---------------------------------------------------------------------------
// Construction checks
// ---------------------------------------------------------------------------
/// Why a join cannot be built.
#[derive(Clone, Copy, Debug, PartialEq, Eq, Structural)]
pub enum JoinPlanError {
    /// Semi and Anti joins take no residual filter.
    SemiAntiWithFilter,
    /// One sort option is needed per join key.
    SortOptionsMismatch { expected: usize, actual: usize },
}

/// Semi and Anti kinds.
pub open spec fn is_semi_or_anti(t: JoinType) -> bool {
    matches!(t, JoinType::LeftSemi | JoinType::LeftAnti | JoinType::RightSemi | JoinType::RightAnti)
}

/// Checks the settings of a join of kind `t` over `num_keys` key pairs.
pub fn check_join(t: JoinType, has_filter: bool, num_keys: usize, num_sort_options: usize) -> (r: Result<
    (),
    JoinPlanError,
>)
    ensures
        is_semi_or_anti(t) && has_filter ==> r == Err::<(), JoinPlanError>(JoinPlanError::SemiAntiWithFilter),
        !(is_semi_or_anti(t) && has_filter) && num_sort_options != num_keys ==> r == Err::<(), JoinPlanError>(
            JoinPlanError::SortOptionsMismatch { expected: num_keys, actual: num_sort_options },
        ),
        !(is_semi_or_anti(t) && has_filter) && num_sort_options == num_keys ==> r == Ok::<(), JoinPlanError>(()),
{
    if matches!(t, JoinType::LeftSemi | JoinType::LeftAnti | JoinType::RightSemi | JoinType::RightAnti) && has_filter {
        return Err(JoinPlanError::SemiAntiWithFilter);
    }
    if num_sort_options != num_keys {
        return Err(JoinPlanError::SortOptionsMismatch { expected: num_keys, actual: num_sort_options });
    }
    Ok(())
}

} // verus!

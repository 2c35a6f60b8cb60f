use datafusion_ext_plans::join::{
    check_join, filter_pairs, join_sub_batch_size, sort_merge_join, JoinPair, JoinPlanError, JoinType, Joiner,
};

type Col = Vec<Option<i64>>;

#[derive(Clone, Copy)]
struct Opts {
    descending: bool,
    nulls_first: bool,
}

const DEFAULT: Opts = Opts { descending: false, nulls_first: true };

/// An order-preserving encoding of one nullable integer field.
fn encode_field(v: Option<i64>, o: Opts, out: &mut Vec<u8>) {
    let (marker, bytes) = match v {
        None => (if o.nulls_first { 0u8 } else { 2u8 }, [0u8; 8]),
        Some(x) => (1u8, ((x as u64) ^ 0x8000_0000_0000_0000).to_be_bytes()),
    };
    out.push(marker);
    for b in bytes {
        out.push(if o.descending && v.is_some() { !b } else { b });
    }
}

/// Encoded join keys and null flags of a table's columns `on`.
fn keys_of(table: &[Col], on: &[usize], opts: &[Opts]) -> (Vec<Vec<u8>>, Vec<bool>) {
    let n = table[0].len();
    let mut keys = vec![];
    let mut nulls = vec![];
    for r in 0..n {
        let mut k = vec![];
        let mut has_null = false;
        for (i, &c) in on.iter().enumerate() {
            encode_field(table[c][r], opts[i], &mut k);
            has_null |= table[c][r].is_none();
        }
        keys.push(k);
        nulls.push(has_null);
    }
    (keys, nulls)
}

fn table(a: &[i64], b: &[i64], c: &[i64]) -> Vec<Col> {
    vec![
        a.iter().map(|&x| Some(x)).collect(),
        b.iter().map(|&x| Some(x)).collect(),
        c.iter().map(|&x| Some(x)).collect(),
    ]
}

fn concat(t1: Vec<Col>, t2: Vec<Col>) -> Vec<Col> {
    t1.into_iter()
        .zip(t2)
        .map(|(mut x, y)| {
            x.extend(y);
            x
        })
        .collect()
}

fn row(table: &[Col], r: Option<usize>) -> Vec<Option<i64>> {
    table.iter().map(|c| r.and_then(|r| c[r])).collect()
}

/// The output rows of the join, sorted.
fn output_rows(t: JoinType, left: &[Col], right: &[Col], pairs: &[JoinPair]) -> Vec<Vec<Option<i64>>> {
    let mut rows: Vec<Vec<Option<i64>>> = pairs
        .iter()
        .map(|&(l, r)| match t {
            JoinType::LeftSemi | JoinType::LeftAnti => row(left, l),
            JoinType::RightSemi | JoinType::RightAnti => row(right, r),
            _ => [row(left, l), row(right, r)].concat(),
        })
        .collect();
    rows.sort();
    rows
}

fn join_with(t: JoinType, left: &[Col], right: &[Col], lon: &[usize], ron: &[usize], opts: &[Opts]) -> (Vec<JoinPair>, Vec<Vec<Option<i64>>>) {
    assert_eq!(check_join(t, false, lon.len(), opts.len()), Ok(()));
    let (lk, ln) = keys_of(left, lon, opts);
    let (rk, rn) = keys_of(right, ron, opts);
    let pairs = sort_merge_join(t, &lk, &ln, &rk, &rn);
    let rows = output_rows(t, left, right, &pairs);
    (pairs, rows)
}

fn join(t: JoinType, left: &[Col], right: &[Col], lon: &[usize], ron: &[usize]) -> Vec<Vec<Option<i64>>> {
    let opts = vec![DEFAULT; lon.len()];
    join_with(t, left, right, lon, ron, &opts).1
}

fn expect(rows: &[&[Option<i64>]]) -> Vec<Vec<Option<i64>>> {
    let mut v: Vec<Vec<Option<i64>>> = rows.iter().map(|r| r.to_vec()).collect();
    v.sort();
    v
}

fn s(x: i64) -> Option<i64> {
    Some(x)
}

const N: Option<i64> = None;

#[test]
fn join_inner_one() {
    let left = table(&[1, 2, 3], &[4, 5, 5], &[7, 8, 9]);
    let right = table(&[10, 20, 30], &[4, 5, 6], &[70, 80, 90]);
    let got = join(JoinType::Inner, &left, &right, &[1], &[1]);
    assert_eq!(
        got,
        expect(&[
            &[s(1), s(4), s(7), s(10), s(4), s(70)],
            &[s(2), s(5), s(8), s(20), s(5), s(80)],
            &[s(3), s(5), s(9), s(20), s(5), s(80)],
        ])
    );
}

#[test]
fn join_inner_two() {
    let left = table(&[1, 2, 2], &[1, 2, 2], &[7, 8, 9]);
    let right = table(&[1, 2, 3], &[1, 2, 2], &[70, 80, 90]);
    let got = join(JoinType::Inner, &left, &right, &[0, 1], &[0, 1]);
    assert_eq!(
        got,
        expect(&[
            &[s(1), s(1), s(7), s(1), s(1), s(70)],
            &[s(2), s(2), s(8), s(2), s(2), s(80)],
            &[s(2), s(2), s(9), s(2), s(2), s(80)],
        ])
    );
}

#[test]
fn join_inner_two_two() {
    let left = table(&[1, 1, 2], &[1, 1, 2], &[7, 8, 9]);
    let right = table(&[1, 1, 3], &[1, 1, 2], &[70, 80, 90]);
    let got = join(JoinType::Inner, &left, &right, &[0, 1], &[0, 1]);
    assert_eq!(
        got,
        expect(&[
            &[s(1), s(1), s(7), s(1), s(1), s(70)],
            &[s(1), s(1), s(7), s(1), s(1), s(80)],
            &[s(1), s(1), s(8), s(1), s(1), s(70)],
            &[s(1), s(1), s(8), s(1), s(1), s(80)],
        ])
    );
}

#[test]
fn join_inner_with_nulls() {
    let left = vec![vec![s(1), s(1), s(2), s(2)], vec![N, s(1), s(2), s(2)], vec![s(1), N, s(8), s(9)]];
    let right = vec![vec![s(1), s(1), s(2), s(3)], vec![N, s(1), s(2), s(2)], vec![s(10), s(70), s(80), s(90)]];
    let got = join(JoinType::Inner, &left, &right, &[0, 1], &[0, 1]);
    assert_eq!(
        got,
        expect(&[
            &[s(1), s(1), N, s(1), s(1), s(70)],
            &[s(2), s(2), s(8), s(2), s(2), s(80)],
            &[s(2), s(2), s(9), s(2), s(2), s(80)],
        ])
    );
}

#[test]
fn join_inner_with_nulls_with_options() {
    let left = vec![vec![s(2), s(2), s(1), s(1)], vec![s(2), s(2), s(1), N], vec![s(9), s(8), N, s(1)]];
    let right = vec![vec![s(3), s(2), s(1), s(1)], vec![s(2), s(2), s(1), N], vec![s(90), s(80), s(70), s(10)]];
    let opts = vec![Opts { descending: true, nulls_first: false }; 2];
    let (_, got) = join_with(JoinType::Inner, &left, &right, &[0, 1], &[0, 1], &opts);
    assert_eq!(
        got,
        expect(&[
            &[s(2), s(2), s(9), s(2), s(2), s(80)],
            &[s(2), s(2), s(8), s(2), s(2), s(80)],
            &[s(1), s(1), N, s(1), s(1), s(70)],
        ])
    );
}

#[test]
fn join_left_one() {
    let left = table(&[1, 2, 3], &[4, 5, 7], &[7, 8, 9]);
    let right = table(&[10, 20, 30], &[4, 5, 6], &[70, 80, 90]);
    let got = join(JoinType::Left, &left, &right, &[1], &[1]);
    assert_eq!(
        got,
        expect(&[
            &[s(1), s(4), s(7), s(10), s(4), s(70)],
            &[s(2), s(5), s(8), s(20), s(5), s(80)],
            &[s(3), s(7), s(9), N, N, N],
        ])
    );
}

#[test]
fn join_right_one() {
    let left = table(&[1, 2, 3], &[4, 5, 7], &[7, 8, 9]);
    let right = table(&[10, 20, 30], &[4, 5, 6], &[70, 80, 90]);
    let got = join(JoinType::Right, &left, &right, &[1], &[1]);
    assert_eq!(
        got,
        expect(&[
            &[s(1), s(4), s(7), s(10), s(4), s(70)],
            &[s(2), s(5), s(8), s(20), s(5), s(80)],
            &[N, N, N, s(30), s(6), s(90)],
        ])
    );
}

#[test]
fn join_full_one() {
    let left = table(&[1, 2, 3], &[4, 5, 7], &[7, 8, 9]);
    let right = table(&[10, 20, 30], &[4, 5, 6], &[70, 80, 90]);
    let got = join(JoinType::Full, &left, &right, &[1], &[1]);
    assert_eq!(
        got,
        expect(&[
            &[N, N, N, s(30), s(6), s(90)],
            &[s(1), s(4), s(7), s(10), s(4), s(70)],
            &[s(2), s(5), s(8), s(20), s(5), s(80)],
            &[s(3), s(7), s(9), N, N, N],
        ])
    );
}

#[test]
fn join_anti() {
    let left = table(&[1, 2, 2, 3, 5], &[4, 5, 5, 7, 7], &[7, 8, 8, 9, 11]);
    let right = table(&[10, 20, 30], &[4, 5, 6], &[70, 80, 90]);
    let got = join(JoinType::LeftAnti, &left, &right, &[1], &[1]);
    assert_eq!(got, expect(&[&[s(3), s(7), s(9)], &[s(5), s(7), s(11)]]));
}

#[test]
fn join_semi() {
    let left = table(&[1, 2, 2, 3], &[4, 5, 5, 7], &[7, 8, 8, 9]);
    let right = table(&[10, 20, 30], &[4, 5, 6], &[70, 80, 90]);
    let got = join(JoinType::LeftSemi, &left, &right, &[1], &[1]);
    assert_eq!(got, expect(&[&[s(1), s(4), s(7)], &[s(2), s(5), s(8)], &[s(2), s(5), s(8)]]));
}

#[test]
fn join_with_duplicated_column_names() {
    let left = table(&[1, 2, 3], &[4, 5, 7], &[7, 8, 9]);
    let right = table(&[10, 20, 30], &[1, 2, 7], &[70, 80, 90]);
    let got = join(JoinType::Inner, &left, &right, &[0], &[1]);
    assert_eq!(
        got,
        expect(&[&[s(1), s(4), s(7), s(10), s(1), s(70)], &[s(2), s(5), s(8), s(20), s(2), s(80)]])
    );
}

#[test]
fn join_date32() {
    // dates as days since the epoch
    let left = table(&[1, 2, 3], &[19107, 19108, 19108], &[7, 8, 9]);
    let right = table(&[10, 20, 30], &[19107, 19108, 19109], &[70, 80, 90]);
    let got = join(JoinType::Inner, &left, &right, &[1], &[1]);
    assert_eq!(
        got,
        expect(&[
            &[s(1), s(19107), s(7), s(10), s(19107), s(70)],
            &[s(2), s(19108), s(8), s(20), s(19108), s(80)],
            &[s(3), s(19108), s(9), s(20), s(19108), s(80)],
        ])
    );
}

#[test]
fn join_date64() {
    // dates as milliseconds since the epoch
    let left = table(&[1, 2, 3], &[1650703441000, 1650903441000, 1650903441000], &[7, 8, 9]);
    let right = table(&[10, 20, 30], &[1650703441000, 1650503441000, 1650903441000], &[70, 80, 90]);
    let got = join(JoinType::Inner, &left, &right, &[1], &[1]);
    assert_eq!(
        got,
        expect(&[
            &[s(1), s(1650703441000), s(7), s(10), s(1650703441000), s(70)],
            &[s(2), s(1650903441000), s(8), s(30), s(1650903441000), s(90)],
            &[s(3), s(1650903441000), s(9), s(30), s(1650903441000), s(90)],
        ])
    );
}

#[test]
fn join_left_sort_order() {
    let left = table(&[0, 1, 2, 3, 4, 5], &[3, 4, 5, 6, 6, 7], &[4, 5, 6, 7, 8, 9]);
    let right = table(&[0, 10, 20, 30, 40], &[2, 4, 6, 6, 8], &[50, 60, 70, 80, 90]);
    let (pairs, got) = join_with(JoinType::Left, &left, &right, &[1], &[1], &[DEFAULT]);
    assert_eq!(
        got,
        expect(&[
            &[s(0), s(3), s(4), N, N, N],
            &[s(1), s(4), s(5), s(10), s(4), s(60)],
            &[s(2), s(5), s(6), N, N, N],
            &[s(3), s(6), s(7), s(20), s(6), s(70)],
            &[s(3), s(6), s(7), s(30), s(6), s(80)],
            &[s(4), s(6), s(8), s(20), s(6), s(70)],
            &[s(4), s(6), s(8), s(30), s(6), s(80)],
            &[s(5), s(7), s(9), N, N, N],
        ])
    );
    // the output follows the left input's order
    let lefts: Vec<usize> = pairs.iter().map(|p| p.0.unwrap()).collect();
    assert!(lefts.windows(2).all(|w| w[0] <= w[1]));
}

#[test]
fn join_right_sort_order() {
    let left = table(&[0, 1, 2, 3], &[3, 4, 5, 7], &[6, 7, 8, 9]);
    let right = table(&[0, 10, 20, 30], &[2, 4, 5, 6], &[60, 70, 80, 90]);
    let (pairs, got) = join_with(JoinType::Right, &left, &right, &[1], &[1], &[DEFAULT]);
    assert_eq!(
        got,
        expect(&[
            &[N, N, N, s(0), s(2), s(60)],
            &[s(1), s(4), s(7), s(10), s(4), s(70)],
            &[s(2), s(5), s(8), s(20), s(5), s(80)],
            &[N, N, N, s(30), s(6), s(90)],
        ])
    );
    let rights: Vec<usize> = pairs.iter().map(|p| p.1.unwrap()).collect();
    assert!(rights.windows(2).all(|w| w[0] <= w[1]));
}

#[test]
fn join_left_multiple_batches() {
    let left = concat(table(&[0, 1, 2], &[3, 4, 5], &[4, 5, 6]), table(&[3, 4, 5, 6], &[6, 6, 7, 9], &[7, 8, 9, 9]));
    let right = concat(table(&[0, 10, 20], &[2, 4, 6], &[50, 60, 70]), table(&[30, 40], &[6, 8], &[80, 90]));
    let got = join(JoinType::Left, &left, &right, &[1], &[1]);
    assert_eq!(
        got,
        expect(&[
            &[s(0), s(3), s(4), N, N, N],
            &[s(1), s(4), s(5), s(10), s(4), s(60)],
            &[s(2), s(5), s(6), N, N, N],
            &[s(3), s(6), s(7), s(20), s(6), s(70)],
            &[s(3), s(6), s(7), s(30), s(6), s(80)],
            &[s(4), s(6), s(8), s(20), s(6), s(70)],
            &[s(4), s(6), s(8), s(30), s(6), s(80)],
            &[s(5), s(7), s(9), N, N, N],
            &[s(6), s(9), s(9), N, N, N],
        ])
    );
}

#[test]
fn join_right_multiple_batches() {
    let right = concat(table(&[0, 1, 2], &[3, 4, 5], &[4, 5, 6]), table(&[3, 4, 5, 6], &[6, 6, 7, 9], &[7, 8, 9, 9]));
    let left = concat(table(&[0, 10, 20], &[2, 4, 6], &[50, 60, 70]), table(&[30, 40], &[6, 8], &[80, 90]));
    let got = join(JoinType::Right, &left, &right, &[1], &[1]);
    assert_eq!(
        got,
        expect(&[
            &[N, N, N, s(0), s(3), s(4)],
            &[s(10), s(4), s(60), s(1), s(4), s(5)],
            &[N, N, N, s(2), s(5), s(6)],
            &[s(20), s(6), s(70), s(3), s(6), s(7)],
            &[s(30), s(6), s(80), s(3), s(6), s(7)],
            &[s(20), s(6), s(70), s(4), s(6), s(8)],
            &[s(30), s(6), s(80), s(4), s(6), s(8)],
            &[N, N, N, s(5), s(7), s(9)],
            &[N, N, N, s(6), s(9), s(9)],
        ])
    );
}

#[test]
fn join_full_multiple_batches() {
    let left = concat(table(&[0, 1, 2], &[3, 4, 5], &[4, 5, 6]), table(&[3, 4, 5, 6], &[6, 6, 7, 9], &[7, 8, 9, 9]));
    let right = concat(table(&[0, 10, 20], &[2, 4, 6], &[50, 60, 70]), table(&[30, 40], &[6, 8], &[80, 90]));
    let got = join(JoinType::Full, &left, &right, &[1], &[1]);
    assert_eq!(
        got,
        expect(&[
            &[N, N, N, s(0), s(2), s(50)],
            &[N, N, N, s(40), s(8), s(90)],
            &[s(0), s(3), s(4), N, N, N],
            &[s(1), s(4), s(5), s(10), s(4), s(60)],
            &[s(2), s(5), s(6), N, N, N],
            &[s(3), s(6), s(7), s(20), s(6), s(70)],
            &[s(3), s(6), s(7), s(30), s(6), s(80)],
            &[s(4), s(6), s(8), s(20), s(6), s(70)],
            &[s(4), s(6), s(8), s(30), s(6), s(80)],
            &[s(5), s(7), s(9), N, N, N],
            &[s(6), s(9), s(9), N, N, N],
        ])
    );
}

#[test]
fn join_right_semi_and_anti() {
    let left = table(&[10, 20, 30], &[4, 5, 6], &[70, 80, 90]);
    let right = table(&[1, 2, 2, 3], &[4, 5, 5, 7], &[7, 8, 8, 9]);
    let semi = join(JoinType::RightSemi, &left, &right, &[1], &[1]);
    assert_eq!(semi, expect(&[&[s(1), s(4), s(7)], &[s(2), s(5), s(8)], &[s(2), s(5), s(8)]]));
    let anti = join(JoinType::RightAnti, &left, &right, &[1], &[1]);
    assert_eq!(anti, expect(&[&[s(3), s(7), s(9)]]));
}

#[test]
fn join_null_keys_padded_in_outer_and_anti() {
    let left = vec![vec![N, s(1)], vec![s(0), s(0)], vec![s(0), s(0)]];
    let right = vec![vec![N, s(1)], vec![s(9), s(9)], vec![s(9), s(9)]];
    let full = join(JoinType::Full, &left, &right, &[0], &[0]);
    assert_eq!(
        full,
        expect(&[
            &[N, s(0), s(0), N, N, N],
            &[N, N, N, N, s(9), s(9)],
            &[s(1), s(0), s(0), s(1), s(9), s(9)],
        ])
    );
    let anti = join(JoinType::LeftAnti, &left, &right, &[0], &[0]);
    assert_eq!(anti, expect(&[&[N, s(0), s(0)]]));
    let semi = join(JoinType::LeftSemi, &left, &right, &[0], &[0]);
    assert_eq!(semi, expect(&[&[s(1), s(0), s(0)]]));
}

#[test]
fn join_empty_sides() {
    let empty: Vec<Col> = vec![vec![], vec![], vec![]];
    let right = table(&[1, 2], &[3, 4], &[5, 6]);
    assert!(join(JoinType::Inner, &empty, &right, &[1], &[1]).is_empty());
    assert_eq!(join(JoinType::Right, &empty, &right, &[1], &[1]).len(), 2);
    assert!(join(JoinType::Left, &empty, &right, &[1], &[1]).is_empty());
    assert_eq!(join(JoinType::Full, &right, &empty, &[1], &[1]).len(), 2);
}

#[test]
fn join_construction_errors() {
    assert_eq!(check_join(JoinType::LeftSemi, true, 1, 1), Err(JoinPlanError::SemiAntiWithFilter));
    assert_eq!(check_join(JoinType::RightAnti, true, 1, 1), Err(JoinPlanError::SemiAntiWithFilter));
    assert_eq!(
        check_join(JoinType::Inner, true, 2, 1),
        Err(JoinPlanError::SortOptionsMismatch { expected: 2, actual: 1 })
    );
    assert_eq!(check_join(JoinType::Left, true, 2, 2), Ok(()));
}

#[test]
fn residual_filter_by_chunks() {
    let pairs: Vec<JoinPair> = vec![(Some(0), Some(0)), (Some(1), None), (Some(2), Some(1)), (None, Some(3))];
    let mask = vec![Some(true), None, Some(false), Some(true)];
    let whole = filter_pairs(&pairs, &mask);
    assert_eq!(whole, vec![(Some(0), Some(0)), (None, Some(3))]);
    let mut chunked = filter_pairs(&pairs[..2].to_vec(), &mask[..2].to_vec());
    chunked.extend(filter_pairs(&pairs[2..].to_vec(), &mask[2..].to_vec()));
    assert_eq!(chunked, whole);
}

#[test]
fn joiner_hands_out_full_chunks() {
    assert_eq!(join_sub_batch_size(10000), 2500);
    assert_eq!(join_sub_batch_size(10), 10);
    assert_eq!(join_sub_batch_size(999), 499);
    let mut joiner = Joiner::new(2);
    assert!(joiner.is_empty());
    assert_eq!(joiner.accept_pair((Some(0), None)), None);
    assert_eq!(joiner.accept_pair((Some(1), Some(1))), Some(vec![(Some(0), None), (Some(1), Some(1))]));
    assert!(joiner.is_empty());
    assert_eq!(joiner.accept_pair((None, Some(2))), None);
    assert_eq!(joiner.flush(), vec![(None, Some(2))]);
}

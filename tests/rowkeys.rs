use datafusion_ext_plans::join::JoinType;
use datafusion_ext_plans::rowkeys::{join_columns, sort_columns, KeyEncoder};

#[test]
fn encoder_orders_rows_like_sql() {
    let enc = KeyEncoder::try_new(vec![(false, true), (true, false)]).unwrap();
    let cols = vec![vec![Some(1), Some(1), None, Some(-5)], vec![Some(7), None, Some(3), Some(2)]];
    let e = enc.encode(&cols).unwrap();
    assert_eq!(e.keys.len(), 4);
    assert!(e.keys.iter().all(|k| k.len() == 18));
    assert_eq!(e.has_null, vec![false, true, true, false]);
    // nulls first on the first column; then -5, then 1 twice, the second
    // column descending with nulls last
    let mut order: Vec<usize> = (0..4).collect();
    order.sort_by(|&a, &b| e.keys[a].cmp(&e.keys[b]));
    assert_eq!(order, vec![2, 3, 0, 1]);
}

#[test]
fn join_columns_inner_and_left() {
    let enc = KeyEncoder::try_new(vec![(false, true)]).unwrap();
    let left = vec![vec![Some(4), Some(5), Some(5), Some(7)]];
    let right = vec![vec![Some(4), Some(5), Some(6)]];
    let mut inner = join_columns(JoinType::Inner, &enc, &left, &right).unwrap();
    inner.sort();
    assert_eq!(inner, vec![(Some(0), Some(0)), (Some(1), Some(1)), (Some(2), Some(1))]);
    let outer = join_columns(JoinType::Left, &enc, &left, &right).unwrap();
    assert_eq!(outer, vec![(Some(0), Some(0)), (Some(1), Some(1)), (Some(2), Some(1)), (Some(3), None)]);
}

#[test]
fn join_columns_null_keys_never_match() {
    let enc = KeyEncoder::try_new(vec![(false, true), (false, true)]).unwrap();
    let left = vec![vec![Some(1), Some(1), Some(2), Some(2)], vec![None, Some(1), Some(2), Some(2)]];
    let right = vec![vec![Some(1), Some(1), Some(2), Some(3)], vec![None, Some(1), Some(2), Some(2)]];
    let mut inner = join_columns(JoinType::Inner, &enc, &left, &right).unwrap();
    inner.sort();
    assert_eq!(inner, vec![(Some(1), Some(1)), (Some(2), Some(2)), (Some(3), Some(2))]);
    let mut full = join_columns(JoinType::Full, &enc, &left, &right).unwrap();
    full.sort();
    assert!(full.contains(&(Some(0), None)));
    assert!(full.contains(&(None, Some(0))));
    assert!(full.contains(&(None, Some(3))));
    assert_eq!(full.len(), 6);
}

#[test]
fn sort_columns_top_k() {
    let enc = KeyEncoder::try_new(vec![(false, true)]).unwrap();
    let a: Vec<Option<i64>> = vec![9, 8, 7, 6, 5, 4, 3, 2, 1, 0].into_iter().map(Some).collect();
    let batches = vec![vec![a[..4].to_vec()], vec![a[4..].to_vec()]];
    let rows = sort_columns(&enc, &batches, 6, 2, 1).unwrap();
    let values: Vec<Option<i64>> = rows.iter().map(|&(b, r)| batches[b][0][r]).collect();
    assert_eq!(values, (0..6).map(Some).collect::<Vec<_>>());
}

#[test]
fn sort_columns_descending_nulls_last() {
    let enc = KeyEncoder::try_new(vec![(true, false)]).unwrap();
    let batches = vec![vec![vec![Some(3), None, Some(10)]], vec![vec![Some(-1), None]]];
    let rows = sort_columns(&enc, &batches, usize::MAX, 100, 100).unwrap();
    let values: Vec<Option<i64>> = rows.iter().map(|&(b, r)| batches[b][0][r]).collect();
    assert_eq!(values, vec![Some(10), Some(3), Some(-1), None, None]);
}

#[test]
fn sort_scenario_through_encoder() {
    let enc = KeyEncoder::try_new(vec![(false, true)]).unwrap();
    let a: Vec<Option<i64>> = [9, 8, 7, 6, 5, 4, 3, 2, 1, 0].into_iter().map(Some).collect();
    let b = [0, 1, 2, 3, 4, 5, 6, 7, 8, 9];
    let c = [5, 6, 7, 8, 9, 0, 1, 2, 3, 4];
    let rows = sort_columns(&enc, &vec![vec![a.clone()]], 6, 100, 100).unwrap();
    let got: Vec<(i64, i64, i64)> = rows.iter().map(|&(_, r)| (a[r].unwrap(), b[r], c[r])).collect();
    assert_eq!(got, vec![(0, 9, 4), (1, 8, 3), (2, 7, 2), (3, 6, 1), (4, 5, 0), (5, 4, 9)]);
}

#[test]
fn join_scenario_through_encoder() {
    let enc = KeyEncoder::try_new(vec![(false, true)]).unwrap();
    let (a1, b1, c1) = ([1, 2, 3], [4, 5, 5], [7, 8, 9]);
    let (a2, b2, c2) = ([10, 20, 30], [4, 5, 6], [70, 80, 90]);
    let left: Vec<Vec<Option<i64>>> = vec![b1.iter().map(|&x| Some(x)).collect()];
    let right: Vec<Vec<Option<i64>>> = vec![b2.iter().map(|&x| Some(x)).collect()];
    let pairs = join_columns(JoinType::Inner, &enc, &left, &right).unwrap();
    let mut rows: Vec<[i64; 6]> = pairs
        .iter()
        .map(|&(l, r)| {
            let (l, r) = (l.unwrap(), r.unwrap());
            [a1[l], b1[l], c1[l], a2[r], b2[r], c2[r]]
        })
        .collect();
    rows.sort();
    assert_eq!(rows, vec![[1, 4, 7, 10, 4, 70], [2, 5, 8, 20, 5, 80], [3, 5, 9, 20, 5, 80]]);
}

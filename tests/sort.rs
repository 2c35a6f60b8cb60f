use datafusion_ext_plans::keys::decode_keys;
use datafusion_ext_plans::sort::{merge_runs, sort_batches, SortedRun};
use datafusion_ext_plans::sorter::{external_sort, ExternalSorter};

/// An order-preserving encoding of one nullable integer field, nulls first.
fn encode_field(v: Option<i64>, out: &mut Vec<u8>) {
    match v {
        None => out.extend([0u8; 9]),
        Some(x) => {
            out.push(1);
            out.extend(((x as u64) ^ 0x8000_0000_0000_0000).to_be_bytes());
        }
    }
}

fn key(vals: &[Option<i64>]) -> Vec<u8> {
    let mut k = vec![];
    for &v in vals {
        encode_field(v, &mut k);
    }
    k
}

/// Sorts a three-column table by column `a` with the given limit and
/// returns the rows in output order.
fn sort_table(a: &[i64], b: &[i64], c: &[i64], limit: usize, staging_rows: usize, spill_runs: usize) -> Vec<(i64, i64, i64)> {
    let keys: Vec<Vec<u8>> = a.iter().map(|&x| key(&[Some(x)])).collect();
    let batches = vec![keys];
    let run = external_sort(&batches, limit, staging_rows, spill_runs);
    run.rows.iter().map(|&(bi, ri)| {
        assert_eq!(bi, 0);
        (a[ri], b[ri], c[ri])
    }).collect()
}

#[test]
fn test_sort_i32() {
    let a = [9, 8, 7, 6, 5, 4, 3, 2, 1, 0];
    let b = [0, 1, 2, 3, 4, 5, 6, 7, 8, 9];
    let c = [5, 6, 7, 8, 9, 0, 1, 2, 3, 4];
    let got = sort_table(&a, &b, &c, 6, 100, 100);
    assert_eq!(got, vec![(0, 9, 4), (1, 8, 3), (2, 7, 2), (3, 6, 1), (4, 5, 0), (5, 4, 9)]);
}

struct Lcg(u64);

impl Lcg {
    fn next(&mut self) -> u64 {
        self.0 = self.0.wrapping_mul(6364136223846793005).wrapping_add(1442695040888963407);
        self.0 >> 33
    }

    fn nullable(&mut self) -> Option<i64> {
        let x = self.next();
        if x % 2 == 0 { None } else { Some((x % 1000) as i64) }
    }
}

#[test]
fn fuzztest() {
    let n = 1234567usize;
    let batch_size = 10000usize;
    let mut rng = Lcg(42);
    let mut batches: Vec<Vec<Vec<u8>>> = vec![];
    let mut rows: Vec<(Option<i64>, Option<i64>, Option<i64>, Option<i64>)> = vec![];
    let mut num_rows = 0;
    while num_rows < n {
        let len = (n - num_rows).min(batch_size);
        let mut batch = vec![];
        for _ in 0..len {
            let r = (rng.nullable(), rng.nullable(), rng.nullable(), rng.nullable());
            batch.push(key(&[r.0, r.1]));
            rows.push(r);
        }
        num_rows += len;
        batches.push(batch);
    }
    // a budget that forces many spills, and level compaction of spills
    let spilled = external_sort(&batches, usize::MAX, batch_size, 1);
    // a budget that keeps everything in memory
    let in_memory = external_sort(&batches, usize::MAX, usize::MAX, usize::MAX);
    assert_eq!(spilled.rows.len(), n);
    assert_eq!(in_memory.rows.len(), n);

    let key_of = |&(bi, ri): &(usize, usize)| batches[bi][ri].clone();
    let spilled_keys: Vec<Vec<u8>> = spilled.rows.iter().map(key_of).collect();
    let in_memory_keys: Vec<Vec<u8>> = in_memory.rows.iter().map(key_of).collect();
    assert!(spilled_keys == in_memory_keys);

    // an independently computed reference sort of the same input
    let mut reference: Vec<(Option<i64>, Option<i64>)> = rows.iter().map(|r| (r.0, r.1)).collect();
    reference.sort();
    let flat = |&(bi, ri): &(usize, usize)| rows[bi * batch_size + ri];
    let sorted: Vec<(Option<i64>, Option<i64>)> = spilled.rows.iter().map(|id| {
        let r = flat(id);
        (r.0, r.1)
    }).collect();
    assert!(sorted == reference);
    // every row comes out exactly once
    let mut seen = spilled.rows.clone();
    seen.sort();
    seen.dedup();
    assert_eq!(seen.len(), n);
}

#[test]
fn sort_top_k_with_spills_matches_in_memory() {
    let mut rng = Lcg(7);
    let batches: Vec<Vec<Vec<u8>>> = (0..40)
        .map(|_| (0..25).map(|_| key(&[rng.nullable()])).collect())
        .collect();
    for limit in [0usize, 1, 7, 100, 999, 1000, 5000] {
        let a = external_sort(&batches, limit, 30, 2);
        let b = external_sort(&batches, limit, usize::MAX, usize::MAX);
        assert_eq!(a.rows.len(), limit.min(1000));
        let ka: Vec<&Vec<u8>> = a.rows.iter().map(|&(x, y)| &batches[x][y]).collect();
        let kb: Vec<&Vec<u8>> = b.rows.iter().map(|&(x, y)| &batches[x][y]).collect();
        assert!(ka == kb);
        assert!(ka.windows(2).all(|w| w[0] <= w[1]));
        // the key store decodes to the keys of the rows
        let decoded = decode_keys(&a.key_store, a.rows.len()).unwrap();
        let owned: Vec<Vec<u8>> = ka.into_iter().cloned().collect();
        assert_eq!(decoded, owned);
    }
}

#[test]
fn sort_empty_and_all_equal() {
    let none: Vec<Vec<Vec<u8>>> = vec![];
    let r = external_sort(&none, 10, 1, 1);
    assert!(r.rows.is_empty());
    assert!(r.key_store.is_empty());
    let empties: Vec<Vec<Vec<u8>>> = vec![vec![], vec![]];
    assert!(external_sort(&empties, 10, 1, 1).rows.is_empty());
    let same: Vec<Vec<Vec<u8>>> = vec![vec![key(&[Some(5)]); 4], vec![key(&[Some(5)]); 3]];
    let r = external_sort(&same, 100, 2, 1);
    let mut rows = r.rows.clone();
    rows.sort();
    assert_eq!(rows, vec![(0, 0), (0, 1), (0, 2), (0, 3), (1, 0), (1, 1), (1, 2)]);
    // every key after the first repeats the one before it
    let k = key(&[Some(5)]);
    let mut expected_store = vec![k.len() as u8 + 1, 0];
    expected_store.extend(&k);
    expected_store.extend([0u8; 6]);
    assert_eq!(r.key_store, expected_store);
}

#[test]
fn sort_batches_then_merge() {
    let batches: Vec<Vec<Vec<u8>>> = vec![
        vec![key(&[Some(3)]), key(&[Some(1)]), key(&[None])],
        vec![key(&[Some(2)]), key(&[Some(0)])],
    ];
    let r0 = sort_batches(&batches, 0, 1, 10);
    assert_eq!(r0.rows, vec![(0, 2), (0, 1), (0, 0)]);
    let r1 = sort_batches(&batches, 1, 2, 10);
    assert_eq!(r1.rows, vec![(1, 1), (1, 0)]);
    let runs: Vec<SortedRun> = vec![r0, r1];
    let merged = merge_runs(&batches, &runs, 3);
    assert_eq!(merged.rows, vec![(0, 2), (1, 1), (0, 1)]);
    assert_eq!((merged.lo, merged.hi), (0, 2));
}

#[test]
fn sorter_spills_on_request() {
    let mut rng = Lcg(99);
    let mut batches: Vec<Vec<Vec<u8>>> = vec![];
    let mut sorter = ExternalSorter::new(50, 20);
    for i in 0..30 {
        batches.push((0..7).map(|_| key(&[rng.nullable(), rng.nullable()])).collect());
        sorter.insert_batch(&batches);
        if i % 4 == 3 {
            sorter.spill(&batches);
            assert_eq!(sorter.num_runs_in_memory(), 0);
        }
    }
    let out = sorter.output(&batches);
    let reference = external_sort(&batches, 50, usize::MAX, usize::MAX);
    assert_eq!(out.rows.len(), 50);
    let ka: Vec<&Vec<u8>> = out.rows.iter().map(|&(x, y)| &batches[x][y]).collect();
    let kb: Vec<&Vec<u8>> = reference.rows.iter().map(|&(x, y)| &batches[x][y]).collect();
    assert!(ka == kb);
    // the 50 smallest keys of all 210 rows
    let mut all: Vec<&Vec<u8>> = batches.iter().flatten().collect();
    all.sort();
    assert!(ka == all[..50].to_vec());
}

#[test]
fn sorter_stages_until_enough_rows() {
    let batches: Vec<Vec<Vec<u8>>> = vec![vec![key(&[Some(1)]); 3], vec![key(&[Some(2)]); 3], vec![key(&[Some(0)]); 5]];
    let mut sorter = ExternalSorter::new(usize::MAX, 6);
    sorter.insert_batch(&batches);
    assert_eq!(sorter.num_runs_in_memory(), 0);
    sorter.insert_batch(&batches);
    assert_eq!(sorter.num_runs_in_memory(), 1);
    sorter.insert_batch(&batches);
    assert_eq!(sorter.num_runs_in_memory(), 1);
    let out = sorter.output(&batches);
    assert_eq!(out.rows.len(), 11);
    assert_eq!(&out.rows[..5], &[(2, 0), (2, 1), (2, 2), (2, 3), (2, 4)]);
}

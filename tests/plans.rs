use datafusion_ext_plans::join::JoinType;
use datafusion_ext_plans::keys::{common_prefix_len, decode_keys, encode_sorted_keys, key_lt, read_len, write_len, SortedKeysReader, SortedKeysWriter};
use datafusion_ext_plans::loser_tree::LoserTree;
use datafusion_ext_plans::projection::{project_join, ProjectionError};
use datafusion_ext_plans::pruning::{plan_sort_key_pruning, prune_row, restore_row, ColMapper};

#[test]
fn lengths_round_trip() {
    for v in [0usize, 1, 127, 128, 300, 16383, 16384, usize::MAX] {
        let mut buf = vec![9u8];
        write_len(v, &mut buf);
        assert_eq!(read_len(&buf, 1), Some((v, buf.len())));
    }
    let mut buf = vec![];
    write_len(300, &mut buf);
    assert_eq!(buf, vec![0xAC, 0x02]);
    assert_eq!(read_len(&[0x80], 0), None);
    assert_eq!(read_len(&[0x80, 0x00], 0), None);
}

#[test]
fn key_store_round_trip() {
    assert_eq!(common_prefix_len(b"abcd", b"abxy"), 2);
    assert_eq!(common_prefix_len(b"ab", b"abc"), 2);
    assert!(key_lt(b"ab", b"abc"));
    assert!(!key_lt(b"b", b"abc"));
    let keys: Vec<Vec<u8>> = vec![b"apple".to_vec(), b"apply".to_vec(), b"apply".to_vec(), b"b".to_vec(), b"".to_vec(), b"ba".to_vec()];
    let store = encode_sorted_keys(&keys);
    assert_eq!(decode_keys(&store, keys.len()), Some(keys.clone()));
    // tokens: "apple" whole, "apply" shares four bytes, a repeat, "b" shares none
    assert_eq!(&store[..7], &[6, 0, b'a', b'p', b'p', b'l', b'e']);
    assert_eq!(&store[7..10], &[2, 4, b'y']);
    assert_eq!(store[10], 0);
    let mut w = SortedKeysWriter::new();
    let mut out = vec![];
    w.write_key(b"ab", &mut out);
    w.write_key(b"a", &mut out);
    assert_eq!(out, vec![3, 0, b'a', b'b', 1, 1]);
    let mut r = SortedKeysReader::new();
    assert_eq!(r.read_key(&out, 0), Some(4));
    assert_eq!(r.cur_key(), b"ab");
    assert_eq!(r.read_key(&out, 4), Some(6));
    assert_eq!(r.cur_key(), b"a");
}

#[test]
fn loser_tree_yields_smallest() {
    let keys = vec![Some(b"m".to_vec()), None, Some(b"c".to_vec()), Some(b"x".to_vec()), Some(b"c".to_vec())];
    let mut tree = LoserTree::new(keys);
    assert_eq!(tree.len(), 5);
    let mut order = vec![];
    for _ in 0..4 {
        let w = tree.peek();
        order.push(w);
        tree.replace_winner_key(None);
    }
    assert_eq!(order[2..], [0, 3]);
    let mut first_two = order[..2].to_vec();
    first_two.sort();
    assert_eq!(first_two, vec![2, 4]);
    let w = tree.peek();
    assert_eq!(tree.key(w), &None);
}

#[test]
fn join_projection_keeps_asked_columns() {
    // left has 3 columns, right has 3; ask for left 2 and right 1 (output 4)
    let p = project_join(JoinType::Inner, 3, 3, &vec![1], &vec![0], &vec![(true, 0), (false, 2)], &vec![2, 4]).unwrap();
    assert_eq!(p.left_projection[..p.num_left_output], [2]);
    assert_eq!(p.right_projection[..p.num_right_output], [1]);
    assert_eq!(p.left_projection[p.on_left[0]], 1);
    assert_eq!(p.right_projection[p.on_right[0]], 0);
    assert_eq!(p.left_projection, vec![2, 1, 0]);
    assert_eq!(p.right_projection, vec![1, 0, 2]);
    assert_eq!(p.filter_columns, vec![(true, 2), (false, 2)]);
    let semi = project_join(JoinType::LeftSemi, 3, 3, &vec![0], &vec![0], &vec![], &vec![2, 0]).unwrap();
    assert_eq!(semi.left_projection, vec![2, 0]);
    assert_eq!(semi.on_left, vec![1]);
    assert_eq!(semi.num_right_output, 0);
}

#[test]
fn sort_key_pruning_round_trip() {
    // rows of 4 columns sorted by column 2, then by an expression, then by column 0
    let key_columns = vec![Some(2), None, Some(0)];
    let plan = plan_sort_key_pruning(4, &key_columns);
    assert_eq!(plan.pruned_columns, vec![1, 3]);
    assert_eq!(
        plan.restored,
        vec![ColMapper::FromKey(2), ColMapper::FromPrunedBatch(0), ColMapper::FromKey(0), ColMapper::FromPrunedBatch(1)]
    );
    assert!(!plan.is_all_pruned());
    let row = vec![10, 11, 12, 13];
    let pruned = prune_row(&plan, &row);
    assert_eq!(pruned, vec![11, 13]);
    let key_values = vec![12, 99, 10];
    assert_eq!(restore_row(&plan, 4, &key_columns, &pruned, &key_values), row);
    let all = plan_sort_key_pruning(2, &vec![Some(1), Some(0), Some(1)]);
    assert!(all.is_all_pruned());
    assert_eq!(all.restored, vec![ColMapper::FromKey(1), ColMapper::FromKey(0)]);
}

#[test]
fn pruned_join_outputs_the_asked_columns() {
    // left has 3 columns, right 3; columns 0, 2 of the left and 1, 2 of the right
    let projection = vec![0, 2, 4, 5];
    let p = project_join(JoinType::Full, 3, 3, &vec![2], &vec![1], &vec![], &projection).unwrap();
    let sources: Vec<(bool, usize)> = (0..projection.len())
        .map(|c| {
            let o = p.output_order[c];
            if o < p.num_left_output {
                (true, p.left_projection[o])
            } else {
                (false, p.right_projection[o - p.num_left_output])
            }
        })
        .collect();
    assert_eq!(sources, vec![(true, 0), (true, 2), (false, 1), (false, 2)]);
    assert_eq!(p.left_projection[p.on_left[0]], 2);
    assert_eq!(p.right_projection[p.on_right[0]], 1);
    assert_eq!(p.left_projection.len(), 2);
    assert_eq!(p.right_projection.len(), 2);
}

#[test]
fn pruned_join_any_column_order() {
    // a right column asked before a left one
    let projection = vec![4, 0, 5, 1];
    let p = project_join(JoinType::Inner, 3, 3, &vec![0], &vec![0], &vec![], &projection).unwrap();
    assert_eq!(&p.left_projection[..p.num_left_output], &[0, 1]);
    assert_eq!(&p.right_projection[..p.num_right_output], &[1, 2]);
    assert_eq!(p.output_order, vec![2, 0, 3, 1]);
    assert_eq!(
        project_join(JoinType::Inner, 3, 3, &vec![0], &vec![0], &vec![], &vec![1, 6]).err(),
        Some(ProjectionError::IndexOutOfRange { index: 6, num_fields: 6 })
    );
    assert!(project_join(JoinType::RightAnti, 3, 2, &vec![0], &vec![0], &vec![], &vec![2]).is_err());
}

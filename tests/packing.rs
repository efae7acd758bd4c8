use ltp::interface::LTPError;
use ltp::packing::pack_batch;

#[test]
fn rows_are_packed_with_positions_and_lengths() {
    let ids = vec![vec![101, 7, 8, 102], vec![101, 9, 102, 0]];
    let types = vec![vec![0, 0, 0, 0], vec![0, 0, 0, 0]];
    let masks = vec![vec![1, 1, 1, 1], vec![1, 1, 1, 0]];
    let p = pack_batch(&ids, &types, &masks).unwrap();
    assert_eq!(p.input_ids.shape, vec![2, 4]);
    assert_eq!(p.input_ids.data, vec![101, 7, 8, 102, 101, 9, 102, 0]);
    assert_eq!(p.attention_mask.data, vec![1, 1, 1, 1, 1, 1, 1, 0]);
    assert_eq!(p.position_ids.data, vec![0, 1, 2, 3, 0, 1, 2, 3]);
    assert_eq!(p.token_type_ids.data, vec![0; 8]);
    assert_eq!(p.lengths, vec![2, 1]);
}

#[test]
fn ragged_rows_are_a_shape_error() {
    let ids = vec![vec![101, 7, 102], vec![101, 102]];
    let types = vec![vec![0, 0, 0], vec![0, 0]];
    let masks = vec![vec![1, 1, 1], vec![1, 1]];
    assert!(matches!(pack_batch(&ids, &types, &masks), Err(LTPError::ShapeError(_))));
}

#[test]
fn mask_without_markers_is_a_shape_error() {
    let ids = vec![vec![5]];
    let types = vec![vec![0]];
    let masks = vec![vec![1]];
    assert!(matches!(pack_batch(&ids, &types, &masks), Err(LTPError::ShapeError(_))));
}

#[test]
fn empty_batch_packs_to_empty_tensors() {
    let p = pack_batch(&vec![], &vec![], &vec![]).unwrap();
    assert_eq!(p.input_ids.shape, vec![0, 0]);
    assert!(p.lengths.is_empty());
}

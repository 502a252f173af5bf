use incremental_rs::streaming::{
    check_columns, rows_from_columns, ColumnRead, StreamingBatcher, StreamingConfig,
    StreamingShuffleBuffer,
};
use incremental_rs::IncrementalError;

fn key(row: &Vec<f64>, y: f64) -> (Vec<u64>, u64) {
    (row.iter().map(|v| v.to_bits()).collect(), y.to_bits())
}

#[test]
fn default_config() {
    let c = StreamingConfig::default();
    assert_eq!(c.batch_size, 256);
    assert_eq!(c.shuffle_buffer_capacity, 2048);
}

#[test]
fn rows_from_columns_transposes() {
    // Two features over three rows, read column by column.
    let values = vec![1.0, 2.0, 3.0, 10.0, 20.0, 30.0];
    let rows = rows_from_columns(&values, 3, 2);
    assert_eq!(rows, vec![vec![1.0, 10.0], vec![2.0, 20.0], vec![3.0, 30.0]]);
}

#[test]
fn shuffle_buffer_pops_without_loss() {
    let mut b: StreamingShuffleBuffer<f64> = StreamingShuffleBuffer::new(4);
    assert!(b.pop_batch(2).is_none());
    assert_eq!(b.first_row_width(), None);
    let xs: Vec<Vec<f64>> = (0..5).map(|i| vec![i as f64, -(i as f64)]).collect();
    let ys: Vec<f64> = (0..5).map(|i| i as f64 * 10.0).collect();
    b.push_batch(&xs, &ys);
    assert_eq!(b.len(), 5);
    assert!(b.is_full());
    assert_eq!(b.first_row_width(), Some(2));
    let (bx, by) = b.pop_batch(2).unwrap();
    assert_eq!(bx.len(), 2);
    assert_eq!(by.len(), 2);
    assert_eq!(b.len(), 3);
    assert!(!b.is_full());
    let (cx, cy) = b.pop_batch(10).unwrap();
    assert_eq!(cx.len(), 3);
    assert_eq!(b.len(), 0);
    assert!(b.pop_batch(1).is_none());
    let mut got: Vec<(Vec<u64>, u64)> = bx.iter().zip(by.iter()).map(|(r, y)| key(r, *y)).collect();
    got.extend(cx.iter().zip(cy.iter()).map(|(r, y)| key(r, *y)));
    got.sort();
    let mut want: Vec<(Vec<u64>, u64)> = xs.iter().zip(ys.iter()).map(|(r, y)| key(r, *y)).collect();
    want.sort();
    assert_eq!(got, want);
}

#[test]
fn push_batch_pairs_up_to_shorter_side() {
    let mut b: StreamingShuffleBuffer<f64> = StreamingShuffleBuffer::new(10);
    b.push_batch(&vec![vec![1.0], vec![2.0], vec![3.0]], &vec![7.0]);
    assert_eq!(b.len(), 1);
    let (bx, by) = b.pop_batch(5).unwrap();
    assert_eq!(bx, vec![vec![1.0]]);
    assert_eq!(by, vec![7.0]);
}

#[test]
fn shuffle_buffer_draws_at_random() {
    // Drawing one sample out of forty, repeatedly, does not always give the
    // first one pushed.
    let mut saw_other = false;
    for _ in 0..40 {
        let mut b: StreamingShuffleBuffer<f64> = StreamingShuffleBuffer::new(100);
        let xs: Vec<Vec<f64>> = (0..40).map(|i| vec![i as f64]).collect();
        let ys: Vec<f64> = (0..40).map(|i| i as f64).collect();
        b.push_batch(&xs, &ys);
        let (_, by) = b.pop_batch(1).unwrap();
        if by[0] != 0.0 {
            saw_other = true;
        }
    }
    assert!(saw_other);
}

#[test]
fn batcher_hands_out_every_sample_once() {
    let xs: Vec<Vec<f64>> = vec![
        vec![1.0, 2.0],
        vec![2.0, 1.0],
        vec![3.0, 4.0],
        vec![4.0, 2.0],
        vec![5.0, 1.0],
        vec![6.0, 3.0],
    ];
    let ys = vec![-3.5, 1.5, -5.5, 4.5, 5.5, 3.5];
    let config = StreamingConfig { batch_size: 2, shuffle_buffer_capacity: 4 };
    let mut batcher = StreamingBatcher::new(xs.clone(), ys.clone(), config);
    let mut got: Vec<(Vec<u64>, u64)> = Vec::new();
    let mut sizes = Vec::new();
    while let Some((bx, by)) = batcher.next_batch() {
        assert_eq!(bx.len(), by.len());
        got.extend(bx.iter().zip(by.iter()).map(|(r, y)| key(r, *y)));
        sizes.push(bx.len());
    }
    let n_batches = sizes.len();
    assert_eq!(sizes, vec![2, 2, 2]);
    // Full at the 4th push (two drawn, two left), full again at the 6th
    // (two drawn, two left), then one batch drains the last two.
    assert_eq!(n_batches, 3);
    got.sort();
    let mut want: Vec<(Vec<u64>, u64)> = xs.iter().zip(ys.iter()).map(|(r, y)| key(r, *y)).collect();
    want.sort();
    assert_eq!(got, want);
}

#[test]
fn batcher_with_empty_dataset() {
    let mut batcher: StreamingBatcher<f64> =
        StreamingBatcher::new(Vec::new(), Vec::new(), StreamingConfig::default());
    assert!(batcher.next_batch().is_none());
}

#[test]
fn batcher_drains_leftovers_in_batches() {
    // Capacity larger than the dataset: nothing is drawn while pushing, then
    // the five samples are drained in batches of two.
    let xs: Vec<Vec<f64>> = (0..5).map(|i| vec![i as f64]).collect();
    let ys: Vec<f64> = (0..5).map(|i| i as f64).collect();
    let config = StreamingConfig { batch_size: 2, shuffle_buffer_capacity: 100 };
    let mut batcher = StreamingBatcher::new(xs, ys, config);
    let mut sizes = Vec::new();
    while let Some((bx, _)) = batcher.next_batch() {
        sizes.push(bx.len());
    }
    assert_eq!(sizes, vec![2, 2, 1]);
}

#[test]
fn batcher_with_zero_capacity_draws_after_every_push() {
    let xs: Vec<Vec<f64>> = (0..3).map(|i| vec![i as f64]).collect();
    let ys: Vec<f64> = (0..3).map(|i| i as f64).collect();
    let config = StreamingConfig { batch_size: 8, shuffle_buffer_capacity: 0 };
    let mut batcher = StreamingBatcher::new(xs, ys, config);
    let mut sizes = Vec::new();
    while let Some((bx, _)) = batcher.next_batch() {
        sizes.push(bx.len());
    }
    assert_eq!(sizes, vec![1, 1, 1]);
}

fn five_samples() -> StreamingShuffleBuffer<f64> {
    let mut b: StreamingShuffleBuffer<f64> = StreamingShuffleBuffer::new(8);
    let xs: Vec<Vec<f64>> = (0..5).map(|i| vec![i as f64]).collect();
    let ys: Vec<f64> = (0..5).map(|i| i as f64 * 10.0).collect();
    b.push_batch(&xs, &ys);
    b
}

#[test]
fn take_positions_follows_the_order() {
    let mut b = five_samples();
    let (xs, ys) = b.take_positions(&vec![3, 0, 4, 1, 2], 2);
    assert_eq!(xs, vec![vec![3.0], vec![0.0]]);
    assert_eq!(ys, vec![30.0, 0.0]);
    // Position 3 is filled with sample 4, then position 0 with sample 4 again
    // after it moved: the buffer now holds samples 4, 1, 2 in that order.
    assert_eq!(b.len(), 3);
    let (rest_x, rest_y) = b.take_positions(&vec![0, 1, 2], 3);
    assert_eq!(rest_x, vec![vec![4.0], vec![1.0], vec![2.0]]);
    assert_eq!(rest_y, vec![40.0, 10.0, 20.0]);
    assert_eq!(b.len(), 0);
}

#[test]
fn take_positions_takes_everything_when_batch_is_larger() {
    let mut b = five_samples();
    let (xs, ys) = b.take_positions(&vec![4, 2, 0, 1, 3], 9);
    assert_eq!(xs, vec![vec![4.0], vec![2.0], vec![0.0], vec![1.0], vec![3.0]]);
    assert_eq!(ys, vec![40.0, 20.0, 0.0, 10.0, 30.0]);
    assert_eq!(b.len(), 0);
}

#[test]
fn take_positions_with_zero_batch_keeps_the_buffer() {
    let mut b = five_samples();
    let (xs, ys) = b.take_positions(&vec![1, 0, 2, 3, 4], 0);
    assert!(xs.is_empty());
    assert!(ys.is_empty());
    assert_eq!(b.len(), 5);
    let (all_x, _) = b.take_positions(&vec![0, 1, 2, 3, 4], 5);
    assert_eq!(all_x, vec![vec![0.0], vec![1.0], vec![2.0], vec![3.0], vec![4.0]]);
}

#[test]
fn check_columns_accepts_complete_reads() {
    assert_eq!(check_columns(&vec![]), Ok(()));
    assert_eq!(check_columns(&vec![ColumnRead::Complete, ColumnRead::Complete]), Ok(()));
}

#[test]
fn check_columns_reports_the_first_failure() {
    assert_eq!(
        check_columns(&vec![ColumnRead::Complete, ColumnRead::HasMissingValue, ColumnRead::Missing]),
        Err(IncrementalError::NonFiniteInput)
    );
    assert_eq!(
        check_columns(&vec![ColumnRead::NotNumeric, ColumnRead::HasMissingValue]),
        Err(IncrementalError::EmptyBatch)
    );
    assert_eq!(
        check_columns(&vec![ColumnRead::Complete, ColumnRead::Missing]),
        Err(IncrementalError::EmptyBatch)
    );
}

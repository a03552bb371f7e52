use mnist::train::Phase;
use mnist::train::TrainingConfig;
use mnist::train::TrainingSession;
use mnist::train::column_from_pixels;
use mnist::train::one_hot;

fn config() -> TrainingConfig {
    TrainingConfig { epochs: 2, batch_size: 2, train_samples: 5, test_samples: 2 }
}

#[test]
fn session_starts_idle_and_zeroed() {
    let s = TrainingSession::new(config());
    assert_eq!(s.phase, Phase::Idle);
    assert_eq!(s.epoch, 0);
    assert_eq!(s.cursor, 0);
    assert_eq!(s.correct, 0);
    assert!(s.epoch_correct.is_empty());
    assert_eq!(s.test_predictions, vec![0, 0]);
}

#[test]
fn start_moves_to_training() {
    let mut s = TrainingSession::new(config());
    s.start();
    assert_eq!(s.phase, Phase::Training);
    assert_eq!(s.cursor, 0);
}

#[test]
fn full_run_counts_and_records() {
    // batch_size 2 on 5 training samples: 2 whole batches, 4 samples per
    // epoch; the fifth sample is never touched.
    let mut s = TrainingSession::new(config());
    s.start();

    // First epoch: three of four predictions match.
    for (predicted, label) in [(1, 1), (2, 3), (4, 4), (5, 5)] {
        s.record_prediction(predicted, label);
    }
    assert_eq!(s.phase, Phase::Training);
    assert_eq!(s.epoch, 1);
    assert_eq!(s.cursor, 0);
    assert_eq!(s.correct, 3);
    assert_eq!(s.epoch_correct, vec![3]);

    // Second epoch: three more matches; the running count is not reset at
    // the epoch boundary, only at the phase change.
    for (predicted, label) in [(0, 0), (1, 2), (2, 2), (3, 3)] {
        s.record_prediction(predicted, label);
    }
    assert_eq!(s.phase, Phase::Testing);
    assert_eq!(s.epoch, 2);
    assert_eq!(s.cursor, 0);
    assert_eq!(s.correct, 0);
    assert_eq!(s.epoch_correct, vec![3, 6]);

    // Evaluation: predictions are recorded sample by sample.
    s.record_prediction(7, 7);
    assert_eq!(s.phase, Phase::Testing);
    s.record_prediction(8, 9);
    assert_eq!(s.phase, Phase::Done);
    assert_eq!(s.correct, 1);
    assert_eq!(s.cursor, 2);
    assert_eq!(s.test_predictions, vec![7, 8]);
    assert_eq!(s.epoch_correct_total(), 9);
}

#[test]
fn single_epoch_single_sample_run() {
    let cfg = TrainingConfig { epochs: 1, batch_size: 1, train_samples: 1, test_samples: 1 };
    let mut s = TrainingSession::new(cfg);
    s.start();
    s.record_prediction(4, 4);
    assert_eq!(s.phase, Phase::Testing);
    assert_eq!(s.epoch_correct, vec![1]);
    s.record_prediction(0, 4);
    assert_eq!(s.phase, Phase::Done);
    assert_eq!(s.correct, 0);
    assert_eq!(s.test_predictions, vec![0]);
}

#[test]
fn one_hot_sets_exactly_the_label_row() {
    let m = one_hot(3);
    assert_eq!(m.rows, 10);
    assert_eq!(m.cols, 1);
    for y in 0..10 {
        let expected = if y == 3 { 1 } else { 0 };
        assert_eq!(m.get(0, y), expected);
    }
}

#[test]
fn column_from_pixels_keeps_values_in_order() {
    let pixels = vec![0u8, 128, 255];
    let m = column_from_pixels(&pixels);
    assert_eq!(m.rows, 3);
    assert_eq!(m.cols, 1);
    assert_eq!(m.get(0, 0), 0);
    assert_eq!(m.get(0, 1), 128);
    assert_eq!(m.get(0, 2), 255);
}

//! The bookkeeping side of a training run: sample cursor, epoch counter,
//! correct-prediction counts, and the phase machine that moves a session
//! from idle through training and evaluation to done.
//!
//! The numeric forward and backward passes live outside this module; a
//! session only consumes, one sample at a time, the predicted class and the
//! true label, and its contract pins down every field of the state that
//! results.

use vstd::prelude::*;

use crate::matrix::Matrix;
use crate::matrix::lemma_row_major_index;
use crate::load::NUM_CLASSES;

verus! {

/// Where a session stands: not yet started, working through the training
/// epochs, evaluating on the held-out samples, or finished.
#[derive(Clone, Copy, Debug, PartialEq, Eq, Structural)]
pub enum Phase {
    Idle,
    Training,
    Testing,
    Done,
}

/// The immutable configuration of a run: how many epochs to train, how many
/// samples one nominal batch holds, and how many training and held-out
/// samples there are.
#[derive(Clone, Copy, Debug, PartialEq, Eq, Structural)]
pub struct TrainingConfig {
    pub epochs: u32,
    pub batch_size: u32,
    pub train_samples: u32,
    pub test_samples: u32,
}

impl TrainingConfig {
    /// A usable configuration: at least one epoch, a positive batch size no
    /// larger than the training set, and a nonempty held-out set.
    pub open spec fn wf(self) -> bool {
        &&& self.epochs >= 1
        &&& self.batch_size >= 1
        &&& self.batch_size <= self.train_samples
        &&& self.test_samples >= 1
    }
}

/// How many samples one epoch works through: every whole batch, with any
/// remainder of the training set left untouched.
pub open spec fn epoch_len(c: TrainingConfig) -> int {
    (c.train_samples as int / c.batch_size as int) * c.batch_size as int
}

/// An epoch is at least one batch long and never longer than the training
/// set.
pub proof fn lemma_epoch_len_bounds(c: TrainingConfig)
    requires
        c.wf(),
    ensures
        c.batch_size <= epoch_len(c) <= c.train_samples,
{
    let t = c.train_samples as int;
    let b = c.batch_size as int;
    vstd::arithmetic::div_mod::lemma_remainder_lower(t, b);
    vstd::arithmetic::div_mod::lemma_div_is_ordered(b, t, b);
    vstd::arithmetic::div_mod::lemma_div_by_self(b);
    assert(t / b >= 1);
    assert(t / b >= 1 && b >= 1 ==> (t / b) * b >= b) by (nonlinear_arith);
}

/// The product of two values below a common bound stays below the squared
/// bound.
proof fn lemma_mul_le(a: int, b: int, c: int, d: int)
    by (nonlinear_arith)
    requires
        0 <= a <= c,
        0 <= b <= d,
    ensures
        a * b <= c * d,
{
}

/// The mutable state of a run, threaded through the loop that feeds it one
/// prediction at a time.
#[derive(Clone, Debug)]
pub struct TrainingSession {
    pub config: TrainingConfig,
    /// Which part of the run is underway.
    pub phase: Phase,
    /// Completed training epochs.
    pub epoch: u32,
    /// Position inside the current epoch, or inside the held-out set.
    pub cursor: u32,
    /// Correct predictions since the current phase began.
    pub correct: u64,
    /// The running correct count as it stood at the end of each epoch.
    pub epoch_correct: Vec<u64>,
    /// During evaluation: the predicted class for each held-out sample.
    pub test_predictions: Vec<u8>,
}

impl TrainingSession {
    /// Structural invariant tying counters, phase and buffers together.
    pub open spec fn wf(self) -> bool {
        &&& self.config.wf()
        &&& self.epoch_correct@.len() == self.epoch
        &&& self.epoch <= self.config.epochs
        &&& self.test_predictions@.len() == self.config.test_samples
        &&& match self.phase {
            Phase::Idle => self.epoch == 0 && self.cursor == 0 && self.correct == 0,
            Phase::Training => {
                &&& self.epoch < self.config.epochs
                &&& self.cursor < epoch_len(self.config)
                &&& self.correct <= self.epoch * epoch_len(self.config) + self.cursor
            },
            Phase::Testing => {
                &&& self.epoch == self.config.epochs
                &&& self.cursor < self.config.test_samples
                &&& self.correct <= self.cursor
            },
            Phase::Done => {
                &&& self.epoch == self.config.epochs
                &&& self.cursor == self.config.test_samples
                &&& self.correct <= self.config.test_samples
            },
        }
    }

    /// The session still consumes predictions.
    pub open spec fn in_progress(self) -> bool {
        self.phase is Training || self.phase is Testing
    }

    /// A fresh, idle session for the given configuration, with an all-zero
    /// prediction record.
    pub fn new(config: TrainingConfig) -> (s: TrainingSession)
        requires
            config.wf(),
        ensures
            s.wf(),
            s.config == config,
            s.phase is Idle,
            s.epoch == 0,
            s.cursor == 0,
            s.correct == 0,
            s.epoch_correct@.len() == 0,
            s.test_predictions@.len() == config.test_samples,
            forall|i: int| 0 <= i < config.test_samples ==> s.test_predictions@[i] == 0,
    {
        let mut preds: Vec<u8> = Vec::new();
        let mut i: u32 = 0;
        while i < config.test_samples
            invariant
                i <= config.test_samples,
                preds@.len() == i,
                forall|j: int| 0 <= j < i ==> preds@[j] == 0u8,
            decreases config.test_samples - i,
        {
            preds.push(0);
            i = i + 1;
        }
        TrainingSession {
            config,
            phase: Phase::Idle,
            epoch: 0,
            cursor: 0,
            correct: 0,
            epoch_correct: Vec::new(),
            test_predictions: preds,
        }
    }

    /// Begin the run: an idle session moves to the training phase with all
    /// counters at zero.
    pub fn start(&mut self)
        requires
            old(self).wf(),
            old(self).phase is Idle,
        ensures
            final(self).wf(),
            final(self).phase is Training,
            final(self).config == old(self).config,
            final(self).epoch == 0,
            final(self).cursor == 0,
            final(self).correct == 0,
            final(self).epoch_correct@ == old(self).epoch_correct@,
            final(self).test_predictions@ == old(self).test_predictions@,
    {
        proof {
            lemma_epoch_len_bounds(self.config);
        }
        self.phase = Phase::Training;
    }
}

/// The correct count after one more sample: one higher exactly when the
/// prediction matches the label.
pub open spec fn next_correct(pre: TrainingSession, predicted: u8, label: u8) -> int {
    pre.correct + if predicted == label {
        1int
    } else {
        0int
    }
}

/// How one training sample moves the session from `pre` to `post`: the
/// correct count follows the match, the cursor advances, and at an epoch
/// boundary the running count is recorded, the cursor resets, and after the
/// last epoch the session turns to evaluation with a fresh correct count.
pub open spec fn training_step(
    pre: TrainingSession,
    post: TrainingSession,
    predicted: u8,
    label: u8,
) -> bool {
    let c = next_correct(pre, predicted, label);
    &&& post.config == pre.config
    &&& post.test_predictions@ == pre.test_predictions@
    &&& if pre.cursor + 1 == epoch_len(pre.config) {
        &&& post.epoch_correct@ == pre.epoch_correct@.push(c as u64)
        &&& post.epoch == pre.epoch + 1
        &&& post.cursor == 0
        &&& if pre.epoch + 1 == pre.config.epochs {
            post.phase is Testing && post.correct == 0
        } else {
            post.phase is Training && post.correct == c
        }
    } else {
        &&& post.epoch_correct@ == pre.epoch_correct@
        &&& post.epoch == pre.epoch
        &&& post.cursor == pre.cursor + 1
        &&& post.phase is Training
        &&& post.correct == c
    }
}

/// How one held-out sample moves the session from `pre` to `post`: the
/// prediction is recorded at the cursor, the correct count follows the
/// match, and after the last sample the session is done.
pub open spec fn testing_step(
    pre: TrainingSession,
    post: TrainingSession,
    predicted: u8,
    label: u8,
) -> bool {
    let c = next_correct(pre, predicted, label);
    &&& post.config == pre.config
    &&& post.epoch == pre.epoch
    &&& post.epoch_correct@ == pre.epoch_correct@
    &&& post.test_predictions@ == pre.test_predictions@.update(pre.cursor as int, predicted)
    &&& post.correct == c
    &&& post.cursor == pre.cursor + 1
    &&& if pre.cursor + 1 == pre.config.test_samples {
        post.phase is Done
    } else {
        post.phase is Testing
    }
}

impl TrainingSession {
    /// Consume one sample's outcome.  During training this advances the
    /// epoch machinery; during evaluation it also records the prediction.
    pub fn record_prediction(&mut self, predicted: u8, label: u8)
        requires
            old(self).wf(),
            old(self).in_progress(),
        ensures
            final(self).wf(),
            old(self).phase is Training ==> training_step(
                *old(self),
                *final(self),
                predicted,
                label,
            ),
            old(self).phase is Testing ==> testing_step(
                *old(self),
                *final(self),
                predicted,
                label,
            ),
    {
        proof {
            lemma_epoch_len_bounds(self.config);
            lemma_mul_le(
                self.epoch as int,
                epoch_len(self.config),
                0xffff_ffff,
                0xffff_ffff,
            );
        }
        let hit: u64 = if predicted == label {
            1
        } else {
            0
        };
        match self.phase {
            Phase::Training => {
                let c = self.correct + hit;
                self.correct = c;
                self.cursor = self.cursor + 1;
                let els = self.config.train_samples / self.config.batch_size
                    * self.config.batch_size;
                if self.cursor == els {
                    self.epoch_correct.push(c);
                    self.epoch = self.epoch + 1;
                    self.cursor = 0;
                    proof {
                        assert((self.epoch as int) * epoch_len(self.config) == (self.epoch as int
                            - 1) * epoch_len(self.config) + epoch_len(self.config))
                            by (nonlinear_arith);
                    }
                    if self.epoch == self.config.epochs {
                        self.phase = Phase::Testing;
                        self.correct = 0;
                    }
                }
            },
            Phase::Testing => {
                let c = self.correct + hit;
                self.correct = c;
                let cur = self.cursor;
                self.test_predictions.set(cur as usize, predicted);
                self.cursor = cur + 1;
                if self.cursor == self.config.test_samples {
                    self.phase = Phase::Done;
                }
            },
            _ => {
                proof {
                    assert(false);
                }
            },
        }
    }
}

/// The one-hot target column for a class label: a single 1 in the label's
/// row of a one-column matrix, 0 everywhere else.
pub fn one_hot(label: u8) -> (r: Matrix)
    requires
        label < NUM_CLASSES,
    ensures
        r.wf(),
        r.rows == NUM_CLASSES,
        r.cols == 1,
        forall|y: int|
            0 <= y < NUM_CLASSES ==> r.ent(y, 0) == if y == label {
                1int
            } else {
                0int
            },
{
    let mut data: Vec<i32> = Vec::new();
    let mut y: u8 = 0;
    while y < NUM_CLASSES
        invariant
            y <= NUM_CLASSES,
            data@.len() == y,
            forall|j: int|
                0 <= j < y ==> data@[j] == if j == label {
                    1i32
                } else {
                    0i32
                },
        decreases NUM_CLASSES - y,
    {
        if y == label {
            data.push(1);
        } else {
            data.push(0);
        }
        y = y + 1;
    }
    let m = Matrix { rows: NUM_CLASSES as usize, cols: 1, data };
    proof {
        assert forall|yy: int| 0 <= yy < NUM_CLASSES implies m.ent(yy, 0) == (if yy == label {
            1int
        } else {
            0int
        }) by {
            lemma_row_major_index(NUM_CLASSES as int, 1, yy, 0);
            assert(m.data@[yy * 1 + 0] == m.data@[yy]);
        }
    }
    m
}

/// A pixel vector as an input column: one column whose row `y` holds the
/// `y`-th pixel value.
pub fn column_from_pixels(pixels: &Vec<u8>) -> (r: Matrix)
    requires
        pixels@.len() >= 1,
    ensures
        r.wf(),
        r.rows == pixels@.len(),
        r.cols == 1,
        forall|y: int| 0 <= y < pixels@.len() ==> r.ent(y, 0) == pixels@[y],
{
    let n = pixels.len();
    let mut data: Vec<i32> = Vec::new();
    let mut y: usize = 0;
    while y < n
        invariant
            n == pixels@.len(),
            y <= n,
            data@.len() == y,
            forall|j: int| 0 <= j < y ==> data@[j] == pixels@[j],
        decreases n - y,
    {
        data.push(pixels[y] as i32);
        y = y + 1;
    }
    let m = Matrix { rows: n, cols: 1, data };
    proof {
        assert forall|yy: int| 0 <= yy < n implies m.ent(yy, 0) == pixels@[yy] by {
            lemma_row_major_index(n as int, 1, yy, 0);
            assert(m.data@[yy * 1 + 0] == m.data@[yy]);
        }
    }
    m
}

/// The sum of the first `k` recorded per-epoch counts.
pub open spec fn count_sum_prefix(s: Seq<u64>, k: int) -> int
    decreases k,
{
    if k <= 0 {
        0
    } else {
        count_sum_prefix(s, k - 1) + s[k - 1]
    }
}

/// The sum of all recorded per-epoch counts.
pub open spec fn count_sum(s: Seq<u64>) -> int {
    count_sum_prefix(s, s.len() as int)
}

impl TrainingSession {
    /// The total of the recorded per-epoch correct counts, for accuracy
    /// aggregation over the whole run.
    pub fn epoch_correct_total(&self) -> (t: u128)
        requires
            self.wf(),
        ensures
            t == count_sum(self.epoch_correct@),
    {
        let n = self.epoch_correct.len();
        let mut acc: u128 = 0;
        let mut i: usize = 0;
        while i < n
            invariant
                n == self.epoch_correct@.len(),
                n <= u32::MAX,
                i <= n,
                acc == count_sum_prefix(self.epoch_correct@, i as int),
                acc <= (i as int) * 0xffff_ffff_ffff_ffff,
            decreases n - i,
        {
            acc = acc + (self.epoch_correct[i] as u128);
            i = i + 1;
        }
        acc
    }
}

} // verus!

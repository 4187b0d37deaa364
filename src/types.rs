//! Plain value types of the clustering model.
use vstd::prelude::*;

verus! {

/// The two labels a data point may carry.
#[derive(PartialEq, Eq, Structural, Clone, Copy, Debug)]
pub enum LabelEnum {
    /// A malicious item.
    Malware,
    /// An acceptable item.
    Accept,
}

/// Lifecycle flag of a task.
#[derive(PartialEq, Eq, Structural, Clone, Copy, Debug)]
pub enum TaskState {
    /// The task is complete.
    Done,
    /// The task has not been started.
    Ready,
    /// The task is running.
    Pending,
}

/// Verdict of a co-membership query.
#[derive(PartialEq, Eq, Structural, Clone, Copy, Debug)]
pub enum ConnectEnum {
    /// Both vectors fall to the same cluster.
    Linked,
    /// The vectors fall to different clusters.
    Separate,
}

/// Recoverable failures of the model's operations.
#[derive(PartialEq, Eq, Structural, Clone, Copy, Debug)]
pub enum SckmError {
    /// `train` was called while the model was not ready to train.
    NotReady,
    /// `same_cluster` was called before training completed.
    NotTrained,
    /// A vector's length differs from the model's dimension.
    DimensionMismatch,
}

/// Acknowledgment that a training run completed.
#[derive(PartialEq, Eq, Structural, Clone, Copy, Debug)]
pub struct Trained;

/// The resolved number of clusters, tracked as a job of its own.
#[derive(PartialEq, Eq, Structural, Clone, Copy, Debug)]
pub struct CountJob {
    pub num: Option<usize>,
    pub job: TaskState,
}

impl CountJob {
    pub fn new(num: Option<usize>, job: TaskState) -> (r: CountJob)
        ensures
            r.num == num,
            r.job == job,
    {
        CountJob { num, job }
    }

    /// The job before any count was resolved.
    pub fn make() -> (r: CountJob)
        ensures
            r.num.is_none(),
            r.job == TaskState::Ready,
    {
        CountJob::new(None, TaskState::Ready)
    }
}

/// A point of the boolean feature space.
#[derive(Clone, Debug)]
pub struct BoolPoint {
    pub point: Vec<bool>,
}

impl BoolPoint {
    pub fn new(point: Vec<bool>) -> (r: BoolPoint)
        ensures
            r.point@ == point@,
    {
        BoolPoint { point }
    }
}

/// A point that may carry a label.
#[derive(Clone, Debug)]
pub struct LabelBoolPoint {
    pub data: BoolPoint,
    pub label: Option<LabelEnum>,
}

impl LabelBoolPoint {
    pub fn new(point: Vec<bool>, label: Option<LabelEnum>) -> (r: LabelBoolPoint)
        ensures
            r.data.point@ == point@,
            r.label == label,
    {
        LabelBoolPoint { data: BoolPoint { point }, label }
    }
}

} // verus!

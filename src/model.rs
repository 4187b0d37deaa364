//! The clustering model: its lifecycle, training and the center-based
//! co-membership query.
use vstd::prelude::*;
use crate::engine::{
    dim_of, fully_labeled, initial_engine, lemma_fully_labeled_clusters_pure, lemma_initial_valid, lemma_run_count_bound, lemma_run_valid, labels_of, nearest, nearest_center, points_of, run, run_engine, seqs_of,
    uniform_dim,
};
use crate::types::{BoolPoint, ConnectEnum, CountJob, LabelBoolPoint, LabelEnum, SckmError, TaskState, Trained};

verus! {

/// What a model holds, as mathematical values.
pub struct ModelView {
    pub points: Seq<Seq<bool>>,
    pub labels: Seq<Option<LabelEnum>>,
    pub assignment: Seq<Option<int>>,
    pub centers: Seq<Option<Seq<bool>>>,
    pub count: Option<nat>,
    pub count_state: TaskState,
    pub state: TaskState,
}

/// A freshly built model: every point its own cluster, ready to train.
pub open spec fn initial_view(pts: Seq<Seq<bool>>, labels: Seq<Option<LabelEnum>>) -> ModelView {
    ModelView {
        points: pts,
        labels,
        assignment: Seq::new(pts.len(), |i: int| Some(i)),
        centers: Seq::new(pts.len(), |i: int| Some(pts[i])),
        count: None,
        count_state: TaskState::Ready,
        state: TaskState::Ready,
    }
}

/// The model after a successful training run with hyperparameter `eta`.
pub open spec fn trained_view(m: ModelView, eta: nat) -> ModelView {
    let e = run(m.points, m.labels, initial_engine(m.points), dim_of(m.points), eta);
    ModelView {
        points: m.points,
        labels: m.labels,
        assignment: Seq::new(m.points.len(), |i: int| Some(e.assign[i])),
        centers: Seq::new(e.centers.len(), |j: int| Some(e.centers[j])),
        count: Some(e.centers.len()),
        count_state: TaskState::Done,
        state: TaskState::Done,
    }
}

/// The center vectors of a center list with every entry resolved.
pub open spec fn resolved(cs: Seq<Option<Seq<bool>>>) -> Seq<Seq<bool>> {
    Seq::new(
        cs.len(),
        |j: int|
            match cs[j] {
                Some(c) => c,
                None => Seq::empty(),
            },
    )
}

/// `a` or `b` has a length other than the dimension the dataset established.
pub open spec fn dimension_mismatch(m: ModelView, a: Seq<bool>, b: Seq<bool>) -> bool {
    m.points.len() > 0 && (a.len() != dim_of(m.points) || b.len() != dim_of(m.points))
}

/// Whether `a` and `b` have the same nearest center.
pub open spec fn connectivity(cs: Seq<Seq<bool>>, a: Seq<bool>, b: Seq<bool>) -> ConnectEnum {
    if nearest(a, cs) is Some && nearest(a, cs) == nearest(b, cs) {
        ConnectEnum::Linked
    } else {
        ConnectEnum::Separate
    }
}

/// The answer of a co-membership query on model `m`.
pub open spec fn same_cluster_result(m: ModelView, a: Seq<bool>, b: Seq<bool>) -> Result<
    ConnectEnum,
    SckmError,
> {
    if m.state != TaskState::Done {
        Err(SckmError::NotTrained)
    } else if dimension_mismatch(m, a, b) {
        Err(SckmError::DimensionMismatch)
    } else {
        Ok(connectivity(resolved(m.centers), a, b))
    }
}

/// Operations of a trainable clustering model.
pub trait SCKMModel {
    /// Trains the model; fails when it is not ready to train.
    fn train(&mut self, eta: u32) -> Result<Trained, SckmError>;

    /// Whether `a` and `b` fall to the same cluster; fails before training.
    fn same_cluster(&self, a: Vec<bool>, b: Vec<bool>) -> Result<ConnectEnum, SckmError>;

    /// Replaces the dataset, as if the model were built afresh from it.
    fn update_data(&mut self, new_data: Vec<LabelBoolPoint>);
}

/// Construction of a model from a dataset.
pub trait SCKMModelConstructor {
    fn new(given_data: Vec<LabelBoolPoint>) -> SCKM;
}

/// A semi-supervised constrained clustering model.
///
/// Training and data replacement take the model by exclusive borrow, so no
/// other operation can run while a training run is in flight: a call never
/// finds the model `Pending`, and `update_data` has nothing to wait for.
pub struct SCKM {
    data: Vec<LabelBoolPoint>,
    assignment: Vec<Option<usize>>,
    result: Vec<Option<BoolPoint>>,
    num_centers: CountJob,
    trained: TaskState,
}

pub open spec fn assignment_view(a: Seq<Option<usize>>) -> Seq<Option<int>> {
    Seq::new(
        a.len(),
        |i: int|
            match a[i] {
                Some(v) => Some(v as int),
                None => None,
            },
    )
}

pub open spec fn centers_view(r: Seq<Option<BoolPoint>>) -> Seq<Option<Seq<bool>>> {
    Seq::new(
        r.len(),
        |j: int|
            match r[j] {
                Some(c) => Some(c.point@),
                None => None,
            },
    )
}

impl View for SCKM {
    type V = ModelView;

    closed spec fn view(&self) -> ModelView {
        ModelView {
            points: points_of(self.data@),
            labels: labels_of(self.data@),
            assignment: assignment_view(self.assignment@),
            centers: centers_view(self.result@),
            count: match self.num_centers.num {
                Some(v) => Some(v as nat),
                None => None,
            },
            count_state: self.num_centers.job,
            state: self.trained,
        }
    }
}

impl SCKM {
    #[verifier::type_invariant]
    spec fn inv(self) -> bool {
        let v = self@;
        &&& self.trained != TaskState::Pending
        &&& self.trained == TaskState::Ready ==> v == initial_view(v.points, v.labels)
        &&& self.trained == TaskState::Done ==> {
            &&& uniform_dim(v.points, dim_of(v.points))
            &&& v.points.len() == 0 ==> v.centers.len() == 0
            &&& forall|j: int| 0 <= j < v.centers.len() ==> (#[trigger] v.centers[j]) is Some
            &&& uniform_dim(resolved(v.centers), dim_of(v.points))
        }
    }
}

impl SCKMModelConstructor for SCKM {
    /// Builds a model with every point its own cluster, ready to train.
    fn new(given_data: Vec<LabelBoolPoint>) -> (r: SCKM)
        ensures
            r@ == initial_view(points_of(given_data@), labels_of(given_data@)),
    {
        let ghost pts = points_of(given_data@);
        let mut assignment: Vec<Option<usize>> = Vec::new();
        let mut result: Vec<Option<BoolPoint>> = Vec::new();
        let mut i: usize = 0;
        while i < given_data.len()
            invariant
                i <= given_data.len(),
                pts == points_of(given_data@),
                assignment.len() == i,
                result.len() == i,
                forall|q: int| 0 <= q < i ==> assignment@[q] == Some(q as usize),
                forall|q: int|
                    0 <= q < i ==> (#[trigger] result@[q]) is Some && result@[q]->0.point@
                        == pts[q],
            decreases given_data.len() - i,
        {
            result.push(Some(BoolPoint::new(given_data[i].data.point.clone())));
            assignment.push(Some(i));
            i = i + 1;
        }
        assert(assignment_view(assignment@) =~= initial_view(pts, labels_of(given_data@)).assignment);
        assert(centers_view(result@) =~= initial_view(pts, labels_of(given_data@)).centers);
        let r = SCKM {
            data: given_data,
            assignment,
            result,
            num_centers: CountJob::make(),
            trained: TaskState::Ready,
        };
        r
    }
}

/// Whether every point of `data` has length `d`.
fn all_of_dim(data: &Vec<LabelBoolPoint>, d: usize) -> (r: bool)
    ensures
        r == uniform_dim(points_of(data@), d as nat),
{
    let ghost pts = points_of(data@);
    let mut i: usize = 0;
    while i < data.len()
        invariant
            i <= data.len(),
            pts == points_of(data@),
            forall|q: int| 0 <= q < i ==> #[trigger] pts[q].len() == d,
        decreases data.len() - i,
    {
        if data[i].data.point.len() != d {
            assert(pts[i as int].len() != d);
            return false;
        }
        i = i + 1;
    }
    true
}

/// The dimension the first point of `data` establishes.
fn data_dim(data: &Vec<LabelBoolPoint>) -> (d: usize)
    ensures
        d == dim_of(points_of(data@)),
{
    if data.len() > 0 {
        assert(points_of(data@)[0] == data@[0].data.point@);
        data[0].data.point.len()
    } else {
        0
    }
}

impl SCKMModel for SCKM {
    /// Runs the training engine from the singleton start for at most `eta`
    /// iterations and freezes the resulting centers.
    fn train(&mut self, eta: u32) -> (r: Result<Trained, SckmError>)
        ensures
            old(self)@.state != TaskState::Ready ==> r == Err::<Trained, SckmError>(
                SckmError::NotReady,
            ) && final(self)@ == old(self)@,
            old(self)@.state == TaskState::Ready && !uniform_dim(
                old(self)@.points,
                dim_of(old(self)@.points),
            ) ==> r == Err::<Trained, SckmError>(SckmError::DimensionMismatch) && final(self)@
                == old(self)@,
            old(self)@.state == TaskState::Ready && uniform_dim(
                old(self)@.points,
                dim_of(old(self)@.points),
            ) ==> r == Ok::<Trained, SckmError>(Trained) && final(self)@ == trained_view(
                old(self)@,
                eta as nat,
            ),
    {
        proof {
            use_type_invariant(&*self);
        }
        if self.trained != TaskState::Ready {
            return Err(SckmError::NotReady);
        }
        let d = data_dim(&self.data);
        if !all_of_dim(&self.data, d) {
            return Err(SckmError::DimensionMismatch);
        }
        let (cs, asg) = run_engine(&self.data, eta, d);
        let ghost e = run(
            points_of(self.data@),
            labels_of(self.data@),
            initial_engine(points_of(self.data@)),
            d as nat,
            eta as nat,
        );
        let mut assignment: Vec<Option<usize>> = Vec::new();
        let mut i: usize = 0;
        while i < asg.len()
            invariant
                i <= asg.len(),
                assignment.len() == i,
                forall|q: int| 0 <= q < i ==> assignment@[q] == Some(asg@[q]),
            decreases asg.len() - i,
        {
            assignment.push(Some(asg[i]));
            i = i + 1;
        }
        let mut result: Vec<Option<BoolPoint>> = Vec::new();
        let mut j: usize = 0;
        while j < cs.len()
            invariant
                j <= cs.len(),
                result.len() == j,
                forall|q: int|
                    0 <= q < j ==> (#[trigger] result@[q]) is Some && result@[q]->0.point@
                        == cs@[q]@,
            decreases cs.len() - j,
        {
            result.push(Some(BoolPoint::new(cs[j].clone())));
            j = j + 1;
        }
        let count = cs.len();
        let ghost target = trained_view(old(self)@, eta as nat);
        assert(assignment_view(assignment@) =~= target.assignment) by {
            assert(e.assign.len() == asg.len());
            assert forall|q: int| 0 <= q < asg.len() implies assignment_view(assignment@)[q]
                == target.assignment[q] by {
                assert(e.assign[q] == asg@[q] as int);
            }
        }
        assert(centers_view(result@) =~= target.centers) by {
            assert forall|q: int| 0 <= q < cs.len() implies centers_view(result@)[q]
                == target.centers[q] by {
                assert(e.centers[q] == cs@[q]@);
            }
        }
        assert(uniform_dim(resolved(target.centers), d as nat)) by {
            assert forall|q: int| 0 <= q < cs.len() implies #[trigger] resolved(
                target.centers,
            )[q].len() == d by {
                assert(resolved(target.centers)[q] == e.centers[q]);
            }
        }
        let placeholder = <SCKM as SCKMModelConstructor>::new(Vec::new());
        proof {
            lemma_run_count_bound(
                points_of(self.data@),
                labels_of(self.data@),
                initial_engine(points_of(self.data@)),
                d as nat,
                eta as nat,
            );
        }
        let mut prev = placeholder;
        std::mem::swap(self, &mut prev);
        let SCKM { data, .. } = prev;
        *self = SCKM {
            data,
            assignment,
            result,
            num_centers: CountJob::new(Some(count), TaskState::Done),
            trained: TaskState::Done,
        };
        Ok(Trained)
    }

    /// Answers from the frozen centers: `Linked` when both vectors have the
    /// same nearest center.
    fn same_cluster(&self, a: Vec<bool>, b: Vec<bool>) -> (r: Result<ConnectEnum, SckmError>)
        ensures
            r == same_cluster_result(self@, a@, b@),
    {
        proof {
            use_type_invariant(self);
        }
        if self.trained != TaskState::Done {
            return Err(SckmError::NotTrained);
        }
        let d = data_dim(&self.data);
        if self.data.len() > 0 && (a.len() != d || b.len() != d) {
            return Err(SckmError::DimensionMismatch);
        }
        let ghost cs = resolved(self@.centers);
        let mut centers: Vec<Vec<bool>> = Vec::new();
        let mut j: usize = 0;
        while j < self.result.len()
            invariant
                j <= self.result.len(),
                cs == resolved(self@.centers),
                centers.len() == j,
                forall|q: int| 0 <= q < j ==> (#[trigger] centers@[q])@ == cs[q],
            decreases self.result.len() - j,
        {
            match &self.result[j] {
                Some(c) => {
                    centers.push(c.point.clone());
                },
                None => {
                    centers.push(Vec::new());
                },
            }
            j = j + 1;
        }
        assert(seqs_of(centers@) =~= cs);
        let na = nearest_center(&a, &centers);
        let nb = nearest_center(&b, &centers);
        match (na, nb) {
            (Some(x), Some(y)) => {
                if x == y {
                    Ok(ConnectEnum::Linked)
                } else {
                    Ok(ConnectEnum::Separate)
                }
            },
            _ => Ok(ConnectEnum::Separate),
        }
    }

    /// Rebuilds the model from `new_data` exactly as construction does.
    fn update_data(&mut self, new_data: Vec<LabelBoolPoint>)
        ensures
            final(self)@ == initial_view(points_of(new_data@), labels_of(new_data@)),
    {
        *self = <SCKM as SCKMModelConstructor>::new(new_data);
    }
}

impl SCKM {
    /// The lifecycle state of the model.
    pub fn state(&self) -> (r: TaskState)
        ensures
            r == self@.state,
    {
        self.trained
    }

    /// The resolved cluster count, once training is done.
    pub fn cluster_count(&self) -> (r: Option<usize>)
        ensures
            opt_nat(r) == self@.count,
    {
        self.num_centers.num
    }

    /// The cluster index of each point.
    pub fn assignment(&self) -> (r: Vec<Option<usize>>)
        ensures
            assignment_view(r@) == self@.assignment,
    {
        let mut r: Vec<Option<usize>> = Vec::new();
        let mut i: usize = 0;
        while i < self.assignment.len()
            invariant
                i <= self.assignment.len(),
                r.len() == i,
                forall|q: int| 0 <= q < i ==> r@[q] == self.assignment@[q],
            decreases self.assignment.len() - i,
        {
            r.push(self.assignment[i]);
            i = i + 1;
        }
        assert(r@ =~= self.assignment@);
        r
    }

    /// The cluster centers; an unresolved center is `None`.
    pub fn centers(&self) -> (r: Vec<Option<Vec<bool>>>)
        ensures
            r.len() == self@.centers.len(),
            forall|j: int|
                0 <= j < r.len() ==> match #[trigger] r@[j] {
                    Some(c) => self@.centers[j] == Some(c@),
                    None => self@.centers[j] is None,
                },
    {
        let mut r: Vec<Option<Vec<bool>>> = Vec::new();
        let mut j: usize = 0;
        while j < self.result.len()
            invariant
                j <= self.result.len(),
                r.len() == j,
                forall|q: int|
                    0 <= q < j ==> match #[trigger] r@[q] {
                        Some(c) => self@.centers[q] == Some(c@),
                        None => self@.centers[q] is None,
                    },
            decreases self.result.len() - j,
        {
            match &self.result[j] {
                Some(c) => r.push(Some(c.point.clone())),
                None => r.push(None),
            }
            j = j + 1;
        }
        r
    }
}

pub open spec fn opt_nat(o: Option<usize>) -> Option<nat> {
    match o {
        Some(v) => Some(v as nat),
        None => None,
    }
}

/// After a successful training run every point has a cluster: the
/// assignment has one entry per point, each naming one of the centers, every
/// center is resolved, and the count is the number of centers.
pub proof fn lemma_trained_assignment_complete(m: ModelView, eta: nat)
    requires
        uniform_dim(m.points, dim_of(m.points)),
    ensures
        trained_view(m, eta).assignment.len() == m.points.len(),
        forall|i: int|
            0 <= i < m.points.len() ==> ((#[trigger] trained_view(m, eta).assignment[i]) matches Some(
                j,
            ) && 0 <= j < trained_view(m, eta).centers.len()),
        forall|j: int|
            0 <= j < trained_view(m, eta).centers.len() ==> (#[trigger] trained_view(
                m,
                eta,
            ).centers[j]) is Some,
        trained_view(m, eta).count == Some(trained_view(m, eta).centers.len()),
{
    let d = dim_of(m.points);
    lemma_initial_valid(m.points, d);
    lemma_run_valid(m.points, m.labels, initial_engine(m.points), d, eta);
}

/// What training produces depends on the dataset alone: a model rebuilt by
/// `update_data` and a model built afresh from the same data train to the
/// same result.
pub proof fn lemma_training_depends_on_data_only(m1: ModelView, m2: ModelView, eta: nat)
    requires
        m1.points == m2.points,
        m1.labels == m2.labels,
    ensures
        trained_view(m1, eta) == trained_view(m2, eta),
{
}

/// On a dataset where every point is labeled, no trained cluster holds a
/// `Malware` point together with an `Accept` point.
pub proof fn lemma_trained_clusters_respect_labels(m: ModelView, eta: nat)
    requires
        m.labels.len() == m.points.len(),
        fully_labeled(m.labels),
        uniform_dim(m.points, dim_of(m.points)),
    ensures
        forall|i: int, k: int|
            0 <= i < m.points.len() && 0 <= k < m.points.len() && #[trigger] trained_view(
                m,
                eta,
            ).assignment[i] == #[trigger] trained_view(m, eta).assignment[k] ==> m.labels[i]
                == m.labels[k],
{
    let e = run(m.points, m.labels, initial_engine(m.points), dim_of(m.points), eta);
    lemma_fully_labeled_clusters_pure(m.points, m.labels, eta);
    lemma_initial_valid(m.points, dim_of(m.points));
    lemma_run_valid(m.points, m.labels, initial_engine(m.points), dim_of(m.points), eta);
    assert forall|i: int, k: int|
        0 <= i < m.points.len() && 0 <= k < m.points.len() && #[trigger] trained_view(
            m,
            eta,
        ).assignment[i] == #[trigger] trained_view(m, eta).assignment[k] implies m.labels[i]
        == m.labels[k] by {
        assert(e.assign[i] == e.assign[k]);
    }
}

/// With no iterations allowed, training keeps every point in its own
/// cluster and resolves the count to the number of points.
pub proof fn lemma_no_iterations_keeps_singletons(m: ModelView)
    ensures
        trained_view(m, 0).assignment == Seq::new(m.points.len(), |i: int| Some(i)),
        trained_view(m, 0).centers == Seq::new(m.points.len(), |i: int| Some(m.points[i])),
        trained_view(m, 0).count == Some(m.points.len()),
{
    assert(trained_view(m, 0).assignment =~= Seq::new(m.points.len(), |i: int| Some(i)));
    assert(trained_view(m, 0).centers =~= Seq::new(m.points.len(), |i: int| Some(m.points[i])));
}

} // verus!

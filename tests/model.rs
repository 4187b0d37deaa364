use sckm::{ConnectEnum, LabelBoolPoint, LabelEnum, SCKMModel, SCKMModelConstructor, SckmError, TaskState, Trained, SCKM};

fn bits(s: &str) -> Vec<bool> {
    s.chars().map(|c| c == '1').collect()
}

fn pt(s: &str, label: Option<LabelEnum>) -> LabelBoolPoint {
    LabelBoolPoint::new(bits(s), label)
}

fn four_points() -> Vec<LabelBoolPoint> {
    vec![
        pt("000", Some(LabelEnum::Accept)),
        pt("001", Some(LabelEnum::Accept)),
        pt("110", Some(LabelEnum::Malware)),
        pt("111", Some(LabelEnum::Malware)),
    ]
}

fn merging_points() -> Vec<LabelBoolPoint> {
    vec![pt("0000", None), pt("0000", None), pt("0011", None)]
}

#[test]
fn four_point_scenario() {
    let mut m = SCKM::new(four_points());
    assert_eq!(m.train(5), Ok(Trained));
    assert_eq!(m.state(), TaskState::Done);
    assert_eq!(m.same_cluster(bits("000"), bits("111")), Ok(ConnectEnum::Separate));
    // From the singleton start every point is nearest to its own center, so
    // the first iteration already changes nothing: four clusters remain.
    assert_eq!(m.cluster_count(), Some(4));
    assert_eq!(m.same_cluster(bits("000"), bits("001")), Ok(ConnectEnum::Separate));
    assert_eq!(m.same_cluster(bits("000"), bits("000")), Ok(ConnectEnum::Linked));
}

#[test]
fn eta_zero_keeps_singletons() {
    let mut m = SCKM::new(merging_points());
    assert_eq!(m.train(0), Ok(Trained));
    assert_eq!(m.cluster_count(), Some(3));
    assert_eq!(m.assignment(), vec![Some(0), Some(1), Some(2)]);
    assert_eq!(m.centers(), vec![Some(bits("0000")), Some(bits("0000")), Some(bits("0011"))]);
}

#[test]
fn same_cluster_before_train_is_not_trained() {
    let m = SCKM::new(four_points());
    assert_eq!(m.same_cluster(bits("000"), bits("001")), Err(SckmError::NotTrained));
    assert_eq!(m.state(), TaskState::Ready);
    assert_eq!(m.cluster_count(), None);
}

#[test]
fn train_twice_is_not_ready() {
    let mut m = SCKM::new(four_points());
    assert_eq!(m.train(3), Ok(Trained));
    let before = m.assignment();
    assert_eq!(m.train(3), Err(SckmError::NotReady));
    assert_eq!(m.assignment(), before);
    assert_eq!(m.state(), TaskState::Done);
}

#[test]
fn train_rejects_uneven_dimensions() {
    let mut m = SCKM::new(vec![pt("01", None), pt("011", None)]);
    assert_eq!(m.train(2), Err(SckmError::DimensionMismatch));
    assert_eq!(m.state(), TaskState::Ready);
    assert_eq!(m.cluster_count(), None);
}

#[test]
fn same_cluster_rejects_wrong_dimension() {
    let mut m = SCKM::new(four_points());
    m.train(2).unwrap();
    assert_eq!(m.same_cluster(bits("00"), bits("001")), Err(SckmError::DimensionMismatch));
    assert_eq!(m.same_cluster(bits("000"), bits("0011")), Err(SckmError::DimensionMismatch));
}

#[test]
fn duplicates_merge_and_centers_are_modes() {
    let mut m = SCKM::new(merging_points());
    assert_eq!(m.train(5), Ok(Trained));
    assert_eq!(m.cluster_count(), Some(2));
    assert_eq!(m.assignment(), vec![Some(0), Some(0), Some(1)]);
    assert_eq!(m.centers(), vec![Some(bits("0000")), Some(bits("0011"))]);
}

#[test]
fn nearest_center_ties_go_to_lowest_index() {
    let mut m = SCKM::new(merging_points());
    m.train(5).unwrap();
    assert_eq!(m.same_cluster(bits("0001"), bits("0000")), Ok(ConnectEnum::Linked));
    assert_eq!(m.same_cluster(bits("0001"), bits("0011")), Ok(ConnectEnum::Separate));
}

#[test]
fn cluster_count_does_not_grow_with_iterations() {
    let mut counts = Vec::new();
    for eta in 0..4u32 {
        let mut m = SCKM::new(merging_points());
        m.train(eta).unwrap();
        counts.push(m.cluster_count().unwrap());
    }
    assert_eq!(counts, vec![3, 2, 2, 2]);
}

#[test]
fn every_point_assigned_after_train() {
    let mut m = SCKM::new(four_points());
    m.train(7).unwrap();
    let a = m.assignment();
    assert_eq!(a.len(), 4);
    let n = m.centers().len();
    assert!(a.iter().all(|x| matches!(x, Some(j) if *j < n)));
    assert!(m.centers().iter().all(|c| c.is_some()));
}

#[test]
fn repeated_queries_agree() {
    let mut m = SCKM::new(merging_points());
    m.train(5).unwrap();
    let first = m.same_cluster(bits("0101"), bits("0011"));
    let second = m.same_cluster(bits("0101"), bits("0011"));
    assert_eq!(first, second);
}

#[test]
fn labels_keep_equal_points_apart() {
    let data = vec![pt("000", Some(LabelEnum::Accept)), pt("000", Some(LabelEnum::Malware))];
    let mut m = SCKM::new(data);
    m.train(5).unwrap();
    assert_eq!(m.cluster_count(), Some(2));
    assert_eq!(m.assignment(), vec![Some(0), Some(1)]);
}

#[test]
fn same_labels_merge_equal_points() {
    let data = vec![pt("010", Some(LabelEnum::Malware)), pt("010", Some(LabelEnum::Malware))];
    let mut m = SCKM::new(data);
    m.train(5).unwrap();
    assert_eq!(m.cluster_count(), Some(1));
    assert_eq!(m.assignment(), vec![Some(0), Some(0)]);
}

#[test]
fn unlabeled_center_takes_both_labels() {
    // A center with no labeled member forbids no label.
    let data = vec![
        pt("01", None),
        pt("01", Some(LabelEnum::Accept)),
        pt("01", Some(LabelEnum::Malware)),
    ];
    let mut m = SCKM::new(data);
    m.train(5).unwrap();
    assert_eq!(m.cluster_count(), Some(1));
}

#[test]
fn update_then_train_matches_fresh() {
    let mut updated = SCKM::new(four_points());
    updated.train(4).unwrap();
    updated.update_data(merging_points());
    assert_eq!(updated.state(), TaskState::Ready);
    assert_eq!(updated.cluster_count(), None);
    assert_eq!(updated.same_cluster(bits("0000"), bits("0000")), Err(SckmError::NotTrained));
    updated.train(5).unwrap();
    let mut fresh = SCKM::new(merging_points());
    fresh.train(5).unwrap();
    assert_eq!(updated.assignment(), fresh.assignment());
    assert_eq!(updated.centers(), fresh.centers());
    assert_eq!(updated.cluster_count(), fresh.cluster_count());
    assert_eq!(updated.state(), fresh.state());
}

#[test]
fn empty_dataset_trains_to_no_clusters() {
    let mut m = SCKM::new(Vec::new());
    assert_eq!(m.train(3), Ok(Trained));
    assert_eq!(m.cluster_count(), Some(0));
    assert_eq!(m.same_cluster(bits("1"), bits("1")), Ok(ConnectEnum::Separate));
}

#[test]
fn count_job_starts_unresolved() {
    let j = sckm::CountJob::make();
    assert_eq!(j.num, None);
    assert_eq!(j.job, TaskState::Ready);
}

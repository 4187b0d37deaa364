//! The constrained relocation engine: assignment step, center update and the
//! bounded iteration that drives them.
use vstd::prelude::*;
use crate::hamming::{hamming, hamming_distance};
use crate::types::{LabelBoolPoint, LabelEnum};

verus! {

/// State of a training run: the cluster centers and, for each point, the
/// index of its center.
pub struct Engine {
    pub centers: Seq<Seq<bool>>,
    pub assign: Seq<int>,
}

/// The feature vectors of a dataset.
pub open spec fn points_of(data: Seq<LabelBoolPoint>) -> Seq<Seq<bool>> {
    Seq::new(data.len(), |i: int| data[i].data.point@)
}

/// The labels of a dataset.
pub open spec fn labels_of(data: Seq<LabelBoolPoint>) -> Seq<Option<LabelEnum>> {
    Seq::new(data.len(), |i: int| data[i].label)
}

pub open spec fn seqs_of(v: Seq<Vec<bool>>) -> Seq<Seq<bool>> {
    Seq::new(v.len(), |i: int| v[i]@)
}

pub open spec fn ints_of(v: Seq<usize>) -> Seq<int> {
    Seq::new(v.len(), |i: int| v[i] as int)
}

/// Every vector has length `d`.
pub open spec fn uniform_dim(pts: Seq<Seq<bool>>, d: nat) -> bool {
    forall|i: int| 0 <= i < pts.len() ==> #[trigger] pts[i].len() == d
}

/// The dimension a dataset establishes: that of its first point.
pub open spec fn dim_of(pts: Seq<Seq<bool>>) -> nat {
    if pts.len() > 0 { pts[0].len() } else { 0 }
}

/// Number of points below `k` that sit in center `c` and carry label `l`.
pub open spec fn label_count_upto(
    labels: Seq<Option<LabelEnum>>,
    assign: Seq<int>,
    c: int,
    l: LabelEnum,
    k: int,
) -> nat
    decreases k,
{
    if k <= 0 {
        0
    } else {
        label_count_upto(labels, assign, c, l, k - 1) + if assign[k - 1] == c && labels[k - 1]
            == Some(l) {
            1nat
        } else {
            0nat
        }
    }
}

/// The strict majority among `m` malware and `a` accept votes, if any.
pub open spec fn majority_of(m: nat, a: nat) -> Option<LabelEnum> {
    if m > a {
        Some(LabelEnum::Malware)
    } else if a > m {
        Some(LabelEnum::Accept)
    } else {
        None
    }
}

/// The majority label of the labeled members of center `c`.
pub open spec fn center_majority(labels: Seq<Option<LabelEnum>>, assign: Seq<int>, c: int) -> Option<
    LabelEnum,
> {
    majority_of(
        label_count_upto(labels, assign, c, LabelEnum::Malware, labels.len() as int),
        label_count_upto(labels, assign, c, LabelEnum::Accept, labels.len() as int),
    )
}

/// The majority label of each of the `m` centers.
pub open spec fn majorities(labels: Seq<Option<LabelEnum>>, assign: Seq<int>, m: nat) -> Seq<
    Option<LabelEnum>,
> {
    Seq::new(m, |c: int| center_majority(labels, assign, c))
}

/// A point labeled `l` may not join a center whose majority is the other label.
pub open spec fn conflicts(l: Option<LabelEnum>, maj: Option<LabelEnum>) -> bool {
    (l == Some(LabelEnum::Malware) && maj == Some(LabelEnum::Accept)) || (l == Some(
        LabelEnum::Accept,
    ) && maj == Some(LabelEnum::Malware))
}

/// Among the centers below `k` that a point labeled `l` may join, the one
/// nearest to `x`, the lowest index winning ties.
pub open spec fn best_upto(
    x: Seq<bool>,
    l: Option<LabelEnum>,
    centers: Seq<Seq<bool>>,
    majs: Seq<Option<LabelEnum>>,
    k: int,
) -> Option<int>
    decreases k,
{
    if k <= 0 {
        None
    } else {
        let prev = best_upto(x, l, centers, majs, k - 1);
        if conflicts(l, majs[k - 1]) {
            prev
        } else {
            match prev {
                None => Some(k - 1),
                Some(b) => if hamming(x, centers[k - 1]) < hamming(x, centers[b]) {
                    Some(k - 1)
                } else {
                    prev
                },
            }
        }
    }
}

/// The center nearest to `x`, the lowest index winning ties.
pub open spec fn nearest(x: Seq<bool>, centers: Seq<Seq<bool>>) -> Option<int> {
    best_upto(x, None, centers, Seq::empty(), centers.len() as int)
}

/// Where a point goes in the assignment step: the nearest center it may
/// join, or its current center `cur` when it may join none.
pub open spec fn choice(
    x: Seq<bool>,
    l: Option<LabelEnum>,
    centers: Seq<Seq<bool>>,
    majs: Seq<Option<LabelEnum>>,
    cur: int,
) -> int {
    match best_upto(x, l, centers, majs, centers.len() as int) {
        Some(j) => j,
        None => cur,
    }
}

/// The assignment step: each point's new center index, before compaction.
pub open spec fn raw_assign(pts: Seq<Seq<bool>>, labels: Seq<Option<LabelEnum>>, st: Engine) -> Seq<
    int,
> {
    let majs = majorities(labels, st.assign, st.centers.len());
    Seq::new(pts.len(), |i: int| choice(pts[i], labels[i], st.centers, majs, st.assign[i]))
}

pub open spec fn opt_int(o: Option<usize>) -> Option<int> {
    match o {
        Some(v) => Some(v as int),
        None => None,
    }
}


fn conflicts_exec(l: Option<LabelEnum>, maj: Option<LabelEnum>) -> (r: bool)
    ensures
        r == conflicts(l, maj),
{
    match (l, maj) {
        (Some(LabelEnum::Malware), Some(LabelEnum::Accept)) => true,
        (Some(LabelEnum::Accept), Some(LabelEnum::Malware)) => true,
        _ => false,
    }
}

/// The nearest center to `x` that a point labeled `l` may join.
pub fn nearest_allowed(
    x: &Vec<bool>,
    l: Option<LabelEnum>,
    centers: &Vec<Vec<bool>>,
    majs: &Vec<Option<LabelEnum>>,
) -> (r: Option<usize>)
    requires
        uniform_dim(seqs_of(centers@), x@.len()),
        majs.len() == centers.len(),
    ensures
        opt_int(r) == best_upto(x@, l, seqs_of(centers@), majs@, centers.len() as int),
        r matches Some(j) ==> j < centers.len(),
{
    let ghost cs = seqs_of(centers@);
    let mut best: Option<usize> = None;
    let mut best_d: usize = 0;
    let mut k: usize = 0;
    while k < centers.len()
        invariant
            k <= centers.len(),
            cs == seqs_of(centers@),
            uniform_dim(cs, x@.len()),
            majs.len() == centers.len(),
            opt_int(best) == best_upto(x@, l, cs, majs@, k as int),
            best matches Some(b) ==> b < k && best_d == hamming(x@, cs[b as int]),
        decreases centers.len() - k,
    {
        assert(cs[k as int] == centers@[k as int]@);
        assert(cs[k as int].len() == x.len());
        if !conflicts_exec(l, majs[k]) {
            let d = hamming_distance(x, &centers[k]);
            match best {
                None => {
                    best = Some(k);
                    best_d = d;
                },
                Some(b) => {
                    if d < best_d {
                        best = Some(k);
                        best_d = d;
                    }
                },
            }
        }
        k = k + 1;
    }
    best
}

/// The nearest center to `x`, with no label constraint.
pub fn nearest_center(x: &Vec<bool>, centers: &Vec<Vec<bool>>) -> (r: Option<usize>)
    requires
        uniform_dim(seqs_of(centers@), x@.len()),
    ensures
        opt_int(r) == nearest(x@, seqs_of(centers@)),
        r matches Some(j) ==> j < centers.len(),
        r.is_none() <==> centers.len() == 0,
{
    let ghost cs = seqs_of(centers@);
    let mut best: Option<usize> = None;
    let mut best_d: usize = 0;
    let mut k: usize = 0;
    while k < centers.len()
        invariant
            k <= centers.len(),
            cs == seqs_of(centers@),
            uniform_dim(cs, x@.len()),
            opt_int(best) == best_upto(x@, None, cs, Seq::empty(), k as int),
            best matches Some(b) ==> b < k && best_d == hamming(x@, cs[b as int]),
            best.is_none() <==> k == 0,
        decreases centers.len() - k,
    {
        assert(cs[k as int] == centers@[k as int]@);
        assert(cs[k as int].len() == x.len());
        let d = hamming_distance(x, &centers[k]);
        match best {
            None => {
                best = Some(k);
                best_d = d;
            },
            Some(b) => {
                if d < best_d {
                    best = Some(k);
                    best_d = d;
                }
            },
        }
        k = k + 1;
    }
    best
}

proof fn lemma_label_count_bound(
    labels: Seq<Option<LabelEnum>>,
    assign: Seq<int>,
    c: int,
    l: LabelEnum,
    k: int,
)
    requires
        0 <= k,
    ensures
        label_count_upto(labels, assign, c, l, k) <= k,
    decreases k,
{
    if k > 0 {
        lemma_label_count_bound(labels, assign, c, l, k - 1);
    }
}

fn zeros(m: usize) -> (r: Vec<usize>)
    ensures
        r@ == Seq::new(m as nat, |i: int| 0usize),
{
    let mut r: Vec<usize> = Vec::new();
    while r.len() < m
        invariant
            r.len() <= m,
            forall|i: int| 0 <= i < r.len() ==> r@[i] == 0usize,
        decreases m - r.len(),
    {
        r.push(0);
    }
    assert(r@ =~= Seq::new(m as nat, |i: int| 0usize));
    r
}

/// The majority label of each of the `m` centers under `assign`.
pub fn center_majorities(data: &Vec<LabelBoolPoint>, assign: &Vec<usize>, m: usize) -> (r: Vec<
    Option<LabelEnum>,
>)
    requires
        assign.len() == data.len(),
        forall|i: int| 0 <= i < assign.len() ==> assign@[i] < m,
    ensures
        r@ == majorities(labels_of(data@), ints_of(assign@), m as nat),
{
    let ghost labels = labels_of(data@);
    let ghost asg = ints_of(assign@);
    let mut mal = zeros(m);
    let mut acc = zeros(m);
    let mut i: usize = 0;
    while i < data.len()
        invariant
            i <= data.len(),
            assign.len() == data.len(),
            forall|q: int| 0 <= q < assign.len() ==> assign@[q] < m,
            labels == labels_of(data@),
            asg == ints_of(assign@),
            mal.len() == m,
            acc.len() == m,
            forall|c: int|
                0 <= c < m ==> mal@[c] == label_count_upto(
                    labels,
                    asg,
                    c,
                    LabelEnum::Malware,
                    i as int,
                ),
            forall|c: int|
                0 <= c < m ==> acc@[c] == label_count_upto(
                    labels,
                    asg,
                    c,
                    LabelEnum::Accept,
                    i as int,
                ),
        decreases data.len() - i,
    {
        let a = assign[i];
        proof {
            lemma_label_count_bound(labels, asg, a as int, LabelEnum::Malware, i as int);
            lemma_label_count_bound(labels, asg, a as int, LabelEnum::Accept, i as int);
        }
        match data[i].label {
            Some(LabelEnum::Malware) => {
                let v = mal[a];
                mal.set(a, v + 1);
            },
            Some(LabelEnum::Accept) => {
                let v = acc[a];
                acc.set(a, v + 1);
            },
            None => {},
        }
        i = i + 1;
    }
    let mut r: Vec<Option<LabelEnum>> = Vec::new();
    let mut c: usize = 0;
    while c < m
        invariant
            c <= m,
            mal.len() == m,
            acc.len() == m,
            labels == labels_of(data@),
            asg == ints_of(assign@),
            labels.len() == data.len(),
            r.len() == c,
            forall|q: int|
                0 <= q < m ==> mal@[q] == label_count_upto(
                    labels,
                    asg,
                    q,
                    LabelEnum::Malware,
                    labels.len() as int,
                ),
            forall|q: int|
                0 <= q < m ==> acc@[q] == label_count_upto(
                    labels,
                    asg,
                    q,
                    LabelEnum::Accept,
                    labels.len() as int,
                ),
            forall|q: int| 0 <= q < c ==> r@[q] == center_majority(labels, asg, q),
        decreases m - c,
    {
        let maj = if mal[c] > acc[c] {
            Some(LabelEnum::Malware)
        } else if acc[c] > mal[c] {
            Some(LabelEnum::Accept)
        } else {
            None
        };
        r.push(maj);
        c = c + 1;
    }
    assert(r@ =~= majorities(labels, asg, m as nat));
    r
}

/// The assignment step: each point's new center index under the label
/// constraint, before empty centers are dropped.
pub fn assignment_step(data: &Vec<LabelBoolPoint>, centers: &Vec<Vec<bool>>, assign: &Vec<usize>) -> (r:
    Vec<usize>)
    requires
        assign.len() == data.len(),
        forall|i: int| 0 <= i < assign.len() ==> assign@[i] < centers.len(),
        uniform_dim(points_of(data@), dim_of(points_of(data@))),
        uniform_dim(seqs_of(centers@), dim_of(points_of(data@))),
    ensures
        ints_of(r@) == raw_assign(
            points_of(data@),
            labels_of(data@),
            Engine { centers: seqs_of(centers@), assign: ints_of(assign@) },
        ),
        r.len() == data.len(),
        forall|i: int| 0 <= i < r.len() ==> r@[i] < centers.len(),
{
    let ghost pts = points_of(data@);
    let ghost labels = labels_of(data@);
    let ghost st = Engine { centers: seqs_of(centers@), assign: ints_of(assign@) };
    let majs = center_majorities(data, assign, centers.len());
    let mut r: Vec<usize> = Vec::new();
    let mut i: usize = 0;
    while i < data.len()
        invariant
            i <= data.len(),
            r.len() == i,
            assign.len() == data.len(),
            forall|q: int| 0 <= q < assign.len() ==> assign@[q] < centers.len(),
            pts == points_of(data@),
            labels == labels_of(data@),
            st == (Engine { centers: seqs_of(centers@), assign: ints_of(assign@) }),
            uniform_dim(pts, dim_of(pts)),
            uniform_dim(seqs_of(centers@), dim_of(pts)),
            majs@ == majorities(labels, st.assign, st.centers.len()),
            forall|q: int|
                0 <= q < i ==> r@[q] as int == choice(
                    pts[q],
                    labels[q],
                    st.centers,
                    majs@,
                    st.assign[q],
                ),
            forall|q: int| 0 <= q < i ==> r@[q] < centers.len(),
        decreases data.len() - i,
    {
        let x = &data[i].data.point;
        assert(pts[i as int] == x@);
        let best = nearest_allowed(x, data[i].label, centers, &majs);
        let j = match best {
            Some(j) => j,
            None => assign[i],
        };
        r.push(j);
        i = i + 1;
    }
    assert(ints_of(r@) =~= raw_assign(pts, labels, st));
    r
}

/// Some point below `k` was assigned to center `j`.
pub open spec fn used_upto(r: Seq<int>, j: int, k: int) -> bool
    decreases k,
{
    if k <= 0 {
        false
    } else {
        r[k - 1] == j || used_upto(r, j, k - 1)
    }
}

/// Center `j` has at least one member under `r`.
pub open spec fn used(r: Seq<int>, j: int) -> bool {
    used_upto(r, j, r.len() as int)
}

/// The centers below `m` that have members, in increasing order.
pub open spec fn used_list(r: Seq<int>, m: int) -> Seq<int>
    decreases m,
{
    if m <= 0 {
        Seq::empty()
    } else if used(r, m - 1) {
        used_list(r, m - 1).push(m - 1)
    } else {
        used_list(r, m - 1)
    }
}

/// Number of points below `k` in center `j`.
pub open spec fn member_count_upto(r: Seq<int>, j: int, k: int) -> nat
    decreases k,
{
    if k <= 0 {
        0
    } else {
        member_count_upto(r, j, k - 1) + if r[k - 1] == j { 1nat } else { 0nat }
    }
}

/// Number of points below `k` in center `j` whose coordinate `t` is set.
pub open spec fn ones_upto(pts: Seq<Seq<bool>>, r: Seq<int>, j: int, t: int, k: int) -> nat
    decreases k,
{
    if k <= 0 {
        0
    } else {
        ones_upto(pts, r, j, t, k - 1) + if r[k - 1] == j && pts[k - 1][t] {
            1nat
        } else {
            0nat
        }
    }
}

/// Majority vote of the members of center `j` on coordinate `t`; a tie
/// votes `false`.
pub open spec fn mode_bit(pts: Seq<Seq<bool>>, r: Seq<int>, j: int, t: int) -> bool {
    2 * ones_upto(pts, r, j, t, pts.len() as int) > member_count_upto(r, j, pts.len() as int)
}

/// The per-coordinate majority of the members of center `j`.
pub open spec fn mode(pts: Seq<Seq<bool>>, r: Seq<int>, j: int, d: nat) -> Seq<bool> {
    Seq::new(d, |t: int| mode_bit(pts, r, j, t))
}

/// The update step: empty centers are dropped, every remaining center
/// becomes the mode of its members, and indices are renumbered in order.
pub open spec fn compact(pts: Seq<Seq<bool>>, r: Seq<int>, m: nat, d: nat) -> Engine {
    let ul = used_list(r, m as int);
    Engine {
        centers: Seq::new(ul.len(), |q: int| mode(pts, r, ul[q], d)),
        assign: Seq::new(r.len(), |i: int| used_list(r, r[i]).len() as int),
    }
}

/// One iteration: assignment step followed by update step.
pub open spec fn step(pts: Seq<Seq<bool>>, labels: Seq<Option<LabelEnum>>, st: Engine, d: nat) -> Engine {
    compact(pts, raw_assign(pts, labels, st), st.centers.len(), d)
}

/// No point changes center in the assignment step.
pub open spec fn converged(pts: Seq<Seq<bool>>, labels: Seq<Option<LabelEnum>>, st: Engine) -> bool {
    raw_assign(pts, labels, st) == st.assign
}

/// At most `fuel` iterations, stopping after the first one in which no point
/// changed center.
pub open spec fn run(
    pts: Seq<Seq<bool>>,
    labels: Seq<Option<LabelEnum>>,
    st: Engine,
    d: nat,
    fuel: nat,
) -> Engine
    decreases fuel,
{
    if fuel == 0 {
        st
    } else if converged(pts, labels, st) {
        step(pts, labels, st, d)
    } else {
        run(pts, labels, step(pts, labels, st, d), d, (fuel - 1) as nat)
    }
}

/// Every point its own cluster.
pub open spec fn initial_engine(pts: Seq<Seq<bool>>) -> Engine {
    Engine { centers: pts, assign: Seq::new(pts.len(), |i: int| i) }
}

/// Centers of dimension `d`, and `n` assignments each naming a center.
pub open spec fn valid_engine(st: Engine, n: nat, d: nat) -> bool {
    &&& st.assign.len() == n
    &&& uniform_dim(st.centers, d)
    &&& forall|i: int| 0 <= i < n ==> 0 <= #[trigger] st.assign[i] < st.centers.len()
}

proof fn lemma_count_bounds(pts: Seq<Seq<bool>>, r: Seq<int>, j: int, t: int, k: int)
    requires
        0 <= k,
    ensures
        ones_upto(pts, r, j, t, k) <= member_count_upto(r, j, k) <= k,
    decreases k,
{
    if k > 0 {
        lemma_count_bounds(pts, r, j, t, k - 1);
    }
}

pub proof fn lemma_used_list_len(r: Seq<int>, m: int)
    requires
        0 <= m,
    ensures
        used_list(r, m).len() <= m,
    decreases m,
{
    if m > 0 {
        lemma_used_list_len(r, m - 1);
    }
}

/// A used center below `m` ranks below the number of used centers below `m`,
/// and the used list names it at its rank.
proof fn lemma_rank_used(r: Seq<int>, j: int, m: int)
    requires
        0 <= j < m,
        used(r, j),
    ensures
        used_list(r, j).len() < used_list(r, m).len(),
        used_list(r, m)[used_list(r, j).len() as int] == j,
    decreases m,
{
    if m - 1 == j {
    } else {
        lemma_rank_used(r, j, m - 1);
    }
}

proof fn lemma_used_upto_witness(r: Seq<int>, i: int, k: int)
    requires
        0 <= i < k <= r.len(),
    ensures
        used_upto(r, r[i], k),
    decreases k,
{
    if i < k - 1 {
        lemma_used_upto_witness(r, i, k - 1);
    }
}

/// Majority vote of the members of center `j` on coordinate `t`.
fn coordinate_vote(data: &Vec<LabelBoolPoint>, r: &Vec<usize>, j: usize, t: usize) -> (b: bool)
    requires
        r.len() == data.len(),
        uniform_dim(points_of(data@), dim_of(points_of(data@))),
        t < dim_of(points_of(data@)),
    ensures
        b == mode_bit(points_of(data@), ints_of(r@), j as int, t as int),
{
    let ghost pts = points_of(data@);
    let ghost ri = ints_of(r@);
    let mut ones: usize = 0;
    let mut size: usize = 0;
    let mut i: usize = 0;
    while i < data.len()
        invariant
            i <= data.len(),
            r.len() == data.len(),
            pts == points_of(data@),
            ri == ints_of(r@),
            uniform_dim(pts, dim_of(pts)),
            t < dim_of(pts),
            ones == ones_upto(pts, ri, j as int, t as int, i as int),
            size == member_count_upto(ri, j as int, i as int),
            ones <= size <= i,
        decreases data.len() - i,
    {
        proof {
            lemma_count_bounds(pts, ri, j as int, t as int, i as int + 1);
        }
        if r[i] == j {
            size = size + 1;
            assert(pts[i as int] == data@[i as int].data.point@);
            assert(pts[i as int].len() == dim_of(pts));
            if data[i].data.point[t] {
                ones = ones + 1;
            }
        }
        i = i + 1;
    }
    ones > size - ones
}

/// The per-coordinate majority of the members of center `j`.
fn cluster_mode(data: &Vec<LabelBoolPoint>, r: &Vec<usize>, j: usize, d: usize) -> (c: Vec<bool>)
    requires
        r.len() == data.len(),
        uniform_dim(points_of(data@), dim_of(points_of(data@))),
        d == dim_of(points_of(data@)),
    ensures
        c@ == mode(points_of(data@), ints_of(r@), j as int, d as nat),
{
    let mut c: Vec<bool> = Vec::new();
    let mut t: usize = 0;
    while t < d
        invariant
            t <= d,
            r.len() == data.len(),
            uniform_dim(points_of(data@), dim_of(points_of(data@))),
            d == dim_of(points_of(data@)),
            c.len() == t,
            forall|q: int|
                0 <= q < t ==> c@[q] == mode_bit(points_of(data@), ints_of(r@), j as int, q),
        decreases d - t,
    {
        let b = coordinate_vote(data, r, j, t);
        c.push(b);
        t = t + 1;
    }
    assert(c@ =~= mode(points_of(data@), ints_of(r@), j as int, d as nat));
    c
}

/// The update step on the raw assignment `r` into `m` centers.
pub fn update_step(data: &Vec<LabelBoolPoint>, r: &Vec<usize>, m: usize, d: usize) -> (res: (
    Vec<Vec<bool>>,
    Vec<usize>,
))
    requires
        r.len() == data.len(),
        forall|i: int| 0 <= i < r.len() ==> r@[i] < m,
        uniform_dim(points_of(data@), dim_of(points_of(data@))),
        d == dim_of(points_of(data@)),
    ensures
        seqs_of(res.0@) == compact(points_of(data@), ints_of(r@), m as nat, d as nat).centers,
        ints_of(res.1@) == compact(points_of(data@), ints_of(r@), m as nat, d as nat).assign,
        valid_engine(
            compact(points_of(data@), ints_of(r@), m as nat, d as nat),
            data.len() as nat,
            d as nat,
        ),
{
    let ghost pts = points_of(data@);
    let ghost ri = ints_of(r@);
    let mut flags: Vec<bool> = Vec::new();
    while flags.len() < m
        invariant
            flags.len() <= m,
            forall|q: int| 0 <= q < flags.len() ==> !flags@[q],
        decreases m - flags.len(),
    {
        flags.push(false);
    }
    let mut i: usize = 0;
    while i < r.len()
        invariant
            i <= r.len(),
            flags.len() == m,
            ri == ints_of(r@),
            forall|q: int| 0 <= q < r.len() ==> r@[q] < m,
            forall|q: int| 0 <= q < m ==> flags@[q] == used_upto(ri, q, i as int),
        decreases r.len() - i,
    {
        flags.set(r[i], true);
        i = i + 1;
    }
    let mut rank: Vec<usize> = Vec::new();
    let mut centers: Vec<Vec<bool>> = Vec::new();
    let mut cnt: usize = 0;
    let mut j: usize = 0;
    while j < m
        invariant
            j <= m,
            flags.len() == m,
            r.len() == data.len(),
            pts == points_of(data@),
            ri == ints_of(r@),
            uniform_dim(pts, dim_of(pts)),
            d == dim_of(pts),
            forall|q: int| 0 <= q < m ==> flags@[q] == used(ri, q),
            rank.len() == j,
            forall|q: int| 0 <= q < j ==> rank@[q] == used_list(ri, q).len(),
            cnt == used_list(ri, j as int).len(),
            centers.len() == cnt,
            forall|q: int|
                0 <= q < cnt ==> (#[trigger] centers@[q])@ == mode(
                    pts,
                    ri,
                    used_list(ri, j as int)[q],
                    d as nat,
                ),
        decreases m - j,
    {
        proof {
            lemma_used_list_len(ri, j as int);
        }
        rank.push(cnt);
        if flags[j] {
            let c = cluster_mode(data, r, j, d);
            centers.push(c);
            cnt = cnt + 1;
        }
        j = j + 1;
    }
    let mut na: Vec<usize> = Vec::new();
    let mut i: usize = 0;
    while i < r.len()
        invariant
            i <= r.len(),
            rank.len() == m,
            ri == ints_of(r@),
            forall|q: int| 0 <= q < r.len() ==> r@[q] < m,
            forall|q: int| 0 <= q < m ==> rank@[q] == used_list(ri, q).len(),
            na.len() == i,
            forall|q: int| 0 <= q < i ==> na@[q] == used_list(ri, ri[q]).len(),
        decreases r.len() - i,
    {
        na.push(rank[r[i]]);
        i = i + 1;
    }
    let ghost out = compact(pts, ri, m as nat, d as nat);
    assert(seqs_of(centers@) =~= out.centers);
    assert(ints_of(na@) =~= out.assign);
    assert forall|q: int| 0 <= q < data.len() implies 0 <= #[trigger] out.assign[q]
        < out.centers.len() by {
        lemma_used_upto_witness(ri, q, ri.len() as int);
        lemma_rank_used(ri, ri[q], m as int);
    }
    (centers, na)
}

fn same_indices(a: &Vec<usize>, b: &Vec<usize>) -> (r: bool)
    ensures
        r == (ints_of(a@) == ints_of(b@)),
{
    if a.len() != b.len() {
        assert(ints_of(a@).len() != ints_of(b@).len());
        return false;
    }
    let mut i: usize = 0;
    while i < a.len()
        invariant
            i <= a.len(),
            a.len() == b.len(),
            forall|q: int| 0 <= q < i ==> a@[q] == b@[q],
        decreases a.len() - i,
    {
        if a[i] != b[i] {
            assert(ints_of(a@)[i as int] != ints_of(b@)[i as int]);
            return false;
        }
        i = i + 1;
    }
    assert(ints_of(a@) =~= ints_of(b@));
    true
}

/// Trains on `data` from the singleton start for at most `eta` iterations,
/// returning the centers and each point's center index.
pub fn run_engine(data: &Vec<LabelBoolPoint>, eta: u32, d: usize) -> (res: (
    Vec<Vec<bool>>,
    Vec<usize>,
))
    requires
        uniform_dim(points_of(data@), dim_of(points_of(data@))),
        d == dim_of(points_of(data@)),
    ensures
        (Engine { centers: seqs_of(res.0@), assign: ints_of(res.1@) }) == run(
            points_of(data@),
            labels_of(data@),
            initial_engine(points_of(data@)),
            d as nat,
            eta as nat,
        ),
        valid_engine(
            Engine { centers: seqs_of(res.0@), assign: ints_of(res.1@) },
            data.len() as nat,
            d as nat,
        ),
{
    let ghost pts = points_of(data@);
    let ghost labels = labels_of(data@);
    let ghost goal = run(pts, labels, initial_engine(pts), d as nat, eta as nat);
    let mut centers: Vec<Vec<bool>> = Vec::new();
    let mut assign: Vec<usize> = Vec::new();
    let mut i: usize = 0;
    while i < data.len()
        invariant
            i <= data.len(),
            pts == points_of(data@),
            centers.len() == i,
            assign.len() == i,
            forall|q: int| 0 <= q < i ==> (#[trigger] centers@[q])@ == pts[q],
            forall|q: int| 0 <= q < i ==> assign@[q] == q,
        decreases data.len() - i,
    {
        centers.push(data[i].data.point.clone());
        assign.push(i);
        i = i + 1;
    }
    assert(seqs_of(centers@) =~= pts);
    assert(ints_of(assign@) =~= initial_engine(pts).assign);
    let mut iter: u32 = 0;
    let mut done = false;
    while iter < eta && !done
        invariant
            iter <= eta,
            pts == points_of(data@),
            labels == labels_of(data@),
            uniform_dim(pts, dim_of(pts)),
            d == dim_of(pts),
            valid_engine(
                Engine { centers: seqs_of(centers@), assign: ints_of(assign@) },
                data.len() as nat,
                d as nat,
            ),
            goal == run(pts, labels, initial_engine(pts), d as nat, eta as nat),
            done ==> goal == (Engine { centers: seqs_of(centers@), assign: ints_of(assign@) }),
            !done ==> goal == run(
                pts,
                labels,
                Engine { centers: seqs_of(centers@), assign: ints_of(assign@) },
                d as nat,
                (eta - iter) as nat,
            ),
        decreases eta - iter,
    {
        let ghost st = Engine { centers: seqs_of(centers@), assign: ints_of(assign@) };
        assert forall|q: int| 0 <= q < assign.len() implies assign@[q] < centers.len() by {
            assert(st.assign[q] == assign@[q] as int);
        }
        let raw = assignment_step(data, &centers, &assign);
        let conv = same_indices(&raw, &assign);
        let (nc, na) = update_step(data, &raw, centers.len(), d);
        centers = nc;
        assign = na;
        if conv {
            done = true;
        }
        iter = iter + 1;
    }
    (centers, assign)
}

/// One iteration never increases the number of clusters.
pub proof fn lemma_step_count_non_increasing(
    pts: Seq<Seq<bool>>,
    labels: Seq<Option<LabelEnum>>,
    st: Engine,
    d: nat,
)
    ensures
        step(pts, labels, st, d).centers.len() <= st.centers.len(),
{
    lemma_used_list_len(raw_assign(pts, labels, st), st.centers.len() as int);
}

/// A training run ends with at most as many clusters as it started with.
pub proof fn lemma_run_count_bound(
    pts: Seq<Seq<bool>>,
    labels: Seq<Option<LabelEnum>>,
    st: Engine,
    d: nat,
    fuel: nat,
)
    ensures
        run(pts, labels, st, d, fuel).centers.len() <= st.centers.len(),
    decreases fuel,
{
    if fuel > 0 {
        lemma_step_count_non_increasing(pts, labels, st, d);
        if !converged(pts, labels, st) {
            lemma_run_count_bound(pts, labels, step(pts, labels, st, d), d, (fuel - 1) as nat);
        }
    }
}

/// The cluster count never increases from one iteration to the next: a run
/// allowed one more iteration ends with at most as many clusters.
pub proof fn lemma_cluster_count_non_increasing(
    pts: Seq<Seq<bool>>,
    labels: Seq<Option<LabelEnum>>,
    st: Engine,
    d: nat,
    k: nat,
)
    ensures
        run(pts, labels, st, d, k + 1).centers.len() <= run(pts, labels, st, d, k).centers.len(),
    decreases k,
{
    let next = step(pts, labels, st, d);
    lemma_step_count_non_increasing(pts, labels, st, d);
    assert(((k + 1) - 1) as nat == k);
    if !converged(pts, labels, st) {
        assert(run(pts, labels, st, d, k + 1) == run(pts, labels, next, d, k));
        if k == 0 {
            assert(run(pts, labels, next, d, 0) == next);
        } else {
            lemma_cluster_count_non_increasing(pts, labels, next, d, (k - 1) as nat);
            assert(run(pts, labels, st, d, k) == run(pts, labels, next, d, (k - 1) as nat));
            assert((((k - 1) as nat) + 1) as nat == k);
        }
    }
}

proof fn lemma_best_bound(
    x: Seq<bool>,
    l: Option<LabelEnum>,
    centers: Seq<Seq<bool>>,
    majs: Seq<Option<LabelEnum>>,
    k: int,
)
    ensures
        best_upto(x, l, centers, majs, k) matches Some(j) ==> 0 <= j < k,
    decreases k,
{
    if k > 0 {
        lemma_best_bound(x, l, centers, majs, k - 1);
    }
}

/// The singleton start is a valid engine state.
pub proof fn lemma_initial_valid(pts: Seq<Seq<bool>>, d: nat)
    requires
        uniform_dim(pts, d),
    ensures
        valid_engine(initial_engine(pts), pts.len(), d),
{
}

/// An iteration keeps the engine state valid.
pub proof fn lemma_step_valid(pts: Seq<Seq<bool>>, labels: Seq<Option<LabelEnum>>, st: Engine, d: nat)
    requires
        valid_engine(st, pts.len(), d),
    ensures
        valid_engine(step(pts, labels, st, d), pts.len(), d),
{
    let majs = majorities(labels, st.assign, st.centers.len());
    let r = raw_assign(pts, labels, st);
    let m = st.centers.len() as int;
    let out = step(pts, labels, st, d);
    assert forall|i: int| 0 <= i < pts.len() implies 0 <= #[trigger] out.assign[i]
        < out.centers.len() by {
        lemma_best_bound(pts[i], labels[i], st.centers, majs, m);
        assert(0 <= r[i] < m);
        lemma_used_upto_witness(r, i, r.len() as int);
        lemma_rank_used(r, r[i], m);
    }
}

/// A run keeps the engine state valid.
pub proof fn lemma_run_valid(
    pts: Seq<Seq<bool>>,
    labels: Seq<Option<LabelEnum>>,
    st: Engine,
    d: nat,
    fuel: nat,
)
    requires
        valid_engine(st, pts.len(), d),
    ensures
        valid_engine(run(pts, labels, st, d, fuel), pts.len(), d),
    decreases fuel,
{
    if fuel > 0 {
        lemma_step_valid(pts, labels, st, d);
        if !converged(pts, labels, st) {
            lemma_run_valid(pts, labels, step(pts, labels, st, d), d, (fuel - 1) as nat);
        }
    }
}

/// Every point carries a label.
pub open spec fn fully_labeled(labels: Seq<Option<LabelEnum>>) -> bool {
    forall|i: int| 0 <= i < labels.len() ==> (#[trigger] labels[i]) is Some
}

/// No cluster holds two points with different labels.
pub open spec fn pure_clusters(labels: Seq<Option<LabelEnum>>, assign: Seq<int>) -> bool {
    forall|i: int, k: int|
        0 <= i < assign.len() && 0 <= k < assign.len() && #[trigger] assign[i] == #[trigger] assign[k]
            ==> labels[i] == labels[k]
}

/// Every center has a member.
pub open spec fn all_used(st: Engine) -> bool {
    forall|j: int| 0 <= j < st.centers.len() ==> #[trigger] used(st.assign, j)
}

proof fn lemma_used_witness(r: Seq<int>, j: int, k: int) -> (w: int)
    requires
        used_upto(r, j, k),
    ensures
        0 <= w < k,
        r[w] == j,
    decreases k,
{
    if r[k - 1] == j {
        k - 1
    } else {
        lemma_used_witness(r, j, k - 1)
    }
}

proof fn lemma_label_count_pos(
    labels: Seq<Option<LabelEnum>>,
    assign: Seq<int>,
    c: int,
    l: LabelEnum,
    w: int,
    k: int,
)
    requires
        0 <= w < k,
        assign[w] == c,
        labels[w] == Some(l),
    ensures
        label_count_upto(labels, assign, c, l, k) >= 1,
    decreases k,
{
    if w < k - 1 {
        lemma_label_count_pos(labels, assign, c, l, w, k - 1);
    }
}

proof fn lemma_label_count_zero(
    labels: Seq<Option<LabelEnum>>,
    assign: Seq<int>,
    c: int,
    l: LabelEnum,
    k: int,
)
    requires
        forall|i: int| 0 <= i < k && assign[i] == c ==> labels[i] != Some(l),
    ensures
        label_count_upto(labels, assign, c, l, k) == 0,
    decreases k,
{
    if k > 0 {
        lemma_label_count_zero(labels, assign, c, l, k - 1);
    }
}

/// In a pure cluster of labeled points, the majority is the members' label.
proof fn lemma_pure_majority(labels: Seq<Option<LabelEnum>>, assign: Seq<int>, c: int, w: int)
    requires
        assign.len() == labels.len(),
        fully_labeled(labels),
        pure_clusters(labels, assign),
        0 <= w < assign.len(),
        assign[w] == c,
    ensures
        center_majority(labels, assign, c) == labels[w],
{
    let n = labels.len() as int;
    let l = labels[w]->0;
    let other = if l == LabelEnum::Malware {
        LabelEnum::Accept
    } else {
        LabelEnum::Malware
    };
    lemma_label_count_pos(labels, assign, c, l, w, n);
    assert forall|i: int| 0 <= i < n && assign[i] == c implies labels[i] != Some(other) by {
        assert(assign[i] == assign[w]);
    }
    lemma_label_count_zero(labels, assign, c, other, n);
}

proof fn lemma_best_some(
    x: Seq<bool>,
    l: Option<LabelEnum>,
    centers: Seq<Seq<bool>>,
    majs: Seq<Option<LabelEnum>>,
    j: int,
    k: int,
)
    requires
        0 <= j < k,
        !conflicts(l, majs[j]),
    ensures
        best_upto(x, l, centers, majs, k) is Some,
    decreases k,
{
    if j < k - 1 {
        lemma_best_some(x, l, centers, majs, j, k - 1);
    }
}

proof fn lemma_best_allowed(
    x: Seq<bool>,
    l: Option<LabelEnum>,
    centers: Seq<Seq<bool>>,
    majs: Seq<Option<LabelEnum>>,
    k: int,
)
    ensures
        best_upto(x, l, centers, majs, k) matches Some(j) ==> !conflicts(l, majs[j]),
    decreases k,
{
    if k > 0 {
        lemma_best_allowed(x, l, centers, majs, k - 1);
    }
}

/// Each used center of the compacted list sits at its rank.
proof fn lemma_used_list_entry(r: Seq<int>, m: int, q: int)
    requires
        0 <= q < used_list(r, m).len(),
    ensures
        0 <= used_list(r, m)[q] < m,
        used(r, used_list(r, m)[q]),
        used_list(r, used_list(r, m)[q]).len() == q,
    decreases m,
{
    if q < used_list(r, m - 1).len() {
        lemma_used_list_entry(r, m - 1, q);
    }
}

/// An iteration over a fully labeled dataset keeps clusters pure and
/// every center in use.
proof fn lemma_step_pure(pts: Seq<Seq<bool>>, labels: Seq<Option<LabelEnum>>, st: Engine, d: nat)
    requires
        labels.len() == pts.len(),
        fully_labeled(labels),
        valid_engine(st, pts.len(), d),
        pure_clusters(labels, st.assign),
        all_used(st),
    ensures
        pure_clusters(labels, step(pts, labels, st, d).assign),
        all_used(step(pts, labels, st, d)),
{
    let n = pts.len() as int;
    let m = st.centers.len() as int;
    let majs = majorities(labels, st.assign, st.centers.len());
    let r = raw_assign(pts, labels, st);
    let out = step(pts, labels, st, d);
    assert forall|i: int| 0 <= i < n implies 0 <= #[trigger] r[i] < m && labels[i] == majs[r[i]] by {
        lemma_pure_majority(labels, st.assign, st.assign[i], i);
        lemma_best_some(pts[i], labels[i], st.centers, majs, st.assign[i], m);
        lemma_best_allowed(pts[i], labels[i], st.centers, majs, m);
        lemma_best_bound(pts[i], labels[i], st.centers, majs, m);
        let j = r[i];
        assert(j == choice(pts[i], labels[i], st.centers, majs, st.assign[i]));
        assert(0 <= j < m);
        assert(used(st.assign, j));
        let w = lemma_used_witness(st.assign, j, n);
        lemma_pure_majority(labels, st.assign, j, w);
    }
    assert forall|i: int, k: int|
        0 <= i < n && 0 <= k < n && #[trigger] out.assign[i] == #[trigger] out.assign[k] implies labels[i]
        == labels[k] by {
        lemma_used_upto_witness(r, i, n);
        lemma_used_upto_witness(r, k, n);
        if r[i] < r[k] {
            lemma_rank_used(r, r[i], r[k]);
        } else if r[k] < r[i] {
            lemma_rank_used(r, r[k], r[i]);
        }
    }
    assert forall|q: int| 0 <= q < out.centers.len() implies #[trigger] used(out.assign, q) by {
        lemma_used_list_entry(r, m, q);
        let j = used_list(r, m)[q];
        let w = lemma_used_witness(r, j, n);
        assert(out.assign[w] == q);
        lemma_used_upto_witness(out.assign, w, n);
    }
}

proof fn lemma_run_pure(
    pts: Seq<Seq<bool>>,
    labels: Seq<Option<LabelEnum>>,
    st: Engine,
    d: nat,
    fuel: nat,
)
    requires
        labels.len() == pts.len(),
        fully_labeled(labels),
        valid_engine(st, pts.len(), d),
        pure_clusters(labels, st.assign),
        all_used(st),
    ensures
        pure_clusters(labels, run(pts, labels, st, d, fuel).assign),
    decreases fuel,
{
    if fuel > 0 {
        lemma_step_pure(pts, labels, st, d);
        lemma_step_valid(pts, labels, st, d);
        if !converged(pts, labels, st) {
            lemma_run_pure(pts, labels, step(pts, labels, st, d), d, (fuel - 1) as nat);
        }
    }
}

/// On a dataset where every point is labeled, training never puts a
/// `Malware` point and an `Accept` point in one cluster.
pub proof fn lemma_fully_labeled_clusters_pure(
    pts: Seq<Seq<bool>>,
    labels: Seq<Option<LabelEnum>>,
    fuel: nat,
)
    requires
        labels.len() == pts.len(),
        fully_labeled(labels),
        uniform_dim(pts, dim_of(pts)),
    ensures
        pure_clusters(labels, run(pts, labels, initial_engine(pts), dim_of(pts), fuel).assign),
{
    let st = initial_engine(pts);
    assert forall|j: int| 0 <= j < st.centers.len() implies #[trigger] used(st.assign, j) by {
        lemma_used_upto_witness(st.assign, j, pts.len() as int);
    }
    lemma_run_pure(pts, labels, st, dim_of(pts), fuel);
}

} // verus!

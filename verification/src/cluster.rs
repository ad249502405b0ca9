//! Speakers by clustering: which segments belong together, and how clusters are numbered.
//!
//! Distances and similarities are single-precision numbers. They are handed over by their bit
//! patterns and compared as the numbers that they are.
use crate::tensor::MINUS_INFINITY;
use vstd::prelude::*;
use vstd::set_lib::{lemma_int_range, lemma_map_size, lemma_subset_equality, set_int_range};

verus! {

// ---------------------------------------------------------------------------
// Numbers by their bit patterns
// ---------------------------------------------------------------------------

/// The bit pattern of minus one.
pub const MINUS_ONE: u32 = 0xBF80_0000;

/// Where a single-precision number stands among all of them, by its bit pattern: its magnitude with
/// its sign. Nothing for a pattern that is not a number.
pub open spec fn order_key(bits: u32) -> Option<int> {
    let magnitude = bits as int % 0x8000_0000;
    if magnitude > 0x7F80_0000 {
        None
    } else if bits as int >= 0x8000_0000 {
        Some(-magnitude)
    } else {
        Some(magnitude)
    }
}

/// The first number is greater. It is not where either one is not a number.
pub open spec fn exceeds(a: u32, b: u32) -> bool {
    match (order_key(a), order_key(b)) {
        (Some(x), Some(y)) => x > y,
        _ => false,
    }
}

/// Whether the first number is greater.
pub fn is_greater(a: u32, b: u32) -> (r: bool)
    ensures
        r == exceeds(a, b),
{
    let ma: i64 = (a % 0x8000_0000) as i64;
    let mb: i64 = (b % 0x8000_0000) as i64;
    if ma > 0x7F80_0000 || mb > 0x7F80_0000 {
        return false;
    }
    let ka: i64 = if a >= 0x8000_0000 {
        -ma
    } else {
        ma
    };
    let kb: i64 = if b >= 0x8000_0000 {
        -mb
    } else {
        mb
    };
    ka > kb
}

/// The position that a search for the greatest number comes to: it starts with position zero and a
/// floor, and moves on to every number that is greater than what was found so far.
pub open spec fn greatest_from(values: Seq<u32>, n: int, floor: u32) -> (int, u32)
    decreases n,
{
    if n <= 0 {
        (0, floor)
    } else {
        let (i, best) = greatest_from(values, n - 1, floor);
        if exceeds(values[n - 1], best) {
            (n - 1, values[n - 1])
        } else {
            (i, best)
        }
    }
}

/// The search ends at a first greatest number above the floor, or at position zero where there is
/// none.
pub proof fn law_search_finds_the_greatest(values: Seq<u32>, n: int, floor: u32)
    requires
        0 <= n <= values.len(),
        order_key(floor) is Some,
    ensures
        ({
            let (i, best) = greatest_from(values, n, floor);
            &&& order_key(best) is Some
            &&& forall|j: int| 0 <= j < n ==> !exceeds(#[trigger] values[j], best)
            &&& if exists|j: int| 0 <= j < n && exceeds(#[trigger] values[j], floor) {
                &&& 0 <= i < n
                &&& values[i] == best
                &&& exceeds(best, floor)
                &&& forall|j: int| 0 <= j < i ==> !(order_key(#[trigger] values[j]) == order_key(
                    best,
                ))
            } else {
                i == 0 && best == floor
            }
        }),
    decreases n,
{
    if n > 0 {
        law_search_finds_the_greatest(values, n - 1, floor);
        let (i, best) = greatest_from(values, n - 1, floor);
        if exceeds(values[n - 1], best) {
            assert forall|j: int| 0 <= j < n - 1 implies !(order_key(#[trigger] values[j])
                == order_key(values[n - 1])) by {
                assert(!exceeds(values[j], best));
            }
            assert(exceeds(values[n - 1], floor));
        } else if exists|j: int| 0 <= j < n && exceeds(#[trigger] values[j], floor) {
            let j = choose|j: int| 0 <= j < n && exceeds(#[trigger] values[j], floor);
            if j == n - 1 {
                if !(exists|k: int| 0 <= k < n - 1 && exceeds(#[trigger] values[k], floor)) {
                    assert(best == floor);
                }
            }
        } else {
            if exists|k: int| 0 <= k < n - 1 && exceeds(#[trigger] values[k], floor) {
                let k = choose|k: int| 0 <= k < n - 1 && exceeds(#[trigger] values[k], floor);
                assert(exceeds(values[k], floor));
            }
        }
    }
}

/// The first greatest number above a floor, by its position; position zero where there is none.
pub fn first_greatest(values: &[u32], floor: u32) -> (r: usize)
    ensures
        r == greatest_from(values@, values@.len() as int, floor).0,
        values@.len() > 0 ==> r < values@.len(),
{
    let n: usize = values.len();
    let mut best_i: usize = 0;
    let mut best: u32 = floor;
    let mut i: usize = 0;
    while i < n
        invariant
            i <= n == values@.len(),
            best_i == greatest_from(values@, i as int, floor).0,
            best == greatest_from(values@, i as int, floor).1,
            best_i == 0 || best_i < i,
        decreases n - i,
    {
        if is_greater(values[i], best) {
            best = values[i];
            best_i = i;
        }
        i += 1;
    }
    best_i
}

/// The point that is farthest from all centroids. Distances are one minus a cosine.
pub fn farthest_point(distances: &[u32]) -> (r: usize)
    ensures
        r == greatest_from(distances@, distances@.len() as int, MINUS_ONE).0,
        distances@.len() > 0 ==> r < distances@.len(),
{
    first_greatest(distances, MINUS_ONE)
}

/// The centroid that is most similar to a point.
pub fn nearest_centroid(similarities: &[u32]) -> (r: usize)
    ensures
        r == greatest_from(similarities@, similarities@.len() as int, MINUS_INFINITY).0,
        similarities@.len() > 0 ==> r < similarities@.len(),
{
    first_greatest(similarities, MINUS_INFINITY)
}

// ---------------------------------------------------------------------------
// k-means
// ---------------------------------------------------------------------------

/// The choice of the points that clustering starts from.
pub struct Seeding {
    /// Number of clusters.
    pub k: usize,
    /// The points so far, in the order in which they were chosen.
    pub seeds: Vec<usize>,
}

impl Seeding {
    /// At least one point is chosen, and no more than there are clusters.
    pub open spec fn wf(self) -> bool {
        1 <= self.seeds@.len() && (self.seeds@.len() == 1 || self.seeds@.len() <= self.k)
    }

    /// The first point is chosen.
    pub fn new(k: usize) -> (r: Seeding)
        ensures
            r.wf(),
            r.k == k,
            r.seeds@ == seq![0usize],
    {
        let seeds: Vec<usize> = vec![0];
        assert(seeds@ =~= seq![0usize]);
        Seeding { k, seeds }
    }

    /// Whether as many points were chosen as there are clusters.
    pub fn done(&self) -> (r: bool)
        ensures
            r == (self.seeds@.len() >= self.k),
    {
        self.seeds.len() >= self.k
    }

    /// Chooses the point that is farthest from those chosen before, by the distance of each point from
    /// the nearest of them.
    pub fn choose_next(&mut self, distances: &[u32])
        requires
            old(self).wf(),
            old(self).seeds@.len() < old(self).k,
        ensures
            final(self).wf(),
            final(self).k == old(self).k,
            final(self).seeds@ == old(self).seeds@.push(
                greatest_from(distances@, distances@.len() as int, MINUS_ONE).0 as usize,
            ),
            distances@.len() > 0 ==> final(self).seeds@.last() < distances@.len(),
    {
        self.seeds.push(farthest_point(distances));
    }
}

/// What becomes of a centroid after points were assigned.
#[derive(Debug, Clone, Copy, PartialEq, Eq, Structural)]
pub enum CentroidUpdate {
    /// It becomes the normalized mean of this many points.
    Mean { count: usize },
    /// No point belongs to it: it becomes the point that is farthest from the centroids as they are.
    Farthest,
}

/// Clustering between two rounds.
pub struct KMeans {
    /// Number of clusters.
    pub k: usize,
    /// Greatest number of rounds.
    pub max_iter: usize,
    /// Rounds so far.
    pub rounds: usize,
    /// The cluster of each point.
    pub assign: Vec<usize>,
    /// Whether the last round changed nothing.
    pub converged: bool,
}

/// The centroids that points are assigned to: for each one the most similar centroid.
pub open spec fn nearest_all(similarities: Seq<Vec<u32>>) -> Seq<usize> {
    similarities.map_values(
        |s: Vec<u32>| greatest_from(s@, s@.len() as int, MINUS_INFINITY).0 as usize,
    )
}

/// How many points belong to a cluster.
pub open spec fn member_count(assign: Seq<usize>, c: usize) -> nat
    decreases assign.len(),
{
    if assign.len() == 0 {
        0
    } else {
        member_count(assign.drop_last(), c) + if assign.last() == c {
            1nat
        } else {
            0
        }
    }
}

/// What becomes of the centroids for an assignment.
pub open spec fn updates_for(assign: Seq<usize>, k: nat) -> Seq<CentroidUpdate> {
    Seq::new(
        k,
        |c: int|
            if member_count(assign, c as usize) == 0 {
                CentroidUpdate::Farthest
            } else {
                CentroidUpdate::Mean { count: member_count(assign, c as usize) as usize }
            },
    )
}

fn same_assignment(a: &Vec<usize>, b: &Vec<usize>) -> (r: bool)
    ensures
        r == (a@ == b@),
{
    if a.len() != b.len() {
        return false;
    }
    let mut i: usize = 0;
    while i < a.len()
        invariant
            a@.len() == b@.len(),
            i <= a@.len(),
            forall|j: int| 0 <= j < i ==> a@[j] == b@[j],
        decreases a@.len() - i,
    {
        if a[i] != b[i] {
            return false;
        }
        i += 1;
    }
    assert(a@ =~= b@);
    true
}

fn count_members(assign: &Vec<usize>, k: usize) -> (r: Vec<CentroidUpdate>)
    ensures
        r@ == updates_for(assign@, k as nat),
{
    let mut out: Vec<CentroidUpdate> = Vec::new();
    let n: usize = assign.len();
    let mut c: usize = 0;
    while c < k
        invariant
            c <= k,
            n == assign@.len(),
            out@ == updates_for(assign@, c as nat),
        decreases k - c,
    {
        let mut count: usize = 0;
        let mut i: usize = 0;
        assert(assign@.take(0).len() == 0);
        while i < n
            invariant
                i <= n == assign@.len(),
                count == member_count(assign@.take(i as int), c),
                count <= i,
            decreases n - i,
        {
            proof {
                assert(assign@.take(i + 1).drop_last() =~= assign@.take(i as int));
                assert(assign@.take(i + 1).last() == assign@[i as int]);
            }
            if assign[i] == c {
                count = count + 1;
            }
            i += 1;
        }
        assert(assign@.take(n as int) =~= assign@);
        out.push(
            if count == 0 {
                CentroidUpdate::Farthest
            } else {
                CentroidUpdate::Mean { count }
            },
        );
        assert(out@ =~= updates_for(assign@, c as nat + 1));
        c += 1;
    }
    assert(out@ =~= updates_for(assign@, k as nat));
    out
}

impl KMeans {
    /// Every point has a cluster.
    pub open spec fn wf(self) -> bool {
        &&& self.rounds <= self.max_iter
        &&& forall|i: int|
            0 <= i < self.assign@.len() ==> #[trigger] self.assign@[i] < self.k || self.assign@[i]
                == 0
    }

    /// Clustering is over: nothing changes any more, the rounds are used up, or there is nothing to
    /// decide.
    pub open spec fn is_done(self) -> bool {
        self.converged || self.rounds >= self.max_iter || self.k <= 1 || self.assign@.len() == 0
    }

    /// Before the first round, with all points in the first cluster.
    pub fn new(points: usize, k: usize, max_iter: usize) -> (r: KMeans)
        ensures
            r.wf(),
            r.k == k,
            r.max_iter == max_iter,
            r.rounds == 0,
            r.converged == false,
            r.assign@ == Seq::new(points as nat, |i: int| 0usize),
    {
        let mut assign: Vec<usize> = Vec::new();
        let mut i: usize = 0;
        while i < points
            invariant
                i <= points,
                assign@ == Seq::new(i as nat, |j: int| 0usize),
            decreases points - i,
        {
            assign.push(0);
            assert(assign@ =~= Seq::new(i as nat + 1, |j: int| 0usize));
            i += 1;
        }
        KMeans { k, max_iter, rounds: 0, assign, converged: false }
    }

    /// Whether clustering is over.
    pub fn done(&self) -> (r: bool)
        ensures
            r == self.is_done(),
    {
        self.converged || self.rounds >= self.max_iter || self.k <= 1 || self.assign.len() == 0
    }

    /// One round: assigns each point to its most similar centroid. Tells what becomes of the
    /// centroids, or nothing where the assignment did not change since the round before.
    pub fn assign_points(&mut self, similarities: &Vec<Vec<u32>>) -> (r: Option<
        Vec<CentroidUpdate>,
    >)
        requires
            old(self).wf(),
            !old(self).is_done(),
            similarities@.len() == old(self).assign@.len(),
            forall|i: int|
                0 <= i < similarities@.len() ==> (#[trigger] similarities@[i])@.len() == old(
                    self,
                ).k,
        ensures
            final(self).wf(),
            final(self).k == old(self).k,
            final(self).max_iter == old(self).max_iter,
            final(self).rounds == old(self).rounds + 1,
            final(self).assign@ == nearest_all(similarities@),
            final(self).converged == (old(self).rounds > 0 && final(self).assign@ == old(
                self,
            ).assign@),
            match r {
                Some(updates) => !final(self).converged && updates@ == updates_for(
                    final(self).assign@,
                    final(self).k as nat,
                ),
                None => final(self).converged,
            },
    {
        let n: usize = similarities.len();
        let mut next: Vec<usize> = Vec::new();
        let mut i: usize = 0;
        let ghost k = self.k;
        while i < n
            invariant
                i <= n == similarities@.len(),
                k > 1,
                forall|j: int|
                    0 <= j < similarities@.len() ==> (#[trigger] similarities@[j])@.len() == k,
                next@.len() == i,
                forall|j: int|
                    0 <= j < i ==> #[trigger] next@[j] == nearest_all(similarities@)[j] && next@[j]
                        < k,
            decreases n - i,
        {
            assert(similarities@[i as int]@.len() == k);
            let c = nearest_centroid(similarities[i].as_slice());
            next.push(c);
            i += 1;
        }
        assert(next@ =~= nearest_all(similarities@));
        let unchanged = self.rounds > 0 && same_assignment(&next, &self.assign);
        self.assign = next;
        self.rounds = self.rounds + 1;
        self.converged = unchanged;
        if unchanged {
            None
        } else {
            Some(count_members(&self.assign, self.k))
        }
    }
}

/// The number of points that updates are made of.
pub open spec fn points_used(updates: Seq<CentroidUpdate>) -> int
    decreases updates.len(),
{
    if updates.len() == 0 {
        0
    } else {
        points_used(updates.drop_last()) + match updates.last() {
            CentroidUpdate::Mean { count } => count as int,
            CentroidUpdate::Farthest => 0,
        }
    }
}

/// The updates of a round account for every point: the counts of the means add up to the number of
/// points.
pub proof fn law_every_point_is_counted(assign: Seq<usize>, k: nat)
    requires
        forall|i: int| 0 <= i < assign.len() ==> #[trigger] assign[i] < k,
        assign.len() <= usize::MAX,
        k <= usize::MAX,
    ensures
        points_used(updates_for(assign, k)) == assign.len(),
{
    lemma_all_counted(assign, k);
    lemma_used_points(assign, k);
}

proof fn lemma_used_points(assign: Seq<usize>, k: nat)
    requires
        assign.len() <= usize::MAX,
        k <= usize::MAX,
    ensures
        points_used(updates_for(assign, k)) == counted(assign, k),
    decreases k,
{
    let u = updates_for(assign, k);
    if k > 0 {
        lemma_used_points(assign, (k - 1) as nat);
        lemma_member_count_bound(assign, (k - 1) as usize);
        assert(u.drop_last() =~= updates_for(assign, (k - 1) as nat));
    }
}

proof fn lemma_member_count_bound(assign: Seq<usize>, c: usize)
    ensures
        member_count(assign, c) <= assign.len(),
    decreases assign.len(),
{
    if assign.len() > 0 {
        lemma_member_count_bound(assign.drop_last(), c);
    }
}

proof fn lemma_all_counted(assign: Seq<usize>, k: nat)
    requires
        forall|i: int| 0 <= i < assign.len() ==> #[trigger] assign[i] < k,
        k <= usize::MAX,
    ensures
        counted(assign, k) == assign.len(),
    decreases assign.len(),
{
    if assign.len() > 0 {
        lemma_all_counted(assign.drop_last(), k);
        lemma_counted_step(assign, k);
    } else {
        lemma_counted_empty(assign, k);
    }
}

/// The sizes of the first `k` clusters together.
pub open spec fn counted(assign: Seq<usize>, k: nat) -> nat
    decreases k,
{
    if k == 0 {
        0
    } else {
        counted(assign, (k - 1) as nat) + member_count(assign, (k - 1) as usize)
    }
}

proof fn lemma_counted_empty(assign: Seq<usize>, k: nat)
    requires
        assign.len() == 0,
    ensures
        counted(assign, k) == 0,
    decreases k,
{
    if k > 0 {
        lemma_counted_empty(assign, (k - 1) as nat);
    }
}

proof fn lemma_counted_step(assign: Seq<usize>, k: nat)
    requires
        assign.len() > 0,
        k <= usize::MAX,
    ensures
        counted(assign, k) == counted(assign.drop_last(), k) + if assign.last() < k {
            1nat
        } else {
            0
        },
    decreases k,
{
    if k > 0 {
        lemma_counted_step(assign, (k - 1) as nat);
    }
}

// ---------------------------------------------------------------------------
// The task as a whole
// ---------------------------------------------------------------------------

/// How segments get their speakers.
#[derive(Debug, Clone, Copy, PartialEq, Eq, Structural)]
pub enum ClusterPlan {
    /// There is nothing to do.
    Nothing,
    /// All segments have the first speaker.
    OneSpeaker,
    /// Segments are clustered into this many clusters.
    Clusters { k: usize },
}

/// Speakers were asked for, but none of them.
#[derive(Debug, Clone, Copy, PartialEq, Eq, Structural)]
pub struct NoSpeakers;

/// How segments get their speakers.
pub open spec fn cluster_plan(num_speakers: usize, segments: usize) -> Result<
    ClusterPlan,
    NoSpeakers,
> {
    if num_speakers == 0 {
        Err(NoSpeakers)
    } else if segments == 0 {
        Ok(ClusterPlan::Nothing)
    } else if num_speakers == 1 || segments == 1 {
        Ok(ClusterPlan::OneSpeaker)
    } else if num_speakers < segments {
        Ok(ClusterPlan::Clusters { k: num_speakers })
    } else {
        Ok(ClusterPlan::Clusters { k: segments })
    }
}

/// There are as many clusters as speakers that were asked for, but no more than segments; clustering is done
/// only where there are at least two. Nobody is refused but by asking for no speakers, and that even where
/// there are no segments.
pub proof fn law_clusters_are_as_many_as_asked_for(num_speakers: usize, segments: usize)
    ensures
        cluster_plan(num_speakers, segments) is Err <==> num_speakers == 0,
        cluster_plan(num_speakers, segments) matches Ok(ClusterPlan::Clusters { k }) ==> {
            &&& 2 <= k
            &&& k <= num_speakers && k <= segments
            &&& k == num_speakers || k == segments
        },
        num_speakers >= 2 && segments >= 2 ==> cluster_plan(num_speakers, segments) matches Ok(
            ClusterPlan::Clusters { k },
        ),
        num_speakers >= 1 ==> (cluster_plan(num_speakers, segments) == Ok::<
            ClusterPlan,
            NoSpeakers,
        >(ClusterPlan::Nothing) <==> segments == 0),
{
}

/// Decides how segments get their speakers.
pub fn plan_clusters(num_speakers: usize, segments: usize) -> (r: Result<ClusterPlan, NoSpeakers>)
    ensures
        r == cluster_plan(num_speakers, segments),
        r == if num_speakers == 0 {
            Err::<ClusterPlan, NoSpeakers>(NoSpeakers)
        } else if segments == 0 {
            Ok(ClusterPlan::Nothing)
        } else if num_speakers == 1 || segments == 1 {
            Ok(ClusterPlan::OneSpeaker)
        } else {
            Ok(
                ClusterPlan::Clusters {
                    k: if num_speakers < segments {
                        num_speakers
                    } else {
                        segments
                    },
                },
            )
        },
{
    if num_speakers == 0 {
        return Err(NoSpeakers);
    }
    if segments == 0 {
        return Ok(ClusterPlan::Nothing);
    }
    if num_speakers == 1 || segments == 1 {
        return Ok(ClusterPlan::OneSpeaker);
    }
    Ok(
        ClusterPlan::Clusters {
            k: if num_speakers < segments {
                num_speakers
            } else {
                segments
            },
        },
    )
}

/// A position, but no more than a limit.
pub open spec fn at_most(i: usize, limit: usize) -> usize {
    if i < limit {
        i
    } else {
        limit
    }
}

/// The part of a segment that lies within the samples, if it is not empty.
pub open spec fn clipped(start: usize, end: usize, samples: usize) -> Option<(usize, usize)> {
    if at_most(start, samples) < at_most(end, samples) {
        Some((at_most(start, samples), at_most(end, samples)))
    } else {
        None
    }
}

/// A position lies in what is left of a segment exactly where it lies in the segment and within the samples.
/// Nothing is left where there is no such position.
pub proof fn law_clipping_keeps_the_samples(start: usize, end: usize, samples: usize, at: usize)
    ensures
        start <= at < end && at < samples <==> (clipped(start, end, samples) matches Some(part)
            && part.0 <= at < part.1),
        clipped(start, end, samples) matches Some(part) ==> part.0 < part.1 <= samples,
{
}

/// The part of a segment that lies within the samples, if it is not empty.
pub fn clip_segment(start: usize, end: usize, samples: usize) -> (r: Option<(usize, usize)>)
    ensures
        r == clipped(start, end, samples),
        r == if at_most(start, samples) < at_most(end, samples) {
            Some((at_most(start, samples), at_most(end, samples)))
        } else {
            None::<(usize, usize)>
        },
{
    let s: usize = if start < samples {
        start
    } else {
        samples
    };
    let e: usize = if end < samples {
        end
    } else {
        samples
    };
    if e <= s {
        None
    } else {
        Some((s, e))
    }
}

/// Where mel filters come from: from a file only where there is one and the sample rate is the one
/// that it was made for.
pub fn filters_from_file(file_exists: bool, sample_rate: usize) -> (r: bool)
    ensures
        r == (file_exists && sample_rate == 16000),
{
    file_exists && sample_rate == 16000
}

// ---------------------------------------------------------------------------
// Numbering
// ---------------------------------------------------------------------------

/// The least start among the segments of a cluster; the greatest number for a cluster without any.
pub open spec fn first_start(segments: Seq<(usize, usize)>, assign: Seq<usize>, c: int) -> usize
    decreases segments.len(),
{
    if segments.len() == 0 || assign.len() == 0 {
        usize::MAX
    } else {
        let before = first_start(segments.drop_last(), assign.drop_last(), c);
        if assign.last() == c && segments.last().0 < before {
            segments.last().0
        } else {
            before
        }
    }
}

/// As many segments as there are assignments.
pub open spec fn matched<T>(s: Seq<T>, n: int) -> Seq<T> {
    if s.len() <= n {
        s
    } else {
        s.take(n)
    }
}

/// The starts of the first `k` clusters.
pub open spec fn cluster_starts(segments: Seq<(usize, usize)>, assign: Seq<usize>, k: nat) -> Seq<
    usize,
> {
    Seq::new(
        k,
        |c: int|
            first_start(
                matched(segments, assign.len() as int),
                matched(assign, segments.len() as int),
                c,
            ),
    )
}

/// Cluster `a` comes before cluster `b`: it starts earlier, or at the same time with a lesser number.
pub open spec fn comes_before(starts: Seq<usize>, a: int, b: int) -> bool {
    starts[a] < starts[b] || (starts[a] == starts[b] && a < b)
}

/// How many of the first `n` clusters come before cluster `c`.
pub open spec fn place(starts: Seq<usize>, c: int, n: int) -> nat
    decreases n,
{
    if n <= 0 {
        0
    } else {
        place(starts, c, n - 1) + if comes_before(starts, n - 1, c) {
            1nat
        } else {
            0
        }
    }
}

/// The new number of a cluster: its place in the order of the first starts.
pub open spec fn new_number(starts: Seq<usize>, c: int) -> nat {
    place(starts, c, starts.len() as int)
}

proof fn lemma_place_monotone(starts: Seq<usize>, a: int, b: int, n: int)
    requires
        comes_before(starts, a, b),
        0 <= n,
    ensures
        place(starts, a, n) <= place(starts, b, n),
        0 <= a < n ==> place(starts, a, n) < place(starts, b, n),
    decreases n,
{
    if n > 0 {
        lemma_place_monotone(starts, a, b, n - 1);
    }
}

proof fn lemma_place_bound(starts: Seq<usize>, c: int, n: int)
    requires
        0 <= n,
    ensures
        place(starts, c, n) <= n,
        0 <= c < n ==> place(starts, c, n) < n,
    decreases n,
{
    if n > 0 {
        lemma_place_bound(starts, c, n - 1);
    }
}

/// Numbering is one to one onto the numbers below the number of clusters, and follows the order of
/// the first starts.
pub proof fn law_numbering_is_a_permutation(starts: Seq<usize>, a: int, b: int)
    requires
        0 <= a < starts.len(),
        0 <= b < starts.len(),
    ensures
        new_number(starts, a) < starts.len(),
        new_number(starts, a) == new_number(starts, b) ==> a == b,
        starts[a] < starts[b] ==> new_number(starts, a) < new_number(starts, b),
{
    lemma_place_bound(starts, a, starts.len() as int);
    if comes_before(starts, a, b) {
        lemma_place_monotone(starts, a, b, starts.len() as int);
    } else if comes_before(starts, b, a) {
        lemma_place_monotone(starts, b, a, starts.len() as int);
    }
}

/// Renumbering keeps segments together that were together, and apart that were apart.
pub proof fn law_renumbering_keeps_groups(
    segments: Seq<(usize, usize)>,
    assign: Seq<usize>,
    k: nat,
    i: int,
    j: int,
)
    requires
        0 <= i < assign.len(),
        0 <= j < assign.len(),
        assign[i] < k,
        assign[j] < k,
    ensures
        (renumbered(segments, assign, k)[i] == renumbered(segments, assign, k)[j]) == (assign[i]
            == assign[j]),
        k > 1 ==> renumbered(segments, assign, k)[i] < k,
{
    let starts = cluster_starts(segments, assign, k);
    law_numbering_is_a_permutation(starts, assign[i] as int, assign[j] as int);
    law_numbering_is_a_permutation(starts, assign[j] as int, assign[i] as int);
}

proof fn lemma_every_number_is_given(starts: Seq<usize>, d: int)
    requires
        0 <= d < starts.len(),
    ensures
        exists|c: int| 0 <= c < starts.len() && #[trigger] new_number(starts, c) == d,
{
    let k = starts.len() as int;
    let all = set_int_range(0, k);
    let f = |c: int| new_number(starts, c) as int;
    let given = all.map(f);
    lemma_int_range(0, k);
    assert forall|a: int, b: int| all.contains(a) && all.contains(b) && f(a) == f(b) implies a
        == b by {
        law_numbering_is_a_permutation(starts, a, b);
    }
    assert forall|e: int| given.contains(e) implies all.contains(e) by {
        let c = choose|c: int| all.contains(c) && f(c) == e;
        law_numbering_is_a_permutation(starts, c, c);
    }
    lemma_map_size(all, given, f);
    lemma_subset_equality(given, all);
    assert(given.contains(d));
    let c = choose|c: int| all.contains(c) && f(c) == d;
    assert(new_number(starts, c) == d);
}

proof fn lemma_place_in_order(starts: Seq<usize>, c: int, n: int)
    requires
        0 <= n <= starts.len(),
        0 <= c < starts.len(),
        forall|a: int, b: int| 0 <= a < b < starts.len() ==> starts[a] <= starts[b],
    ensures
        place(starts, c, n) == if n <= c {
            n
        } else {
            c
        },
    decreases n,
{
    if n > 0 {
        lemma_place_in_order(starts, c, n - 1);
        let e = n - 1;
        if e < c {
            assert(starts[e] <= starts[c]);
        } else if c < e {
            assert(starts[c] <= starts[e]);
        }
    }
}

proof fn lemma_start_follows_the_number(
    segments: Seq<(usize, usize)>,
    assign: Seq<usize>,
    once: Seq<usize>,
    starts: Seq<usize>,
    c: int,
)
    requires
        once.len() == assign.len(),
        forall|i: int| 0 <= i < assign.len() ==> #[trigger] assign[i] < starts.len(),
        forall|i: int|
            0 <= i < assign.len() ==> #[trigger] once[i] == new_number(starts, assign[i] as int),
        0 <= c < starts.len(),
    ensures
        first_start(segments, once, new_number(starts, c) as int) == first_start(
            segments,
            assign,
            c,
        ),
    decreases segments.len(),
{
    if segments.len() > 0 && assign.len() > 0 {
        lemma_start_follows_the_number(
            segments.drop_last(),
            assign.drop_last(),
            once.drop_last(),
            starts,
            c,
        );
        let last = assign.len() - 1;
        assert(once[last] == new_number(starts, assign[last] as int));
        assert(assign[last] < starts.len());
        law_numbering_is_a_permutation(starts, assign[last] as int, c);
    }
}

/// Renumbering what was renumbered changes nothing, and with one cluster nothing changes at all.
pub proof fn law_renumbering_is_idempotent(
    segments: Seq<(usize, usize)>,
    assign: Seq<usize>,
    once: Seq<usize>,
    k: nat,
)
    requires
        k > 1 ==> forall|i: int| 0 <= i < assign.len() ==> #[trigger] assign[i] < k,
        once.len() == assign.len(),
        forall|i: int|
            0 <= i < once.len() ==> #[trigger] once[i] == renumbered(segments, assign, k)[i],
    ensures
        renumbered(segments, once, k) == renumbered(segments, assign, k),
        k <= 1 ==> once == assign,
{
    if k <= 1 {
        assert(once =~= assign);
    } else {
        let starts = cluster_starts(segments, assign, k);
        let again = cluster_starts(segments, once, k);
        let seg = matched(segments, assign.len() as int);
        let asg = matched(assign, segments.len() as int);
        let new = matched(once, segments.len() as int);
        assert forall|i: int| 0 <= i < asg.len() implies #[trigger] asg[i] < starts.len() && new[i]
            == new_number(starts, asg[i] as int) by {
            assert(asg[i] == assign[i] && new[i] == once[i]);
            assert(once[i] == renumbered(segments, assign, k)[i]);
        }
        assert forall|a: int, b: int| 0 <= a < b < k implies again[a] <= again[b] by {
            lemma_every_number_is_given(starts, a);
            lemma_every_number_is_given(starts, b);
            let x = choose|c: int| 0 <= c < k && #[trigger] new_number(starts, c) == a;
            let y = choose|c: int| 0 <= c < k && #[trigger] new_number(starts, c) == b;
            lemma_start_follows_the_number(seg, asg, new, starts, x);
            lemma_start_follows_the_number(seg, asg, new, starts, y);
            law_numbering_is_a_permutation(starts, y, x);
            assert(again[a] == starts[x] && again[b] == starts[y]);
        }
        assert forall|i: int| 0 <= i < once.len() implies renumbered(segments, once, k)[i]
            == renumbered(segments, assign, k)[i] by {
            assert(assign[i] < k);
            law_numbering_is_a_permutation(starts, assign[i] as int, assign[i] as int);
            assert(once[i] == renumbered(segments, assign, k)[i]);
            lemma_place_in_order(again, once[i] as int, k as int);
        }
        assert(renumbered(segments, once, k) =~= renumbered(segments, assign, k));
    }
}

/// The assignment with new numbers; with one cluster nothing changes.
pub open spec fn renumbered(segments: Seq<(usize, usize)>, assign: Seq<usize>, k: nat) -> Seq<int> {
    let starts = cluster_starts(segments, assign, k);
    Seq::new(
        assign.len(),
        |i: int|
            if k <= 1 {
                assign[i] as int
            } else {
                new_number(starts, assign[i] as int) as int
            },
    )
}

fn cluster_starts_of(segments: &[(usize, usize)], assign: &Vec<usize>, k: usize) -> (r: Vec<usize>)
    requires
        forall|i: int| 0 <= i < assign@.len() ==> #[trigger] assign@[i] < k,
    ensures
        r@ == cluster_starts(segments@, assign@, k as nat),
{
    let mut starts: Vec<usize> = Vec::new();
    let mut c: usize = 0;
    while c < k
        invariant
            c <= k,
            starts@.len() == c,
            forall|j: int| 0 <= j < c ==> #[trigger] starts@[j] == usize::MAX,
        decreases k - c,
    {
        starts.push(usize::MAX);
        c += 1;
    }
    let n: usize = if segments.len() < assign.len() {
        segments.len()
    } else {
        assign.len()
    };
    let ghost seg = matched(segments@, assign@.len() as int);
    let ghost asg = matched(assign@, segments@.len() as int);
    let mut i: usize = 0;
    assert(seg.take(0).len() == 0);
    while i < n
        invariant
            i <= n,
            n <= segments@.len(),
            n <= assign@.len(),
            seg == matched(segments@, assign@.len() as int),
            asg == matched(assign@, segments@.len() as int),
            seg.len() == n,
            asg.len() == n,
            starts@.len() == k,
            forall|j: int| 0 <= j < assign@.len() ==> #[trigger] assign@[j] < k,
            forall|j: int|
                0 <= j < k ==> #[trigger] starts@[j] == first_start(
                    seg.take(i as int),
                    asg.take(i as int),
                    j,
                ),
        decreases n - i,
    {
        let a = assign[i];
        let start = segments[i].0;
        proof {
            assert(seg.take(i + 1).drop_last() =~= seg.take(i as int));
            assert(asg.take(i + 1).drop_last() =~= asg.take(i as int));
            assert(seg.take(i + 1).last() == segments@[i as int]);
            assert(asg.take(i + 1).last() == assign@[i as int]);
        }
        let ghost before = starts@;
        if start < starts[a] {
            starts.set(a, start);
        }
        assert forall|j: int| 0 <= j < k implies #[trigger] starts@[j] == first_start(
            seg.take(i + 1),
            asg.take(i + 1),
            j,
        ) by {
            assert(before[j] == first_start(seg.take(i as int), asg.take(i as int), j));
        }
        i += 1;
    }
    proof {
        assert(seg.take(n as int) =~= seg);
        assert(asg.take(n as int) =~= asg);
        assert(starts@ =~= cluster_starts(segments@, assign@, k as nat));
    }
    starts
}

fn place_of(starts: &Vec<usize>, c: usize) -> (r: usize)
    requires
        c < starts@.len(),
    ensures
        r == new_number(starts@, c as int),
{
    let n: usize = starts.len();
    let mut count: usize = 0;
    let mut i: usize = 0;
    while i < n
        invariant
            i <= n == starts@.len(),
            c < n,
            count == place(starts@, c as int, i as int),
            count <= i,
        decreases n - i,
    {
        if starts[i] < starts[c] || (starts[i] == starts[c] && i < c) {
            count = count + 1;
        }
        i += 1;
    }
    count
}

/// Numbers clusters in the order in which their first segments start.
pub fn remap_clusters_by_first_segment(
    segments: &[(usize, usize)],
    assign: &mut Vec<usize>,
    k: usize,
)
    requires
        k > 1 ==> forall|i: int| 0 <= i < old(assign)@.len() ==> #[trigger] old(assign)@[i] < k,
    ensures
        final(assign)@.len() == old(assign)@.len(),
        forall|i: int|
            0 <= i < final(assign)@.len() ==> #[trigger] final(assign)@[i] == renumbered(
                segments@,
                old(assign)@,
                k as nat,
            )[i],
{
    if k <= 1 {
        return ;
    }
    let ghost before = assign@;
    let starts = cluster_starts_of(segments, assign, k);
    let n: usize = assign.len();
    let mut i: usize = 0;
    while i < n
        invariant
            i <= n,
            n == before.len(),
            assign@.len() == n,
            k > 1,
            starts@ == cluster_starts(segments@, before, k as nat),
            forall|j: int| 0 <= j < n ==> #[trigger] before[j] < k,
            forall|j: int|
                0 <= j < i ==> #[trigger] assign@[j] == renumbered(segments@, before, k as nat)[j],
            forall|j: int| i <= j < n ==> #[trigger] assign@[j] == before[j],
        decreases n - i,
    {
        let old_number = assign[i];
        assert(old_number == before[i as int]);
        let number = place_of(&starts, old_number);
        assign.set(i, number);
        i += 1;
    }
}

// ---------------------------------------------------------------------------
// What clusters hold
// ---------------------------------------------------------------------------

/// A cluster starts with the first of its segments: none of them starts earlier, and one of them starts there,
/// unless the cluster has none.
pub proof fn law_clusters_start_with_their_first_segment(
    segments: Seq<(usize, usize)>,
    assign: Seq<usize>,
    c: int,
)
    requires
        segments.len() == assign.len(),
    ensures
        forall|i: int|
            0 <= i < assign.len() && assign[i] == c ==> first_start(segments, assign, c) <= (
            #[trigger] segments[i]).0,
        first_start(segments, assign, c) < usize::MAX ==> exists|i: int|
            0 <= i < assign.len() && assign[i] == c && (#[trigger] segments[i]).0 == first_start(
                segments,
                assign,
                c,
            ),
    decreases segments.len(),
{
    if segments.len() > 0 {
        let s = segments.drop_last();
        let a = assign.drop_last();
        law_clusters_start_with_their_first_segment(s, a, c);
        assert forall|i: int| 0 <= i < assign.len() && assign[i] == c implies first_start(
            segments,
            assign,
            c,
        ) <= (#[trigger] segments[i]).0 by {
            if i < s.len() {
                assert(s[i] == segments[i] && a[i] == assign[i]);
            }
        }
        if first_start(segments, assign, c) < usize::MAX {
            let last = segments.len() - 1;
            if assign.last() == c && segments.last().0 < first_start(s, a, c) {
                assert(segments[last].0 == first_start(segments, assign, c));
            } else {
                let i = choose|i: int|
                    0 <= i < a.len() && a[i] == c && (#[trigger] s[i]).0 == first_start(s, a, c);
                assert(segments[i].0 == first_start(segments, assign, c) && assign[i] == c);
            }
        }
    }
}

/// A speaker who starts earlier has a lesser number: where one cluster's first segment starts before every
/// segment of another, its new number is less.
pub proof fn law_earlier_speakers_have_lesser_numbers(
    segments: Seq<(usize, usize)>,
    assign: Seq<usize>,
    k: nat,
    i: int,
    j: int,
)
    requires
        segments.len() == assign.len(),
        k > 1,
        0 <= i < assign.len(),
        0 <= j < assign.len(),
        assign[i] < k,
        assign[j] < k,
        forall|n: int|
            0 <= n < assign.len() && assign[n] == assign[j] ==> segments[i].0 < (
            #[trigger] segments[n]).0,
    ensures
        renumbered(segments, assign, k)[i] < renumbered(segments, assign, k)[j],
{
    let starts = cluster_starts(segments, assign, k);
    let a = assign[i] as int;
    let b = assign[j] as int;
    law_clusters_start_with_their_first_segment(segments, assign, a);
    law_clusters_start_with_their_first_segment(segments, assign, b);
    assert(starts[a] <= segments[i].0);
    assert(segments[i].0 < segments[j].0);
    if first_start(segments, assign, b) < usize::MAX {
        let n = choose|n: int|
            0 <= n < assign.len() && assign[n] == b && (#[trigger] segments[n]).0 == first_start(
                segments,
                assign,
                b,
            );
        assert(segments[i].0 < segments[n].0);
    }
    law_numbering_is_a_permutation(starts, a, b);
}

/// A point goes to a centroid that no other one exceeds in similarity, and to the first such one.
pub proof fn law_points_go_to_their_nearest(similarities: Seq<Vec<u32>>, i: int)
    requires
        0 <= i < similarities.len(),
        0 < similarities[i]@.len() <= usize::MAX,
        exists|c: int|
            0 <= c < similarities[i]@.len() && exceeds(
                #[trigger] similarities[i]@[c],
                MINUS_INFINITY,
            ),
    ensures
        ({
            let s = similarities[i]@;
            let near = nearest_all(similarities)[i] as int;
            &&& nearest_all(similarities).len() == similarities.len()
            &&& 0 <= near < s.len()
            &&& forall|c: int| 0 <= c < s.len() ==> !exceeds(#[trigger] s[c], s[near])
            &&& forall|c: int|
                0 <= c < near ==> order_key(#[trigger] s[c]) != order_key(s[near])
        }),
{
    let s = similarities[i]@;
    assert(order_key(MINUS_INFINITY) is Some);
    law_search_finds_the_greatest(s, s.len() as int, MINUS_INFINITY);
}

/// A point more makes its own cluster one larger and leaves the others as they are.
pub proof fn law_points_are_counted_once(assign: Seq<usize>, c: usize, d: usize)
    ensures
        member_count(Seq::empty(), c) == 0,
        member_count(assign.push(c), c) == member_count(assign, c) + 1,
        d != c ==> member_count(assign.push(c), d) == member_count(assign, d),
{
    assert(assign.push(c).drop_last() =~= assign);
}

} // verus!

//! The bookkeeping of UAV placement by clustering: how the number of UAVs and
//! users shapes the placement, which cluster each user belongs to, and how
//! many users each cluster holds.
use vstd::prelude::*;

verus! {

/// How UAVs are placed for a given number of UAVs and users.
#[derive(Debug, Clone, Copy, PartialEq, Eq, Structural)]
pub enum PlacementLayout {
    /// There are no UAVs to place.
    NoUavs,
    /// There are at least as many UAVs as users: one UAV is placed above each user.
    OnePerUser,
    /// There are fewer UAVs than users: users are grouped into one cluster per UAV.
    Clustered,
}

/// Chooses how `uav_count` UAVs are placed over `num_users` users.
pub fn placement_layout(uav_count: usize, num_users: usize) -> (layout: PlacementLayout)
    ensures
        uav_count == 0 ==> layout == PlacementLayout::NoUavs,
        uav_count > 0 && uav_count >= num_users ==> layout == PlacementLayout::OnePerUser,
        uav_count > 0 && uav_count < num_users ==> layout == PlacementLayout::Clustered,
{
    if uav_count == 0 {
        PlacementLayout::NoUavs
    } else if uav_count >= num_users {
        PlacementLayout::OnePerUser
    } else {
        PlacementLayout::Clustered
    }
}

/// The number of entries of `s` equal to `c`.
pub open spec fn occurrences(s: Seq<usize>, c: usize) -> nat
    decreases s.len(),
{
    if s.len() == 0 {
        0
    } else {
        occurrences(s.drop_last(), c) + if s.last() == c {
            1nat
        } else {
            0nat
        }
    }
}

/// The sum of the entries of `s`.
pub open spec fn total(s: Seq<usize>) -> nat
    decreases s.len(),
{
    if s.len() == 0 {
        0
    } else {
        (total(s.drop_last()) + s.last()) as nat
    }
}

/// How often a value occurs: never in an empty sequence, and appending an
/// entry adds one occurrence of that entry's value and none of any other.
pub proof fn lemma_occurrences_push(s: Seq<usize>, x: usize, c: usize)
    ensures
        occurrences(Seq::<usize>::empty(), c) == 0,
        occurrences(s.push(x), c) == occurrences(s, c) + if x == c {
            1int
        } else {
            0int
        },
{
    assert(s.push(x).drop_last() =~= s);
}

/// A value occurs in a sequence no more often than the sequence is long, and
/// all values together occur exactly as often.
pub proof fn lemma_occurrences_bounded(s: Seq<usize>, c: usize)
    ensures
        occurrences(s, c) <= s.len(),
        (forall|i: int| 0 <= i < s.len() ==> #[trigger] s[i] != c) ==> occurrences(s, c) == 0,
        (forall|i: int| 0 <= i < s.len() ==> #[trigger] s[i] == c) ==> occurrences(s, c)
            == s.len(),
    decreases s.len(),
{
    if s.len() > 0 {
        lemma_occurrences_bounded(s.drop_last(), c);
        assert forall|i: int| 0 <= i < s.len() - 1 implies s.drop_last()[i] == s[i] by {}
    }
}

/// The sum of an empty sequence is zero, and appending an entry adds its value.
pub proof fn lemma_total_push(s: Seq<usize>, x: usize)
    ensures
        total(Seq::<usize>::empty()) == 0,
        total(s.push(x)) == total(s) + x,
{
    assert(s.push(x).drop_last() =~= s);
}

/// Adding one to an entry adds one to the sum.
proof fn lemma_total_increment(s: Seq<usize>, c: int)
    requires
        0 <= c < s.len(),
        s[c] < usize::MAX,
    ensures
        total(s.update(c, (s[c] + 1) as usize)) == total(s) + 1,
    decreases s.len(),
{
    let t = s.update(c, (s[c] + 1) as usize);
    if c == s.len() - 1 {
        assert(t.drop_last() =~= s.drop_last());
    } else {
        lemma_total_increment(s.drop_last(), c);
        assert(t.drop_last() =~= s.drop_last().update(c, (s[c] + 1) as usize));
    }
}

/// The sizes of the clusters: entry `c` counts the users assigned to cluster `c`.
pub fn cluster_sizes(assignments: &Vec<usize>, cluster_count: usize) -> (counts: Vec<usize>)
    requires
        forall|i: int| 0 <= i < assignments.len() ==> #[trigger] assignments[i] < cluster_count,
    ensures
        counts.len() == cluster_count,
        forall|c: int|
            0 <= c < cluster_count ==> #[trigger] counts[c] == occurrences(assignments@, c as usize),
        total(counts@) == assignments.len(),
{
    let mut counts: Vec<usize> = Vec::new();
    let mut k: usize = 0;
    while k < cluster_count
        invariant
            k <= cluster_count,
            counts.len() == k,
            forall|c: int| 0 <= c < k ==> #[trigger] counts[c] == 0,
            total(counts@) == 0,
        decreases cluster_count - k,
    {
        let ghost prev = counts@;
        counts.push(0);
        assert(counts@.drop_last() =~= prev);
        k = k + 1;
    }
    let mut i: usize = 0;
    while i < assignments.len()
        invariant
            i <= assignments.len(),
            counts.len() == cluster_count,
            forall|j: int| 0 <= j < assignments.len() ==> #[trigger] assignments[j] < cluster_count,
            forall|c: int|
                0 <= c < cluster_count ==> #[trigger] counts[c] == occurrences(
                    assignments@.take(i as int),
                    c as usize,
                ),
            forall|c: int| 0 <= c < cluster_count ==> #[trigger] counts[c] <= i,
            total(counts@) == i,
        decreases assignments.len() - i,
    {
        let cluster = assignments[i];
        let ghost before = counts@;
        assert(assignments@.take(i + 1).drop_last() =~= assignments@.take(i as int));
        proof {
            lemma_total_increment(before, cluster as int);
        }
        counts.set(cluster, counts[cluster] + 1);
        i = i + 1;
    }
    assert(assignments@.take(assignments.len() as int) =~= assignments@);
    counts
}

/// Moves each user to its nearest cluster and reports whether any user changed cluster.
pub fn reassign(assignments: &mut Vec<usize>, nearest: &Vec<usize>) -> (changed: bool)
    requires
        old(assignments).len() == nearest.len(),
    ensures
        final(assignments)@ == nearest@,
        changed == (old(assignments)@ != nearest@),
{
    let mut changed = false;
    let mut i: usize = 0;
    while i < nearest.len()
        invariant
            i <= nearest.len(),
            assignments.len() == nearest.len(),
            assignments.len() == old(assignments).len(),
            forall|j: int| 0 <= j < i ==> #[trigger] assignments[j] == nearest[j],
            forall|j: int| i <= j < nearest.len() ==> #[trigger] assignments[j] == old(assignments)[j],
            changed == exists|j: int| 0 <= j < i && #[trigger] old(assignments)[j] != nearest[j],
        decreases nearest.len() - i,
    {
        if assignments[i] != nearest[i] {
            assignments.set(i, nearest[i]);
            changed = true;
        }
        i = i + 1;
    }
    assert(assignments@ =~= nearest@);
    if !changed {
        assert(old(assignments)@ =~= nearest@);
    } else {
        proof {
            let j = choose|j: int|
                0 <= j < nearest.len() && #[trigger] old(assignments)[j] != nearest[j];
            assert(old(assignments)@[j] != nearest@[j]);
        }
    }
    changed
}

} // verus!

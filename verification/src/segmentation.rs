//! Default grapheme cluster boundaries.

use vstd::prelude::*;
use vstd::slice::slice_subrange;
use crate::ucd::{grapheme_cluster_break, GraphemeClusterBreak, Ucd};

verus! {

/// Whether two neighbours stay in one cluster. `odd_indicators` says
/// that the run of regional indicators that ends with `current` has an odd
/// length.
pub open spec fn joins(
    current: GraphemeClusterBreak,
    next: GraphemeClusterBreak,
    odd_indicators: bool,
) -> bool {
    if current == GraphemeClusterBreak::CR && next == GraphemeClusterBreak::LF {
        true
    } else if current == GraphemeClusterBreak::CN || current == GraphemeClusterBreak::CR || current
        == GraphemeClusterBreak::LF {
        false
    } else if next == GraphemeClusterBreak::CN || next == GraphemeClusterBreak::CR || next
        == GraphemeClusterBreak::LF {
        false
    } else if current == GraphemeClusterBreak::L && (next == GraphemeClusterBreak::L || next
        == GraphemeClusterBreak::V || next == GraphemeClusterBreak::LV || next
        == GraphemeClusterBreak::LVT) {
        true
    } else if (current == GraphemeClusterBreak::LV || current == GraphemeClusterBreak::V) && (next
        == GraphemeClusterBreak::V || next == GraphemeClusterBreak::T) {
        true
    } else if (current == GraphemeClusterBreak::LVT || current == GraphemeClusterBreak::T) && next
        == GraphemeClusterBreak::T {
        true
    } else if next == GraphemeClusterBreak::EX || next == GraphemeClusterBreak::ZWJ {
        true
    } else if next == GraphemeClusterBreak::SM {
        true
    } else if current == GraphemeClusterBreak::PP {
        true
    } else if current == GraphemeClusterBreak::RI && next == GraphemeClusterBreak::RI {
        odd_indicators
    } else {
        false
    }
}

/// Length of the run of regional indicators that ends at `i`.
pub open spec fn indicator_run(ucd: &Ucd, code_points: Seq<u32>, i: int) -> nat
    decreases i + 1,
{
    if i < 0 || i >= code_points.len() || ucd.break_class(code_points[i])
        != GraphemeClusterBreak::RI {
        0
    } else {
        1 + indicator_run(ucd, code_points, i - 1)
    }
}

/// No boundary lies between the codepoints at `i` and `i + 1`.
pub open spec fn joined_at(ucd: &Ucd, code_points: Seq<u32>, i: int) -> bool {
    0 <= i && i + 1 < code_points.len() && joins(
        ucd.break_class(code_points[i]),
        ucd.break_class(code_points[i + 1]),
        indicator_run(ucd, code_points, i) % 2 == 1,
    )
}

/// Where the cluster that holds the codepoint at `at` ends: the index
/// behind its last codepoint.
pub open spec fn cluster_end(ucd: &Ucd, code_points: Seq<u32>, at: int) -> int
    decreases code_points.len() - at,
{
    if joined_at(ucd, code_points, at) {
        cluster_end(ucd, code_points, at + 1)
    } else {
        at + 1
    }
}

/// The clusters from `pos` on, where a cluster starts at `pos`.
pub open spec fn clusters_from(ucd: &Ucd, code_points: Seq<u32>, pos: int) -> Seq<Seq<u32>>
    decreases code_points.len() - pos,
{
    if pos < 0 || pos >= code_points.len() {
        Seq::empty()
    } else if pos < cluster_end(ucd, code_points, pos) <= code_points.len() {
        seq![code_points.subrange(pos, cluster_end(ucd, code_points, pos))] + clusters_from(
            ucd,
            code_points,
            cluster_end(ucd, code_points, pos),
        )
    } else {
        Seq::empty()
    }
}

/// The grapheme clusters of a sequence.
pub open spec fn clusters(ucd: &Ucd, code_points: Seq<u32>) -> Seq<Seq<u32>> {
    clusters_from(ucd, code_points, 0)
}

/// A cluster holds at least one codepoint and ends inside the sequence.
pub proof fn lemma_cluster_end_bounds(ucd: &Ucd, code_points: Seq<u32>, at: int)
    requires
        0 <= at < code_points.len(),
    ensures
        at < cluster_end(ucd, code_points, at) <= code_points.len(),
    decreases code_points.len() - at,
{
    if joined_at(ucd, code_points, at) {
        lemma_cluster_end_bounds(ucd, code_points, at + 1);
    }
}

/// A run that ends at `i` holds no more than the `i + 1` codepoints up to
/// there.
pub proof fn lemma_indicator_run_bound(ucd: &Ucd, code_points: Seq<u32>, i: int)
    ensures
        indicator_run(ucd, code_points, i) <= if i < 0 {
            0
        } else {
            i + 1
        },
    decreases i + 1,
{
    if i < 0 || i >= code_points.len() || ucd.break_class(code_points[i])
        != GraphemeClusterBreak::RI {
    } else {
        lemma_indicator_run_bound(ucd, code_points, i - 1);
    }
}

/// The clusters from `pos` on, put together, are the sequence from `pos`
/// on, and none of them is empty.
pub proof fn lemma_clusters_from(ucd: &Ucd, code_points: Seq<u32>, pos: int)
    requires
        0 <= pos <= code_points.len(),
    ensures
        clusters_from(ucd, code_points, pos).flatten() == code_points.subrange(
            pos,
            code_points.len() as int,
        ),
        forall|k: int|
            0 <= k < clusters_from(ucd, code_points, pos).len() ==> (#[trigger] clusters_from(
                ucd,
                code_points,
                pos,
            )[k]).len() > 0,
    decreases code_points.len() - pos,
{
    let all = clusters_from(ucd, code_points, pos);
    if pos >= code_points.len() {
        assert(all.flatten() =~= code_points.subrange(pos, code_points.len() as int));
    } else {
        lemma_cluster_end_bounds(ucd, code_points, pos);
        let end = cluster_end(ucd, code_points, pos);
        let rest = clusters_from(ucd, code_points, end);
        lemma_clusters_from(ucd, code_points, end);
        assert(all.first() == code_points.subrange(pos, end));
        assert(all.drop_first() =~= rest);
        assert(all.flatten() =~= code_points.subrange(pos, code_points.len() as int));
        assert forall|k: int| 0 <= k < all.len() implies (#[trigger] all[k]).len() > 0 by {
            if k > 0 {
                assert(all[k] == rest[k - 1]);
            }
        }
    }
}

/// For every sequence, its clusters put together are the sequence, and no
/// cluster is empty.
pub proof fn lemma_clusters_partition(ucd: &Ucd, code_points: Seq<u32>)
    ensures
        clusters(ucd, code_points).flatten() == code_points,
        forall|k: int|
            0 <= k < clusters(ucd, code_points).len() ==> (#[trigger] clusters(
                ucd,
                code_points,
            )[k]).len() > 0,
{
    lemma_clusters_from(ucd, code_points, 0);
    assert(code_points.subrange(0, code_points.len() as int) =~= code_points);
}

/// Whether two neighbours stay in one cluster.
fn stays_together(
    current: GraphemeClusterBreak,
    next: GraphemeClusterBreak,
    ri_count: usize,
) -> (together: bool)
    ensures
        together == joins(current, next, ri_count % 2 == 1),
{
    if current == GraphemeClusterBreak::CR && next == GraphemeClusterBreak::LF {
        true  // GB3
    } else if current == GraphemeClusterBreak::CN || current == GraphemeClusterBreak::CR || current
        == GraphemeClusterBreak::LF {
        false  // GB4
    } else if next == GraphemeClusterBreak::CN || next == GraphemeClusterBreak::CR || next
        == GraphemeClusterBreak::LF {
        false  // GB5
    } else if current == GraphemeClusterBreak::L && (next == GraphemeClusterBreak::L || next
        == GraphemeClusterBreak::V || next == GraphemeClusterBreak::LV || next
        == GraphemeClusterBreak::LVT) {
        true  // GB6
    } else if (current == GraphemeClusterBreak::LV || current == GraphemeClusterBreak::V) && (next
        == GraphemeClusterBreak::V || next == GraphemeClusterBreak::T) {
        true  // GB7
    } else if (current == GraphemeClusterBreak::LVT || current == GraphemeClusterBreak::T) && next
        == GraphemeClusterBreak::T {
        true  // GB8
    } else if next == GraphemeClusterBreak::EX || next == GraphemeClusterBreak::ZWJ {
        true  // GB9
    } else if next == GraphemeClusterBreak::SM {
        true  // GB9a
    } else if current == GraphemeClusterBreak::PP {
        true  // GB9b
    } else if current == GraphemeClusterBreak::RI && next == GraphemeClusterBreak::RI {
        ri_count % 2 == 1  // GB12, GB13
    } else {
        false
    }
}

/// A cursor over the grapheme clusters of a codepoint sequence.
pub struct GraphemeIter<'a> {
    ucd: &'a Ucd,
    code_points: &'a Vec<u32>,
    pos: usize,
    ri_count: usize,
}

impl<'a> GraphemeIter<'a> {
    #[verifier::type_invariant]
    spec fn inv(self) -> bool {
        &&& self.pos <= self.code_points@.len()
        &&& self.ri_count <= self.pos
        &&& self.pos < self.code_points@.len() ==> self.ri_count == indicator_run(
            self.ucd,
            self.code_points@,
            self.pos - 1,
        )
    }

    /// The clusters not yet handed out.
    pub closed spec fn remaining(self) -> Seq<Seq<u32>> {
        clusters_from(self.ucd, self.code_points@, self.pos as int)
    }

    /// Starts at the first cluster of `code_points`.
    pub fn new(ucd: &'a Ucd, code_points: &'a Vec<u32>) -> (iter: Self)
        ensures
            iter.remaining() == clusters(ucd, code_points@),
    {
        GraphemeIter { ucd, code_points, pos: 0, ri_count: 0 }
    }

    /// Hands out the next cluster, or `None` at the end.
    pub fn next(&mut self) -> (item: Option<&'a [u32]>)
        ensures
            match item {
                Some(cluster) => old(self).remaining() == seq![cluster@] + final(self).remaining()
                    && cluster@.len() > 0,
                None => old(self).remaining().len() == 0 && final(self).remaining().len() == 0,
            },
    {
        proof {
            use_type_invariant(&*self);
        }
        let len = self.code_points.len();
        if self.pos >= len {
            return None;
        }
        let start = self.pos;
        let mut at = self.pos;
        let mut ri_count = self.ri_count;
        let ghost code_points = self.code_points@;
        let ghost ucd = self.ucd;
        let mut together = true;
        while together && at < len - 1
            invariant
                start <= at < len,
                len == code_points.len(),
                code_points == self.code_points@,
                ucd == self.ucd,
                ri_count <= at + 1,
                together ==> ri_count <= at,
                together ==> ri_count == indicator_run(ucd, code_points, at - 1),
                !together ==> ri_count == indicator_run(ucd, code_points, at as int) && !joined_at(
                    ucd,
                    code_points,
                    at as int,
                ),
                cluster_end(ucd, code_points, at as int) == cluster_end(
                    ucd,
                    code_points,
                    start as int,
                ),
            decreases len - at + if together { 1int } else { 0int },
        {
            let current = grapheme_cluster_break(self.ucd, self.code_points[at]);
            let next = grapheme_cluster_break(self.ucd, self.code_points[at + 1]);
            ri_count = if current == GraphemeClusterBreak::RI {
                ri_count + 1
            } else {
                0
            };
            if stays_together(current, next, ri_count) {
                at += 1;
            } else {
                together = false;
            }
        }
        proof {
            lemma_cluster_end_bounds(ucd, code_points, start as int);
            lemma_indicator_run_bound(ucd, code_points, at as int);
        }
        let end = at + 1;
        let ri_count = if together {
            0
        } else {
            ri_count
        };
        *self = GraphemeIter { ucd: self.ucd, code_points: self.code_points, pos: end, ri_count };
        Some(slice_subrange(self.code_points.as_slice(), start, end))
    }
}

} // verus!

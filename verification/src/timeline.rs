//! Cut points and the segments they divide a recording into. All times are
//! in milliseconds from the start of the recording.

use vstd::prelude::*;

verus! {

/// One stretch of the recording: where it starts and how long it lasts.
#[derive(Debug, Clone, Copy, PartialEq, Eq, Structural)]
pub struct Segment {
    pub offset: u64,
    pub duration: u64,
}

/// Whether the values ascend strictly, so that none occurs twice.
pub open spec fn strictly_ascending(cuts: Seq<u64>) -> bool {
    forall|i: int, j: int| 0 <= i < j < cuts.len() ==> cuts[i] < cuts[j]
}

/// Whether the cut points ascend strictly and all lie inside the recording,
/// after its start and before its end.
pub open spec fn valid_cut_points(cuts: Seq<u64>, total: u64) -> bool {
    &&& strictly_ascending(cuts)
    &&& forall|i: int| 0 <= i < cuts.len() ==> 0 < #[trigger] cuts[i] < total
}

/// Boundary number `i` of the recording: its start, then the cut points,
/// then its end.
pub open spec fn boundary(cuts: Seq<u64>, total: u64, i: int) -> int {
    if i <= 0 {
        0
    } else if i <= cuts.len() {
        cuts[i - 1] as int
    } else {
        total as int
    }
}

/// The segments between neighbouring boundaries, one more than there are
/// cut points.
pub open spec fn segments_of(cuts: Seq<u64>, total: u64) -> Seq<Segment> {
    Seq::new(
        cuts.len() + 1,
        |i: int|
            Segment {
                offset: boundary(cuts, total, i) as u64,
                duration: (boundary(cuts, total, i + 1) - boundary(cuts, total, i)) as u64,
            },
    )
}

/// The segments of valid cut points tile the recording: the first starts at
/// zero, each begins where the one before it ends, none is empty, and the
/// last ends where the recording ends.
pub proof fn lemma_segments_tile(cuts: Seq<u64>, total: u64)
    requires
        valid_cut_points(cuts, total),
    ensures
        segments_of(cuts, total).len() == cuts.len() + 1,
        segments_of(cuts, total)[0].offset == 0,
        forall|i: int|
            0 <= i < cuts.len() ==> (#[trigger] segments_of(cuts, total)[i]).offset + segments_of(
                cuts,
                total,
            )[i].duration == segments_of(cuts, total)[i + 1].offset,
        forall|i: int|
            0 <= i < cuts.len() ==> (#[trigger] segments_of(cuts, total)[i]).offset == boundary(
                cuts,
                total,
                i,
            ) && segments_of(cuts, total)[i].duration > 0,
        segments_of(cuts, total).last().offset + segments_of(cuts, total).last().duration == total,
        cuts.len() > 0 ==> segments_of(cuts, total).last().duration > 0,
{
    let segs = segments_of(cuts, total);
    assert forall|i: int| 0 <= i <= cuts.len() implies 0 <= #[trigger] boundary(cuts, total, i)
        <= boundary(cuts, total, i + 1) <= total by {
        if 0 < i < cuts.len() {
            assert(cuts[i - 1] < cuts[i]);
        }
    }
    assert forall|i: int| 0 <= i < cuts.len() implies (#[trigger] segs[i]).offset + segs[i].duration
        == segs[i + 1].offset by {
        assert(0 <= boundary(cuts, total, i) <= boundary(cuts, total, i + 1) <= total);
        assert(0 <= boundary(cuts, total, i + 1) <= boundary(cuts, total, i + 2) <= total);
    }
    assert forall|i: int| 0 <= i < cuts.len() implies (#[trigger] segs[i]).offset == boundary(
        cuts,
        total,
        i,
    ) && segs[i].duration > 0 by {
        assert(0 <= boundary(cuts, total, i) <= boundary(cuts, total, i + 1) <= total);
        if i > 0 {
            assert(cuts[i - 1] < cuts[i]);
        }
    }
    assert(0 <= boundary(cuts, total, cuts.len() as int) <= boundary(
        cuts,
        total,
        cuts.len() as int + 1,
    ) <= total);
}

/// Tells whether the cut points ascend strictly and lie inside a recording
/// of length `total_duration`.
pub fn cut_points_valid(cut_points: &Vec<u64>, total_duration: u64) -> (ok: bool)
    ensures
        ok == valid_cut_points(cut_points@, total_duration),
{
    let mut i: usize = 0;
    let mut last: u64 = 0;
    while i < cut_points.len()
        invariant
            i <= cut_points.len(),
            i > 0 ==> last == cut_points@[i - 1],
            i == 0 ==> last == 0,
            valid_cut_points(cut_points@.take(i as int), total_duration),
        decreases cut_points.len() - i,
    {
        let c = cut_points[i];
        if c <= last || c >= total_duration {
            proof {
                if valid_cut_points(cut_points@, total_duration) {
                    if i > 0 {
                        assert(cut_points@[i - 1] < cut_points@[i as int]);
                    }
                    assert(0 < cut_points@[i as int] < total_duration);
                }
            }
            return false;
        }
        proof {
            let next = cut_points@.take(i + 1);
            assert forall|a: int, b: int| 0 <= a < b < next.len() implies next[a] < next[b] by {
                if b < i {
                    assert(cut_points@.take(i as int)[a] < cut_points@.take(i as int)[b]);
                } else if a < i {
                    assert(cut_points@.take(i as int)[a] <= cut_points@.take(i as int)[i - 1]) by {
                        if a < i - 1 {
                            assert(cut_points@.take(i as int)[a] < cut_points@.take(i as int)[i
                                - 1]);
                        }
                    }
                }
            }
            assert forall|a: int| 0 <= a < next.len() implies 0 < #[trigger] next[a]
                < total_duration by {
                if a < i {
                    assert(cut_points@.take(i as int)[a] == next[a]);
                }
            }
        }
        last = c;
        i += 1;
    }
    assert(cut_points@.take(cut_points.len() as int) =~= cut_points@);
    true
}

/// The segments that the cut points divide a recording of length
/// `total_duration` into: each starts at a boundary and lasts until the
/// next. Without cut points there is one segment, the whole recording.
pub fn derive_offsets(cut_points: &Vec<u64>, total_duration: u64) -> (r: Vec<Segment>)
    requires
        valid_cut_points(cut_points@, total_duration),
    ensures
        r@ == segments_of(cut_points@, total_duration),
{
    let ghost cuts = cut_points@;
    let n = cut_points.len();
    let mut r: Vec<Segment> = Vec::new();
    let mut start: u64 = 0;
    let mut i: usize = 0;
    while i < n
        invariant
            i <= n == cut_points.len(),
            cuts == cut_points@,
            valid_cut_points(cuts, total_duration),
            start == boundary(cuts, total_duration, i as int),
            r@ == segments_of(cuts, total_duration).take(i as int),
        decreases n - i,
    {
        let cut = cut_points[i];
        proof {
            if i > 0 {
                assert(cuts[i - 1] < cuts[i as int]);
            }
            assert(0 < cuts[i as int] < total_duration);
            assert(segments_of(cuts, total_duration).take(i as int).push(
                Segment { offset: start, duration: (cut - start) as u64 },
            ) =~= segments_of(cuts, total_duration).take(i + 1));
        }
        r.push(Segment { offset: start, duration: cut - start });
        start = cut;
        i += 1;
    }
    proof {
        if n > 0 {
            assert(0 < cuts[n - 1] < total_duration);
        }
        assert(segments_of(cuts, total_duration).take(n as int).push(
            Segment { offset: start, duration: (total_duration - start) as u64 },
        ) =~= segments_of(cuts, total_duration));
    }
    r.push(Segment { offset: start, duration: total_duration - start });
    r
}

/// The position of the first value greater than `value`, or the length
/// where there is none.
pub open spec fn first_greater(cuts: Seq<u64>, value: u64) -> int
    decreases cuts.len(),
{
    if cuts.len() == 0 || cuts[0] > value {
        0
    } else {
        1 + first_greater(cuts.skip(1), value)
    }
}

/// The cut points after one more is marked at `position`: unchanged where
/// `position` is among them, and otherwise with `position` put before the
/// first greater cut point.
pub open spec fn with_cut_point(cuts: Seq<u64>, position: u64) -> Seq<u64> {
    if cuts.contains(position) {
        cuts
    } else {
        cuts.insert(first_greater(cuts, position), position)
    }
}

/// `first_greater` is in bounds; everything before it is no greater than
/// `value`, and the value at it, if any, is greater.
pub proof fn lemma_first_greater(cuts: Seq<u64>, value: u64)
    ensures
        0 <= first_greater(cuts, value) <= cuts.len(),
        forall|k: int| 0 <= k < first_greater(cuts, value) ==> cuts[k] <= value,
        first_greater(cuts, value) < cuts.len() ==> cuts[first_greater(cuts, value)] > value,
    decreases cuts.len(),
{
    if cuts.len() == 0 || cuts[0] > value {
    } else {
        lemma_first_greater(cuts.skip(1), value);
        assert forall|k: int| 0 <= k < first_greater(cuts, value) implies cuts[k] <= value by {
            if k > 0 {
                assert(cuts[k] == cuts.skip(1)[k - 1]);
            }
        }
    }
}

/// The first position with a greater value is `first_greater`.
pub proof fn lemma_first_greater_is(cuts: Seq<u64>, value: u64, j: int)
    requires
        0 <= j <= cuts.len(),
        forall|k: int| 0 <= k < j ==> cuts[k] <= value,
        j < cuts.len() ==> cuts[j] > value,
    ensures
        first_greater(cuts, value) == j,
    decreases cuts.len(),
{
    if j > 0 {
        assert(cuts[0] <= value);
        assert forall|k: int| 0 <= k < j - 1 implies cuts.skip(1)[k] <= value by {
            assert(cuts.skip(1)[k] == cuts[k + 1]);
        }
        lemma_first_greater_is(cuts.skip(1), value, j - 1);
    }
}

/// Marking a cut point keeps strictly ascending cut points strictly
/// ascending, and afterwards the position is among them.
pub proof fn lemma_cut_points_stay_ascending(cuts: Seq<u64>, position: u64)
    requires
        strictly_ascending(cuts),
    ensures
        strictly_ascending(with_cut_point(cuts, position)),
        with_cut_point(cuts, position).contains(position),
{
    if !cuts.contains(position) {
        lemma_first_greater(cuts, position);
        let p = first_greater(cuts, position);
        let out = cuts.insert(p, position);
        assert forall|i: int, j: int| 0 <= i < j < out.len() implies out[i] < out[j] by {
            if j < p {
            } else if j == p {
                assert(out[i] == cuts[i]);
                assert(cuts.contains(cuts[i]));
            } else if i < p {
                assert(out[j] == cuts[j - 1]);
                if i < j - 1 {
                    assert(cuts[i] < cuts[j - 1]);
                }
            } else if i == p {
                assert(out[j] == cuts[j - 1]);
                if p < j - 1 {
                    assert(cuts[p] < cuts[j - 1]);
                }
            } else {
                assert(out[i] == cuts[i - 1]);
                assert(out[j] == cuts[j - 1]);
            }
        }
        assert(out[p] == position);
    }
}

/// Marks a cut point at `position`, unless there is one already, keeping
/// ascending cut points ascending.
pub fn add_cut_point(cut_points: &mut Vec<u64>, position: u64)
    ensures
        final(cut_points)@ == with_cut_point(old(cut_points)@, position),
        strictly_ascending(old(cut_points)@) ==> strictly_ascending(final(cut_points)@),
{
    proof {
        if strictly_ascending(cut_points@) {
            lemma_cut_points_stay_ascending(cut_points@, position);
        }
    }
    let n = cut_points.len();
    let mut i: usize = 0;
    while i < n
        invariant
            i <= n == cut_points.len(),
            cut_points@ == old(cut_points)@,
            forall|k: int| 0 <= k < i ==> cut_points@[k] != position,
        decreases n - i,
    {
        if cut_points[i] == position {
            return ;
        }
        i += 1;
    }
    assert(!cut_points@.contains(position));
    let mut p: usize = 0;
    while p < n && cut_points[p] <= position
        invariant
            p <= n == cut_points.len(),
            cut_points@ == old(cut_points)@,
            forall|k: int| 0 <= k < p ==> cut_points@[k] <= position,
        decreases n - p,
    {
        p += 1;
    }
    proof {
        lemma_first_greater_is(cut_points@, position, p as int);
    }
    cut_points.insert(p, position);
}

/// Takes out the cut point at place `index`, counted from zero; does
/// nothing where there is none.
pub fn remove_cut_point(cut_points: &mut Vec<u64>, index: usize)
    ensures
        index < old(cut_points)@.len() ==> final(cut_points)@ == old(cut_points)@.remove(
            index as int,
        ),
        index >= old(cut_points)@.len() ==> final(cut_points)@ == old(cut_points)@,
        strictly_ascending(old(cut_points)@) ==> strictly_ascending(final(cut_points)@),
{
    if index < cut_points.len() {
        cut_points.remove(index);
        proof {
            if strictly_ascending(old(cut_points)@) {
                let before = old(cut_points)@;
                let after = cut_points@;
                assert forall|i: int, j: int| 0 <= i < j < after.len() implies after[i]
                    < after[j] by {
                    let a = if i < index { i } else { i + 1 };
                    let b = if j < index { j } else { j + 1 };
                    assert(after[i] == before[a]);
                    assert(after[j] == before[b]);
                }
            }
        }
    }
}

/// Where segment `index`, counted from zero, starts: the first at zero,
/// each further one at the cut point before it. There is none for an index
/// beyond the last segment.
pub fn segment_start(cut_points: &Vec<u64>, index: usize) -> (start: Option<u64>)
    ensures
        index == 0 ==> start == Some(0u64),
        0 < index <= cut_points@.len() ==> start == Some(cut_points@[index - 1]),
        index > cut_points@.len() ==> start is None,
{
    if index == 0 {
        Some(0)
    } else if index <= cut_points.len() {
        Some(cut_points[index - 1])
    } else {
        None
    }
}

/// A position brought into the recording: positions after its end become
/// its end.
pub fn clamp_position(position: u64, total_duration: u64) -> (r: u64)
    ensures
        r <= total_duration,
        position <= total_duration ==> r == position,
        position > total_duration ==> r == total_duration,
{
    if position > total_duration {
        total_duration
    } else {
        position
    }
}

} // verus!

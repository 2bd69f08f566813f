//! Which segments of a recording have their subtitle fragment and which
//! still lack it, told from the presence of the fragments alone.

use vstd::prelude::*;

verus! {

/// The segments that have a fragment and those that lack one, each list in
/// ascending order of segment number, counted from zero; and whether a run
/// can be resumed.
#[derive(Debug, Clone)]
pub struct CompletionRecord {
    pub completed: Vec<usize>,
    pub missing: Vec<usize>,
    pub can_resume: bool,
}

/// The positions, in ascending order, at which `flags` holds `wanted`.
pub open spec fn positions_of(flags: Seq<bool>, wanted: bool) -> Seq<usize>
    decreases flags.len(),
{
    if flags.len() == 0 {
        Seq::<usize>::empty()
    } else {
        let before = positions_of(flags.drop_last(), wanted);
        if flags.last() == wanted {
            before.push((flags.len() - 1) as usize)
        } else {
            before
        }
    }
}

/// Whether `record` tells, for segments of which `has_fragment` says which
/// have a fragment, the completed and the missing ones, and offers to
/// resume exactly where there are some of both.
pub open spec fn is_scan_of(record: CompletionRecord, has_fragment: Seq<bool>) -> bool {
    &&& record.completed@ == positions_of(has_fragment, true)
    &&& record.missing@ == positions_of(has_fragment, false)
    &&& record.can_resume == (record.completed@.len() > 0 && record.missing@.len() > 0)
}

/// The positions at which `flags` holds `wanted` are exactly those, each
/// once and in ascending order.
pub proof fn lemma_positions_of(flags: Seq<bool>, wanted: bool)
    requires
        flags.len() <= usize::MAX,
    ensures
        positions_of(flags, wanted).len() <= flags.len(),
        forall|k: int|
            0 <= k < positions_of(flags, wanted).len() ==> (#[trigger] positions_of(
                flags,
                wanted,
            )[k]) < flags.len() && flags[positions_of(flags, wanted)[k] as int] == wanted,
        forall|k: int, l: int|
            0 <= k < l < positions_of(flags, wanted).len() ==> positions_of(flags, wanted)[k]
                < positions_of(flags, wanted)[l],
        forall|i: int|
            0 <= i < flags.len() && flags[i] == wanted ==> positions_of(flags, wanted).contains(
                i as usize,
            ),
    decreases flags.len(),
{
    if flags.len() > 0 {
        let shorter = flags.drop_last();
        lemma_positions_of(shorter, wanted);
        let before = positions_of(shorter, wanted);
        let all = positions_of(flags, wanted);
        assert forall|i: int| 0 <= i < flags.len() && flags[i] == wanted implies all.contains(
            i as usize,
        ) by {
            if i < flags.len() - 1 {
                assert(shorter[i] == wanted);
                assert(before.contains(i as usize));
                let k = choose|k: int| 0 <= k < before.len() && before[k] == i as usize;
                assert(all[k] == i as usize);
            } else {
                assert(all[all.len() - 1] == i as usize);
            }
        }
        assert forall|k: int| 0 <= k < all.len() implies (#[trigger] all[k]) < flags.len()
            && flags[all[k] as int] == wanted by {
            if k < before.len() {
                assert(all[k] == before[k]);
                assert(shorter[before[k] as int] == wanted);
            }
        }
    }
}

/// Every segment is either among the completed or among the missing ones,
/// never in both: none is left out and none is counted twice.
pub proof fn lemma_scan_partitions(flags: Seq<bool>)
    requires
        flags.len() <= usize::MAX,
    ensures
        positions_of(flags, true).len() + positions_of(flags, false).len() == flags.len(),
        forall|i: int|
            0 <= i < flags.len() ==> (positions_of(flags, true).contains(i as usize) <==> flags[i]),
        forall|i: int|
            0 <= i < flags.len() ==> (positions_of(flags, false).contains(i as usize)
                <==> !flags[i]),
    decreases flags.len(),
{
    lemma_positions_of(flags, true);
    lemma_positions_of(flags, false);
    if flags.len() > 0 {
        lemma_scan_partitions(flags.drop_last());
    }
    assert forall|i: int| 0 <= i < flags.len() implies (positions_of(flags, true).contains(
        i as usize,
    ) <==> flags[i]) by {
        if positions_of(flags, true).contains(i as usize) {
            let k = choose|k: int|
                0 <= k < positions_of(flags, true).len() && positions_of(flags, true)[k]
                    == i as usize;
            assert(flags[positions_of(flags, true)[k] as int] == true);
        }
    }
    assert forall|i: int| 0 <= i < flags.len() implies (positions_of(flags, false).contains(
        i as usize,
    ) <==> !flags[i]) by {
        if positions_of(flags, false).contains(i as usize) {
            let k = choose|k: int|
                0 <= k < positions_of(flags, false).len() && positions_of(flags, false)[k]
                    == i as usize;
            assert(flags[positions_of(flags, false)[k] as int] == false);
        }
    }
}

/// The positions at which `flags` holds `wanted`.
pub(crate) fn positions(flags: &Vec<bool>, wanted: bool) -> (r: Vec<usize>)
    ensures
        r@ == positions_of(flags@, wanted),
{
    let mut r: Vec<usize> = Vec::new();
    let mut i: usize = 0;
    assert(flags@.take(0) =~= Seq::<bool>::empty());
    while i < flags.len()
        invariant
            i <= flags.len(),
            r@ == positions_of(flags@.take(i as int), wanted),
        decreases flags.len() - i,
    {
        proof {
            assert(flags@.take(i + 1).drop_last() =~= flags@.take(i as int));
        }
        if flags[i] == wanted {
            r.push(i);
        }
        i += 1;
    }
    assert(flags@.take(flags.len() as int) =~= flags@);
    r
}

/// Tells the completed segments from the missing ones, where
/// `has_fragment` says of each segment, in order, whether its fragment is
/// there. Resuming is offered where some segments are completed and some
/// are missing: with none completed there is nothing to resume, and with
/// none missing there is nothing left to do.
pub fn scan_completion(has_fragment: &Vec<bool>) -> (record: CompletionRecord)
    ensures
        is_scan_of(record, has_fragment@),
{
    let completed = positions(has_fragment, true);
    let missing = positions(has_fragment, false);
    let can_resume = completed.len() > 0 && missing.len() > 0;
    CompletionRecord { completed, missing, can_resume }
}

} // verus!

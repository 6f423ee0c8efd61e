//! Descriptions, physical batches, composite batches and merges in
//! progress.
use crate::frontier::Frontier;
use crate::model::{
    begin_merge_spec, sum_len, DescriptionView, FuelingMergeView, HollowBatchView, SpineBatchView,
};
use crate::wellformed::lemma_sum_len_concat;
use vstd::prelude::*;

verus! {

/// An interval of time, and how far the updates in it have been compacted.
pub struct Description {
    lower: Frontier,
    upper: Frontier,
    since: Frontier,
}

impl View for Description {
    type V = DescriptionView;

    closed spec fn view(&self) -> DescriptionView {
        DescriptionView { lower: self.lower@, upper: self.upper@, since: self.since@ }
    }
}

impl Description {
    /// A description from its three frontiers. The lower frontier holds a
    /// time.
    pub fn new(lower: Frontier, upper: Frontier, since: Frontier) -> (r: Description)
        requires
            lower@.len() > 0,
        ensures
            r@ == (DescriptionView { lower: lower@, upper: upper@, since: since@ }),
    {
        Description { lower, upper, since }
    }

    /// Whether the lower frontier holds a time and every frontier holds at
    /// most one.
    pub fn is_valid(&self) -> (r: bool)
        ensures
            r == self@.wf(),
    {
        self.lower.len() == 1 && self.upper.len() <= 1 && self.since.len() <= 1
    }

    /// The lower frontier: the first time of the interval.
    pub fn lower(&self) -> (r: &Frontier)
        ensures
            r@ == self@.lower,
    {
        &self.lower
    }

    /// The upper frontier: the first time after the interval.
    pub fn upper(&self) -> (r: &Frontier)
        ensures
            r@ == self@.upper,
    {
        &self.upper
    }

    /// The since frontier: how far the updates have been compacted.
    pub fn since(&self) -> (r: &Frontier)
        ensures
            r@ == self@.since,
    {
        &self.since
    }
}

impl Clone for Description {
    fn clone(&self) -> (r: Description)
        ensures
            r@ == self@,
    {
        Description {
            lower: self.lower.clone(),
            upper: self.upper.clone(),
            since: self.since.clone(),
        }
    }
}

/// A physical batch: a description and the number of updates it declares.
pub struct HollowBatch {
    pub desc: Description,
    pub len: usize,
}

impl View for HollowBatch {
    type V = HollowBatchView;

    open spec fn view(&self) -> HollowBatchView {
        HollowBatchView { desc: self.desc@, len: self.len as nat }
    }
}

impl Clone for HollowBatch {
    fn clone(&self) -> (r: HollowBatch)
        ensures
            r@ == self@,
    {
        HollowBatch { desc: self.desc.clone(), len: self.len }
    }
}

/// The models of a run of physical batches.
pub open spec fn parts_view(parts: Seq<HollowBatch>) -> Seq<HollowBatchView> {
    Seq::new(parts.len(), |i: int| parts[i]@)
}

/// A batch of the spine: one physical batch, or several grouped under one
/// description by a merge that has not been carried out on the data.
pub enum SpineBatch {
    Merged(HollowBatch),
    Fueled { desc: Description, parts: Vec<HollowBatch> },
}

impl View for SpineBatch {
    type V = SpineBatchView;

    open spec fn view(&self) -> SpineBatchView {
        match self {
            SpineBatch::Merged(b) => SpineBatchView::Merged(b@),
            SpineBatch::Fueled { desc, parts } => SpineBatchView::Fueled {
                desc: desc@,
                parts: parts_view(parts@),
            },
        }
    }
}

/// The model of a batch that may be absent.
pub open spec fn option_view(batch: Option<SpineBatch>) -> Option<SpineBatchView> {
    match batch {
        Some(b) => Some(b@),
        None => None,
    }
}

/// Copies a run of physical batches.
fn clone_parts(parts: &Vec<HollowBatch>) -> (r: Vec<HollowBatch>)
    ensures
        parts_view(r@) == parts_view(parts@),
{
    let mut out: Vec<HollowBatch> = Vec::new();
    let mut i: usize = 0;
    while i < parts.len()
        invariant
            i <= parts.len(),
            out.len() == i,
            forall|j: int| 0 <= j < i ==> out[j]@ == parts[j]@,
        decreases parts.len() - i,
    {
        out.push(parts[i].clone());
        i += 1;
    }
    assert(parts_view(out@) =~= parts_view(parts@));
    out
}

impl Clone for SpineBatch {
    fn clone(&self) -> (r: SpineBatch)
        ensures
            r@ == self@,
    {
        match self {
            SpineBatch::Merged(b) => SpineBatch::Merged(b.clone()),
            SpineBatch::Fueled { desc, parts } => SpineBatch::Fueled {
                desc: desc.clone(),
                parts: clone_parts(parts),
            },
        }
    }
}

/// The lengths of the first `i` parts sum to no more than those of all.
proof fn lemma_sum_len_prefix(parts: Seq<HollowBatchView>, i: int)
    requires
        0 <= i <= parts.len(),
    ensures
        sum_len(parts.take(i)) <= sum_len(parts),
        i < parts.len() ==> sum_len(parts.take(i + 1)) == sum_len(parts.take(i)) + parts[i].len,
{
    lemma_sum_len_concat(parts.take(i), parts.skip(i));
    assert(parts.take(i) + parts.skip(i) =~= parts);
    if i < parts.len() {
        assert(parts.take(i + 1).drop_last() =~= parts.take(i));
    }
}

impl SpineBatch {
    /// The lower frontier of the batch.
    pub fn lower(&self) -> (r: &Frontier)
        ensures
            r@ == self@.lower(),
    {
        self.desc().lower()
    }

    /// The upper frontier of the batch.
    pub fn upper(&self) -> (r: &Frontier)
        ensures
            r@ == self@.upper(),
    {
        self.desc().upper()
    }

    /// The description of the batch.
    pub fn desc(&self) -> (r: &Description)
        ensures
            r@ == self@.desc(),
    {
        match self {
            SpineBatch::Merged(b) => &b.desc,
            SpineBatch::Fueled { desc, .. } => desc,
        }
    }

    /// The number of updates that the batch declares: for a group, the sum
    /// over its parts, which bounds what is left once they are fused.
    pub fn len(&self) -> (r: usize)
        requires
            self@.len() <= usize::MAX,
        ensures
            r == self@.len(),
    {
        match self {
            SpineBatch::Merged(b) => b.len,
            SpineBatch::Fueled { parts, .. } => {
                let ghost all = parts_view(parts@);
                let mut total: usize = 0;
                let mut i: usize = 0;
                proof {
                    assert(all.take(0) =~= Seq::<HollowBatchView>::empty());
                }
                while i < parts.len()
                    invariant
                        i <= parts.len(),
                        all == parts_view(parts@),
                        sum_len(all) <= usize::MAX,
                        total == sum_len(all.take(i as int)),
                    decreases parts.len() - i,
                {
                    proof {
                        lemma_sum_len_prefix(all, i as int);
                        lemma_sum_len_prefix(all, i as int + 1);
                    }
                    total = total + parts[i].len;
                    i += 1;
                }
                proof {
                    assert(all.take(i as int) =~= all);
                }
                total
            },
        }
    }

    /// Whether the batch is valid: its description is, and its declared
    /// length fits the machine.
    pub fn is_valid(&self) -> (r: bool)
        ensures
            r == self@.wf(),
    {
        self.desc().is_valid() && self.len_fits()
    }

    /// Whether the declared length fits the machine: for a group, whether
    /// the lengths of its parts can be summed.
    pub fn len_fits(&self) -> (r: bool)
        ensures
            r == (self@.len() <= usize::MAX),
    {
        match self {
            SpineBatch::Merged(_) => true,
            SpineBatch::Fueled { parts, .. } => {
                let ghost all = parts_view(parts@);
                let mut total: usize = 0;
                let mut i: usize = 0;
                proof {
                    assert(all.take(0) =~= Seq::<HollowBatchView>::empty());
                }
                while i < parts.len()
                    invariant
                        i <= parts.len(),
                        all == parts_view(parts@),
                        self@.len() == sum_len(all),
                        total == sum_len(all.take(i as int)),
                    decreases parts.len() - i,
                {
                    proof {
                        lemma_sum_len_prefix(all, i as int);
                        lemma_sum_len_prefix(all, i as int + 1);
                    }
                    assert(all[i as int].len == parts[i as int].len);
                    if parts[i].len > usize::MAX - total {
                        return false;
                    }
                    total = total + parts[i].len;
                    i += 1;
                }
                proof {
                    assert(all.take(i as int) =~= all);
                }
                true
            },
        }
    }

    /// Starts the merge of an older batch `b1` with a newer batch `b2`: no
    /// work is done yet, and the result's since frontier is the join of the
    /// two batches' and of the compaction frontier, where one is given.
    pub fn begin_merge(
        b1: &SpineBatch,
        b2: &SpineBatch,
        compaction_frontier: Option<&Frontier>,
    ) -> (r: FuelingMerge)
        requires
            b1@.wf(),
            b2@.wf(),
            compaction_frontier matches Some(f) ==> f.wf(),
        ensures
            r@ == begin_merge_spec(
                b1@,
                b2@,
                match compaction_frontier {
                    Some(f) => Some(f@),
                    None => None,
                },
            ),
    {
        let mut since = b1.desc().since().join(b2.desc().since());
        if let Some(f) = compaction_frontier {
            since = since.join(f);
        }
        FuelingMerge { b1: b1.clone(), b2: b2.clone(), since, progress: 0 }
    }
}

/// A merge in progress: the two batches, the since frontier of the result,
/// and how much of the work has been done.
pub struct FuelingMerge {
    b1: SpineBatch,
    b2: SpineBatch,
    since: Frontier,
    progress: usize,
}

impl View for FuelingMerge {
    type V = FuelingMergeView;

    closed spec fn view(&self) -> FuelingMergeView {
        FuelingMergeView {
            b1: self.b1@,
            b2: self.b2@,
            since: self.since@,
            progress: self.progress as nat,
        }
    }
}

/// Moves the parts of a batch to the end of a run of parts.
fn append_parts(merged: &mut Vec<HollowBatch>, batch: SpineBatch)
    ensures
        parts_view(final(merged)@) == parts_view(old(merged)@) + batch@.parts(),
{
    match batch {
        SpineBatch::Merged(b) => {
            merged.push(b);
            assert(parts_view(merged@) =~= parts_view(old(merged)@) + batch@.parts());
        },
        SpineBatch::Fueled { desc, mut parts } => {
            let ghost before = merged@;
            let ghost added = parts@;
            merged.append(&mut parts);
            assert(merged@ == before + added);
            assert(parts_view(merged@) =~= parts_view(old(merged)@) + batch@.parts());
        },
    }
}

impl FuelingMerge {
    /// The inputs are valid batches that adjoin in length, and no more work
    /// is recorded than they ask for.
    pub open spec fn wf(&self) -> bool {
        self@.wf()
    }

    /// Does up to `fuel` units of the work that remains, and takes them
    /// from `fuel`. Work on a merge that is complete changes nothing.
    pub fn work(&mut self, fuel: &mut usize)
        requires
            old(self).wf(),
        ensures
            final(self)@ == old(self)@.work(*old(fuel) as nat),
            *final(fuel) == *old(fuel) - old(self)@.spend(*old(fuel) as nat),
            final(self).wf(),
    {
        let remaining = self.b1.len() + self.b2.len() - self.progress;
        let used = if *fuel < remaining {
            *fuel
        } else {
            remaining
        };
        self.progress = self.progress + used;
        *fuel = *fuel - used;
    }

    /// The work that has been done.
    pub fn progress(&self) -> (r: usize)
        ensures
            r == self@.progress,
    {
        self.progress
    }

    /// Whether all of the work has been done.
    pub fn is_complete(&self) -> (r: bool)
        requires
            self.wf(),
        ensures
            r == self@.is_complete(),
    {
        self.progress >= self.b1.len() + self.b2.len()
    }

    /// The merged batch: it spans both inputs and groups their parts in
    /// order. It does not depend on how much work was recorded.
    pub fn done(self) -> (r: SpineBatch)
        requires
            self@.b1.desc().wf(),
        ensures
            r@ == self@.done(),
    {
        let desc = Description::new(
            self.b1.lower().clone(),
            self.b2.upper().clone(),
            self.since,
        );
        let mut merged_parts: Vec<HollowBatch> = Vec::new();
        append_parts(&mut merged_parts, self.b1);
        append_parts(&mut merged_parts, self.b2);
        proof {
            assert(parts_view(Seq::<HollowBatch>::empty()) =~= Seq::<HollowBatchView>::empty());
            assert(Seq::<HollowBatchView>::empty() + self@.b1.parts() =~= self@.b1.parts());
        }
        SpineBatch::Fueled { desc, parts: merged_parts }
    }
}

} // verus!

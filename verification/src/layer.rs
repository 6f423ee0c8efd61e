//! The layers of the spine: each is vacant, holds one batch, or holds a
//! pair that is merging or has merged.
use crate::batch::{option_view, FuelingMerge, SpineBatch};
use crate::frontier::Frontier;
use crate::model::{Completed, MergeStateView, MergeVariantView};
use vstd::prelude::*;

verus! {

/// What a completed layer hands out.
pub type Extracted = Option<(SpineBatch, Option<(SpineBatch, SpineBatch)>)>;

/// The model of what a completed layer hands out.
pub open spec fn extracted_view(e: Extracted) -> Completed {
    match e {
        Some((b, Some((b1, b2)))) => Some((b@, Some((b1@, b2@)))),
        Some((b, None)) => Some((b@, None)),
        None => None,
    }
}

/// A pair of batches in one layer.
pub enum MergeVariant {
    /// A merge between two batches that is under way.
    InProgress(SpineBatch, SpineBatch, FuelingMerge),
    /// A merge that asks for no more work, with its result, if it has one,
    /// and the batches that it was merged from, if there were two.
    Complete(Extracted),
}

impl View for MergeVariant {
    type V = MergeVariantView;

    open spec fn view(&self) -> MergeVariantView {
        match self {
            MergeVariant::InProgress(b1, b2, m) => MergeVariantView::InProgress(b1@, b2@, m@),
            MergeVariant::Complete(e) => MergeVariantView::Complete(extracted_view(*e)),
        }
    }
}

impl MergeVariant {
    /// A merge in progress keeps a valid record of its two batches.
    pub open spec fn wf(&self) -> bool {
        self@.wf()
    }

    /// Completes the merge at once and hands out its result, with the
    /// batches that it was merged from.
    pub fn complete(self) -> (r: Extracted)
        requires
            self.wf(),
        ensures
            extracted_view(r) == self@.complete(),
    {
        match self {
            MergeVariant::InProgress(b1, b2, merge) => Some((merge.done(), Some((b1, b2)))),
            MergeVariant::Complete(batch) => batch,
        }
    }

    /// Does up to `fuel` units of work on a merge in progress; the merge is
    /// complete as soon as no work remains.
    pub fn work(&mut self, fuel: &mut usize)
        requires
            old(self).wf(),
        ensures
            final(self)@ == old(self)@.work(*old(fuel) as nat),
            *final(fuel) == *old(fuel) - old(self)@.spend(*old(fuel) as nat),
            final(self).wf(),
    {
        let mut variant = MergeVariant::Complete(None);
        std::mem::swap(self, &mut variant);
        match variant {
            MergeVariant::InProgress(b1, b2, mut merge) => {
                merge.work(fuel);
                if merge.is_complete() {
                    *self = MergeVariant::Complete(Some((merge.done(), Some((b1, b2)))));
                } else {
                    *self = MergeVariant::InProgress(b1, b2, merge);
                }
            },
            MergeVariant::Complete(e) => {
                *self = MergeVariant::Complete(e);
            },
        }
    }
}

/// One layer of the spine.
pub enum MergeState {
    /// A layer that holds nothing.
    Vacant,
    /// A layer that holds one batch; `None` stands for a batch without
    /// content that only keeps the books moving.
    Single(Option<SpineBatch>),
    /// A layer that holds a pair.
    Double(MergeVariant),
}

impl View for MergeState {
    type V = MergeStateView;

    open spec fn view(&self) -> MergeStateView {
        match self {
            MergeState::Vacant => MergeStateView::Vacant,
            MergeState::Single(b) => MergeStateView::Single(option_view(*b)),
            MergeState::Double(v) => MergeStateView::Double(v@),
        }
    }
}

impl MergeState {
    /// A pair in progress keeps a valid record of its two batches.
    pub open spec fn wf(&self) -> bool {
        self@.wf()
    }

    /// The number of updates that the layer holds.
    pub fn len(&self) -> (r: usize)
        requires
            self@.len() <= usize::MAX,
        ensures
            r == self@.len(),
    {
        match self {
            MergeState::Single(Some(b)) => b.len(),
            MergeState::Double(MergeVariant::InProgress(b1, b2, _)) => b1.len() + b2.len(),
            MergeState::Double(MergeVariant::Complete(Some((b, _)))) => b.len(),
            _ => 0,
        }
    }

    /// Whether the layer holds nothing.
    pub fn is_vacant(&self) -> (r: bool)
        ensures
            r == self@.is_vacant(),
    {
        match self {
            MergeState::Vacant => true,
            _ => false,
        }
    }

    /// Whether the layer holds one batch.
    pub fn is_single(&self) -> (r: bool)
        ensures
            r == self@.is_single(),
    {
        match self {
            MergeState::Single(_) => true,
            _ => false,
        }
    }

    /// Whether the layer holds a pair.
    pub fn is_double(&self) -> (r: bool)
        ensures
            r == self@.is_double(),
    {
        match self {
            MergeState::Double(_) => true,
            _ => false,
        }
    }

    /// Whether the layer holds a merge that is complete and waits to be
    /// taken out.
    pub fn is_complete(&self) -> (r: bool)
        ensures
            r == self@.is_complete(),
    {
        match self {
            MergeState::Double(MergeVariant::Complete(_)) => true,
            _ => false,
        }
    }

    /// Completes whatever the layer holds, hands it out and leaves the
    /// layer vacant.
    pub fn complete(&mut self) -> (r: Extracted)
        requires
            old(self).wf(),
        ensures
            extracted_view(r) == old(self)@.complete(),
            final(self)@ == MergeStateView::Vacant,
    {
        let mut state = MergeState::Vacant;
        std::mem::swap(self, &mut state);
        match state {
            MergeState::Vacant => None,
            MergeState::Single(batch) => match batch {
                Some(b) => Some((b, None)),
                None => None,
            },
            MergeState::Double(variant) => variant.complete(),
        }
    }

    /// Does up to `fuel` units of work on a merge in progress; other layers
    /// take none.
    pub fn work(&mut self, fuel: &mut usize)
        requires
            old(self).wf(),
        ensures
            final(self)@ == old(self)@.work(*old(fuel) as nat),
            *final(fuel) == *old(fuel) - old(self)@.spend(*old(fuel) as nat),
            final(self).wf(),
    {
        let mut state = MergeState::Vacant;
        std::mem::swap(self, &mut state);
        match state {
            MergeState::Double(mut layer) => {
                layer.work(fuel);
                *self = MergeState::Double(layer);
            },
            other => {
                *self = other;
            },
        }
    }

    /// Takes the layer out and leaves it vacant.
    pub fn take(&mut self) -> (r: MergeState)
        ensures
            r == *old(self),
            final(self)@ == MergeStateView::Vacant,
    {
        let mut state = MergeState::Vacant;
        std::mem::swap(self, &mut state);
        state
    }

    /// The layer that an older and a newer batch form: a merge in progress
    /// where both have content, else a merge that is complete already.
    pub fn begin_merge(
        batch1: Option<SpineBatch>,
        batch2: Option<SpineBatch>,
        compaction_frontier: Option<&Frontier>,
    ) -> (r: MergeState)
        requires
            batch1 matches Some(b1) ==> b1@.wf(),
            batch2 matches Some(b2) ==> b2@.wf(),
            compaction_frontier matches Some(f) ==> f.wf(),
            batch1 matches Some(b1) ==> (batch2 matches Some(b2) ==> b1@.upper() == b2@.lower()
                && b1@.len() + b2@.len() <= usize::MAX),
        ensures
            r@ == MergeStateView::begin_merge(
                option_view(batch1),
                option_view(batch2),
                match compaction_frontier {
                    Some(f) => Some(f@),
                    None => None,
                },
            ),
            r.wf(),
    {
        let variant = match (batch1, batch2) {
            (Some(b1), Some(b2)) => {
                let merge = SpineBatch::begin_merge(&b1, &b2, compaction_frontier);
                proof {
                    crate::fueling::lemma_merged_since(
                        b1@,
                        b2@,
                        match compaction_frontier {
                            Some(f) => f@,
                            None => Seq::empty(),
                        },
                    );
                }
                MergeVariant::InProgress(b1, b2, merge)
            },
            (None, Some(x)) => MergeVariant::Complete(Some((x, None))),
            (Some(x), None) => MergeVariant::Complete(Some((x, None))),
            (None, None) => MergeVariant::Complete(None),
        };
        MergeState::Double(variant)
    }
}

} // verus!

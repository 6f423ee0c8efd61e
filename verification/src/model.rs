//! The mathematical model of the spine: batches, merges and layers as plain
//! values, and each operation as a function on them.
use crate::frontier::join_spec;
use vstd::arithmetic::power2::pow2;
use vstd::prelude::*;

verus! {

/// The model of a description: three frontiers.
pub struct DescriptionView {
    pub lower: Seq<u64>,
    pub upper: Seq<u64>,
    pub since: Seq<u64>,
}

impl DescriptionView {
    /// The lower frontier holds a time; every frontier holds at most one.
    pub open spec fn wf(self) -> bool {
        self.lower.len() == 1 && self.upper.len() <= 1 && self.since.len() <= 1
    }
}

/// The model of a physical batch: its description and declared length.
pub struct HollowBatchView {
    pub desc: DescriptionView,
    pub len: nat,
}

/// The sum of the declared lengths of a run of physical batches.
pub open spec fn sum_len(parts: Seq<HollowBatchView>) -> nat
    decreases parts.len(),
{
    if parts.len() == 0 {
        0
    } else {
        sum_len(parts.drop_last()) + parts.last().len
    }
}

/// The model of a composite batch.
pub enum SpineBatchView {
    Merged(HollowBatchView),
    Fueled { desc: DescriptionView, parts: Seq<HollowBatchView> },
}

impl SpineBatchView {
    /// The description of the batch.
    pub open spec fn desc(self) -> DescriptionView {
        match self {
            SpineBatchView::Merged(b) => b.desc,
            SpineBatchView::Fueled { desc, .. } => desc,
        }
    }

    /// The lower frontier of the batch.
    pub open spec fn lower(self) -> Seq<u64> {
        self.desc().lower
    }

    /// The upper frontier of the batch.
    pub open spec fn upper(self) -> Seq<u64> {
        self.desc().upper
    }

    /// The physical batches that the composite batch groups, in order.
    pub open spec fn parts(self) -> Seq<HollowBatchView> {
        match self {
            SpineBatchView::Merged(b) => seq![b],
            SpineBatchView::Fueled { parts, .. } => parts,
        }
    }

    /// The declared length: that of the physical batch, or the sum over the
    /// parts.
    pub open spec fn len(self) -> nat {
        match self {
            SpineBatchView::Merged(b) => b.len,
            SpineBatchView::Fueled { parts, .. } => sum_len(parts),
        }
    }

    /// The description is valid and the length fits the machine.
    pub open spec fn wf(self) -> bool {
        self.desc().wf() && self.len() <= usize::MAX
    }
}

/// The model of a merge in progress.
pub struct FuelingMergeView {
    pub b1: SpineBatchView,
    pub b2: SpineBatchView,
    pub since: Seq<u64>,
    pub progress: nat,
}

impl FuelingMergeView {
    /// The work that the merge asks for in all.
    pub open spec fn total(self) -> nat {
        self.b1.len() + self.b2.len()
    }

    /// The work still to do.
    pub open spec fn remaining(self) -> nat {
        if self.progress >= self.total() {
            0
        } else {
            (self.total() - self.progress) as nat
        }
    }

    /// The fuel that one call of `work` spends.
    pub open spec fn spend(self, fuel: nat) -> nat {
        if fuel <= self.remaining() {
            fuel
        } else {
            self.remaining()
        }
    }

    /// The merge after `fuel` units of work were offered to it.
    pub open spec fn work(self, fuel: nat) -> FuelingMergeView {
        FuelingMergeView { progress: self.progress + self.spend(fuel), ..self }
    }

    /// Whether no work remains.
    pub open spec fn is_complete(self) -> bool {
        self.progress >= self.total()
    }

    /// The inputs are valid, their lengths fit the machine together, and no
    /// more work is recorded than they ask for.
    pub open spec fn wf(self) -> bool {
        &&& self.b1.wf()
        &&& self.b2.wf()
        &&& self.since.len() <= 1
        &&& self.total() <= usize::MAX
        &&& self.progress <= self.total()
    }

    /// The merged batch: the inputs' parts regrouped under one description.
    pub open spec fn done(self) -> SpineBatchView {
        SpineBatchView::Fueled {
            desc: DescriptionView {
                lower: self.b1.lower(),
                upper: self.b2.upper(),
                since: self.since,
            },
            parts: self.b1.parts() + self.b2.parts(),
        }
    }
}

/// The since frontier of a merge of two batches: the join of theirs, joined
/// with the compaction frontier where one is given.
pub open spec fn merged_since(
    b1: SpineBatchView,
    b2: SpineBatchView,
    compaction_frontier: Option<Seq<u64>>,
) -> Seq<u64> {
    let since = join_spec(b1.desc().since, b2.desc().since);
    match compaction_frontier {
        Some(f) => join_spec(since, f),
        None => since,
    }
}

/// The model of `SpineBatch::begin_merge`.
pub open spec fn begin_merge_spec(
    b1: SpineBatchView,
    b2: SpineBatchView,
    compaction_frontier: Option<Seq<u64>>,
) -> FuelingMergeView {
    FuelingMergeView { b1, b2, since: merged_since(b1, b2, compaction_frontier), progress: 0 }
}

/// What a completed layer hands out: the batch, and the inputs it was merged
/// from where there were two.
pub type Completed = Option<(SpineBatchView, Option<(SpineBatchView, SpineBatchView)>)>;

/// The model of the two forms of a layer that holds a pair.
pub enum MergeVariantView {
    InProgress(SpineBatchView, SpineBatchView, FuelingMergeView),
    Complete(Completed),
}

impl MergeVariantView {
    /// A merge in progress keeps a valid record of its two batches.
    pub open spec fn wf(self) -> bool {
        match self {
            MergeVariantView::InProgress(b1, b2, m) => m.wf() && m.b1 == b1 && m.b2 == b2,
            MergeVariantView::Complete(_) => true,
        }
    }

    /// The fuel that one call of `work` spends: what a merge in progress
    /// takes, and nothing on a pair that is complete.
    pub open spec fn spend(self, fuel: nat) -> nat {
        match self {
            MergeVariantView::InProgress(_, _, merge) => merge.spend(fuel),
            MergeVariantView::Complete(_) => 0,
        }
    }

    /// The pair after `fuel` units of work were offered to it: a merge in
    /// progress that has no work left is complete.
    pub open spec fn work(self, fuel: nat) -> MergeVariantView {
        match self {
            MergeVariantView::InProgress(b1, b2, merge) => {
                let worked = merge.work(fuel);
                if worked.is_complete() {
                    MergeVariantView::Complete(Some((worked.done(), Some((b1, b2)))))
                } else {
                    MergeVariantView::InProgress(b1, b2, worked)
                }
            },
            MergeVariantView::Complete(c) => self,
        }
    }

    /// What the pair hands out when it is completed on the spot.
    pub open spec fn complete(self) -> Completed {
        match self {
            MergeVariantView::InProgress(b1, b2, merge) => Some((merge.done(), Some((b1, b2)))),
            MergeVariantView::Complete(c) => c,
        }
    }
}

/// The model of a layer.
pub enum MergeStateView {
    Vacant,
    Single(Option<SpineBatchView>),
    Double(MergeVariantView),
}

impl MergeStateView {
    /// A merge in progress keeps a valid record of its two batches.
    pub open spec fn wf(self) -> bool {
        match self {
            MergeStateView::Double(v) => v.wf(),
            _ => true,
        }
    }

    /// The number of updates that the layer holds.
    pub open spec fn len(self) -> nat {
        match self {
            MergeStateView::Single(Some(b)) => b.len(),
            MergeStateView::Double(MergeVariantView::InProgress(b1, b2, _)) => b1.len() + b2.len(),
            MergeStateView::Double(MergeVariantView::Complete(Some((b, _)))) => b.len(),
            _ => 0,
        }
    }

    /// Whether the layer holds nothing.
    pub open spec fn is_vacant(self) -> bool {
        self is Vacant
    }

    /// Whether the layer holds one batch.
    pub open spec fn is_single(self) -> bool {
        self is Single
    }

    /// Whether the layer holds a pair.
    pub open spec fn is_double(self) -> bool {
        self is Double
    }

    /// Whether the layer holds a complete pair.
    pub open spec fn is_complete(self) -> bool {
        self matches MergeStateView::Double(MergeVariantView::Complete(_))
    }

    /// Whether the layer holds a merge in progress.
    pub open spec fn is_in_progress(self) -> bool {
        self matches MergeStateView::Double(MergeVariantView::InProgress(..))
    }

    /// How many batches the layer accounts for: none, one or two.
    pub open spec fn occupancy(self) -> nat {
        match self {
            MergeStateView::Vacant => 0,
            MergeStateView::Single(_) => 1,
            MergeStateView::Double(_) => 2,
        }
    }

    /// The fuel that one call of `work` spends: what a merge in progress
    /// takes, and nothing on any other layer.
    pub open spec fn spend(self, fuel: nat) -> nat {
        match self {
            MergeStateView::Double(v) => v.spend(fuel),
            _ => 0,
        }
    }

    /// The layer after `fuel` units of work were offered to it.
    pub open spec fn work(self, fuel: nat) -> MergeStateView {
        match self {
            MergeStateView::Double(v) => MergeStateView::Double(v.work(fuel)),
            _ => self,
        }
    }

    /// What the layer hands out when it is completed on the spot.
    pub open spec fn complete(self) -> Completed {
        match self {
            MergeStateView::Vacant => None,
            MergeStateView::Single(None) => None,
            MergeStateView::Single(Some(b)) => Some((b, None)),
            MergeStateView::Double(v) => v.complete(),
        }
    }

    /// The batch that the layer hands out when it is completed on the spot.
    pub open spec fn completed(self) -> Option<SpineBatchView> {
        match self.complete() {
            Some((b, _)) => Some(b),
            None => None,
        }
    }

    /// The layer that an older and a newer batch form together.
    pub open spec fn begin_merge(
        batch1: Option<SpineBatchView>,
        batch2: Option<SpineBatchView>,
        compaction_frontier: Option<Seq<u64>>,
    ) -> MergeStateView {
        MergeStateView::Double(
            match (batch1, batch2) {
                (Some(b1), Some(b2)) => MergeVariantView::InProgress(
                    b1,
                    b2,
                    begin_merge_spec(b1, b2, compaction_frontier),
                ),
                (None, Some(x)) => MergeVariantView::Complete(Some((x, None))),
                (Some(x), None) => MergeVariantView::Complete(Some((x, None))),
                (None, None) => MergeVariantView::Complete(None),
            },
        )
    }

    /// The composite batches that a reader finds in the layer, oldest first.
    pub open spec fn batches(self) -> Seq<SpineBatchView> {
        match self {
            MergeStateView::Single(Some(b)) => seq![b],
            MergeStateView::Double(MergeVariantView::InProgress(b1, b2, _)) => seq![b1, b2],
            MergeStateView::Double(MergeVariantView::Complete(Some((b, _)))) => seq![b],
            _ => Seq::empty(),
        }
    }

    /// The physical batches that a reader finds in the layer, oldest first.
    pub open spec fn parts(self) -> Seq<HollowBatchView> {
        match self {
            MergeStateView::Single(Some(b)) => b.parts(),
            MergeStateView::Double(MergeVariantView::InProgress(b1, b2, _)) => b1.parts()
                + b2.parts(),
            MergeStateView::Double(MergeVariantView::Complete(Some((b, _)))) => b.parts(),
            _ => Seq::empty(),
        }
    }

    /// The interval of time that the layer covers, if it holds a batch.
    pub open spec fn span(self) -> Option<(Seq<u64>, Seq<u64>)> {
        match self {
            MergeStateView::Single(Some(b)) => Some((b.lower(), b.upper())),
            MergeStateView::Double(MergeVariantView::InProgress(b1, b2, _)) => Some(
                (b1.lower(), b2.upper()),
            ),
            MergeStateView::Double(MergeVariantView::Complete(Some((b, _)))) => Some(
                (b.lower(), b.upper()),
            ),
            _ => None,
        }
    }
}

/// The layers of a spine, lowest first.
pub type Layers = Seq<MergeStateView>;

/// The least level whose capacity `2^level` holds `n` updates.
pub open spec fn level_of(n: nat) -> nat
    decreases n,
{
    if n <= 1 {
        0
    } else {
        1 + level_of(((n + 1) / 2) as nat)
    }
}

/// The updates that the layers below `k` account for: `2^j` for each batch
/// of layer `j`, whatever it holds.
pub open spec fn accounted(layers: Layers, k: int) -> nat
    decreases k,
{
    if k <= 0 {
        0
    } else {
        accounted(layers, k - 1) + layers[k - 1].occupancy() * pow2((k - 1) as nat)
    }
}

/// The layers, with vacant ones added until layer `index` exists.
pub open spec fn grow(layers: Layers, index: nat) -> Layers {
    if layers.len() > index {
        layers
    } else {
        layers + Seq::new((index + 1 - layers.len()) as nat, |i: int| MergeStateView::Vacant)
    }
}

/// The model of `insert_at`, for a layer that holds no pair.
pub open spec fn insert_at(
    layers: Layers,
    batch: Option<SpineBatchView>,
    index: nat,
    since: Seq<u64>,
) -> Layers {
    let g = grow(layers, index);
    match g[index as int] {
        MergeStateView::Vacant => g.update(index as int, MergeStateView::Single(batch)),
        MergeStateView::Single(old) => g.update(
            index as int,
            MergeStateView::begin_merge(old, batch, Some(since)),
        ),
        MergeStateView::Double(_) => g,
    }
}

/// One layer's share of `apply_fuel`: work on layer `i`, and where that
/// leaves a complete merge, its result moves into layer `i + 1`.
pub open spec fn fuel_step(layers: Layers, fuel: nat, i: nat, since: Seq<u64>) -> Layers {
    let worked = layers[i as int].work(fuel);
    if worked.is_complete() {
        insert_at(
            layers.update(i as int, MergeStateView::Vacant),
            worked.completed(),
            i + 1,
            since,
        )
    } else {
        layers.update(i as int, worked)
    }
}

/// The model of `apply_fuel` from layer `i` on, over the first `n` layers.
pub open spec fn apply_fuel_from(layers: Layers, fuel: nat, i: nat, n: nat, since: Seq<u64>) -> Layers
    decreases n - i,
{
    if i >= n {
        layers
    } else {
        apply_fuel_from(fuel_step(layers, fuel, i, since), fuel, i + 1, n, since)
    }
}

/// The model of `apply_fuel`: every layer gets the whole of `fuel`.
pub open spec fn apply_fuel(layers: Layers, fuel: nat, since: Seq<u64>) -> Layers {
    apply_fuel_from(layers, fuel, 0, layers.len(), since)
}

/// One step of a roll-up: what was gathered from below joins layer `i`,
/// which is completed and left vacant.
pub open spec fn roll_step(
    layers: Layers,
    merged: Option<SpineBatchView>,
    i: nat,
    since: Seq<u64>,
) -> (Layers, Option<SpineBatchView>) {
    let ins = insert_at(layers, merged, i, since);
    (ins.update(i as int, MergeStateView::Vacant), ins[i as int].completed())
}

/// The layers `i..index` completed and chained into one batch.
pub open spec fn roll_chain(
    layers: Layers,
    merged: Option<SpineBatchView>,
    i: nat,
    index: nat,
    since: Seq<u64>,
) -> (Layers, Option<SpineBatchView>)
    decreases index - i,
{
    if i >= index {
        (layers, merged)
    } else {
        let (next, m) = roll_step(layers, merged, i, since);
        roll_chain(next, m, i + 1, index, since)
    }
}

/// Whether every layer below `k` is vacant.
pub open spec fn vacant_below(layers: Layers, k: int) -> bool {
    forall|j: int| 0 <= j < k && j < layers.len() ==> (#[trigger] layers[j]).is_vacant()
}

/// The model of `roll_up`: all that the layers below `index` hold ends as one
/// batch in layer `index`, or one above where `index` held a batch already.
pub open spec fn roll_up(layers: Layers, index: nat, since: Seq<u64>) -> Layers {
    let g = grow(layers, index);
    if vacant_below(g, index as int) {
        g
    } else {
        let (chained, merged) = roll_chain(g, None, 0, index, since);
        let placed = insert_at(chained, merged, index, since);
        if placed[index as int].is_double() {
            insert_at(
                placed.update(index as int, MergeStateView::Vacant),
                placed[index as int].completed(),
                index + 1,
                since,
            )
        } else {
            placed
        }
    }
}

/// The model of the loop of `tidy_layers`, for a top batch that fits level
/// `level`.
pub open spec fn tidy_from(layers: Layers, level: nat, since: Seq<u64>) -> Layers
    decreases layers.len(),
{
    let n = layers.len() as int;
    if n >= 2 && level < n - 1 {
        match layers[n - 2] {
            MergeStateView::Vacant | MergeStateView::Single(None) => tidy_from(
                layers.remove(n - 2),
                level,
                since,
            ),
            MergeStateView::Single(Some(batch)) => if accounted(layers, n - 2) <= pow2(n as nat)
                / 8 {
                insert_at(layers.remove(n - 2), Some(batch), (n - 2) as nat, since)
            } else {
                layers
            },
            MergeStateView::Double(_) => layers,
        }
    } else {
        layers
    }
}

/// The model of `tidy_layers`.
pub open spec fn tidy_layers(layers: Layers, since: Seq<u64>) -> Layers {
    if layers.len() > 0 && layers.last().is_single() {
        tidy_from(layers, level_of(layers.last().len()), since)
    } else {
        layers
    }
}

/// The fuel that an insertion at `level` brings: eight units for each of the
/// `2^level` updates it stands for, times the effort; capped at `limit`.
pub open spec fn fuel_for(level: nat, effort: nat, limit: nat) -> nat {
    let fuel = 8 * pow2(level) * effort;
    if fuel <= limit {
        fuel
    } else {
        limit
    }
}

/// The model of `introduce_batch`.
pub open spec fn introduce_batch(
    layers: Layers,
    batch: Option<SpineBatchView>,
    level: nat,
    fuel: nat,
    since: Seq<u64>,
) -> Layers {
    let fueled = apply_fuel(layers, fuel, since);
    let rolled = roll_up(fueled, level, since);
    tidy_layers(insert_at(rolled, batch, level, since), since)
}

/// Whether no layer holds a pair and at most one holds any update.
pub open spec fn reduced(layers: Layers) -> bool {
    &&& forall|i: int| 0 <= i < layers.len() ==> !(#[trigger] layers[i]).is_double()
    &&& forall|i: int, j: int|
        0 <= i < j < layers.len() ==> !((#[trigger] layers[i]).len() > 0 && (
        #[trigger] layers[j]).len() > 0)
}

/// Whether some layer holds a pair.
pub open spec fn any_double(layers: Layers) -> bool {
    exists|i: int| 0 <= i < layers.len() && (#[trigger] layers[i]).is_double()
}

/// The lowest layer at or above `i` that is not vacant.
pub open spec fn first_occupied(layers: Layers, i: nat) -> Option<nat>
    decreases layers.len() - i,
{
    if i >= layers.len() {
        None
    } else if !layers[i as int].is_vacant() {
        Some(i)
    } else {
        first_occupied(layers, i + 1)
    }
}

/// The model of a spine.
pub struct SpineView {
    pub effort: nat,
    pub since: Seq<u64>,
    pub upper: Seq<u64>,
    pub merging: Layers,
}

impl SpineView {
    /// Whether an empty batch joins the newest batch in place: the lowest
    /// occupied layer holds one batch, and that batch is empty too.
    pub open spec fn fuses(self, batch: SpineBatchView) -> bool {
        batch.len() == 0 && match first_occupied(self.merging, 0) {
            Some(p) => self.merging[p as int].is_single() && self.merging[p as int].len() == 0,
            None => false,
        }
    }

    /// The model of `insert`.
    pub open spec fn insert(self, batch: SpineBatchView) -> SpineView {
        let merging = if self.fuses(batch) {
            let p = first_occupied(self.merging, 0)->0;
            let ins = insert_at(self.merging, Some(batch), p, self.since);
            ins.update(p as int, MergeStateView::Single(ins[p as int].completed()))
        } else {
            let level = level_of(batch.len());
            introduce_batch(
                self.merging,
                Some(batch),
                level,
                fuel_for(level, self.effort, usize::MAX as nat),
                self.since,
            )
        };
        SpineView { upper: batch.upper(), merging, ..self }
    }

    /// The model of `exert`.
    pub open spec fn exert(self, effort: nat) -> SpineView {
        let tidied = tidy_layers(self.merging, self.since);
        let merging = if reduced(tidied) {
            tidied
        } else if any_double(tidied) {
            apply_fuel(tidied, effort, self.since)
        } else {
            let level = level_of(effort);
            introduce_batch(
                tidied,
                None,
                level,
                fuel_for(level, self.effort, usize::MAX as nat),
                self.since,
            )
        };
        SpineView { merging, ..self }
    }
}

} // verus!

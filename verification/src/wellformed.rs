//! What holds of the layers of a spine between operations, and the
//! arithmetic that the preservation proofs share.
use crate::model::{
    accounted, grow, sum_len, vacant_below, HollowBatchView, Layers, MergeStateView,
    MergeVariantView, SpineBatchView, SpineView,
};
use vstd::arithmetic::power2::{
    lemma_pow2_pos, lemma_pow2_strictly_increases, lemma_pow2_unfold, pow2,
};
use vstd::prelude::*;

verus! {

/// The physical batches of layers `lo..hi`, oldest first: higher layers hold
/// older batches.
pub open spec fn physical_range(layers: Layers, lo: int, hi: int) -> Seq<HollowBatchView>
    decreases hi - lo,
{
    if lo >= hi {
        Seq::empty()
    } else {
        physical_range(layers, lo + 1, hi) + layers[lo].parts()
    }
}

/// All physical batches that the layers reach, oldest first.
pub open spec fn physical(layers: Layers) -> Seq<HollowBatchView> {
    physical_range(layers, 0, layers.len() as int)
}

/// The composite batches of layers `lo..hi`, oldest first.
pub open spec fn batches_range(layers: Layers, lo: int, hi: int) -> Seq<SpineBatchView>
    decreases hi - lo,
{
    if lo >= hi {
        Seq::empty()
    } else {
        batches_range(layers, lo + 1, hi) + layers[lo].batches()
    }
}

/// All composite batches that a reader of the layers finds, oldest first.
pub open spec fn all_batches(layers: Layers) -> Seq<SpineBatchView> {
    batches_range(layers, 0, layers.len() as int)
}

/// The first time of a fresh spine.
pub open spec fn initial_frontier() -> Seq<u64> {
    seq![0u64]
}

/// The frontier that a reader has reached after layers `k` and above.
pub open spec fn reach(layers: Layers, k: int) -> Seq<u64>
    decreases layers.len() - k,
{
    if k >= layers.len() {
        initial_frontier()
    } else {
        match layers[k].span() {
            Some((_, hi)) => hi,
            None => reach(layers, k + 1),
        }
    }
}

/// Whether each layer at or above `k` starts where the layers above it end.
pub open spec fn linked(layers: Layers, k: int) -> bool
    decreases layers.len() - k,
{
    if k >= layers.len() {
        true
    } else {
        linked(layers, k + 1) && match layers[k].span() {
            Some((lo, _)) => lo == reach(layers, k + 1),
            None => true,
        }
    }
}

/// Whether the layers cover the time from the initial frontier to `upper`
/// without gap or overlap.
pub open spec fn contiguous(layers: Layers, upper: Seq<u64>) -> bool {
    linked(layers, 0) && reach(layers, 0) == upper
}

/// Whether `bs` is a run of batches from `lo` to `hi` in which each batch
/// starts where the one before it ends.
pub open spec fn is_chain(bs: Seq<SpineBatchView>, lo: Seq<u64>, hi: Seq<u64>) -> bool {
    if bs.len() == 0 {
        lo == hi
    } else {
        &&& bs[0].lower() == lo
        &&& bs.last().upper() == hi
        &&& forall|i: int| 0 <= i < bs.len() - 1 ==> (#[trigger] bs[i]).upper() == bs[i + 1].lower()
    }
}

/// Whether a batch is valid and holds at most `cap` updates.
pub open spec fn batch_fits(b: SpineBatchView, cap: nat) -> bool {
    b.wf() && b.len() <= cap
}

/// What holds of a layer by itself at level `k`: its batches are valid and
/// fit the level, and the two batches of a merge adjoin.
pub open spec fn layer_shape(l: MergeStateView, k: int) -> bool {
    match l {
        MergeStateView::Vacant => true,
        MergeStateView::Single(None) => true,
        MergeStateView::Single(Some(b)) => batch_fits(b, pow2(k as nat)),
        MergeStateView::Double(MergeVariantView::InProgress(b1, b2, m)) => {
            &&& batch_fits(b1, pow2(k as nat))
            &&& batch_fits(b2, pow2(k as nat))
            &&& m.b1 == b1
            &&& m.b2 == b2
            &&& m.since.len() <= 1
            &&& b1.upper() == b2.lower()
            &&& m.progress <= m.total()
        },
        MergeStateView::Double(MergeVariantView::Complete(None)) => true,
        MergeStateView::Double(MergeVariantView::Complete(Some((b, _)))) => batch_fits(
            b,
            2 * pow2(k as nat),
        ),
    }
}

/// The work that a layer still owes: what remains of its merge.
pub open spec fn pending(l: MergeStateView) -> nat {
    match l {
        MergeStateView::Double(MergeVariantView::InProgress(_, _, m)) => m.remaining(),
        _ => 0,
    }
}

/// Whether a pair in layer `k` can afford `credit` more units of debt: below
/// it the layers account for fewer than `2^k` updates, and four times what is
/// missing to `2^k` covers the work that remains and the credit.
pub open spec fn credit_ok(layers: Layers, k: int, credit: nat) -> bool {
    layers[k].is_double() ==> {
        &&& 4 * accounted(layers, k) + credit + pending(layers[k]) <= 4 * pow2(k as nat)
        &&& 4 * accounted(layers, k) + credit < 4 * pow2(k as nat)
    }
}

/// What holds of layer `k`: its shape, and that it owes no more work than
/// the layers below leave it time for.
pub open spec fn layer_ok(layers: Layers, k: int) -> bool {
    layer_shape(layers[k], k) && credit_ok(layers, k, 0)
}

/// What holds of layer `k` once `fuel` has been applied to it: no complete
/// merge waits there, and a merge still in progress has taken all of `fuel`.
pub open spec fn fueled(layers: Layers, k: int, fuel: nat) -> bool {
    match layers[k] {
        MergeStateView::Double(MergeVariantView::InProgress(_, _, m)) => {
            &&& m.remaining() >= 1
            &&& fuel <= m.progress
            &&& 4 * accounted(layers, k) + fuel + m.remaining() <= 4 * pow2(k as nat)
        },
        MergeStateView::Double(MergeVariantView::Complete(_)) => false,
        _ => true,
    }
}

impl SpineView {
    /// What holds of a spine between operations: some effort, frontiers of
    /// at most one time, and the invariant of the layers.
    pub open spec fn wf(self) -> bool {
        &&& self.effort >= 1
        &&& self.since.len() <= 1
        &&& self.upper.len() <= 1
        &&& inv(self.merging, self.upper)
    }

    /// All physical batches that the spine reaches, oldest first.
    pub open spec fn physical(self) -> Seq<HollowBatchView> {
        physical(self.merging)
    }

    /// The number of updates that the spine holds.
    pub open spec fn len(self) -> nat {
        sum_len(physical(self.merging))
    }
}

/// Whether `batch` can join layer `index`: the layer holds no pair, and a
/// batch that it holds ends where `batch` starts.
pub open spec fn insert_ready(
    layers: Layers,
    batch: Option<SpineBatchView>,
    index: int,
    since: Seq<u64>,
) -> bool {
    &&& since.len() <= 1
    &&& (batch matches Some(b) ==> b.wf())
    &&& (0 <= index < layers.len() ==> match layers[index] {
        MergeStateView::Double(_) => false,
        MergeStateView::Single(Some(old)) => old.wf() && (batch matches Some(b) ==> old.upper()
            == b.lower() && old.len() + b.len() <= usize::MAX),
        _ => true,
    })
}

/// The invariant of the layers of a spine whose upper frontier is `upper`.
pub open spec fn inv(layers: Layers, upper: Seq<u64>) -> bool {
    &&& forall|k: int| 0 <= k < layers.len() ==> layer_ok(layers, k)
    &&& contiguous(layers, upper)
    &&& sum_len(physical(layers)) <= usize::MAX
}

/// The lengths of two runs of parts sum to the length of the two together.
pub proof fn lemma_sum_len_concat(a: Seq<HollowBatchView>, b: Seq<HollowBatchView>)
    ensures
        sum_len(a + b) == sum_len(a) + sum_len(b),
    decreases b.len(),
{
    if b.len() == 0 {
        assert(a + b =~= a);
    } else {
        lemma_sum_len_concat(a, b.drop_last());
        assert((a + b).drop_last() =~= a + b.drop_last());
        assert((a + b).last() == b.last());
    }
}

/// A run of one part is as long as the part.
pub proof fn lemma_sum_len_one(b: HollowBatchView)
    ensures
        sum_len(seq![b]) == b.len,
{
    assert(seq![b].drop_last() =~= Seq::<HollowBatchView>::empty());
    assert(sum_len(seq![b].drop_last()) == 0);
}

/// A composite batch is as long as its parts together.
pub proof fn lemma_batch_len(b: SpineBatchView)
    ensures
        b.len() == sum_len(b.parts()),
{
    match b {
        SpineBatchView::Merged(h) => lemma_sum_len_one(h),
        SpineBatchView::Fueled { .. } => {},
    }
}

/// A layer is as long as its parts together.
pub proof fn lemma_layer_len(l: MergeStateView)
    ensures
        l.len() == sum_len(l.parts()),
{
    match l {
        MergeStateView::Single(Some(b)) => lemma_batch_len(b),
        MergeStateView::Double(MergeVariantView::InProgress(b1, b2, _)) => {
            lemma_batch_len(b1);
            lemma_batch_len(b2);
            lemma_sum_len_concat(b1.parts(), b2.parts());
        },
        MergeStateView::Double(MergeVariantView::Complete(Some((b, _)))) => lemma_batch_len(b),
        _ => {},
    }
}

/// The physical batches of a range of layers are those of its upper part,
/// then those of its lower part.
pub proof fn lemma_physical_split(layers: Layers, lo: int, mid: int, hi: int)
    requires
        lo <= mid <= hi,
    ensures
        physical_range(layers, lo, hi) == physical_range(layers, mid, hi) + physical_range(
            layers,
            lo,
            mid,
        ),
    decreases mid - lo,
{
    if lo == mid {
        assert(physical_range(layers, mid, hi) + physical_range(layers, lo, mid)
            =~= physical_range(layers, lo, hi));
    } else {
        lemma_physical_split(layers, lo + 1, mid, hi);
        assert(physical_range(layers, lo, hi) =~= physical_range(layers, mid, hi) + (
        physical_range(layers, lo + 1, mid) + layers[lo].parts()));
    }
}

/// Layers with the same parts reach the same physical batches.
pub proof fn lemma_physical_same(l1: Layers, l2: Layers, lo: int, hi: int)
    requires
        forall|j: int| lo <= j < hi ==> (#[trigger] l1[j]).parts() == l2[j].parts(),
    ensures
        physical_range(l1, lo, hi) == physical_range(l2, lo, hi),
    decreases hi - lo,
{
    if lo < hi {
        lemma_physical_same(l1, l2, lo + 1, hi);
    }
}

/// Layers without parts reach no physical batch.
pub proof fn lemma_physical_none(layers: Layers, lo: int, hi: int)
    requires
        forall|j: int| lo <= j < hi ==> (#[trigger] layers[j]).parts().len() == 0,
    ensures
        physical_range(layers, lo, hi) == Seq::<HollowBatchView>::empty(),
    decreases hi - lo,
{
    if lo < hi {
        lemma_physical_none(layers, lo + 1, hi);
        assert(physical_range(layers, lo + 1, hi) + layers[lo].parts() =~= Seq::<
            HollowBatchView,
        >::empty());
    }
}

/// A layer holds no more than the layers hold together.
pub proof fn lemma_layer_len_le_total(layers: Layers, k: int)
    requires
        0 <= k < layers.len(),
    ensures
        layers[k].len() <= sum_len(physical(layers)),
{
    let n = layers.len() as int;
    lemma_physical_split(layers, 0, k, n);
    lemma_physical_split(layers, k, k + 1, n);
    lemma_sum_len_concat(physical_range(layers, k, n), physical_range(layers, 0, k));
    lemma_sum_len_concat(physical_range(layers, k + 1, n), physical_range(layers, k, k + 1));
    assert(physical_range(layers, k, k + 1) =~= layers[k].parts()) by {
        assert(physical_range(layers, k + 1, k + 1) =~= Seq::<HollowBatchView>::empty());
    }
    lemma_layer_len(layers[k]);
}

/// Layers with the same numbers of batches account for the same.
pub proof fn lemma_accounted_same(l1: Layers, l2: Layers, k: int)
    requires
        forall|j: int| 0 <= j < k ==> (#[trigger] l1[j]).occupancy() == l2[j].occupancy(),
    ensures
        accounted(l1, k) == accounted(l2, k),
    decreases k,
{
    if k > 0 {
        lemma_accounted_same(l1, l2, k - 1);
    }
}

/// Changing layer `j` changes what is accounted for below any higher layer
/// by the change of its own share.
pub proof fn lemma_accounted_update(layers: Layers, j: int, x: MergeStateView, k: int)
    requires
        0 <= j < k <= layers.len(),
    ensures
        accounted(layers.update(j, x), k) + layers[j].occupancy() * pow2(j as nat) == accounted(
            layers,
            k,
        ) + x.occupancy() * pow2(j as nat),
    decreases k,
{
    let l2 = layers.update(j, x);
    if k - 1 == j {
        lemma_accounted_same(layers, l2, j);
    } else {
        lemma_accounted_update(layers, j, x, k - 1);
    }
}

/// Vacant layers account for nothing.
pub proof fn lemma_accounted_vacant(layers: Layers, k: int)
    requires
        0 <= k <= layers.len(),
        vacant_below(layers, k),
    ensures
        accounted(layers, k) == 0,
    decreases k,
{
    if k > 0 {
        lemma_accounted_vacant(layers, k - 1);
        assert(layers[k - 1].is_vacant());
        assert(0 * pow2((k - 1) as nat) == 0);
    }
}

/// Layers without a pair account for less than the capacity of the next one.
pub proof fn lemma_accounted_singles(layers: Layers, k: int)
    requires
        0 <= k <= layers.len(),
        forall|j: int| 0 <= j < k ==> !(#[trigger] layers[j]).is_double(),
    ensures
        accounted(layers, k) < pow2(k as nat),
    decreases k,
{
    lemma_pow2_pos(k as nat);
    if k > 0 {
        lemma_accounted_singles(layers, k - 1);
        lemma_pow2_unfold(k as nat);
        let o = layers[k - 1].occupancy();
        let p = pow2((k - 1) as nat);
        assert(o * p <= p) by (nonlinear_arith)
            requires
                o <= 1,
                p >= 0,
        ;
    }
}

/// No layers account for twice the capacity of the next one.
pub proof fn lemma_accounted_bound(layers: Layers, k: int)
    requires
        0 <= k <= layers.len(),
    ensures
        accounted(layers, k) + 2 <= 2 * pow2(k as nat),
    decreases k,
{
    lemma_pow2_pos(k as nat);
    if k > 0 {
        lemma_accounted_bound(layers, k - 1);
        lemma_pow2_unfold(k as nat);
        let o = layers[k - 1].occupancy();
        let p = pow2((k - 1) as nat);
        assert(o * p <= 2 * p) by (nonlinear_arith)
            requires
                o <= 2,
                p >= 0,
        ;
    } else {
        assert(pow2(0) == 1) by {
            vstd::arithmetic::power2::lemma2_to64();
        }
    }
}

/// Capacities grow with the level.
pub proof fn lemma_pow2_le(a: nat, b: nat)
    requires
        a <= b,
    ensures
        pow2(a) <= pow2(b),
        pow2(a) >= 1,
{
    lemma_pow2_pos(a);
    if a < b {
        lemma_pow2_strictly_increases(a, b);
    }
}

/// Each capacity is twice the one below, and at least one.
pub proof fn lemma_pow2_double(k: nat)
    ensures
        pow2(k + 1) == 2 * pow2(k),
        pow2(k) >= 1,
{
    lemma_pow2_unfold(k + 1);
    lemma_pow2_pos(k);
}

/// What the layers at or above `k` link up to depends on those layers alone.
pub proof fn lemma_reach_suffix(l1: Layers, l2: Layers, k: int)
    requires
        0 <= k,
        l1.len() == l2.len(),
        forall|j: int| k <= j < l1.len() ==> (#[trigger] l1[j]).span() == l2[j].span(),
    ensures
        reach(l1, k) == reach(l2, k),
        linked(l1, k) == linked(l2, k),
    decreases l1.len() - k,
{
    if k < l1.len() {
        lemma_reach_suffix(l1, l2, k + 1);
    }
}

/// Where two sets of layers agree below `i` and link up alike at `i`, they
/// link up alike all the way down.
pub proof fn lemma_reach_prefix(l1: Layers, l2: Layers, i1: int, i2: int, k: int)
    requires
        0 <= k,
        0 <= i1 <= l1.len(),
        0 <= i2 <= l2.len(),
        k <= i1,
        i1 - k == i2 - k,
        forall|j: int| 0 <= j < i1 ==> (#[trigger] l1[j]).span() == l2[j + (i2 - i1)].span(),
        reach(l1, i1) == reach(l2, i2),
        linked(l1, i1) == linked(l2, i2),
    ensures
        reach(l1, k) == reach(l2, k + (i2 - i1)),
        linked(l1, k) == linked(l2, k + (i2 - i1)),
    decreases i1 - k,
{
    if k < i1 {
        lemma_reach_prefix(l1, l2, i1, i2, k + 1);
        assert(l1[k].span() == l2[k + (i2 - i1)].span());
    }
}

/// Vacant layers on top change nothing of what the layers link up to.
pub proof fn lemma_reach_grow(layers: Layers, index: nat, k: int)
    requires
        0 <= k,
    ensures
        reach(grow(layers, index), k) == reach(layers, k),
        linked(grow(layers, index), k) == linked(layers, k),
    decreases grow(layers, index).len() - k,
{
    let g = grow(layers, index);
    if k < g.len() {
        lemma_reach_grow(layers, index, k + 1);
        if k >= layers.len() {
            assert(g[k].is_vacant());
        } else {
            assert(g[k] == layers[k]);
        }
    }
}

/// Vacant layers on top reach no physical batch.
pub proof fn lemma_physical_grow(layers: Layers, index: nat)
    ensures
        physical(grow(layers, index)) == physical(layers),
{
    let g = grow(layers, index);
    let n = layers.len() as int;
    if g.len() > n {
        lemma_physical_split(g, 0, n, g.len() as int);
        assert forall|j: int| n <= j < g.len() implies (#[trigger] g[j]).parts().len() == 0 by {
            assert(g[j].is_vacant());
        }
        lemma_physical_none(g, n, g.len() as int);
        lemma_physical_same(g, layers, 0, n);
        assert(physical_range(g, n, g.len() as int) + physical_range(g, 0, n) =~= physical_range(
            g,
            0,
            n,
        ));
    }
}

/// Vacant layers on top change nothing of what is accounted for below.
pub proof fn lemma_accounted_grow(layers: Layers, index: nat, k: int)
    requires
        0 <= k <= layers.len(),
    ensures
        accounted(grow(layers, index), k) == accounted(layers, k),
{
    lemma_accounted_same(grow(layers, index), layers, k);
}

/// Growing the layers keeps their invariant.
pub proof fn lemma_inv_grow(layers: Layers, upper: Seq<u64>, index: nat)
    requires
        inv(layers, upper),
    ensures
        inv(grow(layers, index), upper),
        grow(layers, index).len() > index,
        grow(layers, index).len() >= layers.len(),
        forall|j: int| 0 <= j < layers.len() ==> grow(layers, index)[j] == layers[j],
        forall|j: int|
            layers.len() <= j < grow(layers, index).len() ==> (#[trigger] grow(
                layers,
                index,
            )[j]).is_vacant(),
{
    let g = grow(layers, index);
    lemma_reach_grow(layers, index, 0);
    lemma_physical_grow(layers, index);
    assert forall|k: int| 0 <= k < g.len() implies layer_ok(g, k) by {
        if k < layers.len() {
            assert(layer_ok(layers, k));
            lemma_accounted_grow(layers, index, k);
        }
    }
}

/// Under the invariant every layer keeps a valid record of its merge.
pub proof fn lemma_inv_records(layers: Layers, upper: Seq<u64>, k: int)
    requires
        inv(layers, upper),
        0 <= k < layers.len(),
    ensures
        layers[k].wf(),
        layers[k].len() <= usize::MAX,
        layer_shape(layers[k], k),
{
    assert(layer_ok(layers, k));
    lemma_layer_len_le_total(layers, k);
}

/// Layers account for nothing exactly when they are vacant.
pub proof fn lemma_accounted_zero(layers: Layers, k: int)
    requires
        0 <= k <= layers.len(),
    ensures
        (accounted(layers, k) == 0) == vacant_below(layers, k),
    decreases k,
{
    if k > 0 {
        lemma_accounted_zero(layers, k - 1);
        lemma_pow2_pos((k - 1) as nat);
        let o = layers[k - 1].occupancy();
        let p = pow2((k - 1) as nat);
        if o == 0 {
            assert(o * p == 0);
            assert(layers[k - 1].is_vacant());
            if vacant_below(layers, k - 1) {
                assert(vacant_below(layers, k));
            }
        } else {
            assert(o * p >= 1) by (nonlinear_arith)
                requires
                    o >= 1,
                    p >= 1,
            ;
            assert(!layers[k - 1].is_vacant());
        }
    }
}

} // verus!

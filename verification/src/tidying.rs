//! Tidying the top layers and fusing empty batches keep the invariant of
//! the layers.
use crate::fueling::{lemma_done, lemma_linked_down, lemma_merged_since};
use crate::model::{
    accounted, first_occupied, grow, insert_at, level_of, tidy_from, tidy_layers, vacant_below,
    HollowBatchView, Layers, MergeStateView, MergeVariantView, SpineBatchView,
};
use crate::rolling::lemma_vacant_reach;
use crate::wellformed::{
    contiguous, insert_ready, inv, layer_ok, layer_shape, lemma_accounted_same, lemma_batch_len,
    lemma_layer_len, lemma_physical_same, lemma_physical_split, lemma_pow2_double, lemma_pow2_le,
    lemma_reach_prefix, lemma_reach_suffix, lemma_sum_len_concat, linked, pending, physical,
    physical_range, reach,
};
use vstd::arithmetic::power2::{lemma2_to64, pow2};
use vstd::prelude::*;

verus! {

/// The level of `n` is the least whose capacity holds `n`.
pub proof fn lemma_level_of(n: nat)
    ensures
        n <= pow2(level_of(n)),
        level_of(n) > 0 ==> pow2((level_of(n) - 1) as nat) < n,
    decreases n,
{
    lemma2_to64();
    if n > 1 {
        let h = ((n + 1) / 2) as nat;
        lemma_level_of(h);
        lemma_pow2_double(level_of(h));
        if level_of(h) > 0 {
            lemma_pow2_double((level_of(h) - 1) as nat);
        }
    }
}

/// An eighth of the capacity of level `n`.
pub proof fn lemma_eighth(n: nat)
    ensures
        n >= 3 ==> pow2(n) / 8 == pow2((n - 3) as nat),
        n < 3 ==> pow2(n) / 8 == 0,
{
    lemma2_to64();
    if n >= 3 {
        let m = (n - 3) as nat;
        lemma_pow2_double(m);
        lemma_pow2_double(m + 1);
        lemma_pow2_double(m + 2);
    }
}

/// What the tidying loop asks of the layers: the top layer holds one batch,
/// which fits `level`, and `level` is below the layer under the top.
pub open spec fn tidy_ready(layers: Layers, level: nat) -> bool {
    &&& layers.len() >= 2
    &&& layers.last().is_single()
    &&& layers.last().len() <= pow2(level)
    &&& level < layers.len() - 1
}

/// Taking out a layer under the top that holds no batch keeps the
/// invariant and what a reader sees.
pub proof fn lemma_tidy_remove(layers: Layers, upper: Seq<u64>, level: nat)
    requires
        inv(layers, upper),
        tidy_ready(layers, level),
        layers[layers.len() - 2].span() is None,
        !layers[layers.len() - 2].is_double(),
    ensures
        inv(layers.remove(layers.len() - 2), upper),
        physical(layers.remove(layers.len() - 2)) == physical(layers),
        layers.remove(layers.len() - 2).last() == layers.last(),
{
    let n = layers.len() as int;
    let top = layers[n - 1];
    let below = layers[n - 2];
    let rm = layers.remove(n - 2);
    assert(layer_ok(layers, n - 1));
    lemma_pow2_le(level, (n - 2) as nat);
    lemma_linked_down(layers, 0, n - 2);
    lemma_linked_down(layers, 0, n - 1);
    assert(reach(layers, n) == crate::wellformed::initial_frontier());
    assert(reach(layers, n - 1) == match top.span() {
        Some((_, hi)) => hi,
        None => reach(layers, n),
    });
    assert(reach(layers, n - 2) == reach(layers, n - 1));
    assert(linked(layers, n - 1) && linked(layers, n - 2));
    assert(rm.len() == n - 1);
    assert(rm[n - 2] == top);
    assert forall|j: int| 0 <= j < n - 2 implies #[trigger] rm[j] == layers[j] by {}
    lemma_physical_split(layers, 0, n - 2, n);
    assert(physical_range(layers, n - 2, n) =~= top.parts() + below.parts()) by {
        assert(physical_range(layers, n, n) =~= Seq::<HollowBatchView>::empty());
        assert(physical_range(layers, n - 1, n) =~= top.parts());
    }
    assert(reach(rm, n - 1) == crate::wellformed::initial_frontier());
    assert(reach(rm, n - 2) == reach(layers, n - 2));
    assert(linked(rm, n - 1));
    assert(linked(rm, n - 2));
    lemma_reach_prefix(rm, layers, n - 2, n - 2, 0);
    lemma_physical_split(rm, 0, n - 2, n - 1);
    lemma_physical_same(rm, layers, 0, n - 2);
    assert(physical_range(rm, n - 2, n - 1) =~= top.parts()) by {
        assert(physical_range(rm, n - 1, n - 1) =~= Seq::<HollowBatchView>::empty());
    }
    assert(top.parts() + below.parts() =~= top.parts());
    assert forall|k: int| 0 <= k < rm.len() implies layer_ok(rm, k) by {
        if k < n - 2 {
            assert(layer_ok(layers, k));
            lemma_accounted_same(rm, layers, k);
        }
    }
}

/// Drawing the top batch down onto the batch under it, where the layers
/// below account for at most an eighth of the capacity of a further layer,
/// keeps the invariant and what a reader sees.
pub proof fn lemma_tidy_merge(
    layers: Layers,
    upper: Seq<u64>,
    level: nat,
    batch: SpineBatchView,
    since: Seq<u64>,
)
    requires
        inv(layers, upper),
        since.len() <= 1,
        tidy_ready(layers, level),
        layers[layers.len() - 2] == MergeStateView::Single(Some(batch)),
        accounted(layers, layers.len() - 2) <= pow2(layers.len()) / 8,
    ensures
        ({
            let rm = layers.remove(layers.len() - 2);
            let r = insert_at(rm, Some(batch), (layers.len() - 2) as nat, since);
            &&& inv(r, upper)
            &&& physical(r) == physical(layers)
            &&& insert_ready(rm, Some(batch), layers.len() - 2, since)
            &&& r.len() == layers.len() - 1
        }),
{
    let n = layers.len() as int;
    let top = layers[n - 1];
    let below = layers[n - 2];
    let rm = layers.remove(n - 2);
    assert(layer_ok(layers, n - 1));
    assert(layer_ok(layers, n - 2));
    lemma_pow2_le(level, (n - 2) as nat);
    lemma_linked_down(layers, 0, n - 2);
    lemma_linked_down(layers, 0, n - 1);
    assert(reach(layers, n) == crate::wellformed::initial_frontier());
    assert(reach(layers, n - 1) == match top.span() {
        Some((_, hi)) => hi,
        None => reach(layers, n),
    });
    assert(reach(layers, n - 2) == batch.upper());
    assert(linked(layers, n - 1) && linked(layers, n - 2));
    assert(rm.len() == n - 1);
    assert(rm[n - 2] == top);
    assert forall|j: int| 0 <= j < n - 2 implies #[trigger] rm[j] == layers[j] by {}
    lemma_physical_split(layers, 0, n - 2, n);
    assert(physical_range(layers, n - 2, n) =~= top.parts() + below.parts()) by {
        assert(physical_range(layers, n, n) =~= Seq::<HollowBatchView>::empty());
        assert(physical_range(layers, n - 1, n) =~= top.parts());
    }
    let r = insert_at(rm, Some(batch), (n - 2) as nat, since);
    assert(grow(rm, (n - 2) as nat) == rm);
    let x = r[n - 2];
    assert(r =~= rm.update(n - 2, x));
    lemma_eighth(n as nat);
    lemma_pow2_double((n - 2) as nat);
    if n >= 3 {
        lemma_pow2_double((n - 3) as nat);
    } else {
        lemma2_to64();
    }
    lemma_accounted_same(r, layers, n - 2);
    crate::wellformed::lemma_layer_len_le_total(layers, n - 1);
    crate::wellformed::lemma_layer_len_le_total(layers, n - 2);
    lemma_layer_len(x);
    lemma_layer_len(top);
    lemma_layer_len(below);
    lemma_sum_len_concat(top.parts(), below.parts());
    match top {
        MergeStateView::Single(Some(tb)) => {
            lemma_merged_since(tb, batch, since);
            assert(tb.upper() == batch.lower());
        },
        _ => {},
    }
    assert(x.parts() =~= top.parts() + below.parts());
    lemma_sum_len_concat(physical_range(layers, n - 2, n), physical_range(layers, 0, n - 2));
    assert(layer_shape(x, n - 2));
    assert(pending(x) <= x.len());
    assert(reach(r, n - 1) == crate::wellformed::initial_frontier());
    assert(reach(r, n - 2) == reach(layers, n - 2));
    assert(linked(r, n - 1));
    assert(linked(r, n - 2));
    lemma_reach_prefix(r, layers, n - 2, n - 2, 0);
    lemma_physical_split(r, 0, n - 2, n - 1);
    lemma_physical_same(r, layers, 0, n - 2);
    assert(physical_range(r, n - 2, n - 1) =~= x.parts()) by {
        assert(physical_range(r, n - 1, n - 1) =~= Seq::<HollowBatchView>::empty());
    }
    assert forall|k: int| 0 <= k < r.len() implies layer_ok(r, k) by {
        if k < n - 2 {
            assert(layer_ok(layers, k));
            lemma_accounted_same(r, layers, k);
        }
    }
}

/// The tidying loop keeps the invariant and what a reader sees.
pub proof fn lemma_tidy_from(layers: Layers, upper: Seq<u64>, level: nat, since: Seq<u64>)
    requires
        inv(layers, upper),
        since.len() <= 1,
        layers.len() > 0,
        layers.last().is_single(),
        layers.last().len() <= pow2(level),
    ensures
        inv(tidy_from(layers, level, since), upper),
        physical(tidy_from(layers, level, since)) == physical(layers),
    decreases layers.len(),
{
    let n = layers.len() as int;
    if n >= 2 && level < n - 1 {
        match layers[n - 2] {
            MergeStateView::Vacant | MergeStateView::Single(None) => {
                lemma_tidy_remove(layers, upper, level);
                lemma_tidy_from(layers.remove(n - 2), upper, level, since);
            },
            MergeStateView::Single(Some(batch)) => {
                if accounted(layers, n - 2) <= pow2(n as nat) / 8 {
                    lemma_tidy_merge(layers, upper, level, batch, since);
                }
            },
            MergeStateView::Double(_) => {},
        }
    }
}

/// Tidying keeps the invariant and what a reader sees.
pub proof fn lemma_tidy_layers(layers: Layers, upper: Seq<u64>, since: Seq<u64>)
    requires
        inv(layers, upper),
        since.len() <= 1,
    ensures
        inv(tidy_layers(layers, since), upper),
        physical(tidy_layers(layers, since)) == physical(layers),
{
    if layers.len() > 0 && layers.last().is_single() {
        lemma_level_of(layers.last().len());
        lemma_tidy_from(layers, upper, level_of(layers.last().len()), since);
    }
}

/// The lowest occupied layer is occupied, and all below it are vacant.
pub proof fn lemma_first_occupied(layers: Layers, i: nat)
    requires
        i <= layers.len(),
    ensures
        first_occupied(layers, i) matches Some(p) ==> i <= p < layers.len() && !layers[p as int].is_vacant()
            && forall|j: int| i <= j < p ==> (#[trigger] layers[j]).is_vacant(),
        first_occupied(layers, i) is None ==> forall|j: int|
            i <= j < layers.len() ==> (#[trigger] layers[j]).is_vacant(),
    decreases layers.len() - i,
{
    if i < layers.len() && layers[i as int].is_vacant() {
        lemma_first_occupied(layers, i + 1);
    }
}

/// The layers after an empty batch has joined the single empty batch of the
/// lowest occupied layer `p`.
pub open spec fn fuse(layers: Layers, batch: SpineBatchView, p: nat, since: Seq<u64>) -> Layers {
    let ins = insert_at(layers, Some(batch), p, since);
    ins.update(p as int, MergeStateView::Single(ins[p as int].completed()))
}

/// Fusing an empty batch into the lowest occupied layer keeps the invariant
/// and appends the batch's parts to what a reader sees.
pub proof fn lemma_fuse(
    layers: Layers,
    upper: Seq<u64>,
    batch: SpineBatchView,
    p: int,
    since: Seq<u64>,
)
    requires
        inv(layers, upper),
        since.len() <= 1,
        0 <= p < layers.len(),
        vacant_below(layers, p),
        layers[p].is_single(),
        layers[p].len() == 0,
        batch.wf(),
        batch.len() == 0,
        batch.lower() == upper,
    ensures
        inv(fuse(layers, batch, p as nat, since), batch.upper()),
        physical(fuse(layers, batch, p as nat, since)) == physical(layers) + batch.parts(),
        fuse(layers, batch, p as nat, since).len() == layers.len(),
        fuse(layers, batch, p as nat, since)[p].is_single(),
        insert_ready(layers, Some(batch), p, since),
{
    let n = layers.len() as int;
    let ins = insert_at(layers, Some(batch), p as nat, since);
    let r = fuse(layers, batch, p as nat, since);
    let x = r[p];
    assert(grow(layers, p as nat) == layers);
    assert(r =~= layers.update(p, x));
    assert(layer_ok(layers, p));
    assert forall|i: int| 0 <= i < p implies (#[trigger] layers[i]).span() is None by {
        assert(layers[i].is_vacant());
    }
    assert forall|i: int| 0 <= i < p implies (#[trigger] r[i]).span() is None by {
        assert(r[i].is_vacant());
    }
    lemma_vacant_reach(layers, 0, p);
    lemma_vacant_reach(r, 0, p);
    lemma_reach_suffix(r, layers, p + 1);
    lemma_linked_down(layers, 0, p + 1);
    lemma_linked_down(layers, 0, p);
    assert(reach(layers, p) == match layers[p].span() {
        Some((_, hi)) => hi,
        None => reach(layers, p + 1),
    });
    assert(reach(r, p) == match r[p].span() {
        Some((_, hi)) => hi,
        None => reach(r, p + 1),
    });
    assert(linked(r, p) == (linked(r, p + 1) && match r[p].span() {
        Some((lo, _)) => lo == reach(r, p + 1),
        None => true,
    }));
    lemma_batch_len(batch);
    match layers[p] {
        MergeStateView::Single(Some(old)) => {
            lemma_merged_since(old, batch, since);
            lemma_batch_len(old);
            match ins[p] {
                MergeStateView::Double(MergeVariantView::InProgress(_, _, fm)) => {
                    lemma_done(fm);
                },
                _ => {},
            }
        },
        _ => {},
    }
    assert(x.parts() =~= layers[p].parts() + batch.parts());
    assert(contiguous(r, batch.upper()));
    lemma_physical_split(layers, 0, p, n);
    lemma_physical_split(layers, p, p + 1, n);
    lemma_physical_split(r, 0, p, n);
    lemma_physical_split(r, p, p + 1, n);
    lemma_physical_same(r, layers, 0, p);
    lemma_physical_same(r, layers, p + 1, n);
    assert forall|j: int| 0 <= j < p implies (#[trigger] layers[j]).parts().len() == 0 by {
        assert(layers[j].is_vacant());
    }
    crate::wellformed::lemma_physical_none(layers, 0, p);
    assert(physical_range(layers, p, p + 1) =~= layers[p].parts()) by {
        assert(physical_range(layers, p + 1, p + 1) =~= Seq::<HollowBatchView>::empty());
    }
    assert(physical_range(r, p, p + 1) =~= r[p].parts()) by {
        assert(physical_range(r, p + 1, p + 1) =~= Seq::<HollowBatchView>::empty());
    }
    assert(physical(r) =~= physical(layers) + batch.parts());
    lemma_sum_len_concat(physical(layers), batch.parts());
    assert forall|k: int| 0 <= k < r.len() implies layer_ok(r, k) by {
        assert(layer_ok(layers, k));
        lemma_accounted_same(r, layers, k);
        if k == p {
            lemma_pow2_le(0, p as nat);
        }
    }
}

} // verus!

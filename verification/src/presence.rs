//! Whether the layers hold a batch at all: an insertion makes it so, and
//! no maintenance step undoes it.
use crate::fueling::{lemma_fuel_step, lemma_push_up, lemma_work, pass_inv};
use crate::model::{
    apply_fuel, apply_fuel_from, fuel_step, grow, insert_at, level_of, tidy_from, tidy_layers,
    Layers, MergeStateView, SpineBatchView,
};
use crate::tidying::{lemma_level_of, lemma_tidy_remove};
use crate::wellformed::{all_batches, batches_range, inv};
use vstd::arithmetic::power2::pow2;
use vstd::prelude::*;

verus! {

/// Whether some layer holds a batch.
pub open spec fn has_batch(layers: Layers) -> bool {
    exists|j: int| 0 <= j < layers.len() && (#[trigger] layers[j]).batches().len() > 0
}

/// A range of layers one of which holds a batch has batches for a reader.
pub proof fn lemma_range_found(layers: Layers, lo: int, hi: int, j: int)
    requires
        0 <= lo <= j < hi,
        layers[j].batches().len() > 0,
    ensures
        batches_range(layers, lo, hi).len() > 0,
    decreases j - lo,
{
    if lo < j {
        lemma_range_found(layers, lo + 1, hi, j);
    }
}

/// A range of layers with batches for a reader holds a batch in some layer.
pub proof fn lemma_range_holder(layers: Layers, lo: int, hi: int) -> (j: int)
    requires
        0 <= lo,
        hi <= layers.len(),
        batches_range(layers, lo, hi).len() > 0,
    ensures
        lo <= j < hi,
        layers[j].batches().len() > 0,
    decreases hi - lo,
{
    if layers[lo].batches().len() > 0 {
        lo
    } else {
        assert(batches_range(layers, lo + 1, hi) + layers[lo].batches() =~= batches_range(
            layers,
            lo + 1,
            hi,
        ));
        lemma_range_holder(layers, lo + 1, hi)
    }
}

/// A reader finds a batch exactly where some layer holds one.
pub proof fn lemma_has_batch(layers: Layers)
    ensures
        has_batch(layers) == (all_batches(layers).len() > 0),
{
    if has_batch(layers) {
        let j = choose|j: int| 0 <= j < layers.len() && (#[trigger] layers[j]).batches().len() > 0;
        lemma_range_found(layers, 0, layers.len() as int, j);
    }
    if all_batches(layers).len() > 0 {
        let j = lemma_range_holder(layers, 0, layers.len() as int);
        assert(layers[j].batches().len() > 0);
    }
}

/// One layer's share of a pass of fuel keeps a batch in the layers.
pub proof fn lemma_fuel_step_keeps(
    layers: Layers,
    upper: Seq<u64>,
    fuel: nat,
    i: int,
    n: int,
    since: Seq<u64>,
)
    requires
        pass_inv(layers, upper, fuel, i, n),
        i < n,
        since.len() <= 1,
        has_batch(layers),
    ensures
        has_batch(fuel_step(layers, fuel, i as nat, since)),
{
    let j = choose|j: int| 0 <= j < layers.len() && (#[trigger] layers[j]).batches().len() > 0;
    let w = layers.update(i, layers[i].work(fuel));
    let r = fuel_step(layers, fuel, i as nat, since);
    lemma_work(layers, upper, i, fuel);
    assert(w[j].batches().len() > 0);
    if w[i].is_complete() {
        lemma_push_up(w, upper, i, since);
        assert(w.update(i, MergeStateView::Vacant) =~= layers.update(i, MergeStateView::Vacant));
        let g = grow(w.update(i, MergeStateView::Vacant), (i + 1) as nat);
        if j == i || j == i + 1 {
            assert(j < g.len());
            if j == i + 1 {
                assert(g[i + 1] == w[i + 1]);
            }
            assert(r[i + 1].batches().len() > 0);
        } else {
            assert(r[j] == w[j]);
        }
    } else {
        assert(r == w);
    }
}

/// A pass of fuel keeps a batch in the layers.
pub proof fn lemma_apply_fuel_from_keeps(
    layers: Layers,
    upper: Seq<u64>,
    fuel: nat,
    i: int,
    n: int,
    since: Seq<u64>,
)
    requires
        pass_inv(layers, upper, fuel, i, n),
        since.len() <= 1,
        has_batch(layers),
    ensures
        has_batch(apply_fuel_from(layers, fuel, i as nat, n as nat, since)),
    decreases n - i,
{
    if i < n {
        lemma_fuel_step(layers, upper, fuel, i, n, since);
        lemma_fuel_step_keeps(layers, upper, fuel, i, n, since);
        lemma_apply_fuel_from_keeps(
            fuel_step(layers, fuel, i as nat, since),
            upper,
            fuel,
            i + 1,
            n,
            since,
        );
    }
}

/// Applying fuel keeps a batch in the layers.
pub proof fn lemma_apply_fuel_keeps(layers: Layers, upper: Seq<u64>, fuel: nat, since: Seq<u64>)
    requires
        inv(layers, upper),
        since.len() <= 1,
        has_batch(layers),
    ensures
        has_batch(apply_fuel(layers, fuel, since)),
{
    lemma_apply_fuel_from_keeps(layers, upper, fuel, 0, layers.len() as int, since);
}

/// The tidying loop keeps a batch in the layers.
pub proof fn lemma_tidy_from_keeps(layers: Layers, upper: Seq<u64>, level: nat, since: Seq<u64>)
    requires
        inv(layers, upper),
        since.len() <= 1,
        layers.len() > 0,
        layers.last().is_single(),
        layers.last().len() <= pow2(level),
        has_batch(layers),
    ensures
        has_batch(tidy_from(layers, level, since)),
    decreases layers.len(),
{
    let n = layers.len() as int;
    if n >= 2 && level < n - 1 {
        let j = choose|j: int| 0 <= j < layers.len() && (#[trigger] layers[j]).batches().len() > 0;
        match layers[n - 2] {
            MergeStateView::Vacant | MergeStateView::Single(None) => {
                let rm = layers.remove(n - 2);
                lemma_tidy_remove(layers, upper, level);
                if j < n - 2 {
                    assert(rm[j] == layers[j]);
                } else {
                    assert(j == n - 1);
                    assert(rm[n - 2] == layers[n - 1]);
                }
                lemma_tidy_from_keeps(rm, upper, level, since);
            },
            MergeStateView::Single(Some(batch)) => {
                if crate::model::accounted(layers, n - 2) <= pow2(n as nat) / 8 {
                    let rm = layers.remove(n - 2);
                    let r = insert_at(rm, Some(batch), (n - 2) as nat, since);
                    assert(grow(rm, (n - 2) as nat) == rm);
                    assert(rm[n - 2] == layers[n - 1]);
                    assert(r[n - 2].batches().len() > 0);
                }
            },
            MergeStateView::Double(_) => {},
        }
    }
}

/// Tidying keeps a batch in the layers.
pub proof fn lemma_tidy_layers_keeps(layers: Layers, upper: Seq<u64>, since: Seq<u64>)
    requires
        inv(layers, upper),
        since.len() <= 1,
        has_batch(layers),
    ensures
        has_batch(tidy_layers(layers, since)),
{
    if layers.len() > 0 && layers.last().is_single() {
        lemma_level_of(layers.last().len());
        lemma_tidy_from_keeps(layers, upper, level_of(layers.last().len()), since);
    }
}

/// A layer that a batch has joined holds a batch.
pub proof fn lemma_insert_at_holds(
    layers: Layers,
    batch: SpineBatchView,
    index: nat,
    since: Seq<u64>,
)
    requires
        index < layers.len() ==> !layers[index as int].is_double(),
    ensures
        has_batch(insert_at(layers, Some(batch), index, since)),
{
    let r = insert_at(layers, Some(batch), index, since);
    let g = grow(layers, index);
    assert(!g[index as int].is_double()) by {
        if index >= layers.len() {
            assert(g[index as int].is_vacant());
        }
    }
    assert(r[index as int].batches().len() > 0);
}

} // verus!

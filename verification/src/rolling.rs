//! Rolling the lower layers up and inserting below everything else keep the
//! invariant of the layers.
use crate::fueling::{lemma_done, lemma_linked_down, lemma_merged_since, lemma_push_up};
use crate::model::{
    accounted, grow, insert_at, roll_chain, roll_step, roll_up, sum_len, vacant_below,
    HollowBatchView, Layers, MergeStateView, MergeVariantView, SpineBatchView,
};
use crate::wellformed::{
    batch_fits, contiguous, credit_ok, insert_ready, inv, layer_ok, layer_shape,
    lemma_accounted_same, lemma_accounted_singles, lemma_accounted_update, lemma_accounted_vacant,
    lemma_batch_len, lemma_inv_grow, lemma_layer_len, lemma_physical_none, lemma_physical_same,
    lemma_physical_split, lemma_pow2_double, lemma_reach_suffix, lemma_sum_len_concat, linked,
    pending, physical, physical_range, reach,
};
use vstd::arithmetic::power2::pow2;
use vstd::prelude::*;

verus! {

/// The parts of an optional batch.
pub open spec fn parts_of(batch: Option<SpineBatchView>) -> Seq<HollowBatchView> {
    match batch {
        Some(b) => b.parts(),
        None => Seq::empty(),
    }
}

/// The length of an optional batch.
pub open spec fn len_of(batch: Option<SpineBatchView>) -> nat {
    match batch {
        Some(b) => b.len(),
        None => 0,
    }
}

/// Layers that account for less account for less below every layer.
pub proof fn lemma_accounted_le(l1: Layers, l2: Layers, k: int)
    requires
        0 <= k,
        forall|j: int| 0 <= j < k ==> (#[trigger] l1[j]).occupancy() <= l2[j].occupancy(),
    ensures
        accounted(l1, k) <= accounted(l2, k),
    decreases k,
{
    if k > 0 {
        lemma_accounted_le(l1, l2, k - 1);
        let a = l1[k - 1].occupancy();
        let b = l2[k - 1].occupancy();
        let p = pow2((k - 1) as nat);
        assert(a * p <= b * p) by (nonlinear_arith)
            requires
                a <= b,
                p >= 0,
        ;
    }
}

/// The layers below `k` hold no more updates than they account for.
pub proof fn lemma_len_below(layers: Layers, k: int)
    requires
        0 <= k <= layers.len(),
        forall|j: int| 0 <= j < k ==> layer_shape(#[trigger] layers[j], j),
    ensures
        sum_len(physical_range(layers, 0, k)) <= accounted(layers, k),
    decreases k,
{
    if k > 0 {
        lemma_len_below(layers, k - 1);
        lemma_physical_split(layers, 0, k - 1, k);
        assert(physical_range(layers, k - 1, k) =~= layers[k - 1].parts()) by {
            assert(physical_range(layers, k, k) =~= Seq::<HollowBatchView>::empty());
        }
        lemma_sum_len_concat(layers[k - 1].parts(), physical_range(layers, 0, k - 1));
        lemma_layer_len(layers[k - 1]);
        assert(layer_shape(layers[k - 1], k - 1));
        let p = pow2((k - 1) as nat);
        assert(1 * p == p && 2 * p == p + p && 0 * p == 0) by (nonlinear_arith);
    }
}

/// Below vacant layers a reader has reached what it had reached above them.
pub proof fn lemma_vacant_reach(layers: Layers, j: int, k: int)
    requires
        0 <= j <= k <= layers.len(),
        forall|i: int| j <= i < k ==> (#[trigger] layers[i]).span() is None,
    ensures
        reach(layers, j) == reach(layers, k),
        linked(layers, j) == linked(layers, k),
    decreases k - j,
{
    if j < k {
        lemma_vacant_reach(layers, j + 1, k);
    }
}

/// Part of the layers holds no more than all of them.
pub proof fn lemma_range_le_total(layers: Layers, lo: int, hi: int)
    requires
        0 <= lo <= hi <= layers.len(),
    ensures
        sum_len(physical_range(layers, lo, hi)) <= sum_len(physical(layers)),
{
    let n = layers.len() as int;
    lemma_physical_split(layers, 0, lo, n);
    lemma_physical_split(layers, lo, hi, n);
    lemma_sum_len_concat(physical_range(layers, lo, n), physical_range(layers, 0, lo));
    lemma_sum_len_concat(physical_range(layers, hi, n), physical_range(layers, lo, hi));
}

/// What holds in the middle of a roll-up of the layers `origin`, before
/// layer `i`: the layers below `i` are vacant, the others untouched, and
/// `merged` holds what the layers below `i` held.
pub open spec fn chain_inv(
    origin: Layers,
    upper: Seq<u64>,
    layers: Layers,
    merged: Option<SpineBatchView>,
    i: int,
) -> bool {
    &&& layers.len() == origin.len()
    &&& 0 <= i <= origin.len()
    &&& forall|k: int| 0 <= k < i ==> (#[trigger] layers[k]).is_vacant()
    &&& forall|k: int| i <= k < layers.len() ==> layers[k] == origin[k]
    &&& parts_of(merged) == physical_range(origin, 0, i)
    &&& match merged {
        Some(m) => m.wf() && m.lower() == reach(origin, i) && m.upper() == upper,
        None => reach(origin, i) == upper,
    }
}

/// One step of a roll-up keeps what holds in the middle of it.
pub proof fn lemma_roll_step(
    origin: Layers,
    upper: Seq<u64>,
    layers: Layers,
    merged: Option<SpineBatchView>,
    i: int,
    since: Seq<u64>,
)
    requires
        inv(origin, upper),
        chain_inv(origin, upper, layers, merged, i),
        i < origin.len(),
        !origin[i].is_double(),
        since.len() <= 1,
    ensures
        chain_inv(
            origin,
            upper,
            roll_step(layers, merged, i as nat, since).0,
            roll_step(layers, merged, i as nat, since).1,
            i + 1,
        ),
        insert_ready(layers, merged, i, since),
{
    let (next, m2) = roll_step(layers, merged, i as nat, since);
    let ins = insert_at(layers, merged, i as nat, since);
    assert(grow(layers, i as nat) == layers);
    assert(layers[i] == origin[i]);
    assert(layer_ok(origin, i));
    lemma_linked_down(origin, 0, i);
    lemma_physical_split(origin, 0, i, i + 1);
    assert(physical_range(origin, i, i + 1) =~= origin[i].parts()) by {
        assert(physical_range(origin, i + 1, i + 1) =~= Seq::<HollowBatchView>::empty());
    }
    lemma_range_le_total(origin, 0, i + 1);
    lemma_sum_len_concat(origin[i].parts(), physical_range(origin, 0, i));
    lemma_layer_len(origin[i]);
    match merged {
        Some(m) => lemma_batch_len(m),
        None => {},
    }
    match origin[i] {
        MergeStateView::Single(Some(old)) => {
            match merged {
                Some(m) => {
                    lemma_merged_since(old, m, since);
                    match ins[i] {
                        MergeStateView::Double(MergeVariantView::InProgress(_, _, fm)) => {
                            lemma_done(fm);
                        },
                        _ => {},
                    }
                },
                None => {
                    assert(old.parts() + Seq::<HollowBatchView>::empty() =~= old.parts());
                },
            }
        },
        _ => {
            assert(Seq::<HollowBatchView>::empty() + parts_of(merged) =~= parts_of(merged));
        },
    }
    assert(parts_of(m2) =~= physical_range(origin, 0, i + 1));
}

/// A roll-up of layers that hold no pair ends with those layers vacant and
/// their batches chained into one.
pub proof fn lemma_roll_chain(
    origin: Layers,
    upper: Seq<u64>,
    layers: Layers,
    merged: Option<SpineBatchView>,
    i: int,
    index: int,
    since: Seq<u64>,
)
    requires
        inv(origin, upper),
        chain_inv(origin, upper, layers, merged, i),
        i <= index <= origin.len(),
        forall|k: int| 0 <= k < index ==> !(#[trigger] origin[k]).is_double(),
        since.len() <= 1,
    ensures
        chain_inv(
            origin,
            upper,
            roll_chain(layers, merged, i as nat, index as nat, since).0,
            roll_chain(layers, merged, i as nat, index as nat, since).1,
            index,
        ),
    decreases index - i,
{
    if i < index {
        lemma_roll_step(origin, upper, layers, merged, i, since);
        let (next, m2) = roll_step(layers, merged, i as nat, since);
        lemma_roll_chain(origin, upper, next, m2, i + 1, index, since);
    }
}

/// With the layers below `index` taken out as one batch, the rest keeps the
/// invariant up to where that batch starts, and the batch fits layer `index`.
pub proof fn lemma_chain_end(
    origin: Layers,
    upper: Seq<u64>,
    layers: Layers,
    merged: Option<SpineBatchView>,
    index: int,
)
    requires
        inv(origin, upper),
        chain_inv(origin, upper, layers, merged, index),
        forall|k: int| 0 <= k < index ==> !(#[trigger] origin[k]).is_double(),
    ensures
        inv(layers, reach(origin, index)),
        vacant_below(layers, index),
        physical(origin) == physical(layers) + parts_of(merged),
        len_of(merged) < pow2(index as nat),
        forall|k: int, c: nat|
            index <= k < layers.len() && credit_ok(origin, k, c) ==> #[trigger] credit_ok(
                layers,
                k,
                c,
            ),
{
    let n = origin.len() as int;
    lemma_linked_down(origin, 0, index);
    lemma_reach_suffix(layers, origin, index);
    assert forall|i: int| 0 <= i < index implies (#[trigger] layers[i]).span() is None by {
        assert(layers[i].is_vacant());
    }
    lemma_vacant_reach(layers, 0, index);
    lemma_physical_split(origin, 0, index, n);
    lemma_physical_split(layers, 0, index, n);
    lemma_physical_same(layers, origin, index, n);
    assert forall|j: int| 0 <= j < index implies (#[trigger] layers[j]).parts().len() == 0 by {
        assert(layers[j].is_vacant());
    }
    lemma_physical_none(layers, 0, index);
    assert(physical(layers) =~= physical_range(origin, index, n));
    lemma_sum_len_concat(physical_range(origin, index, n), physical_range(origin, 0, index));
    assert forall|j: int| 0 <= j < index implies layer_shape(#[trigger] origin[j], j) by {
        assert(layer_ok(origin, j));
    }
    lemma_len_below(origin, index);
    lemma_accounted_singles(origin, index);
    match merged {
        Some(m) => lemma_batch_len(m),
        None => {},
    }
    assert forall|k: int| 0 <= k < layers.len() implies accounted(layers, k) <= accounted(
        origin,
        k,
    ) by {
        assert forall|j: int| 0 <= j < k implies (#[trigger] layers[j]).occupancy()
            <= origin[j].occupancy() by {
            if j < index {
                assert(layers[j].is_vacant());
            }
        }
        lemma_accounted_le(layers, origin, k);
    }
    assert forall|k: int| 0 <= k < layers.len() implies layer_ok(layers, k) by {
        if k < index {
            assert(layers[k].is_vacant());
        } else {
            assert(layer_ok(origin, k));
        }
    }
}

/// The frontier that the layers reach once `batch` has joined them.
pub open spec fn upper_after(upper: Seq<u64>, batch: Option<SpineBatchView>) -> Seq<u64> {
    match batch {
        Some(b) => b.upper(),
        None => upper,
    }
}

/// Inserting a batch that starts at the layers' upper frontier into layer
/// `index`, below which all is vacant, keeps the invariant, appends the
/// batch's parts to what a reader sees, and costs each pair above four
/// times the capacity of layer `index` of the debt it can afford.
pub proof fn lemma_insert_bottom(
    layers: Layers,
    upper: Seq<u64>,
    batch: Option<SpineBatchView>,
    index: int,
    since: Seq<u64>,
    credit: nat,
    rest: nat,
)
    requires
        inv(layers, upper),
        since.len() <= 1,
        0 <= index,
        vacant_below(layers, index),
        index < layers.len() ==> !layers[index].is_double(),
        batch matches Some(b) ==> batch_fits(b, pow2(index as nat)) && b.lower() == upper,
        sum_len(physical(layers)) + len_of(batch) <= usize::MAX,
        credit == rest + 4 * pow2(index as nat),
        forall|k: int| index < k < layers.len() ==> credit_ok(layers, k, credit),
    ensures
        ({
            let r = insert_at(layers, batch, index as nat, since);
            &&& inv(r, upper_after(upper, batch))
            &&& insert_ready(layers, batch, index, since)
            &&& physical(r) == physical(layers) + parts_of(batch)
            &&& r.len() == grow(layers, index as nat).len()
            &&& vacant_below(r, index)
            &&& !r[index].is_vacant()
            &&& r[index].len() == len_of(batch) + if index < layers.len() {
                layers[index].len()
            } else {
                0
            }
            &&& forall|k: int| 0 <= k < r.len() && k != index ==> r[k] == grow(
                layers,
                index as nat,
            )[k]
            &&& forall|k: int| index < k < r.len() ==> credit_ok(r, k, rest)
        }),
{
    let g = grow(layers, index as nat);
    let r = insert_at(layers, batch, index as nat, since);
    let x = r[index];
    let n = g.len() as int;
    lemma_inv_grow(layers, upper, index as nat);
    assert(r =~= g.update(index, x));
    assert(vacant_below(g, index));
    assert(vacant_below(r, index));
    assert(layer_ok(g, index));
    lemma_accounted_vacant(g, index);
    lemma_accounted_same(r, g, index);
    // linkage
    assert forall|i: int| 0 <= i < index implies (#[trigger] g[i]).span() is None by {
        assert(g[i].is_vacant());
    }
    assert forall|i: int| 0 <= i < index implies (#[trigger] r[i]).span() is None by {
        assert(r[i].is_vacant());
    }
    lemma_vacant_reach(g, 0, index);
    lemma_vacant_reach(r, 0, index);
    lemma_reach_suffix(r, g, index + 1);
    lemma_linked_down(g, 0, index + 1);
    assert(linked(g, index));
    assert(reach(g, index) == match g[index].span() {
        Some((_, hi)) => hi,
        None => reach(g, index + 1),
    });
    assert(reach(r, index) == match r[index].span() {
        Some((_, hi)) => hi,
        None => reach(r, index + 1),
    });
    assert(linked(r, index) == (linked(r, index + 1) && match r[index].span() {
        Some((lo, _)) => lo == reach(r, index + 1),
        None => true,
    }));
    match g[index] {
        MergeStateView::Single(Some(old)) => {
            match batch {
                Some(b) => {
                    lemma_merged_since(old, b, since);
                    assert(old.upper() == b.lower());
                },
                None => {},
            }
        },
        _ => {},
    }
    assert(contiguous(r, upper_after(upper, batch)));
    // what a reader sees
    lemma_physical_split(g, 0, index, n);
    lemma_physical_split(g, index, index + 1, n);
    lemma_physical_split(r, 0, index, n);
    lemma_physical_split(r, index, index + 1, n);
    lemma_physical_same(r, g, 0, index);
    lemma_physical_same(r, g, index + 1, n);
    assert forall|j: int| 0 <= j < index implies (#[trigger] g[j]).parts().len() == 0 by {
        assert(g[j].is_vacant());
    }
    lemma_physical_none(g, 0, index);
    assert(physical_range(g, index, index + 1) =~= g[index].parts()) by {
        assert(physical_range(g, index + 1, index + 1) =~= Seq::<HollowBatchView>::empty());
    }
    assert(physical_range(r, index, index + 1) =~= r[index].parts()) by {
        assert(physical_range(r, index + 1, index + 1) =~= Seq::<HollowBatchView>::empty());
    }
    assert(r[index].parts() =~= g[index].parts() + parts_of(batch));
    assert(physical(r) =~= physical(g) + parts_of(batch));
    lemma_sum_len_concat(physical(g), parts_of(batch));
    match batch {
        Some(b) => lemma_batch_len(b),
        None => {},
    }
    lemma_layer_len(r[index]);
    lemma_layer_len(g[index]);
    lemma_sum_len_concat(g[index].parts(), parts_of(batch));
    crate::wellformed::lemma_layer_len_le_total(r, index);
    // what is accounted for
    lemma_pow2_double(index as nat);
    assert forall|k: int| index < k < r.len() implies #[trigger] credit_ok(r, k, rest) && layer_ok(
        r,
        k,
    ) by {
        assert(layer_ok(g, k));
        assert(r[k] == g[k]);
        assert(g[k] == layers[k]);
        assert(credit_ok(layers, k, credit));
        lemma_accounted_update(g, index, x, k);
        lemma_accounted_same(g, layers, k);
        let o = g[index].occupancy();
        let q = pow2(index as nat);
        assert(x.occupancy() == o + 1);
        assert((o + 1) * q == o * q + q) by (nonlinear_arith);
    }
    assert forall|k: int| 0 <= k < r.len() implies layer_ok(r, k) by {
        if k < index {
            assert(r[k].is_vacant());
        } else if k == index {
            assert(layer_shape(r[k], k));
            assert(pending(r[k]) <= r[k].len());
        } else {
            assert(credit_ok(r, k, rest));
        }
    }
    crate::wellformed::lemma_physical_grow(layers, index as nat);
}

/// Rolling up to `index` keeps the invariant and what a reader sees; it
/// leaves the layers below `index` vacant and no pair in layer `index`, and
/// costs each pair above half of the debt that an insertion at `index`
/// brings fuel for.
pub proof fn lemma_roll_up(
    layers: Layers,
    upper: Seq<u64>,
    index: int,
    since: Seq<u64>,
    debt: nat,
    half: nat,
)
    requires
        inv(layers, upper),
        since.len() <= 1,
        0 <= index,
        debt == 8 * pow2(index as nat),
        half == 4 * pow2(index as nat),
        forall|k: int|
            0 <= k < layers.len() && k <= index + 1 ==> !(#[trigger] layers[k]).is_double(),
        forall|k: int| 0 <= k < layers.len() ==> credit_ok(layers, k, debt),
    ensures
        ({
            let r = roll_up(layers, index as nat, since);
            &&& inv(r, upper)
            &&& physical(r) == physical(layers)
            &&& r.len() > index
            &&& vacant_below(r, index)
            &&& !r[index].is_double()
            &&& forall|k: int| index < k < r.len() ==> credit_ok(r, k, half)
        }),
{
    let g = grow(layers, index as nat);
    let r = roll_up(layers, index as nat, since);
    lemma_inv_grow(layers, upper, index as nat);
    lemma_pow2_double(index as nat);
    crate::wellformed::lemma_physical_grow(layers, index as nat);
    assert forall|k: int| 0 <= k < g.len() implies credit_ok(g, k, debt) && (k <= index + 1
        ==> !(#[trigger] g[k]).is_double()) by {
        if k < layers.len() {
            assert(credit_ok(layers, k, debt));
            lemma_accounted_same(g, layers, k);
        } else {
            assert(g[k].is_vacant());
        }
    }
    if vacant_below(g, index as int) {
        assert(r == g);
    } else {
        let (chained, merged) = roll_chain(g, None, 0, index as nat, since);
        assert(physical_range(g, 0, 0) =~= Seq::<HollowBatchView>::empty());
        assert(chain_inv(g, upper, g, None, 0));
        lemma_roll_chain(g, upper, g, None, 0, index, since);
        lemma_chain_end(g, upper, chained, merged, index);
        let mid = reach(g, index);
        let placed = insert_at(chained, merged, index as nat, since);
        assert(upper_after(mid, merged) == upper);
        lemma_sum_len_concat(physical(chained), parts_of(merged));
        match merged {
            Some(m) => lemma_batch_len(m),
            None => {},
        }
        assert forall|k: int| index < k < chained.len() implies credit_ok(chained, k, debt) by {
            assert(credit_ok(g, k, debt));
        }
        lemma_insert_bottom(chained, mid, merged, index, since, debt, half);
        assert(grow(chained, index as nat) == chained);
        assert(physical(placed) == physical(g));
        if placed[index].is_double() {
            lemma_push_up(placed, upper, index, since);
            assert(chained[index] == g[index]);
            assert(layer_ok(g, index));
            assert forall|k: int| index < k < r.len() implies credit_ok(r, k, half) by {
                if k == index + 1 {
                    lemma_pow2_double((index + 1) as nat);
                    lemma_accounted_vacant(placed, index);
                    assert(layer_ok(r, k));
                    assert(pending(r[k]) <= r[k].len());
                    if index + 1 < placed.len() {
                        assert(placed[index + 1] == g[index + 1]);
                        assert(layer_ok(g, index + 1));
                    }
                } else {
                    assert(credit_ok(placed, k, half));
                    assert(r[k] == placed[k]);
                }
            }
            assert forall|j: int| 0 <= j < index && j < r.len() implies (#[trigger] r[j]).is_vacant() by {
                assert(placed[j].is_vacant());
            }
        } else {
            assert(r == placed);
        }
    }
}

/// Introducing a batch that fits `level` and starts at the layers' upper
/// frontier, after enough fuel, keeps the invariant and appends the batch's
/// parts to what a reader sees; this is all of an insertion but the
/// tidying.
pub proof fn lemma_place(
    layers: Layers,
    upper: Seq<u64>,
    batch: Option<SpineBatchView>,
    level: nat,
    fuel: nat,
    since: Seq<u64>,
)
    requires
        inv(layers, upper),
        since.len() <= 1,
        batch matches Some(b) ==> batch_fits(b, pow2(level)) && b.lower() == upper,
        sum_len(physical(layers)) + len_of(batch) <= usize::MAX,
        fuel >= 8 * pow2(level) || fuel >= usize::MAX,
    ensures
        ({
            let fueled = crate::model::apply_fuel(layers, fuel, since);
            let rolled = roll_up(fueled, level, since);
            let r = insert_at(rolled, batch, level, since);
            &&& inv(fueled, upper)
            &&& inv(rolled, upper)
            &&& physical(rolled) == physical(layers)
            &&& forall|k: int|
                0 <= k < fueled.len() && k <= level + 1 ==> !(#[trigger] fueled[k]).is_double()
            &&& rolled.len() > level
            &&& !rolled[level as int].is_double()
            &&& vacant_below(rolled, level as int)
            &&& inv(r, upper_after(upper, batch))
            &&& physical(r) == physical(layers) + parts_of(batch)
        }),
{
    let fueled = crate::model::apply_fuel(layers, fuel, since);
    let rolled = roll_up(fueled, level, since);
    let debt = 8 * pow2(level);
    crate::fueling::lemma_apply_fuel(layers, upper, fuel, since);
    crate::fueling::lemma_fueled_for_level(fueled, upper, fuel, level, debt);
    let half = 4 * pow2(level);
    lemma_roll_up(fueled, upper, level as int, since, debt, half);
    lemma_insert_bottom(rolled, upper, batch, level as int, since, half, 0);
}

} // verus!

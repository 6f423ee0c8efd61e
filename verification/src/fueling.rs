//! Applying fuel keeps the invariant of the layers: the proofs for one
//! layer's work, for moving a completed pair one layer up, and for a whole
//! pass over the layers.
use crate::frontier::{join_spec, lemma_join_upper_bound};
use crate::model::{
    accounted, apply_fuel, apply_fuel_from, fuel_step, grow, insert_at, merged_since,
    FuelingMergeView, HollowBatchView, Layers, MergeStateView, MergeVariantView, SpineBatchView,
};
use crate::wellformed::{
    batch_fits, contiguous, credit_ok, fueled, insert_ready, inv, layer_ok, layer_shape,
    lemma_accounted_same, lemma_accounted_update, lemma_batch_len, lemma_layer_len,
    lemma_layer_len_le_total, lemma_physical_grow, lemma_physical_same, lemma_physical_split,
    lemma_pow2_double, lemma_reach_grow, lemma_reach_prefix, lemma_reach_suffix,
    lemma_sum_len_concat, linked, pending, physical, physical_range, reach,
};
use vstd::arithmetic::power2::pow2;
use vstd::prelude::*;

verus! {

/// The since frontier of a merge is a frontier again.
pub proof fn lemma_merged_since(b1: SpineBatchView, b2: SpineBatchView, since: Seq<u64>)
    requires
        b1.wf(),
        b2.wf(),
        since.len() <= 1,
    ensures
        merged_since(b1, b2, Some(since)).len() <= 1,
        merged_since(b1, b2, None).len() <= 1,
{
    lemma_join_upper_bound(b1.desc().since, b2.desc().since);
    lemma_join_upper_bound(join_spec(b1.desc().since, b2.desc().since), since);
}

/// The batch that a merge hands out spans both inputs and is as long as
/// the two together.
pub proof fn lemma_done(m: FuelingMergeView)
    requires
        m.b1.wf(),
        m.b2.wf(),
        m.since.len() <= 1,
    ensures
        m.done().desc().wf(),
        m.done().len() == m.b1.len() + m.b2.len(),
        m.done().parts() == m.b1.parts() + m.b2.parts(),
        m.done().lower() == m.b1.lower(),
        m.done().upper() == m.b2.upper(),
{
    lemma_batch_len(m.b1);
    lemma_batch_len(m.b2);
    lemma_sum_len_concat(m.b1.parts(), m.b2.parts());
}

/// Work on one layer keeps the invariant, and changes nothing that a reader
/// sees.
pub proof fn lemma_work(layers: Layers, upper: Seq<u64>, i: int, fuel: nat)
    requires
        inv(layers, upper),
        0 <= i < layers.len(),
    ensures
        ({
            let w = layers.update(i, layers[i].work(fuel));
            &&& inv(w, upper)
            &&& physical(w) == physical(layers)
            &&& w[i].occupancy() == layers[i].occupancy()
            &&& w[i].len() == layers[i].len()
            &&& (!layers[i].is_double() ==> w[i] == layers[i])
            &&& (w[i].is_in_progress() ==> fueled(w, i, fuel))
            &&& forall|k: int| 0 <= k <= layers.len() ==> accounted(w, k) == accounted(layers, k)
        }),
{
    let l = layers[i];
    let w = layers.update(i, l.work(fuel));
    let n = layers.len() as int;
    assert(layer_ok(layers, i));
    lemma_layer_len_le_total(layers, i);
    match l {
        MergeStateView::Double(MergeVariantView::InProgress(b1, b2, m)) => {
            lemma_done(m.work(fuel));
        },
        _ => {},
    }
    assert(w[i].span() == l.span());
    assert(w[i].parts() == l.parts());
    assert(w[i].occupancy() == l.occupancy());
    assert forall|k: int| 0 <= k <= n implies accounted(w, k) == accounted(layers, k) by {
        lemma_accounted_same(w, layers, k);
    }
    lemma_reach_suffix(w, layers, 0);
    lemma_physical_same(w, layers, 0, n);
    assert forall|k: int| 0 <= k < n implies layer_ok(w, k) by {
        assert(layer_ok(layers, k));
        if k != i {
            assert(w[k] == layers[k]);
        }
    }
}

/// Moving a pair's result one layer up keeps the invariant and what a reader
/// sees; above the two layers nothing changes, not even what is accounted
/// for.
pub proof fn lemma_push_up(layers: Layers, upper: Seq<u64>, i: int, since: Seq<u64>)
    requires
        inv(layers, upper),
        0 <= i < layers.len(),
        layers[i].is_double(),
        since.len() <= 1,
    ensures
        ({
            let r = insert_at(
                layers.update(i, MergeStateView::Vacant),
                layers[i].completed(),
                (i + 1) as nat,
                since,
            );
            &&& inv(r, upper)
            &&& insert_ready(
                layers.update(i, MergeStateView::Vacant),
                layers[i].completed(),
                i + 1,
                since,
            )
            &&& physical(r) == physical(layers)
            &&& r.len() == if i + 1 < layers.len() {
                layers.len()
            } else {
                layers.len() + 1
            }
            &&& r[i].is_vacant()
            &&& !r[i + 1].is_vacant()
            &&& (i + 1 >= layers.len() ==> r[i + 1].is_single())
            &&& r[i + 1].len() == layers[i].len() + if i + 1 < layers.len() {
                layers[i + 1].len()
            } else {
                0
            }
            &&& forall|k: int| 0 <= k < r.len() && k != i && k != i + 1 ==> r[k] == layers[k]
            &&& forall|k: int| 0 <= k <= i ==> accounted(r, k) == accounted(layers, k)
            &&& accounted(r, i + 1) == accounted(layers, i)
            &&& forall|k: int| i + 1 < k <= layers.len() ==> accounted(r, k) == accounted(layers, k)
        }),
{
    let n = layers.len() as int;
    let p = layers.update(i, MergeStateView::Vacant);
    let cb = layers[i].completed();
    let g = grow(p, (i + 1) as nat);
    let gl = grow(layers, (i + 1) as nat);
    let r = insert_at(p, cb, (i + 1) as nat, since);
    assert(g =~= gl.update(i, MergeStateView::Vacant));
    assert(layer_ok(layers, i));
    lemma_pow2_double(i as nat);
    lemma_layer_len_le_total(layers, i);
    // the layer above holds no pair
    if i + 1 < n {
        assert(layer_ok(layers, i + 1));
        lemma_layer_len_le_total(layers, i + 1);
        if layers[i + 1].is_double() {
            assert(accounted(layers, i + 1) == accounted(layers, i) + 2 * pow2(i as nat));
            assert(false);
        }
    }
    assert(!g[i + 1].is_double());
    // the completed batch
    match layers[i] {
        MergeStateView::Double(MergeVariantView::InProgress(b1, b2, m)) => {
            lemma_done(m);
        },
        _ => {},
    }
    assert(cb matches Some(c) ==> batch_fits(c, pow2((i + 1) as nat)) && layers[i].span() == Some(
        (c.lower(), c.upper()),
    ) && c.parts() == layers[i].parts() && c.len() == layers[i].len());
    assert(cb is None ==> layers[i].span() is None && layers[i].parts().len() == 0
        && layers[i].len() == 0);
    let x = r[i + 1];
    assert(r =~= gl.update(i, MergeStateView::Vacant).update(i + 1, x));
    // linkage
    lemma_reach_grow(layers, (i + 1) as nat, 0);
    lemma_reach_grow(layers, (i + 1) as nat, i);
    lemma_reach_grow(layers, (i + 1) as nat, i + 1);
    lemma_reach_grow(layers, (i + 1) as nat, i + 2);
    lemma_linked_down(layers, 0, i);
    lemma_linked_down(layers, 0, i + 1);
    lemma_linked_down(layers, 0, i + 2);
    lemma_reach_suffix(r, gl, i + 2);
    match g[i + 1] {
        MergeStateView::Single(Some(old)) => {
            match cb {
                Some(c) => {
                    lemma_merged_since(old, c, since);
                    assert(old.upper() == c.lower());
                },
                None => {},
            }
        },
        _ => {},
    }
    assert(linked(gl, i) && linked(gl, i + 1) && linked(gl, i + 2));
    assert(linked(r, i + 2) && reach(r, i + 2) == reach(gl, i + 2));
    assert(r[i].span() is None);
    assert(reach(r, i) == reach(r, i + 1));
    assert(linked(r, i) == linked(r, i + 1));
    assert(gl[i] == layers[i]);
    assert(reach(gl, i) == match gl[i].span() {
        Some((_, hi)) => hi,
        None => reach(gl, i + 1),
    });
    assert(reach(gl, i + 1) == match gl[i + 1].span() {
        Some((_, hi)) => hi,
        None => reach(gl, i + 2),
    });
    assert(reach(r, i + 1) == match r[i + 1].span() {
        Some((_, hi)) => hi,
        None => reach(r, i + 2),
    });
    assert(linked(r, i + 1) == (linked(r, i + 2) && match r[i + 1].span() {
        Some((lo, _)) => lo == reach(r, i + 2),
        None => true,
    }));
    assert(gl[i].span() matches Some((lo, _)) ==> lo == reach(gl, i + 1));
    assert(gl[i + 1].span() matches Some((lo, _)) ==> lo == reach(gl, i + 2));
    assert(reach(r, i) == reach(gl, i));
    assert(linked(r, i));
    lemma_reach_prefix(r, gl, i, i, 0);
    assert(contiguous(r, upper));
    // what a reader sees
    lemma_physical_grow(layers, (i + 1) as nat);
    let m = gl.len() as int;
    lemma_physical_split(gl, 0, i, m);
    lemma_physical_split(gl, i, i + 2, m);
    lemma_physical_split(r, 0, i, m);
    lemma_physical_split(r, i, i + 2, m);
    lemma_physical_same(r, gl, 0, i);
    lemma_physical_same(r, gl, i + 2, m);
    assert(physical_range(r, i, i + 2) =~= physical_range(gl, i, i + 2)) by {
        assert(physical_range(r, i + 2, i + 2) =~= Seq::<HollowBatchView>::empty());
        assert(physical_range(gl, i + 2, i + 2) =~= Seq::<HollowBatchView>::empty());
        assert(physical_range(r, i + 1, i + 2) =~= r[i + 1].parts());
        assert(physical_range(gl, i + 1, i + 2) =~= gl[i + 1].parts());
        assert(r[i + 1].parts() =~= gl[i + 1].parts() + gl[i].parts());
        assert(r[i].parts() =~= Seq::<HollowBatchView>::empty());
    }
    assert(physical(r) == physical(layers));
    // what is accounted for
    assert forall|k: int| 0 <= k <= i implies accounted(r, k) == accounted(layers, k) by {
        lemma_accounted_same(r, layers, k);
    }
    assert(accounted(r, i + 1) == accounted(layers, i)) by {
        assert(r[i].occupancy() == 0);
        assert(0 * pow2(i as nat) == 0);
    }
    assert forall|k: int| i + 1 < k <= n implies accounted(r, k) == accounted(layers, k) by {
        lemma_accounted_update(layers, i, MergeStateView::Vacant, k);
        lemma_accounted_update(p, i + 1, x, k);
        assert(r =~= p.update(i + 1, x));
        lemma_pow2_double(i as nat);
        assert(x.occupancy() == layers[i + 1].occupancy() + 1);
        assert(layers[i].occupancy() == 2);
        assert(p[i + 1] == layers[i + 1]);
        let o = layers[i + 1].occupancy();
        let q = pow2(i as nat);
        assert((o + 1) * (2 * q) == o * (2 * q) + 2 * q) by (nonlinear_arith);
        assert(0 * q == 0);
    }
    lemma_layer_len(r[i + 1]);
    lemma_layer_len_le_total(r, i + 1);
    lemma_layer_len(gl[i + 1]);
    lemma_layer_len(gl[i]);
    lemma_sum_len_concat(gl[i + 1].parts(), gl[i].parts());
    assert forall|k: int| 0 <= k < r.len() implies layer_ok(r, k) by {
        if k < i {
            assert(layer_ok(layers, k));
        } else if k == i {
        } else if k == i + 1 {
            lemma_pow2_double((i + 1) as nat);
            assert(layer_shape(r[k], k));
            assert(pending(r[k]) <= r[k].len());
            assert(r[k].len() <= 4 * pow2(i as nat));
        } else {
            assert(layer_ok(layers, k));
        }
    }
}

/// Where the layers link up from the bottom, they link up from every layer.
pub proof fn lemma_linked_down(layers: Layers, j: int, k: int)
    requires
        0 <= j <= k,
        linked(layers, j),
    ensures
        linked(layers, k),
    decreases k - j,
{
    if j < k && j < layers.len() {
        lemma_linked_down(layers, j + 1, k);
    } else if j < k {
    }
}

/// What holds in the middle of a pass of fuel over the first `n` layers,
/// before layer `i`: the invariant, the layers below already fueled, and no
/// layer added but, after the last step, a single one on top.
pub open spec fn pass_inv(layers: Layers, upper: Seq<u64>, fuel: nat, i: int, n: int) -> bool {
    &&& inv(layers, upper)
    &&& 0 <= i <= n
    &&& (layers.len() == n || (i == n && layers.len() == n + 1 && layers[n].is_single()))
    &&& forall|k: int| 0 <= k < i ==> fueled(layers, k, fuel)
}

/// One layer's share of a pass keeps what holds in the middle of the pass,
/// and what a reader sees.
pub proof fn lemma_fuel_step(
    layers: Layers,
    upper: Seq<u64>,
    fuel: nat,
    i: int,
    n: int,
    since: Seq<u64>,
)
    requires
        pass_inv(layers, upper, fuel, i, n),
        i < n,
        since.len() <= 1,
    ensures
        pass_inv(fuel_step(layers, fuel, i as nat, since), upper, fuel, i + 1, n),
        physical(fuel_step(layers, fuel, i as nat, since)) == physical(layers),
{
    let w = layers.update(i, layers[i].work(fuel));
    let r = fuel_step(layers, fuel, i as nat, since);
    lemma_work(layers, upper, i, fuel);
    if w[i].is_complete() {
        lemma_push_up(w, upper, i, since);
        assert(w.update(i, MergeStateView::Vacant) =~= layers.update(i, MergeStateView::Vacant));
        assert forall|k: int| 0 <= k < i + 1 implies fueled(r, k, fuel) by {
            if k < i {
                assert(fueled(layers, k, fuel));
                assert(r[k] == layers[k]);
            }
        }
    } else {
        assert(r == w);
        assert forall|k: int| 0 <= k < i + 1 implies fueled(r, k, fuel) by {
            if k < i {
                assert(fueled(layers, k, fuel));
                assert(r[k] == layers[k]);
            }
        }
    }
}

/// A pass of fuel keeps the invariant and what a reader sees, and leaves
/// every layer fueled.
pub proof fn lemma_apply_fuel_from(
    layers: Layers,
    upper: Seq<u64>,
    fuel: nat,
    i: int,
    n: int,
    since: Seq<u64>,
)
    requires
        pass_inv(layers, upper, fuel, i, n),
        since.len() <= 1,
    ensures
        ({
            let r = apply_fuel_from(layers, fuel, i as nat, n as nat, since);
            &&& inv(r, upper)
            &&& physical(r) == physical(layers)
            &&& n <= r.len() <= n + 1
            &&& forall|k: int| 0 <= k < r.len() ==> fueled(r, k, fuel)
        }),
    decreases n - i,
{
    if i < n {
        lemma_fuel_step(layers, upper, fuel, i, n, since);
        lemma_apply_fuel_from(
            fuel_step(layers, fuel, i as nat, since),
            upper,
            fuel,
            i + 1,
            n,
            since,
        );
    }
}

/// Applying fuel keeps the invariant of the layers and the physical batches
/// that they reach; afterwards no complete merge waits in any layer, and
/// every merge still in progress has taken all of the fuel.
pub proof fn lemma_apply_fuel(layers: Layers, upper: Seq<u64>, fuel: nat, since: Seq<u64>)
    requires
        inv(layers, upper),
        since.len() <= 1,
    ensures
        inv(apply_fuel(layers, fuel, since), upper),
        physical(apply_fuel(layers, fuel, since)) == physical(layers),
        apply_fuel(layers, fuel, since).len() >= layers.len(),
        forall|k: int|
            0 <= k < apply_fuel(layers, fuel, since).len() ==> fueled(
                apply_fuel(layers, fuel, since),
                k,
                fuel,
            ),
{
    lemma_apply_fuel_from(layers, upper, fuel, 0, layers.len() as int, since);
}

/// After fuel for an insertion at `level`, no layer up to the one above
/// `level` holds a pair, and every pair can afford the debt of the
/// insertion.
pub proof fn lemma_fueled_for_level(
    layers: Layers,
    upper: Seq<u64>,
    fuel: nat,
    level: nat,
    debt: nat,
)
    requires
        inv(layers, upper),
        debt == 8 * pow2(level),
        forall|k: int| 0 <= k < layers.len() ==> fueled(layers, k, fuel),
        fuel >= 8 * pow2(level) || fuel >= usize::MAX,
    ensures
        forall|k: int| 0 <= k < layers.len() && k <= level + 1 ==> !(#[trigger] layers[k]).is_double(),
        forall|k: int| 0 <= k < layers.len() ==> credit_ok(layers, k, debt),
{
    assert forall|k: int| 0 <= k < layers.len() implies credit_ok(layers, k, debt) && (k <= level
        + 1 ==> !(#[trigger] layers[k]).is_double()) by {
        assert(fueled(layers, k, fuel));
        assert(layer_ok(layers, k));
        lemma_layer_len_le_total(layers, k);
        if k <= level + 1 {
            crate::wellformed::lemma_pow2_le(k as nat, level + 1);
            lemma_pow2_double(level);
        }
    }
}

/// A layer that a batch has joined keeps a valid record of its merge.
pub proof fn lemma_insert_at_record(
    layers: Layers,
    batch: Option<SpineBatchView>,
    index: int,
    since: Seq<u64>,
)
    requires
        insert_ready(layers, batch, index, since),
        0 <= index,
    ensures
        insert_at(layers, batch, index as nat, since).len() > index,
        insert_at(layers, batch, index as nat, since)[index].wf(),
        !insert_at(layers, batch, index as nat, since)[index].is_vacant(),
{
    let g = grow(layers, index as nat);
    match g[index] {
        MergeStateView::Single(Some(old)) => {
            match batch {
                Some(b) => lemma_merged_since(old, b, since),
                None => {},
            }
        },
        _ => {},
    }
}

} // verus!

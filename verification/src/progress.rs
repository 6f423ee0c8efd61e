//! How far a spine is from being reduced: a rank that no maintenance step
//! raises, and the sums that it is made of.
use crate::fueling::{lemma_fuel_step, lemma_push_up, lemma_work, pass_inv};
use crate::model::{
    accounted, any_double, apply_fuel, apply_fuel_from, fuel_step, grow, insert_at, level_of,
    reduced, roll_chain, roll_step, roll_up, tidy_from, tidy_layers, vacant_below, Layers,
    MergeStateView, MergeVariantView, SpineBatchView,
};
use crate::rolling::{chain_inv, lemma_chain_end, lemma_roll_chain, lemma_roll_step};
use crate::tidying::{lemma_level_of, lemma_tidy_remove, tidy_ready};
use crate::wellformed::{
    fueled, inv, layer_ok, lemma_accounted_bound, lemma_pow2_double, lemma_pow2_le,
    pending,
};
use vstd::arithmetic::power2::pow2;
use vstd::prelude::*;

verus! {

/// What a layer weighs in batches with content: two for a batch, three for
/// a merge in progress, which has two steps to go, its completion and the
/// batch's next merge.
pub open spec fn weight(l: MergeStateView) -> nat {
    match l {
        MergeStateView::Single(Some(_)) => 2,
        MergeStateView::Double(MergeVariantView::InProgress(..)) => 3,
        MergeStateView::Double(MergeVariantView::Complete(Some(_))) => 2,
        _ => 0,
    }
}

/// Whether a layer holds only a batch without content.
pub open spec fn idle(l: MergeStateView) -> bool {
    l == MergeStateView::Single(None) || l == MergeStateView::Double(
        MergeVariantView::Complete(None),
    )
}

/// The weight of the layers below `k`.
pub open spec fn weight_below(layers: Layers, k: int) -> nat
    decreases k,
{
    if k <= 0 {
        0
    } else {
        weight_below(layers, k - 1) + weight(layers[k - 1])
    }
}

/// The work that the merges in progress below layer `k` still ask for.
pub open spec fn work_below(layers: Layers, k: int) -> nat
    decreases k,
{
    if k <= 0 {
        0
    } else {
        work_below(layers, k - 1) + pending(layers[k - 1])
    }
}

/// The number of layers below `k` that hold a pair.
pub open spec fn pairs_below(layers: Layers, k: int) -> nat
    decreases k,
{
    if k <= 0 {
        0
    } else {
        pairs_below(layers, k - 1) + if layers[k - 1].is_double() {
            1nat
        } else {
            0nat
        }
    }
}

/// The number of layers below `k` that hold only a batch without content
/// and lie above some batch with content.
pub open spec fn idle_below(layers: Layers, k: int) -> nat
    decreases k,
{
    if k <= 0 {
        0
    } else {
        idle_below(layers, k - 1) + if idle(layers[k - 1]) && weight_below(layers, k - 1) > 0 {
            1nat
        } else {
            0nat
        }
    }
}

/// The number of layers, counting one more where the top layer holds a
/// pair, whose result will need it.
pub open spec fn height(layers: Layers) -> nat {
    if layers.len() > 0 && layers.last().is_double() {
        layers.len() + 1
    } else {
        layers.len()
    }
}

/// The room that is left in the layers: twice the capacity of the layer
/// above the top one, less what the layers account for.
pub open spec fn room(layers: Layers) -> nat {
    (2 * pow2(height(layers)) - accounted(layers, layers.len() as int)) as nat
}

/// The rank of the layers.
pub struct Rank {
    pub weight: nat,
    pub idle: nat,
    pub work: nat,
    pub room: nat,
    pub pairs: nat,
}

/// The rank of the layers: their weight, idle layers, work, room and
/// pairs.
pub open spec fn rank(layers: Layers) -> Rank {
    let n = layers.len() as int;
    Rank {
        weight: weight_below(layers, n),
        idle: idle_below(layers, n),
        work: work_below(layers, n),
        room: room(layers),
        pairs: pairs_below(layers, n),
    }
}

impl Rank {
    /// Whether this rank is below the other: the first of weight, idle
    /// layers, work, room and pairs in which they differ is less.
    pub open spec fn lt(self, other: Rank) -> bool {
        self.weight < other.weight || (self.weight == other.weight && (self.idle < other.idle || (
        self.idle == other.idle && (self.work < other.work || (self.work == other.work && (
        self.room < other.room || (self.room == other.room && self.pairs < other.pairs)))))))
    }

    /// Whether this rank is at most the other.
    pub open spec fn le(self, other: Rank) -> bool {
        self == other || self.lt(other)
    }
}

/// What the layers account for leaves room.
pub proof fn lemma_room(layers: Layers)
    ensures
        room(layers) == 2 * pow2(height(layers)) - accounted(layers, layers.len() as int),
        room(layers) >= 2,
{
    lemma_accounted_bound(layers, layers.len() as int);
    lemma_pow2_le(layers.len(), height(layers));
}

/// Layers that agree below `k` have the same sums below `k`.
pub proof fn lemma_sums_same(l1: Layers, l2: Layers, k: int)
    requires
        forall|j: int| 0 <= j < k ==> #[trigger] l1[j] == l2[j],
    ensures
        weight_below(l1, k) == weight_below(l2, k),
        work_below(l1, k) == work_below(l2, k),
        pairs_below(l1, k) == pairs_below(l2, k),
        idle_below(l1, k) == idle_below(l2, k),
    decreases k,
{
    if k > 0 {
        lemma_sums_same(l1, l2, k - 1);
        assert(l1[k - 1] == l2[k - 1]);
    }
}

/// Changing layer `j` changes the sums below a higher layer by the change
/// of its own share.
pub proof fn lemma_sums_update(layers: Layers, j: int, x: MergeStateView, k: int)
    requires
        0 <= j < k <= layers.len(),
    ensures
        weight_below(layers.update(j, x), k) + weight(layers[j]) == weight_below(layers, k)
            + weight(x),
        work_below(layers.update(j, x), k) + pending(layers[j]) == work_below(layers, k) + pending(
            x,
        ),
        pairs_below(layers.update(j, x), k) + (if layers[j].is_double() {
            1nat
        } else {
            0nat
        }) == pairs_below(layers, k) + (if x.is_double() {
            1nat
        } else {
            0nat
        }),
    decreases k,
{
    let l2 = layers.update(j, x);
    if k - 1 == j {
        lemma_sums_same(layers, l2, j);
    } else {
        lemma_sums_update(layers, j, x, k - 1);
    }
}

/// Above layers that agree, the idle layers count alike where the layers
/// below are alike in having weight.
pub proof fn lemma_idle_suffix(l1: Layers, l2: Layers, j: int, k: int)
    requires
        0 <= j <= k,
        forall|i: int| j <= i < k ==> #[trigger] l1[i] == l2[i],
        (weight_below(l1, j) > 0) == (weight_below(l2, j) > 0),
    ensures
        idle_below(l1, k) - idle_below(l1, j) == idle_below(l2, k) - idle_below(l2, j),
        (weight_below(l1, k) > 0) == (weight_below(l2, k) > 0),
        weight_below(l1, k) - weight_below(l1, j) == weight_below(l2, k) - weight_below(l2, j),
    decreases k - j,
{
    if j < k {
        lemma_idle_suffix(l1, l2, j, k - 1);
        assert(l1[k - 1] == l2[k - 1]);
    }
}

/// Vacant layers on top change none of the sums.
pub proof fn lemma_sums_grow(layers: Layers, index: nat, k: int)
    requires
        layers.len() <= k <= grow(layers, index).len(),
    ensures
        weight_below(grow(layers, index), k) == weight_below(layers, layers.len() as int),
        work_below(grow(layers, index), k) == work_below(layers, layers.len() as int),
        pairs_below(grow(layers, index), k) == pairs_below(layers, layers.len() as int),
        idle_below(grow(layers, index), k) == idle_below(layers, layers.len() as int),
        accounted(grow(layers, index), k) == accounted(layers, layers.len() as int),
    decreases k - layers.len(),
{
    let g = grow(layers, index);
    if k > layers.len() {
        lemma_sums_grow(layers, index, k - 1);
        assert(g[k - 1].is_vacant());
        assert(0 * pow2((k - 1) as nat) == 0);
    } else {
        lemma_sums_same(g, layers, k);
        crate::wellformed::lemma_accounted_same(g, layers, k);
    }
}

/// Work on one layer does not raise the rank, and with some fuel it lowers
/// the rank of layers whose layer `i` holds a merge in progress.
pub proof fn lemma_work_rank(layers: Layers, upper: Seq<u64>, i: int, fuel: nat)
    requires
        inv(layers, upper),
        0 <= i < layers.len(),
    ensures
        ({
            let w = layers.update(i, layers[i].work(fuel));
            &&& rank(w).le(rank(layers))
            &&& (layers[i].is_in_progress() && fuel >= 1 ==> rank(w).lt(rank(layers)))
        }),
{
    let n = layers.len() as int;
    let x = layers[i].work(fuel);
    let w = layers.update(i, x);
    lemma_work(layers, upper, i, fuel);
    lemma_sums_update(layers, i, x, n);
    assert(layer_ok(layers, i));
    // idle layers
    lemma_sums_same(w, layers, i);
    assert(idle(x) == idle(layers[i]));
    assert((weight(x) > 0) == (weight(layers[i]) > 0));
    assert(idle_below(w, i + 1) == idle_below(layers, i + 1));
    assert((weight_below(w, i + 1) > 0) == (weight_below(layers, i + 1) > 0));
    lemma_idle_suffix(w, layers, i + 1, n);
    // room
    assert(accounted(w, n) == accounted(layers, n));
    assert(w.last().is_double() == layers.last().is_double());
    assert(room(w) == room(layers));
}

/// Moving a pair's result one layer up does not raise the weight. Where
/// the layers weigh at least three, it lowers the rank, or it leaves the
/// rank as it is and in the layer above a complete pair that is not the
/// top layer.
pub proof fn lemma_push_rank(layers: Layers, upper: Seq<u64>, i: int, since: Seq<u64>)
    requires
        inv(layers, upper),
        0 <= i < layers.len(),
        layers[i].is_double(),
        since.len() <= 1,
    ensures
        ({
            let r = insert_at(
                layers.update(i, MergeStateView::Vacant),
                layers[i].completed(),
                (i + 1) as nat,
                since,
            );
            let n = layers.len() as int;
            &&& weight_below(r, r.len() as int) <= weight_below(layers, n)
            &&& (layers[i].is_in_progress() ==> weight_below(r, r.len() as int) < weight_below(
                layers,
                n,
            ))
            &&& (weight_below(layers, n) >= 3 ==> rank(r).lt(rank(layers)) || (rank(r) == rank(
                layers,
            ) && i + 1 < n - 1 && r[i + 1].is_complete()))
        }),
{
    let n = layers.len() as int;
    let p = layers.update(i, MergeStateView::Vacant);
    let cb = layers[i].completed();
    let gl = grow(layers, (i + 1) as nat);
    let r = insert_at(p, cb, (i + 1) as nat, since);
    let m = r.len() as int;
    let x = r[i + 1];
    lemma_push_up(layers, upper, i, since);
    assert(grow(p, (i + 1) as nat) =~= gl.update(i, MergeStateView::Vacant));
    assert(r =~= gl.update(i, MergeStateView::Vacant).update(i + 1, x));
    assert(!gl[i + 1].is_double()) by {
        if i + 1 < n {
            assert(gl[i + 1] == layers[i + 1]);
            assert(r[i + 1].len() == layers[i].len() + layers[i + 1].len());
        } else {
            assert(gl[i + 1].is_vacant());
        }
    }
    assert(gl[i] == layers[i]);
    // sums over the grown layers
    lemma_sums_grow(layers, (i + 1) as nat, m);
    lemma_sums_update(gl, i, MergeStateView::Vacant, m);
    lemma_sums_update(gl.update(i, MergeStateView::Vacant), i + 1, x, m);
    // idle layers
    lemma_sums_same(r, gl, i);
    lemma_idle_suffix(gl, gl, i, i);
    assert(weight_below(r, i + 1) == weight_below(gl, i));
    assert(weight_below(gl, i + 1) == weight_below(gl, i) + weight(gl[i]));
    assert(weight_below(r, i + 2) == weight_below(gl, i) + weight(x));
    assert(weight_below(gl, i + 2) == weight_below(gl, i) + weight(gl[i]) + weight(gl[i + 1]));
    assert(idle_below(r, i + 1) == idle_below(gl, i));
    assert(idle_below(r, i + 2) == idle_below(gl, i) + if idle(x) && weight_below(gl, i) > 0 {
        1nat
    } else {
        0nat
    });
    assert(idle_below(gl, i + 1) == idle_below(gl, i) + (if idle(gl[i]) && weight_below(gl, i)
        > 0 {
        1nat
    } else {
        0nat
    }));
    assert(idle_below(gl, i + 2) == idle_below(gl, i) + (if idle(gl[i]) && weight_below(gl, i)
        > 0 {
        1nat
    } else {
        0nat
    }) + (if idle(gl[i + 1]) && weight_below(gl, i + 1) > 0 {
        1nat
    } else {
        0nat
    }));
    if weight(x) == weight(gl[i]) + weight(gl[i + 1]) {
        lemma_idle_suffix(r, gl, i + 2, m);
    }
    // room
    lemma_room(r);
    lemma_room(layers);
    assert(accounted(r, m) == accounted(layers, n)) by {
        if i + 1 < n {
            assert(m == n);
            assert(i + 1 < n <= layers.len());
        } else {
            lemma_pow2_double(i as nat);
            let q = pow2(i as nat);
            assert(m == i + 2);
            assert(accounted(r, i + 2) == accounted(r, i + 1) + r[i + 1].occupancy() * pow2(
                (i + 1) as nat,
            ));
            assert(accounted(layers, i + 1) == accounted(layers, i) + layers[i].occupancy() * q);
            assert(r[i + 1].occupancy() == 1);
            assert(layers[i].occupancy() == 2);
            assert(1 * (2 * q) == 2 * q);
        }
    }
    if i + 1 < n - 1 {
        assert(r.last() == layers.last());
    }
    if weight_below(layers, n) >= 3 && i + 1 == n - 1 && x.is_double() && weight(x) == weight(
        gl[i],
    ) + weight(gl[i + 1]) && !(idle_below(r, i + 2) < idle_below(gl, i + 2)) {
        // the top layer would be the only one with weight
        assert(weight_below(gl, i) == 0 || !(idle(gl[i]) || idle(gl[i + 1])));
        assert(weight_below(layers, n) == weight_below(gl, i + 2));
    }
}

/// One layer's share of a pass of some fuel does not raise the weight.
/// Where the layers weigh at least three, it does not raise the rank; and
/// where layer `i` holds a pair, it lowers the rank, or leaves it as it is
/// with a complete pair in the layer above, which is not the top layer.
pub proof fn lemma_fuel_step_rank(
    layers: Layers,
    upper: Seq<u64>,
    fuel: nat,
    i: int,
    n: int,
    since: Seq<u64>,
)
    requires
        pass_inv(layers, upper, fuel, i, n),
        i < n,
        since.len() <= 1,
        fuel >= 1,
    ensures
        ({
            let r = fuel_step(layers, fuel, i as nat, since);
            &&& weight_below(r, r.len() as int) <= weight_below(layers, layers.len() as int)
            &&& (!layers[i].is_double() ==> r == layers)
            &&& (weight_below(layers, layers.len() as int) >= 3 ==> rank(r).le(rank(layers)))
            &&& (weight_below(layers, layers.len() as int) >= 3 && layers[i].is_double() ==> rank(
                r,
            ).lt(rank(layers)) || (rank(r) == rank(layers) && i + 1 < n && r.len() == n && r[i
                + 1].is_complete()))
        }),
{
    let w = layers.update(i, layers[i].work(fuel));
    let r = fuel_step(layers, fuel, i as nat, since);
    lemma_work(layers, upper, i, fuel);
    lemma_work_rank(layers, upper, i, fuel);
    if w[i].is_complete() {
        lemma_push_rank(w, upper, i, since);
        lemma_push_up(w, upper, i, since);
        assert(w.update(i, MergeStateView::Vacant) =~= layers.update(i, MergeStateView::Vacant));
    } else {
        assert(r == w);
        if !layers[i].is_double() {
            assert(w =~= layers);
        }
    }
}

/// What holds of the rank in the middle of a pass of fuel over the layers
/// `origin`, before layer `i`: the rank is lower; or it is the same, and
/// either nothing has changed and no layer below `i` holds a pair, or
/// layer `i` holds a complete pair that the pass has just made.
pub open spec fn pass_rank(origin: Layers, layers: Layers, i: int) -> bool {
    ||| rank(layers).lt(rank(origin))
    ||| (rank(layers) == rank(origin) && layers == origin && forall|j: int|
        0 <= j < i ==> !(#[trigger] origin[j]).is_double())
    ||| (rank(layers) == rank(origin) && i < layers.len() && layers[i].is_complete())
}

/// A pass of some fuel over layers that weigh at least three and hold a
/// pair lowers the rank.
pub proof fn lemma_pass_rank(
    origin: Layers,
    layers: Layers,
    upper: Seq<u64>,
    fuel: nat,
    i: int,
    n: int,
    since: Seq<u64>,
)
    requires
        pass_inv(layers, upper, fuel, i, n),
        since.len() <= 1,
        fuel >= 1,
        weight_below(origin, origin.len() as int) >= 3,
        origin.len() == n,
        pass_rank(origin, layers, i),
    ensures
        ({
            let r = apply_fuel_from(layers, fuel, i as nat, n as nat, since);
            rank(r).lt(rank(origin)) || (r == origin && forall|j: int|
                0 <= j < n ==> !(#[trigger] origin[j]).is_double())
        }),
    decreases n - i,
{
    if i < n {
        let next = fuel_step(layers, fuel, i as nat, since);
        lemma_fuel_step(layers, upper, fuel, i, n, since);
        lemma_fuel_step_rank(layers, upper, fuel, i, n, since);
        assert(pass_rank(origin, next, i + 1)) by {
            if rank(layers).lt(rank(origin)) {
                if weight_below(layers, layers.len() as int) >= 3 {
                    assert(rank(next).le(rank(layers)));
                }
            } else if layers == origin && (forall|j: int|
                0 <= j < i ==> !(#[trigger] origin[j]).is_double()) && !layers[i].is_double() {
            } else {
                assert(layers[i].is_double());
            }
        }
        lemma_pass_rank(origin, next, upper, fuel, i + 1, n, since);
    } else {
    }
}

/// Applying some fuel to layers that weigh at least three and hold a pair
/// lowers the rank.
pub proof fn lemma_apply_fuel_rank(layers: Layers, upper: Seq<u64>, fuel: nat, since: Seq<u64>)
    requires
        inv(layers, upper),
        since.len() <= 1,
        fuel >= 1,
        weight_below(layers, layers.len() as int) >= 3,
        any_double(layers),
    ensures
        rank(apply_fuel(layers, fuel, since)).lt(rank(layers)),
{
    lemma_pass_rank(layers, layers, upper, fuel, 0, layers.len() as int, since);
}

/// A pass of fuel does not raise the weight.
pub proof fn lemma_pass_weight(
    layers: Layers,
    upper: Seq<u64>,
    fuel: nat,
    i: int,
    n: int,
    since: Seq<u64>,
)
    requires
        pass_inv(layers, upper, fuel, i, n),
        since.len() <= 1,
    ensures
        ({
            let r = apply_fuel_from(layers, fuel, i as nat, n as nat, since);
            weight_below(r, r.len() as int) <= weight_below(layers, layers.len() as int)
        }),
    decreases n - i,
{
    if i < n {
        let w = layers.update(i, layers[i].work(fuel));
        let next = fuel_step(layers, fuel, i as nat, since);
        lemma_fuel_step(layers, upper, fuel, i, n, since);
        lemma_work(layers, upper, i, fuel);
        lemma_work_rank(layers, upper, i, fuel);
        if w[i].is_complete() {
            lemma_push_rank(w, upper, i, since);
            assert(w.update(i, MergeStateView::Vacant) =~= layers.update(
                i,
                MergeStateView::Vacant,
            ));
        }
        lemma_pass_weight(next, upper, fuel, i + 1, n, since);
    }
}

/// Two layers weigh no more than all layers.
pub proof fn lemma_weight_two(layers: Layers, a: int, b: int, k: int)
    requires
        0 <= a < b < k,
    ensures
        weight(layers[a]) + weight(layers[b]) <= weight_below(layers, k),
        weight(layers[b]) <= weight_below(layers, k),
    decreases k,
{
    if k - 1 == b {
        lemma_weight_one(layers, a, b);
    } else {
        lemma_weight_two(layers, a, b, k - 1);
    }
}

/// One layer weighs no more than all layers.
pub proof fn lemma_weight_one(layers: Layers, a: int, k: int)
    requires
        0 <= a < k,
    ensures
        weight(layers[a]) <= weight_below(layers, k),
    decreases k,
{
    if k - 1 > a {
        lemma_weight_one(layers, a, k - 1);
    }
}

/// Layers that hold no complete pair and weigh less than three are
/// reduced.
pub proof fn lemma_light_reduced(layers: Layers)
    requires
        weight_below(layers, layers.len() as int) < 3,
        forall|k: int| 0 <= k < layers.len() ==> !(#[trigger] layers[k]).is_complete(),
    ensures
        reduced(layers),
{
    let n = layers.len() as int;
    assert forall|i: int| 0 <= i < n implies !(#[trigger] layers[i]).is_double() by {
        lemma_weight_one(layers, i, n);
    }
    assert forall|i: int, j: int| 0 <= i < j < n implies !((#[trigger] layers[i]).len() > 0 && (
    #[trigger] layers[j]).len() > 0) by {
        lemma_weight_two(layers, i, j, n);
    }
}

/// Applying fuel to layers that weigh less than three leaves them reduced.
pub proof fn lemma_apply_fuel_light(layers: Layers, upper: Seq<u64>, fuel: nat, since: Seq<u64>)
    requires
        inv(layers, upper),
        since.len() <= 1,
        weight_below(layers, layers.len() as int) < 3,
    ensures
        reduced(apply_fuel(layers, fuel, since)),
{
    let r = apply_fuel(layers, fuel, since);
    crate::fueling::lemma_apply_fuel(layers, upper, fuel, since);
    lemma_pass_weight(layers, upper, fuel, 0, layers.len() as int, since);
    assert forall|k: int| 0 <= k < r.len() implies !(#[trigger] r[k]).is_complete() by {
        assert(fueled(r, k, fuel));
    }
    lemma_light_reduced(r);
}

/// Taking out a layer under the top that holds no batch with content
/// lowers the rank.
pub proof fn lemma_tidy_remove_rank(layers: Layers, upper: Seq<u64>, level: nat)
    requires
        inv(layers, upper),
        tidy_ready(layers, level),
        layers[layers.len() - 2].span() is None,
        !layers[layers.len() - 2].is_double(),
    ensures
        rank(layers.remove(layers.len() - 2)).lt(rank(layers)),
{
    let n = layers.len() as int;
    let top = layers[n - 1];
    let below = layers[n - 2];
    let rm = layers.remove(n - 2);
    assert(rm.len() == n - 1);
    assert(rm[n - 2] == top);
    assert(rm.last() == top);
    assert forall|j: int| 0 <= j < n - 2 implies #[trigger] rm[j] == layers[j] by {}
    lemma_sums_same(rm, layers, n - 2);
    crate::wellformed::lemma_accounted_same(rm, layers, n - 2);
    assert(weight(below) == 0);
    assert(weight_below(layers, n - 1) == weight_below(layers, n - 2));
    assert(weight_below(rm, n - 1) == weight_below(layers, n));
    assert(idle_below(rm, n - 1) == idle_below(rm, n - 2) + if idle(top) && weight_below(
        rm,
        n - 2,
    ) > 0 {
        1nat
    } else {
        0nat
    });
    assert(idle_below(layers, n) == idle_below(layers, n - 1) + if idle(top) && weight_below(
        layers,
        n - 1,
    ) > 0 {
        1nat
    } else {
        0nat
    });
    assert(idle_below(layers, n - 1) >= idle_below(layers, n - 2));
    assert(idle_below(rm, n - 1) <= idle_below(layers, n));
    assert(work_below(rm, n - 1) == work_below(rm, n - 2) + pending(top));
    assert(work_below(layers, n) == work_below(layers, n - 1) + pending(top));
    assert(work_below(layers, n - 1) == work_below(layers, n - 2) + pending(below));
    assert(work_below(rm, n - 1) == work_below(layers, n));
    lemma_room(rm);
    lemma_room(layers);
    lemma_pow2_double((n - 2) as nat);
    lemma_pow2_double((n - 1) as nat);
    let q = pow2((n - 2) as nat);
    assert(accounted(rm, n - 1) == accounted(layers, n - 2) + top.occupancy() * q);
    assert(accounted(layers, n - 1) == accounted(layers, n - 2) + below.occupancy() * q);
    assert(accounted(layers, n) == accounted(layers, n - 1) + top.occupancy() * (2 * q));
    assert(top.occupancy() == 1);
    assert(1 * q == q && 1 * (2 * q) == 2 * q);
    let o = below.occupancy();
    assert(o <= 1);
    assert(o * q <= q) by (nonlinear_arith)
        requires
            o <= 1,
            q >= 0,
    ;
    assert(height(rm) == n - 1);
    assert(height(layers) == n);
    assert(pow2((n - 1) as nat) == 2 * q);
    assert(pow2(n as nat) == 4 * q);
    assert(room(rm) < room(layers));
}

/// Drawing the top batch down onto the batch under it lowers the rank.
pub proof fn lemma_tidy_merge_rank(
    layers: Layers,
    upper: Seq<u64>,
    level: nat,
    batch: SpineBatchView,
    since: Seq<u64>,
)
    requires
        inv(layers, upper),
        since.len() <= 1,
        tidy_ready(layers, level),
        layers[layers.len() - 2] == MergeStateView::Single(Some(batch)),
    ensures
        rank(
            insert_at(
                layers.remove(layers.len() - 2),
                Some(batch),
                (layers.len() - 2) as nat,
                since,
            ),
        ).lt(rank(layers)),
{
    let n = layers.len() as int;
    let top = layers[n - 1];
    let rm = layers.remove(n - 2);
    let r = insert_at(rm, Some(batch), (n - 2) as nat, since);
    assert(rm.len() == n - 1);
    assert(rm[n - 2] == top);
    assert(grow(rm, (n - 2) as nat) == rm);
    let x = r[n - 2];
    assert(r =~= rm.update(n - 2, x));
    assert forall|j: int| 0 <= j < n - 2 implies #[trigger] r[j] == layers[j] by {}
    lemma_sums_same(r, layers, n - 2);
    assert(weight_below(layers, n - 1) == weight_below(layers, n - 2) + 2);
    assert(weight_below(layers, n) == weight_below(layers, n - 1) + weight(top));
    assert(weight_below(r, n - 1) == weight_below(layers, n - 2) + weight(x));
    assert(idle_below(layers, n - 1) == idle_below(layers, n - 2));
    assert(idle_below(r, n - 1) == idle_below(layers, n - 2));
}

/// The tidying loop does not raise the rank.
pub proof fn lemma_tidy_from_rank(layers: Layers, upper: Seq<u64>, level: nat, since: Seq<u64>)
    requires
        inv(layers, upper),
        since.len() <= 1,
        layers.len() > 0,
        layers.last().is_single(),
        layers.last().len() <= pow2(level),
    ensures
        rank(tidy_from(layers, level, since)).le(rank(layers)),
    decreases layers.len(),
{
    let n = layers.len() as int;
    if n >= 2 && level < n - 1 {
        match layers[n - 2] {
            MergeStateView::Vacant | MergeStateView::Single(None) => {
                lemma_tidy_remove(layers, upper, level);
                lemma_tidy_remove_rank(layers, upper, level);
                lemma_tidy_from_rank(layers.remove(n - 2), upper, level, since);
            },
            MergeStateView::Single(Some(batch)) => {
                if accounted(layers, n - 2) <= pow2(n as nat) / 8 {
                    lemma_tidy_merge_rank(layers, upper, level, batch, since);
                }
            },
            MergeStateView::Double(_) => {},
        }
    }
}

/// Tidying does not raise the rank.
pub proof fn lemma_tidy_layers_rank(layers: Layers, upper: Seq<u64>, since: Seq<u64>)
    requires
        inv(layers, upper),
        since.len() <= 1,
    ensures
        rank(tidy_layers(layers, since)).le(rank(layers)),
{
    if layers.len() > 0 && layers.last().is_single() {
        lemma_level_of(layers.last().len());
        lemma_tidy_from_rank(layers, upper, level_of(layers.last().len()), since);
    }
}

/// Layers without a pair owe no work.
pub proof fn lemma_no_pairs(layers: Layers, k: int)
    requires
        0 <= k <= layers.len(),
        !any_double(layers),
    ensures
        work_below(layers, k) == 0,
        pairs_below(layers, k) == 0,
    decreases k,
{
    if k > 0 {
        lemma_no_pairs(layers, k - 1);
        assert(!layers[k - 1].is_double());
    }
}

/// Layers without a pair below `n` take no fuel.
pub proof fn lemma_apply_fuel_still(layers: Layers, fuel: nat, i: int, n: int, since: Seq<u64>)
    requires
        0 <= i <= n <= layers.len(),
        forall|k: int| i <= k < n ==> !(#[trigger] layers[k]).is_double(),
    ensures
        apply_fuel_from(layers, fuel, i as nat, n as nat, since) == layers,
    decreases n - i,
{
    if i < n {
        assert(!layers[i].is_double());
        assert(fuel_step(layers, fuel, i as nat, since) =~= layers);
        lemma_apply_fuel_still(layers, fuel, i + 1, n, since);
    }
}

/// What a roll-up has gathered has content exactly where the layers that
/// it has passed have weight.
pub proof fn lemma_chain_kind(
    origin: Layers,
    upper: Seq<u64>,
    layers: Layers,
    merged: Option<SpineBatchView>,
    i: int,
    index: int,
    since: Seq<u64>,
)
    requires
        inv(origin, upper),
        chain_inv(origin, upper, layers, merged, i),
        i <= index <= origin.len(),
        forall|k: int| 0 <= k < index ==> !(#[trigger] origin[k]).is_double(),
        since.len() <= 1,
        (merged is Some) == (weight_below(origin, i) > 0),
    ensures
        (roll_chain(layers, merged, i as nat, index as nat, since).1 is Some) == (weight_below(
            origin,
            index,
        ) > 0),
    decreases index - i,
{
    if i < index {
        lemma_roll_step(origin, upper, layers, merged, i, since);
        let (next, m2) = roll_step(layers, merged, i as nat, since);
        assert(layers[i] == origin[i]);
        assert(grow(layers, i as nat) == layers);
        assert(!origin[i].is_double());
        lemma_chain_kind(origin, upper, next, m2, i + 1, index, since);
    }
}

/// With the layers below `index` vacated, the sums above are less by what
/// those layers had.
pub proof fn lemma_cleared_sums(origin: Layers, layers: Layers, index: int, k: int)
    requires
        0 <= index <= k <= origin.len(),
        layers.len() == origin.len(),
        vacant_below(layers, index),
        forall|j: int| index <= j < layers.len() ==> #[trigger] layers[j] == origin[j],
    ensures
        weight_below(layers, k) + weight_below(origin, index) == weight_below(origin, k),
        accounted(layers, k) + accounted(origin, index) == accounted(origin, k),
    decreases k,
{
    if k == index {
        lemma_weight_vacant(layers, index);
        crate::wellformed::lemma_accounted_vacant(layers, index);
    } else {
        lemma_cleared_sums(origin, layers, index, k - 1);
        assert(layers[k - 1] == origin[k - 1]);
    }
}

/// Vacant layers have no weight.
pub proof fn lemma_weight_vacant(layers: Layers, k: int)
    requires
        0 <= k <= layers.len(),
        vacant_below(layers, k),
    ensures
        weight_below(layers, k) == 0,
        idle_below(layers, k) == 0,
    decreases k,
{
    if k > 0 {
        lemma_weight_vacant(layers, k - 1);
        assert(layers[k - 1].is_vacant());
    }
}

/// What the injection of a batch without content asks of the layers: the
/// invariant, no pair, and two layers that hold updates.
pub open spec fn inject_ready(layers: Layers, upper: Seq<u64>, i: int, j: int) -> bool {
    &&& inv(layers, upper)
    &&& !any_double(layers)
    &&& 0 <= i < j < layers.len()
    &&& layers[i].len() > 0
    &&& layers[j].len() > 0
}

/// A batch without content that enters at `level`, below which all is
/// vacant, takes up room and so lowers the rank.
pub proof fn lemma_inject_plain(
    layers: Layers,
    upper: Seq<u64>,
    level: nat,
    since: Seq<u64>,
    i: int,
    j: int,
)
    requires
        inject_ready(layers, upper, i, j),
        since.len() <= 1,
        vacant_below(grow(layers, level), level as int),
    ensures
        roll_up(layers, level, since) == layers,
        rank(insert_at(layers, None, level, since)).lt(rank(layers)),
{
    let n = layers.len() as int;
    let l = level as int;
    let g = grow(layers, level);
    assert(l <= i) by {
        if i < l {
            assert(g[i].is_vacant());
            assert(g[i] == layers[i]);
        }
    }
    assert(g == layers);
    let r = insert_at(layers, None, level, since);
    let x = r[l];
    assert(!layers[l].is_double());
    assert(r =~= layers.update(l, x));
    lemma_sums_update(layers, l, x, n);
    crate::wellformed::lemma_accounted_update(layers, l, x, n);
    lemma_no_pairs(layers, n);
    lemma_weight_vacant(layers, l);
    lemma_sums_same(r, layers, l);
    assert(weight(x) == weight(layers[l]));
    assert(weight_below(r, l + 1) == weight_below(layers, l + 1));
    assert(idle_below(r, l + 1) == idle_below(layers, l + 1));
    lemma_idle_suffix(r, layers, l + 1, n);
    assert(r.last() == layers.last());
    assert(!layers.last().is_double());
    lemma_room(r);
    lemma_room(layers);
    lemma_pow2_double(level);
    let q = pow2(level);
    assert(x.occupancy() == layers[l].occupancy() + 1);
    assert((layers[l].occupancy() + 1) * q == layers[l].occupancy() * q + q)
        by (nonlinear_arith);
    assert(pending(x) == 0);
}

/// A batch without content that enters at `level`, which is vacant above
/// layers that are not, lowers the rank: what the layers below held moves
/// up into the level and takes up room there, and batches with content
/// that meet on the way merge.
pub proof fn lemma_inject_fill(
    layers: Layers,
    upper: Seq<u64>,
    level: nat,
    since: Seq<u64>,
    i: int,
    j: int,
)
    requires
        inject_ready(layers, upper, i, j),
        since.len() <= 1,
        !vacant_below(grow(layers, level), level as int),
        grow(layers, level)[level as int].is_vacant(),
    ensures
        rank(insert_at(roll_up(layers, level, since), None, level, since)).lt(rank(layers)),
{
    let n = layers.len() as int;
    let l = level as int;
    let g = grow(layers, level);
    let m = g.len() as int;
    crate::wellformed::lemma_inv_grow(layers, upper, level);
    lemma_sums_grow(layers, level, m);
    assert(!any_double(g)) by {
        if any_double(g) {
            let k = choose|k: int| 0 <= k < g.len() && (#[trigger] g[k]).is_double();
            if k < n {
                assert(g[k] == layers[k]);
            } else {
                assert(g[k].is_vacant());
            }
        }
    }
    let (c, merged) = roll_chain(g, None, 0, level, since);
    assert(crate::wellformed::physical_range(g, 0, 0) =~= Seq::empty());
    assert(chain_inv(g, upper, g, None, 0));
    lemma_roll_chain(g, upper, g, None, 0, l, since);
    lemma_chain_kind(g, upper, g, None, 0, l, since);
    lemma_chain_end(g, upper, c, merged, l);
    lemma_cleared_sums(g, c, l, m);
    lemma_cleared_sums(g, c, l, l + 1);
    assert(grow(c, level) == c);
    assert(c[l] == g[l]);
    let placed = insert_at(c, merged, level, since);
    assert(placed =~= c.update(l, MergeStateView::Single(merged)));
    assert(roll_up(layers, level, since) == placed);
    let r = insert_at(placed, None, level, since);
    let x = r[l];
    assert(grow(placed, level) == placed);
    assert(r =~= c.update(l, x));
    assert(weight(x) == if merged is Some {
        2nat
    } else {
        0nat
    });
    assert(x.is_double() && !x.is_in_progress());
    lemma_sums_update(c, l, x, m);
    crate::wellformed::lemma_accounted_update(c, l, x, m);
    lemma_no_pairs(g, m);
    lemma_no_pairs(layers, n);
    // the weight
    let wb = weight_below(g, l);
    assert(weight_below(r, m) + wb == weight_below(g, m) + weight(x));
    if l >= n {
        lemma_sums_same(g, layers, n);
        lemma_weight_two(layers, i, j, n);
        assert(layers[i].is_single() && layers[j].is_single());
        lemma_weight_prefix(g, n, l);
    }
    if weight_below(r, m) == weight_below(layers, n) {
        assert(l < n);
        assert(g == layers);
        // some layer above the level holds updates
        assert(l < n - 1) by {
            if l >= n - 1 {
                lemma_weight_two(layers, i, j, l);
                assert(layers[i].is_single() && layers[j].is_single());
            }
        }
        assert(r.last() == layers.last());
        assert(!layers.last().is_double());
        // idle layers
        lemma_weight_vacant(r, l);
        assert(weight_below(r, l + 1) == weight(x));
        assert(weight_below(g, l + 1) == wb);
        assert(idle_below(r, l + 1) == 0);
        if l + 1 < m {
            assert(r[l + 1] == g[l + 1]);
            assert(weight_below(r, l + 2) == weight(x) + weight(g[l + 1]));
            assert(weight_below(g, l + 2) == wb + weight(g[l + 1]));
            assert(idle_below(r, l + 2) == if idle(g[l + 1]) && weight(x) > 0 {
                1nat
            } else {
                0nat
            });
            assert(idle_below(g, l + 2) == idle_below(g, l + 1) + if idle(g[l + 1]) && wb > 0 {
                1nat
            } else {
                0nat
            });
            lemma_idle_suffix(r, g, l + 2, m);
        }
        // room
        lemma_room(r);
        lemma_room(layers);
        lemma_pow2_double(level);
        crate::wellformed::lemma_accounted_singles(g, l);
        let q = pow2(level);
        assert(x.occupancy() == 2 && c[l].occupancy() == 0);
        assert(2 * q == q + q && 0 * q == 0) by (nonlinear_arith);
        assert(work_below(r, m) == 0) by {
            lemma_sums_update(c, l, x, m);
            lemma_work_cleared(g, c, l, m);
        }
        assert(idle_below(r, m) <= idle_below(layers, n));
        assert(accounted(r, m) > accounted(layers, n));
        assert(height(r) == height(layers));
        assert(room(r) < room(layers));
    } else {
        lemma_weight_min(g, l);
        assert(weight_below(r, m) < weight_below(layers, n));
    }
}

/// Layers that weigh anything weigh at least two.
pub proof fn lemma_weight_min(layers: Layers, k: int)
    requires
        0 <= k,
    ensures
        weight_below(layers, k) > 0 ==> weight_below(layers, k) >= 2,
    decreases k,
{
    if k > 0 {
        lemma_weight_min(layers, k - 1);
    }
}

/// The weight below a layer is no more than the weight below a higher one.
pub proof fn lemma_weight_prefix(layers: Layers, a: int, b: int)
    requires
        0 <= a <= b,
    ensures
        weight_below(layers, a) <= weight_below(layers, b),
    decreases b - a,
{
    if a < b {
        lemma_weight_prefix(layers, a, b - 1);
    }
}

/// With the layers below `index` vacated, layers that held no pair owe no
/// work.
pub proof fn lemma_work_cleared(origin: Layers, layers: Layers, index: int, k: int)
    requires
        0 <= index <= origin.len(),
        0 <= k <= origin.len(),
        layers.len() == origin.len(),
        vacant_below(layers, index),
        forall|j: int| index <= j < layers.len() ==> #[trigger] layers[j] == origin[j],
        !any_double(origin),
    ensures
        work_below(layers, k) == 0,
        pairs_below(layers, k) == 0,
    decreases k,
{
    if k > 0 {
        lemma_work_cleared(origin, layers, index, k - 1);
        if k - 1 < index {
            assert(layers[k - 1].is_vacant());
        } else {
            assert(layers[k - 1] == origin[k - 1]);
            assert(!origin[k - 1].is_double());
        }
    }
}

/// A batch without content that enters at `level`, which holds a batch
/// above layers that are not vacant, lowers the rank: what the layers
/// below held joins the batch of the level, the two move one layer up, and
/// the level is taken again.
pub proof fn lemma_inject_lift(
    layers: Layers,
    upper: Seq<u64>,
    level: nat,
    since: Seq<u64>,
    i: int,
    j: int,
)
    requires
        inject_ready(layers, upper, i, j),
        since.len() <= 1,
        !vacant_below(grow(layers, level), level as int),
        grow(layers, level)[level as int].is_single(),
    ensures
        rank(insert_at(roll_up(layers, level, since), None, level, since)).lt(rank(layers)),
{
    let n = layers.len() as int;
    let l = level as int;
    let g = grow(layers, level);
    assert(l < n) by {
        if l >= n {
            assert(g[l].is_vacant());
        }
    }
    assert(g == layers);
    let (c, merged) = roll_chain(g, None, 0, level, since);
    assert(crate::wellformed::physical_range(g, 0, 0) =~= Seq::empty());
    assert(chain_inv(g, upper, g, None, 0));
    assert forall|k: int| 0 <= k < l implies !(#[trigger] g[k]).is_double() by {}
    lemma_roll_chain(g, upper, g, None, 0, l, since);
    lemma_chain_kind(g, upper, g, None, 0, l, since);
    lemma_chain_end(g, upper, c, merged, l);
    lemma_cleared_sums(g, c, l, n);
    lemma_work_cleared(g, c, l, n);
    assert(grow(c, level) == c);
    assert(c[l] == g[l]);
    assert(!g[l].is_double());
    let placed = insert_at(c, merged, level, since);
    let x0 = placed[l];
    assert(placed =~= c.update(l, x0));
    assert(x0.is_double());
    let cb = x0.completed();
    let cv = c.update(l, MergeStateView::Vacant);
    assert(placed.update(l, MergeStateView::Vacant) =~= cv);
    let g2 = grow(cv, (l + 1) as nat);
    let m2 = g2.len() as int;
    let rolled = insert_at(cv, cb, (l + 1) as nat, since);
    assert(roll_up(layers, level, since) == rolled);
    assert(!g2[l + 1].is_double()) by {
        if l + 1 < n {
            assert(g2[l + 1] == g[l + 1]);
        } else {
            assert(g2[l + 1].is_vacant());
        }
    }
    let x1 = rolled[l + 1];
    assert(rolled =~= g2.update(l + 1, x1));
    let r = insert_at(rolled, None, level, since);
    assert(grow(rolled, level) == rolled);
    assert(rolled[l].is_vacant());
    let a1 = g2.update(l + 1, x1);
    assert(r =~= a1.update(l, MergeStateView::Single(None)));
    // the sums, step by step
    lemma_sums_update(c, l, MergeStateView::Vacant, n);
    crate::wellformed::lemma_accounted_update(c, l, MergeStateView::Vacant, n);
    lemma_sums_grow(cv, (l + 1) as nat, m2);
    lemma_sums_update(g2, l + 1, x1, m2);
    crate::wellformed::lemma_accounted_update(g2, l + 1, x1, m2);
    lemma_sums_update(a1, l, MergeStateView::Single(None), m2);
    crate::wellformed::lemma_accounted_update(a1, l, MergeStateView::Single(None), m2);
    lemma_no_pairs(layers, n);
    let wb = weight_below(g, l);
    let w0 = weight(g[l]);
    let w1 = weight(g2[l + 1]);
    lemma_weight_min(g, l);
    assert(weight_below(r, m2) + wb + w0 + w1 == weight_below(g, n) + weight(x1));
    assert((cb is Some) == (wb + w0 > 0));
    assert(weight(x1) <= wb + w0 + w1);
    assert(layers[i].is_single() && layers[j].is_single());
    if weight_below(r, m2) == weight_below(layers, n) {
        // some layer above the next one holds updates
        assert(l + 1 < n - 1) by {
            if l + 1 >= n - 1 {
                if j <= l {
                    lemma_weight_two(layers, i, j, l + 1);
                    assert(weight_below(g, l + 1) == wb + w0);
                } else {
                    assert(j == l + 1);
                    assert(w1 == 2);
                    lemma_weight_one(layers, i, l + 1);
                    assert(weight_below(g, l + 1) == wb + w0);
                }
            }
        }
        assert(m2 == n);
        assert(g2 == cv);
        assert(r.last() == layers.last());
        assert(!layers.last().is_double());
        assert(!x1.is_in_progress());
        // idle layers
        lemma_weight_vacant(r, l);
        assert(weight_below(r, l + 1) == 0);
        assert(idle_below(r, l + 1) == 0);
        assert(weight_below(r, l + 2) == weight(x1));
        assert(idle_below(r, l + 2) == 0);
        assert(weight_below(g, l + 1) == wb + w0);
        assert(weight_below(g, l + 2) == wb + w0 + w1);
        assert forall|k: int| l + 2 <= k < n implies #[trigger] r[k] == g[k] by {}
        lemma_idle_suffix(r, g, l + 2, n);
        assert(idle_below(r, n) <= idle_below(layers, n));
        // work
        assert(work_below(r, n) == 0);
        // room
        lemma_room(r);
        lemma_room(layers);
        lemma_pow2_double(level);
        crate::wellformed::lemma_accounted_singles(g, l);
        let q = pow2(level);
        let o1 = g2[l + 1].occupancy();
        assert(x1.occupancy() == o1 + 1);
        assert((o1 + 1) * (2 * q) == o1 * (2 * q) + 2 * q) by (nonlinear_arith);
        assert(1 * q == q && 0 * q == 0) by (nonlinear_arith);
        assert(g[l].occupancy() == 1);
        assert(accounted(r, n) > accounted(layers, n));
        assert(room(r) < room(layers));
    } else {
        assert(weight_below(r, m2) < weight_below(layers, n));
    }
}

/// The injection of a batch without content into layers that hold no pair
/// and are not reduced lowers the rank.
pub proof fn lemma_inject_rank(
    layers: Layers,
    upper: Seq<u64>,
    level: nat,
    fuel: nat,
    since: Seq<u64>,
)
    requires
        inv(layers, upper),
        since.len() <= 1,
        !any_double(layers),
        !reduced(layers),
    ensures
        apply_fuel(layers, fuel, since) == layers,
        rank(insert_at(roll_up(layers, level, since), None, level, since)).lt(rank(layers)),
{
    lemma_apply_fuel_still(layers, fuel, 0, layers.len() as int, since);
    let (i, j) = choose|i: int, j: int|
        0 <= i < j < layers.len() && (#[trigger] layers[i]).len() > 0 && (
        #[trigger] layers[j]).len() > 0;
    assert(inject_ready(layers, upper, i, j));
    let g = grow(layers, level);
    crate::wellformed::lemma_inv_grow(layers, upper, level);
    if vacant_below(g, level as int) {
        lemma_inject_plain(layers, upper, level, since, i, j);
    } else if g[level as int].is_vacant() {
        lemma_inject_fill(layers, upper, level, since, i, j);
    } else {
        assert(!g[level as int].is_double()) by {
            if level < layers.len() {
                assert(g[level as int] == layers[level as int]);
            }
        }
        lemma_inject_lift(layers, upper, level, since, i, j);
    }
}

} // verus!

//! What holds of every spine: the laws that the operations keep.
use crate::frontier::{frontier_le, join_spec, lemma_join_upper_bound};
use crate::fueling::{lemma_apply_fuel, lemma_fuel_step, pass_inv};
use crate::model::{
    accounted, any_double, apply_fuel, apply_fuel_from, begin_merge_spec, first_occupied, fuel_for,
    fuel_step, insert_at, introduce_batch, level_of, merged_since, reduced, roll_up, sum_len,
    tidy_layers, FuelingMergeView, HollowBatchView, Layers, MergeStateView, MergeVariantView,
    SpineBatchView, SpineView,
};
use crate::presence::{
    has_batch, lemma_apply_fuel_keeps, lemma_has_batch, lemma_insert_at_holds,
    lemma_tidy_layers_keeps,
};
use crate::progress::{
    lemma_apply_fuel_light, lemma_apply_fuel_rank, lemma_inject_rank, lemma_tidy_layers_rank, rank,
    weight_below,
};
use crate::rolling::{lemma_len_below, lemma_place};
use crate::tidying::{lemma_first_occupied, lemma_fuse, lemma_level_of, lemma_tidy_layers};
use crate::wellformed::{
    all_batches, batches_range, initial_frontier, inv, is_chain, layer_ok, layer_shape,
    lemma_batch_len, lemma_sum_len_concat, linked, physical, physical_range, reach,
};
use vstd::arithmetic::power2::pow2;
use vstd::prelude::*;

verus! {

/// The parts of a run of composite batches, in order.
pub open spec fn parts_of_all(bs: Seq<SpineBatchView>) -> Seq<HollowBatchView>
    decreases bs.len(),
{
    if bs.len() == 0 {
        Seq::empty()
    } else {
        parts_of_all(bs.drop_last()) + bs.last().parts()
    }
}

/// The fuel that an insertion at `level` brings is enough for the debt of
/// the insertion, or all that the machine can count.
pub proof fn lemma_fuel_enough(level: nat, effort: nat)
    requires
        effort >= 1,
    ensures
        fuel_for(level, effort, usize::MAX as nat) >= 8 * pow2(level) || fuel_for(
            level,
            effort,
            usize::MAX as nat,
        ) >= usize::MAX,
{
    let p = pow2(level);
    assert(8 * p * effort >= 8 * p) by (nonlinear_arith)
        requires
            effort >= 1,
            p >= 0,
    ;
}

/// An insertion of a batch that starts at the spine's upper frontier keeps
/// the spine well formed, moves its upper frontier to the batch's, leaves
/// its since frontier alone, and appends the batch's physical batches to
/// those that the spine reaches: nothing is lost and nothing invented.
pub proof fn lemma_insert(s: SpineView, batch: SpineBatchView)
    requires
        s.wf(),
        batch.wf(),
        batch.lower() == s.upper,
        s.len() + batch.len() <= usize::MAX,
    ensures
        s.insert(batch).wf(),
        s.insert(batch).upper == batch.upper(),
        s.insert(batch).since == s.since,
        s.insert(batch).effort == s.effort,
        s.insert(batch).physical() == s.physical() + batch.parts(),
        s.insert(batch).len() == s.len() + batch.len(),
        all_batches(s.insert(batch).merging).len() > 0,
        all_batches(s.insert(batch).merging)[0].lower() == initial_frontier(),
{
    lemma_batch_len(batch);
    lemma_sum_len_concat(s.physical(), batch.parts());
    if s.fuses(batch) {
        lemma_first_occupied(s.merging, 0);
        let p = first_occupied(s.merging, 0)->0;
        assert(crate::model::vacant_below(s.merging, p as int));
        lemma_fuse(s.merging, s.upper, batch, p as int, s.since);
        let r = s.insert(batch).merging;
        assert(r[p as int].batches().len() > 0);
        assert(has_batch(r));
    } else {
        let level = level_of(batch.len());
        let fuel = fuel_for(level, s.effort, usize::MAX as nat);
        lemma_level_of(batch.len());
        lemma_fuel_enough(level, s.effort);
        lemma_place(s.merging, s.upper, Some(batch), level, fuel, s.since);
        let placed = insert_at(
            roll_up(apply_fuel(s.merging, fuel, s.since), level, s.since),
            Some(batch),
            level,
            s.since,
        );
        lemma_tidy_layers(placed, batch.upper(), s.since);
        lemma_insert_at_holds(
            roll_up(apply_fuel(s.merging, fuel, s.since), level, s.since),
            batch,
            level,
            s.since,
        );
        lemma_tidy_layers_keeps(placed, batch.upper(), s.since);
    }
    lemma_has_batch(s.insert(batch).merging);
    lemma_contiguity(s.insert(batch));
}

/// An exertion keeps the spine well formed and changes neither its
/// frontiers nor the physical batches that it reaches.
pub proof fn lemma_exert(s: SpineView, effort: nat)
    requires
        s.wf(),
    ensures
        s.exert(effort).wf(),
        s.exert(effort).upper == s.upper,
        s.exert(effort).since == s.since,
        s.exert(effort).effort == s.effort,
        s.exert(effort).physical() == s.physical(),
        all_batches(s.merging).len() > 0 ==> all_batches(s.exert(effort).merging).len() > 0,
{
    let tidied = tidy_layers(s.merging, s.since);
    lemma_tidy_layers(s.merging, s.upper, s.since);
    lemma_has_batch(s.merging);
    lemma_has_batch(s.exert(effort).merging);
    if has_batch(s.merging) {
        lemma_tidy_layers_keeps(s.merging, s.upper, s.since);
    }
    if reduced(tidied) {
    } else if any_double(tidied) {
        lemma_apply_fuel(tidied, s.upper, effort, s.since);
        if has_batch(tidied) {
            lemma_apply_fuel_keeps(tidied, s.upper, effort, s.since);
        }
    } else {
        let (i, j) = choose|i: int, j: int|
            0 <= i < j < tidied.len() && (#[trigger] tidied[i]).len() > 0 && (
            #[trigger] tidied[j]).len() > 0;
        crate::wellformed::lemma_layer_len_le_total(tidied, i);
        assert(physical(tidied).len() > 0);
        let level = level_of(effort);
        let fuel = fuel_for(level, s.effort, usize::MAX as nat);
        lemma_fuel_enough(level, s.effort);
        lemma_place(tidied, s.upper, None, level, fuel, s.since);
        let placed = insert_at(
            roll_up(apply_fuel(tidied, fuel, s.since), level, s.since),
            None,
            level,
            s.since,
        );
        assert(physical(placed) =~= physical(tidied));
        lemma_tidy_layers(placed, s.upper, s.since);
        lemma_reader_sees_physical(s.exert(effort));
    }
}

/// Below a layer that holds a pair, the layers account for fewer updates
/// than the layer's capacity, and they hold no more than they account for:
/// the layers below cannot hand it a third batch before its merge is done.
pub proof fn lemma_anti_invasion(s: SpineView, k: int)
    requires
        s.wf(),
        0 <= k < s.merging.len(),
        s.merging[k].is_double(),
    ensures
        accounted(s.merging, k) < pow2(k as nat),
        sum_len(physical_range(s.merging, 0, k)) <= accounted(s.merging, k),
{
    assert(layer_ok(s.merging, k));
    assert forall|j: int| 0 <= j < k implies layer_shape(#[trigger] s.merging[j], j) by {
        assert(layer_ok(s.merging, j));
    }
    lemma_len_below(s.merging, k);
}

/// Whether no pair can be invaded: below every layer that holds a pair, the
/// layers account for, and so hold, fewer updates than the layer's
/// capacity.
pub open spec fn anti_invasion(layers: Layers) -> bool {
    forall|k: int|
        0 <= k < layers.len() && (#[trigger] layers[k]).is_double() ==> accounted(layers, k)
            < pow2(k as nat) && sum_len(physical_range(layers, 0, k)) <= accounted(layers, k)
}

/// No pair of a well-formed spine can be invaded.
pub proof fn lemma_wf_anti_invasion(s: SpineView)
    requires
        s.wf(),
    ensures
        anti_invasion(s.merging),
{
    assert forall|k: int| 0 <= k < s.merging.len() && (#[trigger] s.merging[k]).is_double() implies
        accounted(s.merging, k) < pow2(k as nat) && sum_len(physical_range(s.merging, 0, k))
        <= accounted(s.merging, k) by {
        lemma_anti_invasion(s, k);
    }
}

/// A chain that ends where a batch starts is a chain with that batch.
pub proof fn lemma_chain_push(
    bs: Seq<SpineBatchView>,
    lo: Seq<u64>,
    mid: Seq<u64>,
    b: SpineBatchView,
)
    requires
        is_chain(bs, lo, mid),
        b.lower() == mid,
    ensures
        is_chain(bs.push(b), lo, b.upper()),
{
    let r = bs.push(b);
    assert(r.last() == b);
    if bs.len() > 0 {
        assert(r[0] == bs[0]);
        assert forall|i: int| 0 <= i < r.len() - 1 implies (#[trigger] r[i]).upper() == r[i
            + 1].lower() by {
            if i < bs.len() - 1 {
                assert(r[i] == bs[i]);
                assert(r[i + 1] == bs[i + 1]);
            } else {
                assert(r[i] == bs.last());
            }
        }
    }
}

/// The batches of the layers at and above `k` form a chain from the first
/// time to where those layers reach.
pub proof fn lemma_batches_chain(layers: Layers, k: int)
    requires
        0 <= k,
        linked(layers, k),
        forall|j: int| 0 <= j < layers.len() ==> layer_shape(#[trigger] layers[j], j),
    ensures
        is_chain(batches_range(layers, k, layers.len() as int), initial_frontier(), reach(layers, k)),
    decreases layers.len() - k,
{
    let n = layers.len() as int;
    if k < n {
        lemma_batches_chain(layers, k + 1);
        let above = batches_range(layers, k + 1, n);
        assert(layer_shape(layers[k], k));
        match layers[k] {
            MergeStateView::Single(Some(b)) => {
                lemma_chain_push(above, initial_frontier(), reach(layers, k + 1), b);
                assert(above + seq![b] =~= above.push(b));
            },
            MergeStateView::Double(MergeVariantView::InProgress(b1, b2, _)) => {
                lemma_chain_push(above, initial_frontier(), reach(layers, k + 1), b1);
                lemma_chain_push(above.push(b1), initial_frontier(), b1.upper(), b2);
                assert(above + seq![b1, b2] =~= above.push(b1).push(b2));
            },
            MergeStateView::Double(MergeVariantView::Complete(Some((b, _)))) => {
                lemma_chain_push(above, initial_frontier(), reach(layers, k + 1), b);
                assert(above + seq![b] =~= above.push(b));
            },
            _ => {
                assert(above + Seq::<SpineBatchView>::empty() =~= above);
            },
        }
    }
}

/// The batches that a reader of a well-formed spine finds form a chain
/// from the first time to the spine's upper frontier: each starts where
/// the one before it ends.
pub proof fn lemma_contiguity(s: SpineView)
    requires
        s.wf(),
    ensures
        is_chain(all_batches(s.merging), initial_frontier(), s.upper),
{
    assert forall|j: int| 0 <= j < s.merging.len() implies layer_shape(
        #[trigger] s.merging[j],
        j,
    ) by {
        assert(layer_ok(s.merging, j));
    }
    lemma_batches_chain(s.merging, 0);
}

/// The parts of two runs of batches are the parts of the one run after
/// those of the other.
pub proof fn lemma_parts_of_all_concat(a: Seq<SpineBatchView>, b: Seq<SpineBatchView>)
    ensures
        parts_of_all(a + b) == parts_of_all(a) + parts_of_all(b),
    decreases b.len(),
{
    if b.len() == 0 {
        assert(a + b =~= a);
        assert(parts_of_all(a) + parts_of_all(b) =~= parts_of_all(a));
    } else {
        lemma_parts_of_all_concat(a, b.drop_last());
        assert((a + b).drop_last() =~= a + b.drop_last());
        assert((a + b).last() == b.last());
        assert(parts_of_all(a + b) =~= parts_of_all(a) + parts_of_all(b));
    }
}

/// The parts of the batches of layers `lo..hi` are the physical batches of
/// those layers.
pub proof fn lemma_parts_of_range(layers: Layers, lo: int, hi: int)
    ensures
        parts_of_all(batches_range(layers, lo, hi)) == physical_range(layers, lo, hi),
    decreases hi - lo,
{
    if lo < hi {
        lemma_parts_of_range(layers, lo + 1, hi);
        lemma_parts_of_all_concat(batches_range(layers, lo + 1, hi), layers[lo].batches());
        let bs = layers[lo].batches();
        assert(parts_of_all(bs) =~= layers[lo].parts()) by {
            if bs.len() == 1 {
                assert(bs.drop_last() =~= Seq::<SpineBatchView>::empty());
                assert(parts_of_all(bs.drop_last()) =~= Seq::<HollowBatchView>::empty());
            } else if bs.len() == 2 {
                assert(bs.drop_last().drop_last() =~= Seq::<SpineBatchView>::empty());
                assert(parts_of_all(bs.drop_last().drop_last()) =~= Seq::<
                    HollowBatchView,
                >::empty());
                assert(parts_of_all(bs.drop_last()) =~= bs[0].parts());
            }
        }
    }
}

/// The declared lengths of a run of composite batches together.
pub open spec fn lengths_of_all(bs: Seq<SpineBatchView>) -> nat
    decreases bs.len(),
{
    if bs.len() == 0 {
        0
    } else {
        lengths_of_all(bs.drop_last()) + bs.last().len()
    }
}

/// Composite batches are together as long as their parts together.
pub proof fn lemma_lengths_of_all(bs: Seq<SpineBatchView>)
    ensures
        lengths_of_all(bs) == sum_len(parts_of_all(bs)),
    decreases bs.len(),
{
    if bs.len() > 0 {
        lemma_lengths_of_all(bs.drop_last());
        lemma_batch_len(bs.last());
        lemma_sum_len_concat(parts_of_all(bs.drop_last()), bs.last().parts());
    }
}

/// The physical batches that a reader finds through the composite batches
/// are those that the spine reaches, in order.
pub proof fn lemma_reader_sees_physical(s: SpineView)
    ensures
        parts_of_all(all_batches(s.merging)) == s.physical(),
        lengths_of_all(all_batches(s.merging)) == s.len(),
{
    lemma_parts_of_range(s.merging, 0, s.merging.len() as int);
    lemma_lengths_of_all(all_batches(s.merging));
}

/// Work on a merge that is complete changes nothing and takes no fuel, and
/// the batch that a merge hands out does not depend on the work recorded:
/// completing twice, or taking out a merge that was complete already, gives
/// the same batch.
pub proof fn lemma_completion_idempotent(m: FuelingMergeView, fuel: nat, more: nat)
    ensures
        m.is_complete() ==> m.work(fuel) == m && m.spend(fuel) == 0,
        m.work(fuel).done() == m.done(),
        m.work(fuel).progress <= if m.progress >= m.total() {
            m.progress
        } else {
            m.total()
        },
        m.work(fuel).is_complete() ==> m.work(fuel).work(more) == m.work(fuel),
        MergeVariantView::InProgress(m.b1, m.b2, m).work(fuel).complete()
            == MergeVariantView::InProgress(m.b1, m.b2, m).complete(),
{
}

/// The since frontier of a merge is at or after the since frontiers of
/// both batches, and at or after the compaction frontier where one is
/// given: compaction never moves back.
pub proof fn lemma_since_advances(
    b1: SpineBatchView,
    b2: SpineBatchView,
    compaction_frontier: Option<Seq<u64>>,
)
    requires
        b1.wf(),
        b2.wf(),
        compaction_frontier matches Some(f) ==> f.len() <= 1,
    ensures
        frontier_le(b1.desc().since, merged_since(b1, b2, compaction_frontier)),
        frontier_le(b2.desc().since, merged_since(b1, b2, compaction_frontier)),
        compaction_frontier matches Some(f) ==> frontier_le(
            f,
            merged_since(b1, b2, compaction_frontier),
        ),
        merged_since(b1, b2, compaction_frontier).len() <= 1,
        begin_merge_spec(b1, b2, compaction_frontier).done().desc().since == merged_since(
            b1,
            b2,
            compaction_frontier,
        ),
{
    let s1 = b1.desc().since;
    let s2 = b2.desc().since;
    let j = join_spec(s1, s2);
    lemma_join_upper_bound(s1, s2);
    match compaction_frontier {
        Some(f) => {
            lemma_join_upper_bound(j, f);
            let r = join_spec(j, f);
            assert forall|k: int| 0 <= k < r.len() implies exists|i: int|
                0 <= i < s1.len() && s1[i] <= #[trigger] r[k] by {
                assert(0 <= 0 < s1.len() && s1[0] <= r[k]);
            }
            assert forall|k: int| 0 <= k < r.len() implies exists|i: int|
                0 <= i < s2.len() && s2[i] <= #[trigger] r[k] by {
                assert(0 <= 0 < s2.len() && s2[0] <= r[k]);
            }
        },
        None => {},
    }
}

/// With fuel at least the largest count of the machine, one layer's share
/// of a pass does not depend on the amount: every merge has less work
/// left than that.
pub proof fn lemma_fuel_step_capped(
    layers: Layers,
    upper: Seq<u64>,
    f1: nat,
    f2: nat,
    i: int,
    since: Seq<u64>,
)
    requires
        inv(layers, upper),
        0 <= i < layers.len(),
        f1 >= usize::MAX,
        f2 >= usize::MAX,
    ensures
        fuel_step(layers, f1, i as nat, since) == fuel_step(layers, f2, i as nat, since),
{
    assert(layer_ok(layers, i));
    crate::wellformed::lemma_layer_len_le_total(layers, i);
}

/// With fuel at least the largest count of the machine, a pass does not
/// depend on the amount.
pub proof fn lemma_apply_fuel_from_capped(
    layers: Layers,
    upper: Seq<u64>,
    f1: nat,
    f2: nat,
    i: int,
    n: int,
    since: Seq<u64>,
)
    requires
        pass_inv(layers, upper, f1, i, n),
        since.len() <= 1,
        f1 >= usize::MAX,
        f2 >= usize::MAX,
    ensures
        apply_fuel_from(layers, f1, i as nat, n as nat, since) == apply_fuel_from(
            layers,
            f2,
            i as nat,
            n as nat,
            since,
        ),
    decreases n - i,
{
    if i < n {
        lemma_fuel_step_capped(layers, upper, f1, f2, i, since);
        lemma_fuel_step(layers, upper, f1, i, n, since);
        lemma_apply_fuel_from_capped(
            fuel_step(layers, f1, i as nat, since),
            upper,
            f1,
            f2,
            i + 1,
            n,
            since,
        );
    }
}

/// The fuel of an insertion at `level` is `8 * 2^level * effort`: where the
/// machine cannot count that far, the largest count that it has does the
/// same to every merge.
pub proof fn lemma_fuel_cap(
    layers: Layers,
    upper: Seq<u64>,
    level: nat,
    effort: nat,
    since: Seq<u64>,
)
    requires
        inv(layers, upper),
        since.len() <= 1,
    ensures
        apply_fuel(layers, fuel_for(level, effort, usize::MAX as nat), since) == apply_fuel(
            layers,
            8 * pow2(level) * effort,
            since,
        ),
{
    let full = 8 * pow2(level) * effort;
    let capped = fuel_for(level, effort, usize::MAX as nat);
    if full > usize::MAX {
        lemma_apply_fuel_from_capped(
            layers,
            upper,
            capped,
            full,
            0,
            layers.len() as int,
            since,
        );
    }
}

/// An insertion at `level` does with its capped fuel what it would do with
/// `8 * 2^level * effort` units.
pub proof fn lemma_introduce_fuel(
    layers: Layers,
    upper: Seq<u64>,
    batch: Option<SpineBatchView>,
    level: nat,
    effort: nat,
    since: Seq<u64>,
)
    requires
        inv(layers, upper),
        since.len() <= 1,
    ensures
        introduce_batch(
            layers,
            batch,
            level,
            fuel_for(level, effort, usize::MAX as nat),
            since,
        ) == introduce_batch(layers, batch, level, 8 * pow2(level) * effort, since),
{
    lemma_fuel_cap(layers, upper, level, effort, since);
}

/// One operation on a spine.
pub enum Step {
    /// The insertion of a batch.
    Insert(SpineBatchView),
    /// An exertion of some effort.
    Exert(nat),
    /// Fuel for the merges in progress.
    Fuel(nat),
}

impl SpineView {
    /// The spine without batches.
    pub open spec fn fresh() -> SpineView {
        SpineView { effort: 1, since: seq![0u64], upper: seq![0u64], merging: Seq::empty() }
    }

    /// Whether the spine takes the operation: a batch has to be valid,
    /// start at the upper frontier, cover some time, and fit in length.
    pub open spec fn allows(self, step: Step) -> bool {
        match step {
            Step::Insert(batch) => {
                &&& batch.wf()
                &&& batch.lower() == self.upper
                &&& batch.lower() != batch.upper()
                &&& self.len() + batch.len() <= usize::MAX
            },
            _ => true,
        }
    }

    /// The spine after the operation.
    pub open spec fn step(self, step: Step) -> SpineView {
        match step {
            Step::Insert(batch) => self.insert(batch),
            Step::Exert(effort) => self.exert(effort),
            Step::Fuel(fuel) => SpineView {
                merging: apply_fuel(self.merging, fuel, self.since),
                ..self
            },
        }
    }

    /// The spine after a run of operations.
    pub open spec fn run(self, steps: Seq<Step>) -> SpineView
        decreases steps.len(),
    {
        if steps.len() == 0 {
            self
        } else {
            self.run(steps.drop_last()).step(steps.last())
        }
    }

    /// Whether the spine takes each operation of a run in its turn.
    pub open spec fn allows_all(self, steps: Seq<Step>) -> bool
        decreases steps.len(),
    {
        if steps.len() == 0 {
            true
        } else {
            self.allows_all(steps.drop_last()) && self.run(steps.drop_last()).allows(steps.last())
        }
    }
}

/// The number of insertions in a run of operations.
pub open spec fn insertions(steps: Seq<Step>) -> nat
    decreases steps.len(),
{
    if steps.len() == 0 {
        0
    } else {
        insertions(steps.drop_last()) + if steps.last() is Insert {
            1nat
        } else {
            0nat
        }
    }
}

/// The physical batches that a run of operations inserts, in order.
pub open spec fn inserted(steps: Seq<Step>) -> Seq<HollowBatchView>
    decreases steps.len(),
{
    if steps.len() == 0 {
        Seq::empty()
    } else {
        match steps.last() {
            Step::Insert(batch) => inserted(steps.drop_last()) + batch.parts(),
            _ => inserted(steps.drop_last()),
        }
    }
}

/// After any run of operations that a fresh spine takes, the spine is well
/// formed; its batches form a chain from the first time to its upper
/// frontier, which after an insertion holds a batch; and the physical
/// batches that a reader finds are exactly those that were inserted, in
/// order, so that their lengths sum to what was inserted.
pub proof fn lemma_history(steps: Seq<Step>)
    requires
        SpineView::fresh().allows_all(steps),
    ensures
        SpineView::fresh().run(steps).wf(),
        SpineView::fresh().run(steps).since == seq![0u64],
        SpineView::fresh().run(steps).physical() == inserted(steps),
        parts_of_all(all_batches(SpineView::fresh().run(steps).merging)) == inserted(steps),
        is_chain(
            all_batches(SpineView::fresh().run(steps).merging),
            initial_frontier(),
            SpineView::fresh().run(steps).upper,
        ),
        SpineView::fresh().run(steps).len() == sum_len(inserted(steps)),
        lengths_of_all(all_batches(SpineView::fresh().run(steps).merging)) == sum_len(
            inserted(steps),
        ),
        insertions(steps) > 0 ==> all_batches(SpineView::fresh().run(steps).merging).len() > 0
            && all_batches(SpineView::fresh().run(steps).merging)[0].lower()
            == initial_frontier(),
    decreases steps.len(),
{
    let fresh = SpineView::fresh();
    if steps.len() == 0 {
        let e: Layers = Seq::empty();
        assert(physical_range(e, 0, 0) =~= Seq::<HollowBatchView>::empty());
    } else {
        lemma_history(steps.drop_last());
        let before = fresh.run(steps.drop_last());
        match steps.last() {
            Step::Insert(batch) => lemma_insert(before, batch),
            Step::Exert(effort) => lemma_exert(before, effort),
            Step::Fuel(fuel) => {
                lemma_apply_fuel(before.merging, before.upper, fuel, before.since);
                lemma_has_batch(before.merging);
                lemma_has_batch(fresh.run(steps).merging);
                if has_batch(before.merging) {
                    lemma_apply_fuel_keeps(before.merging, before.upper, fuel, before.since);
                }
            },
        }
    }
    lemma_contiguity(fresh.run(steps));
    lemma_reader_sees_physical(fresh.run(steps));
}

impl SpineView {
    /// The spine after `calls` exertions of the same effort.
    pub open spec fn exert_times(self, effort: nat, calls: nat) -> SpineView
        decreases calls,
    {
        if calls == 0 {
            self
        } else {
            self.exert(effort).exert_times(effort, (calls - 1) as nat)
        }
    }
}

/// An exertion of some effort leaves the spine reduced, or lowers the rank
/// of its layers: merges take their fuel and complete, complete merges
/// move up, and where nothing merges, a batch without content takes up
/// room below the batches with content until they meet.
pub proof fn lemma_exert_rank(s: SpineView, effort: nat)
    requires
        s.wf(),
        effort >= 1,
    ensures
        reduced(s.exert(effort).merging) || rank(s.exert(effort).merging).lt(rank(s.merging)),
{
    let tidied = tidy_layers(s.merging, s.since);
    lemma_tidy_layers(s.merging, s.upper, s.since);
    lemma_tidy_layers_rank(s.merging, s.upper, s.since);
    if reduced(tidied) {
    } else if any_double(tidied) {
        if weight_below(tidied, tidied.len() as int) >= 3 {
            lemma_apply_fuel_rank(tidied, s.upper, effort, s.since);
        } else {
            lemma_apply_fuel_light(tidied, s.upper, effort, s.since);
        }
    } else {
        let level = level_of(effort);
        let fuel = fuel_for(level, s.effort, usize::MAX as nat);
        lemma_fuel_enough(level, s.effort);
        lemma_inject_rank(tidied, s.upper, level, fuel, s.since);
        lemma_place(tidied, s.upper, None, level, fuel, s.since);
        let placed = insert_at(roll_up(tidied, level, s.since), None, level, s.since);
        lemma_tidy_layers_rank(placed, s.upper, s.since);
    }
}

/// Repeated exertion of some effort, without insertions in between, leaves
/// the spine reduced after finitely many calls: the number that this proof
/// hands out.
pub proof fn lemma_exert_reduces(s: SpineView, effort: nat) -> (calls: nat)
    requires
        s.wf(),
        effort >= 1,
    ensures
        calls >= 1,
        reduced(s.exert_times(effort, calls).merging),
    decreases
            rank(s.merging).weight,
            rank(s.merging).idle,
            rank(s.merging).work,
            rank(s.merging).room,
            rank(s.merging).pairs,
{
    let next = s.exert(effort);
    lemma_exert(s, effort);
    lemma_exert_rank(s, effort);
    if reduced(next.merging) {
        assert(next.exert_times(effort, 0) == next);
        1
    } else {
        let more = lemma_exert_reduces(next, effort);
        more + 1
    }
}

/// No layer holds more than two batches.
pub proof fn lemma_capacity(layers: Layers, k: int)
    requires
        0 <= k < layers.len(),
    ensures
        layers[k].batches().len() <= 2,
        layers[k].occupancy() <= 2,
{
}

} // verus!

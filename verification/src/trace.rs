//! The spine: an append-only collection of batches, kept in layers that
//! merge a bounded amount at a time.
use crate::batch::{option_view, SpineBatch};
use crate::frontier::Frontier;
use crate::fueling::{
    lemma_apply_fuel, lemma_fuel_step, lemma_fueled_for_level, lemma_insert_at_record,
    lemma_push_up, lemma_work, pass_inv,
};
use crate::laws::{
    anti_invasion, lengths_of_all, lemma_contiguity, lemma_wf_anti_invasion, Step, lemma_exert, lemma_exert_rank, lemma_insert, lemma_reader_sees_physical,
    parts_of_all,
};
use crate::layer::{MergeState, MergeVariant};
use crate::levels::{fuel_units, level_for};
use crate::model::{
    accounted, any_double, apply_fuel, apply_fuel_from, first_occupied, fuel_for, fuel_step, grow,
    insert_at, introduce_batch, reduced, roll_chain, roll_up, sum_len, tidy_from, tidy_layers,
    vacant_below, Layers, MergeStateView, SpineBatchView, SpineView,
};
use crate::presence::{has_batch, lemma_apply_fuel_keeps, lemma_has_batch};
use crate::progress::rank;
use crate::rolling::{
    chain_inv, lemma_chain_end, lemma_insert_bottom, lemma_range_le_total, lemma_roll_step,
    lemma_roll_up, len_of, parts_of, upper_after,
};
use crate::tidying::{
    fuse, lemma_eighth, lemma_first_occupied, lemma_fuse, lemma_tidy_layers, lemma_tidy_merge,
    lemma_tidy_remove, tidy_ready,
};
use crate::wellformed::{
    all_batches, batch_fits, batches_range, credit_ok, initial_frontier, insert_ready, inv,
    is_chain, lemma_accounted_bound, lemma_accounted_same, lemma_accounted_zero, lemma_batch_len,
    lemma_inv_grow, lemma_inv_records, lemma_layer_len, lemma_physical_split, lemma_pow2_double,
    lemma_sum_len_concat, physical, physical_range, reach,
};
use vstd::arithmetic::power2::{lemma2_to64, pow2};
use vstd::prelude::*;

verus! {

/// The models of the layers.
pub open spec fn layers_view(layers: Seq<MergeState>) -> Layers {
    Seq::new(layers.len(), |i: int| layers[i]@)
}

/// The fuel that a signed amount stands for: nothing, where it is negative.
pub open spec fn units(fuel: isize) -> nat {
    if fuel > 0 {
        fuel as nat
    } else {
        0
    }
}

/// An append-only collection of update batches.
///
/// The spine is a list of layers, lowest first. Layer `i` is meant for
/// batches of up to `2^i` updates; older batches lie in higher layers. A
/// layer that receives a second batch starts to merge the two, and each
/// insertion brings fuel for all merges in progress, so that a merge is
/// complete before the layers below can hand it a third batch.
pub struct Spine {
    effort: usize,
    since: Frontier,
    upper: Frontier,
    merging: Vec<MergeState>,
}

impl View for Spine {
    type V = SpineView;

    closed spec fn view(&self) -> SpineView {
        SpineView {
            effort: self.effort as nat,
            since: self.since@,
            upper: self.upper@,
            merging: layers_view(self.merging@),
        }
    }
}

impl Spine {
    /// What holds of a spine between operations.
    pub open spec fn wf(&self) -> bool {
        self@.wf()
    }

    /// A spine without batches, from the first time on, with effort 1.
    pub fn new() -> (r: Spine)
        ensures
            r@ == (SpineView {
                effort: 1,
                since: seq![0u64],
                upper: seq![0u64],
                merging: Seq::empty(),
            }),
            r.wf(),
    {
        let r = Spine {
            effort: 1,
            since: Frontier::from_elem(0),
            upper: Frontier::from_elem(0),
            merging: Vec::new(),
        };
        proof {
            assert(layers_view(r.merging@) =~= Seq::<MergeStateView>::empty());
            let e: Layers = Seq::empty();
            assert(crate::wellformed::physical_range(e, 0, 0) =~= Seq::empty());
        }
        r
    }

    /// Adds vacant layers until layer `index` exists.
    fn grow(&mut self, index: usize)
        ensures
            final(self)@ == (SpineView {
                merging: grow(old(self)@.merging, index as nat),
                ..old(self)@
            }),
            final(self)@.merging.len() > index,
    {
        let ghost start = self@;
        while self.merging.len() <= index
            invariant
                self.effort == old(self).effort,
                self.since == old(self).since,
                self.upper == old(self).upper,
                start == old(self)@,
                self.merging.len() >= start.merging.len(),
                self.merging.len() <= index + 1 || self.merging.len() == start.merging.len(),
                forall|j: int|
                    0 <= j < start.merging.len() ==> (#[trigger] self.merging[j])@
                        == start.merging[j],
                forall|j: int|
                    start.merging.len() <= j < self.merging.len() ==> (#[trigger] self.merging[j])@
                        == MergeStateView::Vacant,
            decreases index + 1 - self.merging.len(),
        {
            self.merging.push(MergeState::Vacant);
        }
        assert(layers_view(self.merging@) =~= grow(start.merging, index as nat));
    }

    /// Inserts a batch into layer `index`, which holds no pair: a vacant
    /// layer then holds the batch, and a layer with one batch starts to
    /// merge the two.
    fn insert_at(&mut self, batch: Option<SpineBatch>, index: usize)
        requires
            insert_ready(old(self)@.merging, option_view(batch), index as int, old(self)@.since),
        ensures
            final(self)@ == (SpineView {
                merging: insert_at(
                    old(self)@.merging,
                    option_view(batch),
                    index as nat,
                    old(self)@.since,
                ),
                ..old(self)@
            }),
    {
        self.grow(index);
        assert(self.merging.len() == self@.merging.len());
        let state = self.merging[index].take();
        match state {
            MergeState::Vacant => {
                self.merging[index] = MergeState::Single(batch);
            },
            MergeState::Single(old) => {
                self.merging[index] = MergeState::begin_merge(old, batch, Some(&self.since));
            },
            MergeState::Double(variant) => {
                self.merging[index] = MergeState::Double(variant);
            },
        }
        assert(layers_view(self.merging@) =~= insert_at(
            old(self)@.merging,
            option_view(batch),
            index as nat,
            old(self)@.since,
        ));
    }

    /// Completes whatever layer `index` holds, takes it out and leaves the
    /// layer vacant.
    fn complete_at(&mut self, index: usize) -> (r: Option<SpineBatch>)
        requires
            index < old(self)@.merging.len(),
            old(self)@.merging[index as int].wf(),
        ensures
            option_view(r) == old(self)@.merging[index as int].completed(),
            final(self)@ == (SpineView {
                merging: old(self)@.merging.update(index as int, MergeStateView::Vacant),
                ..old(self)@
            }),
    {
        let r = match self.merging[index].complete() {
            Some((merged, _)) => Some(merged),
            None => None,
        };
        assert(layers_view(self.merging@) =~= old(self)@.merging.update(
            index as int,
            MergeStateView::Vacant,
        ));
        r
    }

    /// Gives every layer `fuel` units for its merge, and moves each merge
    /// that this completes into the layer above.
    fn spend(&mut self, fuel: usize, Ghost(upper): Ghost<Seq<u64>>)
        requires
            inv(old(self)@.merging, upper),
            old(self)@.since.len() <= 1,
        ensures
            final(self)@ == (SpineView {
                merging: apply_fuel(old(self)@.merging, fuel as nat, old(self)@.since),
                ..old(self)@
            }),
    {
        let n = self.merging.len();
        let ghost start = self@;
        let mut index: usize = 0;
        while index < n
            invariant
                start == old(self)@,
                self@ == (SpineView { merging: self@.merging, ..start }),
                n == start.merging.len(),
                start.since.len() <= 1,
                pass_inv(self@.merging, upper, fuel as nat, index as int, n as int),
                apply_fuel_from(self@.merging, fuel as nat, index as nat, n as nat, start.since)
                    == apply_fuel(start.merging, fuel as nat, start.since),
            decreases n - index,
        {
            let ghost cur = self@.merging;
            proof {
                lemma_inv_records(cur, upper, index as int);
                lemma_work(cur, upper, index as int, fuel as nat);
                lemma_fuel_step(cur, upper, fuel as nat, index as int, n as int, start.since);
            }
            let mut left = fuel;
            self.merging[index].work(&mut left);
            let ghost worked = cur.update(index as int, cur[index as int].work(fuel as nat));
            assert(layers_view(self.merging@) =~= worked);
            if self.merging[index].is_complete() {
                proof {
                    lemma_inv_records(worked, upper, index as int);
                    lemma_push_up(worked, upper, index as int, start.since);
                }
                let complete = self.complete_at(index);
                self.insert_at(complete, index + 1);
                assert(worked.update(index as int, MergeStateView::Vacant) =~= cur.update(
                    index as int,
                    MergeStateView::Vacant,
                ));
            }
            assert(self@.merging == fuel_step(cur, fuel as nat, index as nat, start.since));
            index = index + 1;
        }
    }

    /// Applies `fuel` units of work to every merge in progress: each layer
    /// gets the whole amount. A merge that this completes moves to the
    /// layer above, where it may start the next merge.
    pub fn apply_fuel(&mut self, fuel: &mut isize)
        requires
            old(self).wf(),
        ensures
            final(self)@ == (SpineView {
                merging: apply_fuel(old(self)@.merging, units(*old(fuel)), old(self)@.since),
                ..old(self)@
            }),
            final(self).wf(),
            final(self)@.physical() == old(self)@.physical(),
            *final(fuel) == *old(fuel),
            all_batches(old(self)@.merging).len() > 0 ==> all_batches(final(self)@.merging).len()
                > 0,
            anti_invasion(final(self)@.merging),
    {
        let amount: usize = if *fuel > 0 {
            *fuel as usize
        } else {
            0
        };
        proof {
            let before = self@;
            let after = SpineView {
                merging: apply_fuel(before.merging, amount as nat, before.since),
                ..before
            };
            lemma_apply_fuel(before.merging, before.upper, amount as nat, before.since);
            lemma_wf_anti_invasion(after);
            lemma_has_batch(before.merging);
            lemma_has_batch(after.merging);
            if has_batch(before.merging) {
                lemma_apply_fuel_keeps(before.merging, before.upper, amount as nat, before.since);
            }
        }
        self.spend(amount, Ghost(self@.upper));
    }

    /// Whether every layer below `k` is vacant.
    fn vacant_below(&self, k: usize) -> (r: bool)
        requires
            k <= self@.merging.len(),
        ensures
            r == vacant_below(self@.merging, k as int),
    {
        let mut j: usize = 0;
        while j < k
            invariant
                j <= k <= self.merging.len(),
                vacant_below(self@.merging, j as int),
            decreases k - j,
        {
            if !self.merging[j].is_vacant() {
                assert(!self@.merging[j as int].is_vacant());
                return false;
            }
            j = j + 1;
        }
        true
    }

    /// Whether the layers below `m` account for no more than the capacity
    /// `2^m`.
    fn accounted_within(&self, m: usize) -> (r: bool)
        requires
            m <= self@.merging.len(),
        ensures
            r == (accounted(self@.merging, m as int) <= pow2(m as nat)),
    {
        let ghost layers = self@.merging;
        let mut j: usize = m;
        while j > 0
            invariant
                j <= m <= self.merging.len(),
                layers == self@.merging,
                accounted(layers, m as int) - pow2(m as nat) == accounted(layers, j as int) - pow2(
                    j as nat,
                ),
            decreases j,
        {
            proof {
                lemma_pow2_double((j - 1) as nat);
                lemma_accounted_bound(layers, j - 1);
                lemma_accounted_zero(layers, j - 1);
                let p = pow2((j - 1) as nat);
                assert(0 * p == 0 && 1 * p == p && 2 * p == p + p) by (nonlinear_arith);
            }
            if self.merging[j - 1].is_vacant() {
                return true;
            } else if self.merging[j - 1].is_double() {
                return self.vacant_below(j - 1);
            }
            j = j - 1;
        }
        proof {
            lemma2_to64();
        }
        true
    }

    /// Whether the layers below the one under the top account for no more
    /// than an eighth of the capacity `2^n` that the number `n` of layers
    /// stands for.
    fn below_eighth(&self) -> (r: bool)
        requires
            self@.merging.len() >= 2,
        ensures
            r == (accounted(self@.merging, self@.merging.len() - 2) <= pow2(
                self@.merging.len(),
            ) / 8),
    {
        let n = self.merging.len();
        let ghost layers = self@.merging;
        proof {
            lemma_eighth(n as nat);
        }
        if n < 3 {
            true
        } else {
            proof {
                lemma_pow2_double((n - 3) as nat);
                lemma_accounted_zero(layers, n - 3);
                let p = pow2((n - 3) as nat);
                assert(0 * p == 0 && 1 * p == p && 2 * p == p + p) by (nonlinear_arith);
            }
            if self.merging[n - 3].is_double() {
                false
            } else if self.merging[n - 3].is_single() {
                self.vacant_below(n - 3)
            } else {
                self.accounted_within(n - 3)
            }
        }
    }

    /// Draws the top batch down to a layer that suits its size: layers
    /// under the top that hold no batch are taken out, and where the layer
    /// under the top holds one batch and the layers below account for
    /// little enough, the two start to merge.
    fn tidy_layers(&mut self, Ghost(upper): Ghost<Seq<u64>>)
        requires
            inv(old(self)@.merging, upper),
            old(self)@.since.len() <= 1,
        ensures
            final(self)@ == (SpineView {
                merging: tidy_layers(old(self)@.merging, old(self)@.since),
                ..old(self)@
            }),
    {
        let ghost start = self@;
        if self.merging.len() > 0 {
            let mut length = self.merging.len();
            if self.merging[length - 1].is_single() {
                proof {
                    lemma_inv_records(start.merging, upper, length - 1);
                    assert(start.merging.last() == start.merging[length - 1]);
                }
                let appropriate_level = level_for(self.merging[length - 1].len());
                let ghost level = appropriate_level as nat;
                while appropriate_level < length - 1
                    invariant
                        start == old(self)@,
                        self@ == (SpineView { merging: self@.merging, ..start }),
                        start.since.len() <= 1,
                        length == self.merging.len(),
                        length >= 1,
                        level == appropriate_level,
                        inv(self@.merging, upper),
                        self@.merging.last().is_single(),
                        self@.merging.last().len() <= pow2(level),
                        tidy_from(self@.merging, level, start.since) == tidy_layers(
                            start.merging,
                            start.since,
                        ),
                    decreases length,
                {
                    let ghost cur = self@.merging;
                    assert(tidy_ready(cur, level));
                    let kind: u8 = match &self.merging[length - 2] {
                        MergeState::Vacant => 0,
                        MergeState::Single(None) => 0,
                        MergeState::Single(Some(_)) => 1,
                        MergeState::Double(_) => 2,
                    };
                    if kind == 0 {
                        proof {
                            lemma_tidy_remove(cur, upper, level);
                        }
                        let _ = self.merging.remove(length - 2);
                        length = self.merging.len();
                        assert(layers_view(self.merging@) =~= cur.remove(cur.len() - 2));
                    } else if kind == 1 {
                        if self.below_eighth() {
                            let taken = self.merging.remove(length - 2);
                            assert(layers_view(self.merging@) =~= cur.remove(cur.len() - 2));
                            match taken {
                                MergeState::Single(Some(batch)) => {
                                    proof {
                                        lemma_tidy_merge(cur, upper, level, batch@, start.since);
                                    }
                                    self.insert_at(Some(batch), length - 2);
                                },
                                _ => {
                                    assert(false);
                                },
                            }
                        }
                        return ;
                    } else {
                        return ;
                    }
                }
            }
        }
    }

    /// Makes sure that an insertion at layer `index` finds no pair there:
    /// where any layer below `index` holds something, all that they hold is
    /// completed and chained into one batch, which goes to layer `index`;
    /// if that makes a pair, the pair is completed and moves one layer up.
    fn roll_up(
        &mut self,
        index: usize,
        Ghost(upper): Ghost<Seq<u64>>,
        Ghost(debt): Ghost<nat>,
        Ghost(half): Ghost<nat>,
    )
        requires
            inv(old(self)@.merging, upper),
            old(self)@.since.len() <= 1,
            index < usize::MAX,
            debt == 8 * pow2(index as nat),
            half == 4 * pow2(index as nat),
            forall|k: int|
                0 <= k < old(self)@.merging.len() && k <= index + 1 ==> !(
                #[trigger] old(self)@.merging[k]).is_double(),
            forall|k: int|
                0 <= k < old(self)@.merging.len() ==> credit_ok(old(self)@.merging, k, debt),
        ensures
            final(self)@ == (SpineView {
                merging: roll_up(old(self)@.merging, index as nat, old(self)@.since),
                ..old(self)@
            }),
    {
        let ghost start = self@;
        let ghost since = start.since;
        self.grow(index);
        let ghost g = self@.merging;
        proof {
            lemma_inv_grow(start.merging, upper, index as nat);
            lemma_pow2_double(index as nat);
            assert forall|k: int| 0 <= k < g.len() implies credit_ok(g, k, debt) && (k <= index
                + 1 ==> !(#[trigger] g[k]).is_double()) by {
                if k < start.merging.len() {
                    assert(credit_ok(start.merging, k, debt));
                    lemma_accounted_same(g, start.merging, k);
                } else {
                    assert(g[k].is_vacant());
                }
            }
        }
        if !self.vacant_below(index) {
            let mut merged: Option<SpineBatch> = None;
            let mut i: usize = 0;
            proof {
                assert(physical_range(g, 0, 0) =~= Seq::empty());
                assert(chain_inv(g, upper, g, None, 0));
            }
            while i < index
                invariant
                    i <= index < g.len(),
                    inv(g, upper),
                    since.len() <= 1,
                    since == start.since,
                    self@ == (SpineView { merging: self@.merging, ..start }),
                    forall|k: int| 0 <= k < index ==> !(#[trigger] g[k]).is_double(),
                    chain_inv(g, upper, self@.merging, option_view(merged), i as int),
                    roll_chain(self@.merging, option_view(merged), i as nat, index as nat, since)
                        == roll_chain(g, None, 0, index as nat, since),
                decreases index - i,
            {
                let ghost cur = self@.merging;
                let ghost mv = option_view(merged);
                proof {
                    lemma_roll_step(g, upper, cur, mv, i as int, since);
                    lemma_insert_at_record(cur, mv, i as int, since);
                }
                self.insert_at(merged, i);
                merged = self.complete_at(i);
                i = i + 1;
            }
            let ghost chained = self@.merging;
            let ghost mv = option_view(merged);
            let ghost mid = reach(g, index as int);
            proof {
                lemma_chain_end(g, upper, chained, mv, index as int);
                lemma_sum_len_concat(physical(chained), parts_of(mv));
                match mv {
                    Some(m) => lemma_batch_len(m),
                    None => {},
                }
                assert forall|k: int| index < k < chained.len() implies credit_ok(
                    chained,
                    k,
                    debt,
                ) by {
                    assert(credit_ok(g, k, debt));
                }
                lemma_insert_bottom(chained, mid, mv, index as int, since, debt, half);
                assert(upper_after(mid, mv) == upper);
            }
            self.insert_at(merged, index);
            let ghost placed = self@.merging;
            if self.merging[index].is_double() {
                proof {
                    lemma_inv_records(placed, upper, index as int);
                    lemma_push_up(placed, upper, index as int, since);
                }
                let promoted = self.complete_at(index);
                self.insert_at(promoted, index + 1);
            }
        }
    }

    /// Introduces a batch at a level: fuel for the merges in progress
    /// first, then room at the level, then the batch, then tidying.
    fn introduce_batch(
        &mut self,
        batch: Option<SpineBatch>,
        batch_index: usize,
        Ghost(upper): Ghost<Seq<u64>>,
    )
        requires
            inv(old(self)@.merging, upper),
            old(self)@.since.len() <= 1,
            old(self)@.effort >= 1,
            batch_index <= 64,
            batch matches Some(b) ==> batch_fits(b@, pow2(batch_index as nat)) && b@.lower()
                == upper,
            sum_len(physical(old(self)@.merging)) + len_of(option_view(batch)) <= usize::MAX,
        ensures
            final(self)@ == (SpineView {
                merging: introduce_batch(
                    old(self)@.merging,
                    option_view(batch),
                    batch_index as nat,
                    fuel_for(batch_index as nat, old(self)@.effort, usize::MAX as nat),
                    old(self)@.since,
                ),
                ..old(self)@
            }),
    {
        let ghost start = self@;
        let ghost bv = option_view(batch);
        let ghost level = batch_index as nat;
        let ghost debt = 8 * pow2(level);
        let ghost half = 4 * pow2(level);
        let fuel = fuel_units(batch_index, self.effort);
        proof {
            let p = pow2(level);
            let e = start.effort;
            assert(8 * p * e >= 8 * p) by (nonlinear_arith)
                requires
                    e >= 1,
                    p >= 0,
            ;
            lemma_apply_fuel(start.merging, upper, fuel as nat, start.since);
        }
        self.spend(fuel, Ghost(upper));
        let ghost fueled = self@.merging;
        proof {
            lemma_fueled_for_level(fueled, upper, fuel as nat, level, debt);
            lemma_roll_up(fueled, upper, batch_index as int, start.since, debt, half);
        }
        self.roll_up(batch_index, Ghost(upper), Ghost(debt), Ghost(half));
        let ghost rolled = self@.merging;
        proof {
            lemma_insert_bottom(rolled, upper, bv, batch_index as int, start.since, half, 0);
        }
        self.insert_at(batch, batch_index);
        self.tidy_layers(Ghost(upper_after(upper, bv)));
    }

    /// The lowest layer that is not vacant.
    fn first_occupied(&self) -> (r: Option<usize>)
        ensures
            match r {
                Some(p) => first_occupied(self@.merging, 0) == Some(p as nat) && p
                    < self@.merging.len(),
                None => first_occupied(self@.merging, 0) is None,
            },
    {
        let mut j: usize = 0;
        while j < self.merging.len()
            invariant
                j <= self.merging.len(),
                first_occupied(self@.merging, j as nat) == first_occupied(self@.merging, 0),
            decreases self.merging.len() - j,
        {
            if !self.merging[j].is_vacant() {
                return Some(j);
            }
            j = j + 1;
        }
        None
    }

    /// Whether some layer holds a pair.
    fn any_double(&self) -> (r: bool)
        ensures
            r == any_double(self@.merging),
    {
        let mut j: usize = 0;
        while j < self.merging.len()
            invariant
                j <= self.merging.len(),
                forall|k: int| 0 <= k < j ==> !(#[trigger] self@.merging[k]).is_double(),
            decreases self.merging.len() - j,
        {
            if self.merging[j].is_double() {
                assert(self@.merging[j as int].is_double());
                return true;
            }
            j = j + 1;
        }
        false
    }

    /// The number of updates that the spine holds: the sum of the declared
    /// lengths of all physical batches that it reaches.
    pub fn len(&self) -> (r: usize)
        requires
            self.wf(),
        ensures
            r == self@.len(),
    {
        let ghost layers = self@.merging;
        let mut total: usize = 0;
        let mut i: usize = 0;
        while i < self.merging.len()
            invariant
                i <= self.merging.len(),
                layers == self@.merging,
                self.wf(),
                total == sum_len(physical_range(layers, 0, i as int)),
            decreases self.merging.len() - i,
        {
            proof {
                lemma_inv_records(layers, self@.upper, i as int);
                lemma_physical_split(layers, 0, i as int, i + 1);
                assert(physical_range(layers, i as int, i + 1) =~= layers[i as int].parts()) by {
                    assert(physical_range(layers, i + 1, i + 1) =~= Seq::empty());
                }
                lemma_sum_len_concat(
                    layers[i as int].parts(),
                    physical_range(layers, 0, i as int),
                );
                lemma_layer_len(layers[i as int]);
                lemma_range_le_total(layers, 0, i + 1);
            }
            total = total + self.merging[i].len();
            i = i + 1;
        }
        total
    }

    /// Whether the spine is fully compacted: no layer holds a pair, and at
    /// most one layer holds any update.
    pub fn reduced(&self) -> (r: bool)
        requires
            self.wf(),
        ensures
            r == reduced(self@.merging),
    {
        let ghost layers = self@.merging;
        let mut non_empty: usize = 0;
        let ghost mut witness: int = 0;
        let mut index: usize = 0;
        while index < self.merging.len()
            invariant
                index <= self.merging.len(),
                layers == self@.merging,
                self.wf(),
                non_empty <= 1,
                forall|k: int| 0 <= k < index ==> !(#[trigger] layers[k]).is_double(),
                non_empty == 0 ==> forall|k: int| 0 <= k < index ==> (#[trigger] layers[k]).len() == 0,
                non_empty == 1 ==> 0 <= witness < index && layers[witness].len() > 0 && forall|
                    k: int,
                |
                    0 <= k < index && k != witness ==> (#[trigger] layers[k]).len() == 0,
            decreases self.merging.len() - index,
        {
            proof {
                lemma_inv_records(layers, self@.upper, index as int);
            }
            if self.merging[index].is_double() {
                assert(layers[index as int].is_double());
                return false;
            }
            if self.merging[index].len() > 0 {
                if non_empty == 1 {
                    assert(layers[witness].len() > 0 && layers[index as int].len() > 0);
                    return false;
                }
                non_empty = 1;
                proof {
                    witness = index as int;
                }
            }
            index = index + 1;
        }
        true
    }

    /// For each layer, lowest first, how many batches it holds (0, 1 or 2)
    /// and how many updates.
    pub fn describe(&self) -> (r: Vec<(usize, usize)>)
        requires
            self.wf(),
        ensures
            r.len() == self@.merging.len(),
            forall|k: int|
                0 <= k < r.len() ==> (#[trigger] r[k]).0 == self@.merging[k].occupancy() && r[k].1
                    == self@.merging[k].len(),
    {
        let ghost layers = self@.merging;
        let mut out: Vec<(usize, usize)> = Vec::new();
        let mut i: usize = 0;
        while i < self.merging.len()
            invariant
                i <= self.merging.len(),
                layers == self@.merging,
                self.wf(),
                out.len() == i,
                forall|k: int|
                    0 <= k < i ==> (#[trigger] out[k]).0 == layers[k].occupancy() && out[k].1
                        == layers[k].len(),
            decreases self.merging.len() - i,
        {
            proof {
                lemma_inv_records(layers, self@.upper, i as int);
            }
            let kind: usize = if self.merging[i].is_vacant() {
                0
            } else if self.merging[i].is_single() {
                1
            } else {
                2
            };
            let entry = (kind, self.merging[i].len());
            out.push(entry);
            i = i + 1;
        }
        out
    }

    /// The batches that make up the collection, oldest first: from the top
    /// layer down, both batches of a merge in progress, the result of a
    /// complete merge, and the batch of a layer that holds one. They form a
    /// chain from the first time to the upper frontier.
    pub fn map_batches(&self) -> (r: Vec<&SpineBatch>)
        requires
            self.wf(),
        ensures
            batches_view(r@) == all_batches(self@.merging),
            is_chain(batches_view(r@), initial_frontier(), self@.upper),
            parts_of_all(batches_view(r@)) == self@.physical(),
            lengths_of_all(batches_view(r@)) == self@.len(),
            r.len() == all_batches(self@.merging).len(),
            r.len() > 0 ==> r[0]@.lower() == initial_frontier(),
    {
        let ghost layers = self@.merging;
        let n = self.merging.len();
        let mut out: Vec<&SpineBatch> = Vec::new();
        let mut k: usize = n;
        proof {
            assert(batches_view(out@) =~= batches_range(layers, n as int, n as int));
        }
        while k > 0
            invariant
                k <= n,
                n == self.merging.len(),
                layers == self@.merging,
                batches_view(out@) == batches_range(layers, k as int, n as int),
            decreases k,
        {
            k = k - 1;
            let ghost before = batches_view(out@);
            match &self.merging[k] {
                MergeState::Double(MergeVariant::InProgress(batch1, batch2, _)) => {
                    out.push(batch1);
                    out.push(batch2);
                },
                MergeState::Double(MergeVariant::Complete(Some((batch, _)))) => {
                    out.push(batch);
                },
                MergeState::Single(Some(batch)) => {
                    out.push(batch);
                },
                _ => {},
            }
            assert(batches_view(out@) =~= before + layers[k as int].batches());
        }
        proof {
            lemma_contiguity(self@);
            lemma_reader_sees_physical(self@);
        }
        out
    }

    /// Whether `insert` takes the batch: it is valid, starts at the spine's
    /// upper frontier, covers some time, and its length fits beside what
    /// the spine holds.
    pub fn accepts(&self, batch: &SpineBatch) -> (r: bool)
        requires
            self.wf(),
        ensures
            r == self@.allows(Step::Insert(batch@)),
    {
        if !batch.is_valid() {
            return false;
        }
        if !batch.lower().eq(&self.upper) {
            return false;
        }
        if batch.lower().eq(batch.upper()) {
            return false;
        }
        let held = self.len();
        batch.len() <= usize::MAX - held
    }

    /// Inserts the batch if `insert` takes it, and hands it back untouched,
    /// with the spine as it was, if not.
    pub fn try_insert(&mut self, batch: SpineBatch) -> (r: Result<(), SpineBatch>)
        requires
            old(self).wf(),
        ensures
            r is Ok == old(self)@.allows(Step::Insert(batch@)),
            r is Ok ==> final(self)@ == old(self)@.insert(batch@),
            r matches Err(b) ==> b == batch && *final(self) == *old(self),
            final(self).wf(),
            final(self)@.since == old(self)@.since,
            final(self)@.physical() == if r is Ok {
                old(self)@.physical() + batch@.parts()
            } else {
                old(self)@.physical()
            },
            final(self)@.len() == if r is Ok {
                old(self)@.len() + batch@.len()
            } else {
                old(self)@.len()
            },
            r is Ok ==> all_batches(final(self)@.merging).len() > 0,
            anti_invasion(final(self)@.merging),
    {
        proof {
            lemma_wf_anti_invasion(self@);
        }
        if self.accepts(&batch) {
            self.insert(batch);
            Ok(())
        } else {
            Err(batch)
        }
    }

    /// The upper frontier: where the next batch has to start.
    pub fn upper(&self) -> (r: &Frontier)
        ensures
            r@ == self@.upper,
    {
        &self.upper
    }

    /// The since frontier: how far the spine lets merges compact.
    pub fn since(&self) -> (r: &Frontier)
        ensures
            r@ == self@.since,
    {
        &self.since
    }

    /// Inserts a batch that starts at the spine's upper frontier, and does
    /// work on the merges in progress in proportion to its size.
    ///
    /// An empty batch that follows an empty batch joins it in place.
    /// Any other batch goes to the level of its length.
    pub fn insert(&mut self, batch: SpineBatch)
        requires
            old(self).wf(),
            batch@.wf(),
            batch@.lower() == old(self)@.upper,
            batch@.lower() != batch@.upper(),
            old(self)@.len() + batch@.len() <= usize::MAX,
        ensures
            final(self)@ == old(self)@.insert(batch@),
            final(self).wf(),
            final(self)@.upper == batch@.upper(),
            final(self)@.since == old(self)@.since,
            final(self)@.physical() == old(self)@.physical() + batch@.parts(),
            final(self)@.len() == old(self)@.len() + batch@.len(),
            all_batches(final(self)@.merging).len() > 0,
            anti_invasion(final(self)@.merging),
    {
        let ghost start = self@;
        let ghost bv = batch@;
        proof {
            lemma_insert(start, bv);
            lemma_wf_anti_invasion(start.insert(bv));
        }
        let new_upper = batch.upper().clone();
        let mut target: Option<usize> = None;
        if batch.len() == 0 {
            if let Some(position) = self.first_occupied() {
                proof {
                    lemma_inv_records(start.merging, start.upper, position as int);
                }
                if self.merging[position].is_single() && self.merging[position].len() == 0 {
                    target = Some(position);
                }
            }
        }
        match target {
            Some(position) => {
                proof {
                    lemma_first_occupied(start.merging, 0);
                    assert(vacant_below(start.merging, position as int));
                    lemma_fuse(start.merging, start.upper, bv, position as int, start.since);
                    lemma_insert_at_record(start.merging, Some(bv), position as int, start.since);
                }
                self.insert_at(Some(batch), position);
                let ghost ins = self@.merging;
                let merged = self.complete_at(position);
                let ghost vacated = self@.merging;
                let ghost mv = option_view(merged);
                assert(self.merging.len() == vacated.len());
                self.merging[position] = MergeState::Single(merged);
                assert(ins == insert_at(start.merging, Some(bv), position as nat, start.since));
                assert(mv == ins[position as int].completed());
                assert(self.merging[position as int]@ == MergeStateView::Single(mv));
                assert(layers_view(self.merging@) =~= vacated.update(
                    position as int,
                    MergeStateView::Single(mv),
                ));
                assert(vacated.update(position as int, MergeStateView::Single(mv)) =~= ins.update(
                    position as int,
                    MergeStateView::Single(mv),
                ));
                assert(layers_view(self.merging@) =~= fuse(
                    start.merging,
                    bv,
                    position as nat,
                    start.since,
                ));
            },
            None => {
                let index = level_for(batch.len());
                self.introduce_batch(Some(batch), index, Ghost(start.upper));
            },
        }
        self.upper = new_upper;
    }

    /// Applies some effort to the maintenance of the spine without new
    /// data: after tidying, unless the spine is reduced, the merges in
    /// progress get `effort` units of fuel each; where there is none, a
    /// batch without content enters at the level of `effort` and moves the
    /// books along.
    pub fn exert(&mut self, effort: &mut isize)
        requires
            old(self).wf(),
        ensures
            final(self)@ == old(self)@.exert(units(*old(effort))),
            final(self).wf(),
            final(self)@.upper == old(self)@.upper,
            final(self)@.since == old(self)@.since,
            final(self)@.physical() == old(self)@.physical(),
            *final(effort) == *old(effort),
            *old(effort) >= 1 ==> reduced(final(self)@.merging) || rank(final(self)@.merging).lt(
                rank(old(self)@.merging),
            ),
            all_batches(old(self)@.merging).len() > 0 ==> all_batches(final(self)@.merging).len()
                > 0,
            anti_invasion(final(self)@.merging),
    {
        let ghost start = self@;
        let amount: usize = if *effort > 0 {
            *effort as usize
        } else {
            0
        };
        proof {
            lemma_exert(start, amount as nat);
            lemma_wf_anti_invasion(start.exert(amount as nat));
            lemma_tidy_layers(start.merging, start.upper, start.since);
            if amount >= 1 {
                lemma_exert_rank(start, amount as nat);
            }
        }
        self.tidy_layers(Ghost(start.upper));
        if !self.reduced() {
            if self.any_double() {
                self.spend(amount, Ghost(start.upper));
            } else {
                let level = level_for(amount);
                self.introduce_batch(None, level, Ghost(start.upper));
            }
        }
    }
}

/// The models of a run of composite batches.
pub open spec fn batches_view(bs: Seq<&SpineBatch>) -> Seq<SpineBatchView> {
    Seq::new(bs.len(), |i: int| bs[i]@)
}

} // verus!

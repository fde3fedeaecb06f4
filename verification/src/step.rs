//! The fixed set of forging operations, their progress effects, and the
//! mathematical model of an operation sequence: its effect sum and what it
//! means to be a path that stays inside the progress range.

use vstd::prelude::*;

verus! {

/// One atomic forging action. `Rest` is a sentinel with effect 0; it is
/// never part of a computed sequence.
#[derive(Clone, Copy, Debug, PartialEq, Eq, Structural)]
pub enum ForgeStep {
    HitLight,
    HitMedium,
    HitHard,
    Draw,
    Punch,
    Bend,
    Upset,
    Shrink,
    Rest,
}

/// Which of the last three positions a rule constrains.
#[derive(Clone, Copy, Debug, PartialEq, Eq, Structural)]
pub enum ForgeOrder {
    Last,
    SecLast,
    ThiLast,
    NotLast,
    Any,
}

/// One positional requirement on the final three operations.
#[derive(Clone, Copy, Debug, PartialEq, Eq, Structural)]
pub struct ForgeRule {
    pub order: ForgeOrder,
    pub typ: ForgeStep,
}

/// The signed progress delta of each operation.
pub open spec fn effect(step: ForgeStep) -> int {
    match step {
        ForgeStep::HitLight => -3,
        ForgeStep::HitMedium => -6,
        ForgeStep::HitHard => -9,
        ForgeStep::Draw => -15,
        ForgeStep::Punch => 2,
        ForgeStep::Bend => 7,
        ForgeStep::Upset => 13,
        ForgeStep::Shrink => 16,
        ForgeStep::Rest => 0,
    }
}

/// The display name of each operation.
pub open spec fn spec_name(step: ForgeStep) -> Seq<char> {
    match step {
        ForgeStep::HitLight => "轻击"@,
        ForgeStep::HitMedium => "击打"@,
        ForgeStep::HitHard => "重击"@,
        ForgeStep::Draw => "牵拉"@,
        ForgeStep::Punch => "冲压"@,
        ForgeStep::Bend => "弯曲"@,
        ForgeStep::Upset => "镦锻"@,
        ForgeStep::Shrink => "收缩"@,
        ForgeStep::Rest => "无"@,
    }
}

/// The fixed enumeration order of the 8 usable operations.
pub open spec fn op_of(i: int) -> ForgeStep {
    if i == 0 {
        ForgeStep::HitLight
    } else if i == 1 {
        ForgeStep::HitMedium
    } else if i == 2 {
        ForgeStep::HitHard
    } else if i == 3 {
        ForgeStep::Draw
    } else if i == 4 {
        ForgeStep::Punch
    } else if i == 5 {
        ForgeStep::Bend
    } else if i == 6 {
        ForgeStep::Upset
    } else if i == 7 {
        ForgeStep::Shrink
    } else {
        ForgeStep::Rest
    }
}

/// An operation that may appear in a sequence: any variant but the sentinel.
pub open spec fn is_op(step: ForgeStep) -> bool {
    step != ForgeStep::Rest
}

/// Every usable operation has an index in the fixed enumeration order.
pub proof fn lemma_op_index(step: ForgeStep)
    requires
        is_op(step),
    ensures
        exists|i: int| 0 <= i < 8 && op_of(i) == step,
{
    match step {
        ForgeStep::HitLight => assert(op_of(0) == step),
        ForgeStep::HitMedium => assert(op_of(1) == step),
        ForgeStep::HitHard => assert(op_of(2) == step),
        ForgeStep::Draw => assert(op_of(3) == step),
        ForgeStep::Punch => assert(op_of(4) == step),
        ForgeStep::Bend => assert(op_of(5) == step),
        ForgeStep::Upset => assert(op_of(6) == step),
        ForgeStep::Shrink => assert(op_of(7) == step),
        ForgeStep::Rest => assert(false),
    }
}

impl ForgeStep {
    /// The signed progress delta of this operation.
    pub fn get_effect(&self) -> (e: i32)
        ensures
            e as int == effect(*self),
    {
        match self {
            Self::HitLight => -3,
            Self::HitMedium => -6,
            Self::HitHard => -9,
            Self::Draw => -15,
            Self::Punch => 2,
            Self::Bend => 7,
            Self::Upset => 13,
            Self::Shrink => 16,
            Self::Rest => 0,
        }
    }

    /// The display name of this operation.
    pub fn get_name(&self) -> (name: &'static str)
        ensures
            name@ == spec_name(*self),
    {
        match self {
            Self::HitLight => "轻击",
            Self::HitMedium => "击打",
            Self::HitHard => "重击",
            Self::Draw => "牵拉",
            Self::Punch => "冲压",
            Self::Bend => "弯曲",
            Self::Upset => "镦锻",
            Self::Shrink => "收缩",
            Self::Rest => "无",
        }
    }
}

/// The operation at a given index of the fixed enumeration order.
pub fn op_at(i: usize) -> (op: ForgeStep)
    requires
        i < 8,
    ensures
        op == op_of(i as int),
        is_op(op),
{
    if i == 0 {
        ForgeStep::HitLight
    } else if i == 1 {
        ForgeStep::HitMedium
    } else if i == 2 {
        ForgeStep::HitHard
    } else if i == 3 {
        ForgeStep::Draw
    } else if i == 4 {
        ForgeStep::Punch
    } else if i == 5 {
        ForgeStep::Bend
    } else if i == 6 {
        ForgeStep::Upset
    } else {
        ForgeStep::Shrink
    }
}

/// The total progress delta of a sequence of operations.
pub open spec fn sum_effects(steps: Seq<ForgeStep>) -> int
    decreases steps.len(),
{
    if steps.len() == 0 {
        0
    } else {
        sum_effects(steps.drop_last()) + effect(steps.last())
    }
}

/// All elements of the sequence are usable operations.
pub open spec fn all_ops(steps: Seq<ForgeStep>) -> bool {
    forall|k: int| 0 <= k < steps.len() ==> is_op(#[trigger] steps[k])
}

/// Every partial sum of the sequence, applied from progress 0, stays inside
/// the progress range 0..=150.
pub open spec fn stays_in_range(steps: Seq<ForgeStep>) -> bool {
    forall|k: int| 0 <= k <= steps.len() ==> 0 <= sum_effects(#[trigger] steps.take(k)) <= 150
}

/// A path: a sequence of usable operations whose intermediate progress
/// values all lie in 0..=150 and whose total effect is `target`.
pub open spec fn valid_path(steps: Seq<ForgeStep>, target: int) -> bool {
    all_ops(steps) && stays_in_range(steps) && sum_effects(steps) == target
}

pub proof fn lemma_sum_push(steps: Seq<ForgeStep>, op: ForgeStep)
    ensures
        sum_effects(steps.push(op)) == sum_effects(steps) + effect(op),
{
    assert(steps.push(op).drop_last() =~= steps);
}

pub proof fn lemma_sum_concat(a: Seq<ForgeStep>, b: Seq<ForgeStep>)
    ensures
        sum_effects(a + b) == sum_effects(a) + sum_effects(b),
    decreases b.len(),
{
    if b.len() == 0 {
        assert(a + b =~= a);
    } else {
        lemma_sum_concat(a, b.drop_last());
        assert((a + b).drop_last() =~= a + b.drop_last());
    }
}

/// The target of a path lies in the progress range.
pub proof fn lemma_valid_path_target_in_range(steps: Seq<ForgeStep>, target: int)
    requires
        valid_path(steps, target),
    ensures
        0 <= target <= 150,
{
    assert(steps.take(steps.len() as int) =~= steps);
}

/// A path extended by one usable operation whose new progress value stays
/// in range is again a path.
pub proof fn lemma_valid_path_push(steps: Seq<ForgeStep>, target: int, op: ForgeStep)
    requires
        valid_path(steps, target),
        is_op(op),
        0 <= target + effect(op) <= 150,
    ensures
        valid_path(steps.push(op), target + effect(op)),
{
    let ext = steps.push(op);
    lemma_sum_push(steps, op);
    assert forall|k: int| 0 <= k <= ext.len() implies 0 <= sum_effects(#[trigger] ext.take(k))
        <= 150 by {
        if k <= steps.len() {
            assert(ext.take(k) =~= steps.take(k));
        } else {
            assert(ext.take(k) =~= ext);
        }
    }
}

pub proof fn lemma_sum_remove(steps: Seq<ForgeStep>, i: int)
    requires
        0 <= i < steps.len(),
    ensures
        sum_effects(steps.remove(i)) == sum_effects(steps) - effect(steps[i]),
    decreases steps.len(),
{
    if i == steps.len() - 1 {
        assert(steps.remove(i) =~= steps.drop_last());
    } else {
        assert(steps.remove(i).drop_last() =~= steps.drop_last().remove(i));
        assert(steps.remove(i).last() == steps.last());
        lemma_sum_remove(steps.drop_last(), i);
    }
}

proof fn lemma_sum_all_nonpos(steps: Seq<ForgeStep>)
    requires
        forall|i: int| 0 <= i < steps.len() ==> effect(#[trigger] steps[i]) <= 0,
    ensures
        sum_effects(steps) <= 0,
    decreases steps.len(),
{
    if steps.len() > 0 {
        lemma_sum_all_nonpos(steps.drop_last());
    }
}

proof fn lemma_prefix_sums_of_positives(steps: Seq<ForgeStep>)
    requires
        forall|i: int| 0 <= i < steps.len() ==> effect(#[trigger] steps[i]) > 0,
    ensures
        forall|k: int|
            0 <= k <= steps.len() ==> 0 <= sum_effects(#[trigger] steps.take(k)) <= sum_effects(
                steps,
            ),
    decreases steps.len(),
{
    if steps.len() == 0 {
        assert(steps.take(0) =~= steps);
    } else {
        let prev = steps.drop_last();
        lemma_prefix_sums_of_positives(prev);
        assert forall|k: int|
            0 <= k <= steps.len() implies 0 <= sum_effects(#[trigger] steps.take(k))
            <= sum_effects(steps) by {
            if k <= prev.len() {
                assert(steps.take(k) =~= prev.take(k));
            } else {
                assert(steps.take(k) =~= steps);
                assert(prev.take(prev.len() as int) =~= prev);
            }
        }
    }
}

/// Any sequence of usable operations whose total lies in the progress
/// range can be reordered into a path of the same length: some order of
/// the same operations keeps every intermediate value in range.
pub proof fn lemma_reorder_into_path(steps: Seq<ForgeStep>)
    requires
        all_ops(steps),
        0 <= sum_effects(steps) <= 150,
    ensures
        exists|p: Seq<ForgeStep>|
            valid_path(p, sum_effects(steps)) && #[trigger] p.len() == steps.len(),
    decreases steps.len(), 1int,
{
    let t = sum_effects(steps);
    if steps.len() == 0 {
        let p = Seq::<ForgeStep>::empty();
        assert(valid_path(p, t)) by {
            assert(p.take(0) =~= p);
        }
        assert(p.len() == steps.len());
    } else if t >= 16 {
        // the total is positive, so a positive operation exists; placing
        // it last keeps the rest's total at least 0 and below the old one
        assert(exists|i: int| 0 <= i < steps.len() && effect(#[trigger] steps[i]) > 0) by {
            if forall|i: int| 0 <= i < steps.len() ==> effect(#[trigger] steps[i]) <= 0 {
                lemma_sum_all_nonpos(steps);
            }
        }
        let i = choose|i: int| 0 <= i < steps.len() && effect(#[trigger] steps[i]) > 0;
        lemma_reorder_last(steps, i);
    } else if exists|i: int| 0 <= i < steps.len() && effect(#[trigger] steps[i]) < 0 {
        // a small total with a negative operation: placing the negative
        // one last keeps the rest's total at most 30
        let i = choose|i: int| 0 <= i < steps.len() && effect(#[trigger] steps[i]) < 0;
        lemma_reorder_last(steps, i);
    } else {
        // every operation is positive: the running progress climbs from 0
        // straight to the total, so the sequence is already a path
        lemma_prefix_sums_of_positives(steps);
        assert(valid_path(steps, t));
        assert(steps.len() == steps.len());
    }
}

/// Moving the chosen operation to the last slot and reordering the rest
/// by induction yields the path.
proof fn lemma_reorder_last(steps: Seq<ForgeStep>, i: int)
    requires
        all_ops(steps),
        0 <= sum_effects(steps) <= 150,
        0 <= i < steps.len(),
        0 <= sum_effects(steps) - effect(steps[i]) <= 150,
    ensures
        exists|p: Seq<ForgeStep>|
            valid_path(p, sum_effects(steps)) && #[trigger] p.len() == steps.len(),
    decreases steps.len(), 0int,
{
    let t = sum_effects(steps);
    let rest = steps.remove(i);
    lemma_sum_remove(steps, i);
    steps.remove_ensures(i);
    assert(all_ops(rest)) by {
        assert forall|j: int| 0 <= j < rest.len() implies is_op(#[trigger] rest[j]) by {
            if j < i {
                assert(rest[j] == steps[j]);
            } else {
                assert(rest[j] == steps[j + 1]);
            }
        }
    }
    lemma_reorder_into_path(rest);
    let q = choose|q: Seq<ForgeStep>|
        valid_path(q, sum_effects(rest)) && #[trigger] q.len() == rest.len();
    lemma_valid_path_push(q, sum_effects(rest), steps[i]);
    assert(q.push(steps[i]).len() == steps.len());
}

/// Dropping the last operation of a nonempty path leaves a path, whose
/// target is the previous progress value.
pub proof fn lemma_valid_path_drop_last(steps: Seq<ForgeStep>, target: int)
    requires
        valid_path(steps, target),
        steps.len() > 0,
    ensures
        valid_path(steps.drop_last(), sum_effects(steps.drop_last())),
        0 <= sum_effects(steps.drop_last()) <= 150,
        target == sum_effects(steps.drop_last()) + effect(steps.last()),
        is_op(steps.last()),
{
    let prev = steps.drop_last();
    assert(prev =~= steps.take(steps.len() - 1));
    assert forall|k: int| 0 <= k <= prev.len() implies 0 <= sum_effects(#[trigger] prev.take(k))
        <= 150 by {
        assert(prev.take(k) =~= steps.take(k));
    }
    assert(0 <= sum_effects(steps.take(steps.len() - 1)) <= 150);
}

} // verus!

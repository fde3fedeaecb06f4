//! The constrained solver: choose the last three operations under the
//! positional rules, subtract their effect from the target, look the
//! residual up in the shortest-path table, and trade suffix hit strength
//! against prefix length to minimize the whole sequence.

use vstd::prelude::*;

verus! {

use crate::step::ForgeOrder;
use crate::step::ForgeRule;
use crate::step::ForgeStep;
use crate::step::effect;
use crate::step::lemma_sum_concat;
use crate::step::op_at;
use crate::step::op_of;
use crate::step::sum_effects;
use crate::step::valid_path;
use crate::table::clone_entry;
use crate::table::in_range;
use crate::table::init_optimal_steps_to_target;
use crate::table::table_view;
use crate::table::spec_table;
use crate::table::table_wf;

/// The errors a solve request can end with.
#[derive(Clone, Copy, Debug, PartialEq, Eq, Structural)]
pub enum ForgeError {
    InvalidTarget,
    InvalidRuleCode,
    NoLegalSuffixFound,
    UnreachableResidual,
}

/// Whether one rule holds of a given choice of the last three operations.
pub open spec fn rule_ok(rule: ForgeRule, third: ForgeStep, second: ForgeStep, last: ForgeStep) -> bool {
    match rule.order {
        ForgeOrder::Any => third == rule.typ || second == rule.typ || last == rule.typ,
        ForgeOrder::NotLast => (third == rule.typ || second == rule.typ || last == rule.typ)
            && last != rule.typ,
        ForgeOrder::Last => last == rule.typ,
        ForgeOrder::SecLast => second == rule.typ,
        ForgeOrder::ThiLast => third == rule.typ,
    }
}

/// The three operations of the `k`-th triple in enumeration order:
/// the third-last varies slowest, the last varies fastest.
pub open spec fn triple_third(k: int) -> ForgeStep {
    op_of(k / 64)
}

pub open spec fn triple_second(k: int) -> ForgeStep {
    op_of((k / 8) % 8)
}

pub open spec fn triple_last(k: int) -> ForgeStep {
    op_of(k % 8)
}

pub open spec fn triple_seq(k: int) -> Seq<ForgeStep> {
    seq![triple_third(k), triple_second(k), triple_last(k)]
}

/// Whether every supplied rule holds of the `k`-th triple.
pub open spec fn triple_legal(k: int, rules: Seq<ForgeRule>) -> bool {
    forall|i: int|
        0 <= i < rules.len() ==> rule_ok(
            #[trigger] rules[i],
            triple_third(k),
            triple_second(k),
            triple_last(k),
        )
}

/// The first index at or after `k` whose triple satisfies every rule.
pub open spec fn first_legal_from(k: int, rules: Seq<ForgeRule>) -> Option<int>
    decreases 512 - k,
{
    if k < 0 || k >= 512 {
        Option::None
    } else if triple_legal(k, rules) {
        Option::Some(k)
    } else {
        first_legal_from(k + 1, rules)
    }
}

/// The suffix the enumeration selects: the first legal triple, or the
/// empty sequence when no triple satisfies every rule.
pub open spec fn suffix_spec(rules: Seq<ForgeRule>) -> Seq<ForgeStep> {
    match first_legal_from(0, rules) {
        Option::Some(k) => triple_seq(k),
        Option::None => Seq::empty(),
    }
}

/// How many light hits a sequence holds.
pub open spec fn count_light(s: Seq<ForgeStep>) -> int
    decreases s.len(),
{
    if s.len() == 0 {
        0
    } else {
        count_light(s.drop_last()) + if s.last() == ForgeStep::HitLight {
            1int
        } else {
            0int
        }
    }
}

/// The table entry for a residual, or the empty sequence out of range.
pub open spec fn lookup_seq(tab: Seq<Seq<ForgeStep>>, r: int) -> Seq<ForgeStep> {
    if 0 <= r <= 150 {
        tab[r]
    } else {
        Seq::empty()
    }
}

/// The power the scan settles on: the smallest upgrade budget in
/// 0..=pmax whose residual has the shortest stored prefix, scanning
/// upward and replacing only on a strict improvement.
pub open spec fn best_power_upto(tab: Seq<Seq<ForgeStep>>, r0: int, pmax: int) -> int
    decreases pmax,
{
    if pmax <= 0 {
        0
    } else {
        let b = best_power_upto(tab, r0, pmax - 1);
        if lookup_seq(tab, r0 + 3 * pmax).len() < lookup_seq(tab, r0 + 3 * b).len() {
            pmax
        } else {
            b
        }
    }
}

/// One operation under an upgrade budget: a light hit becomes a hard hit
/// for 2 units, or a medium hit for a final single unit; a medium hit
/// becomes a hard hit for 1 unit.
pub open spec fn upgrade_step(step: ForgeStep, budget: int) -> (ForgeStep, int) {
    if step == ForgeStep::HitLight && budget >= 2 {
        (ForgeStep::HitHard, budget - 2)
    } else if step == ForgeStep::HitLight && budget == 1 {
        (ForgeStep::HitMedium, 0)
    } else if step == ForgeStep::HitMedium && budget >= 1 {
        (ForgeStep::HitHard, budget - 1)
    } else {
        (step, budget)
    }
}

/// The suffix after draining the upgrade budget left to right, stopping
/// as soon as the budget is gone.
pub open spec fn upgrade(s: Seq<ForgeStep>, budget: int) -> Seq<ForgeStep>
    decreases s.len(),
{
    if s.len() == 0 || budget <= 0 {
        s
    } else {
        seq![upgrade_step(s.first(), budget).0] + upgrade(
            s.drop_first(),
            upgrade_step(s.first(), budget).1,
        )
    }
}

/// The reconciled full sequence: the stored prefix of the adjusted
/// residual, followed by the upgraded suffix.
pub open spec fn spec_reconcile(tab: Seq<Seq<ForgeStep>>, target: int, sfx: Seq<ForgeStep>) -> Seq<
    ForgeStep,
> {
    let r0 = target - sum_effects(sfx);
    let bp = best_power_upto(tab, r0, 2 * count_light(sfx));
    lookup_seq(tab, r0 + 3 * bp) + upgrade(sfx, bp)
}

/// The residual the chosen power selects against a table: what the
/// prefix looked up in the table must cover.
pub open spec fn chosen_residual(tab: Seq<Seq<ForgeStep>>, target: int, rules: Seq<ForgeRule>) -> int {
    let sfx = suffix_spec(rules);
    let r0 = target - sum_effects(sfx);
    r0 + 3 * best_power_upto(tab, r0, 2 * count_light(sfx))
}

/// The whole solve: reconcile against the suffix the rules select.
pub open spec fn spec_solve(tab: Seq<Seq<ForgeStep>>, target: int, rules: Seq<ForgeRule>) -> Seq<
    ForgeStep,
> {
    spec_reconcile(tab, target, suffix_spec(rules))
}

proof fn lemma_first_legal_found(rules: Seq<ForgeRule>, i: int, k: int)
    requires
        0 <= i <= k < 512,
        triple_legal(k, rules),
        forall|j: int| i <= j < k ==> !triple_legal(j, rules),
    ensures
        first_legal_from(i, rules) == Option::Some(k),
    decreases k - i,
{
    if i < k {
        lemma_first_legal_found(rules, i + 1, k);
    }
}

proof fn lemma_first_legal_none(rules: Seq<ForgeRule>, i: int)
    requires
        0 <= i <= 512,
        forall|j: int| i <= j < 512 ==> !triple_legal(j, rules),
    ensures
        first_legal_from(i, rules) is None,
    decreases 512 - i,
{
    if i < 512 {
        lemma_first_legal_none(rules, i + 1);
    }
}

proof fn lemma_first_legal_props(rules: Seq<ForgeRule>, i: int)
    requires
        0 <= i <= 512,
    ensures
        first_legal_from(i, rules) matches Some(k) ==> i <= k < 512 && triple_legal(k, rules)
            && (forall|j: int| i <= j < k ==> !triple_legal(j, rules)),
        first_legal_from(i, rules) is None ==> forall|j: int|
            i <= j < 512 ==> !triple_legal(j, rules),
    decreases 512 - i,
{
    if i < 512 && !triple_legal(i, rules) {
        lemma_first_legal_props(rules, i + 1);
    }
}

/// Law: the selected suffix satisfies every supplied rule, and the search
/// fails explicitly — with an empty suffix — exactly when no triple does.
pub proof fn lemma_suffix_legal(rules: Seq<ForgeRule>)
    ensures
        first_legal_from(0, rules) matches Some(k) ==> 0 <= k < 512 && triple_legal(k, rules)
            && suffix_spec(rules) == triple_seq(k),
        first_legal_from(0, rules) is None ==> suffix_spec(rules) =~= Seq::<ForgeStep>::empty()
            && (forall|k: int| 0 <= k < 512 ==> !triple_legal(k, rules)),
{
    lemma_first_legal_props(rules, 0);
}

/// The selected suffix holds three operations, or none.
pub proof fn lemma_suffix_len(rules: Seq<ForgeRule>)
    ensures
        suffix_spec(rules).len() == 3 || suffix_spec(rules).len() == 0,
        first_legal_from(0, rules) is Some <==> suffix_spec(rules).len() == 3,
{
}

proof fn lemma_count_light_nonneg(s: Seq<ForgeStep>)
    ensures
        0 <= count_light(s) <= s.len(),
    decreases s.len(),
{
    if s.len() > 0 {
        lemma_count_light_nonneg(s.drop_last());
    }
}

proof fn lemma_count_light_drop_first(s: Seq<ForgeStep>)
    requires
        s.len() > 0,
    ensures
        count_light(s) == count_light(s.drop_first()) + if s.first() == ForgeStep::HitLight {
            1int
        } else {
            0int
        },
    decreases s.len(),
{
    if s.len() == 1 {
        assert(s.drop_first() =~= Seq::<ForgeStep>::empty());
        assert(s.drop_last() =~= Seq::<ForgeStep>::empty());
    } else {
        lemma_count_light_drop_first(s.drop_last());
        assert(s.drop_last().drop_first() =~= s.drop_first().drop_last());
        assert(s.drop_first().last() == s.last());
    }
}

proof fn lemma_sum_drop_first(s: Seq<ForgeStep>)
    requires
        s.len() > 0,
    ensures
        sum_effects(s) == effect(s.first()) + sum_effects(s.drop_first()),
    decreases s.len(),
{
    if s.len() == 1 {
        assert(s.drop_first() =~= Seq::<ForgeStep>::empty());
        assert(s.drop_last() =~= Seq::<ForgeStep>::empty());
    } else {
        lemma_sum_drop_first(s.drop_last());
        assert(s.drop_last().drop_first() =~= s.drop_first().drop_last());
        assert(s.drop_first().last() == s.last());
    }
}

/// Upgrading never changes the number of operations.
pub proof fn lemma_upgrade_len(s: Seq<ForgeStep>, budget: int)
    ensures
        upgrade(s, budget).len() == s.len(),
    decreases s.len(),
{
    if s.len() > 0 && budget > 0 {
        lemma_upgrade_len(s.drop_first(), upgrade_step(s.first(), budget).1);
    }
}

/// A budget the suffix's light hits can absorb is drained completely, and
/// each unit lowers the suffix's total effect by 3.
pub proof fn lemma_upgrade_sum(s: Seq<ForgeStep>, budget: int)
    requires
        0 <= budget <= 2 * count_light(s),
    ensures
        sum_effects(upgrade(s, budget)) == sum_effects(s) - 3 * budget,
    decreases s.len(),
{
    if budget == 0 {
    } else if s.len() == 0 {
        lemma_count_light_nonneg(s);
        assert(false);
    } else {
        lemma_count_light_drop_first(s);
        lemma_count_light_nonneg(s.drop_first());
        let st = upgrade_step(s.first(), budget).0;
        let b2 = upgrade_step(s.first(), budget).1;
        lemma_upgrade_sum(s.drop_first(), b2);
        assert(upgrade(s, budget) == seq![st] + upgrade(s.drop_first(), b2));
        lemma_sum_concat(seq![st], upgrade(s.drop_first(), b2));
        assert(sum_effects(Seq::<ForgeStep>::empty()) == 0);
        assert(seq![st].drop_last() =~= Seq::<ForgeStep>::empty());
        assert(seq![st].last() == st);
        assert(sum_effects(seq![st]) == effect(st));
        lemma_sum_drop_first(s);
    }
}

/// The scanned power is in range and its residual's stored prefix is no
/// longer than the one any other power in range would give.
pub proof fn lemma_best_power_bounds(tab: Seq<Seq<ForgeStep>>, r0: int, pmax: int, q: int)
    requires
        0 <= q <= pmax,
    ensures
        0 <= best_power_upto(tab, r0, pmax) <= pmax,
        lookup_seq(tab, r0 + 3 * best_power_upto(tab, r0, pmax)).len() <= lookup_seq(
            tab,
            r0 + 3 * q,
        ).len(),
    decreases pmax,
{
    if pmax > 0 {
        let prior = if q < pmax {
            q
        } else {
            0int
        };
        lemma_best_power_bounds(tab, r0, pmax - 1, prior);
        if q == pmax && q != prior {
            lemma_best_power_bounds(tab, r0, pmax - 1, 0);
        }
    }
}

/// Law: when the residual the chosen power selects lies in the table's
/// range, the solved sequence's effects sum exactly to the target.
pub proof fn lemma_solution_sums_to_target(
    tab: Seq<Seq<ForgeStep>>,
    target: int,
    rules: Seq<ForgeRule>,
)
    requires
        table_wf(tab),
        in_range(chosen_residual(tab, target, rules)),
    ensures
        sum_effects(spec_solve(tab, target, rules)) == target,
{
    let sfx = suffix_spec(rules);
    let r0 = target - sum_effects(sfx);
    let pmax = 2 * count_light(sfx);
    let bp = best_power_upto(tab, r0, pmax);
    lemma_count_light_nonneg(sfx);
    lemma_best_power_bounds(tab, r0, pmax, 0);
    lemma_upgrade_sum(sfx, bp);
    lemma_sum_concat(lookup_seq(tab, r0 + 3 * bp), upgrade(sfx, bp));
}

/// Law: the chosen power never yields a longer full sequence than a
/// power of 0 — the baseline prefix plus the unchanged suffix — would.
pub proof fn lemma_power_choice_no_worse(
    tab: Seq<Seq<ForgeStep>>,
    target: int,
    rules: Seq<ForgeRule>,
)
    ensures
        spec_solve(tab, target, rules).len() <= lookup_seq(
            tab,
            target - sum_effects(suffix_spec(rules)),
        ).len() + suffix_spec(rules).len(),
{
    let sfx = suffix_spec(rules);
    let r0 = target - sum_effects(sfx);
    let pmax = 2 * count_light(sfx);
    let bp = best_power_upto(tab, r0, pmax);
    lemma_count_light_nonneg(sfx);
    lemma_best_power_bounds(tab, r0, pmax, 0);
    lemma_upgrade_len(sfx, bp);
}

/// Law: identical target and rules give an identical output sequence.
/// Every solve's result equals the one sequence `spec_solve` fixes over
/// the one table the traversal computes, so two results agree.
pub proof fn lemma_deterministic(
    target: int,
    rules: Seq<ForgeRule>,
    out1: Seq<ForgeStep>,
    out2: Seq<ForgeStep>,
)
    requires
        out1 == spec_solve(spec_table(), target, rules),
        out2 == spec_solve(spec_table(), target, rules),
    ensures
        out1 == out2,
{
}

proof fn lemma_best_power_same(
    t1: Seq<Seq<ForgeStep>>,
    t2: Seq<Seq<ForgeStep>>,
    r0: int,
    pmax: int,
)
    requires
        forall|i: int| 0 <= i <= 150 ==> #[trigger] t1[i].len() == t2[i].len(),
    ensures
        best_power_upto(t1, r0, pmax) == best_power_upto(t2, r0, pmax),
        forall|r: int| lookup_seq(t1, r).len() == #[trigger] lookup_seq(t2, r).len(),
    decreases pmax,
{
    if pmax > 0 {
        lemma_best_power_same(t1, t2, r0, pmax - 1);
    }
}

/// Law: any two well-formed tables store entries of equal length, so the
/// chosen power and the length of the solved sequence do not depend on
/// which well-formed table a solve used.
pub proof fn lemma_solution_length_deterministic(
    t1: Seq<Seq<ForgeStep>>,
    t2: Seq<Seq<ForgeStep>>,
    target: int,
    rules: Seq<ForgeRule>,
)
    requires
        table_wf(t1),
        table_wf(t2),
    ensures
        spec_solve(t1, target, rules).len() == spec_solve(t2, target, rules).len(),
{
    assert forall|i: int| 0 <= i <= 150 implies #[trigger] t1[i].len() == t2[i].len() by {
        assert(valid_path(t1[i], i));
        assert(valid_path(t2[i], i));
    }
    let sfx = suffix_spec(rules);
    let r0 = target - sum_effects(sfx);
    let pmax = 2 * count_light(sfx);
    lemma_best_power_same(t1, t2, r0, pmax);
    let bp = best_power_upto(t1, r0, pmax);
    lemma_upgrade_len(sfx, bp);
}

/// Whether one rule holds of a given choice of the last three operations.
fn rule_matches(rule: &ForgeRule, third: ForgeStep, second: ForgeStep, last: ForgeStep) -> (m: bool)
    ensures
        m == rule_ok(*rule, third, second, last),
{
    match rule.order {
        ForgeOrder::Any => third == rule.typ || second == rule.typ || last == rule.typ,
        ForgeOrder::NotLast => (third == rule.typ || second == rule.typ || last == rule.typ)
            && last != rule.typ,
        ForgeOrder::Last => last == rule.typ,
        ForgeOrder::SecLast => second == rule.typ,
        ForgeOrder::ThiLast => third == rule.typ,
    }
}

/// Enumerates all ordered triples of operations in the fixed order and
/// returns the first one that satisfies every rule, or an empty vector
/// when the rules are unsatisfiable.
pub fn find_legal_suffix(rules: &Vec<ForgeRule>) -> (sfx: Vec<ForgeStep>)
    ensures
        sfx@ == suffix_spec(rules@),
{
    let mut k: usize = 0;
    while k < 512
        invariant
            k <= 512,
            forall|j: int| 0 <= j < k ==> !triple_legal(j, rules@),
        decreases 512 - k,
    {
        let third = op_at(k / 64);
        let second = op_at((k / 8) % 8);
        let last = op_at(k % 8);
        proof {
            assert(third == triple_third(k as int));
            assert(second == triple_second(k as int));
            assert(last == triple_last(k as int));
        }
        let mut ok = true;
        let mut ri: usize = 0;
        while ri < rules.len()
            invariant
                ri <= rules@.len(),
                ok <==> (forall|x: int|
                    0 <= x < ri ==> rule_ok(#[trigger] rules@[x], third, second, last)),
            decreases rules@.len() - ri,
        {
            let m = rule_matches(&rules[ri], third, second, last);
            ok = ok && m;
            ri += 1;
        }
        if ok {
            proof {
                assert(triple_legal(k as int, rules@));
                lemma_first_legal_found(rules@, 0, k as int);
            }
            let mut out: Vec<ForgeStep> = Vec::new();
            out.push(third);
            out.push(second);
            out.push(last);
            proof {
                assert(out@ =~= triple_seq(k as int));
            }
            return out;
        }
        k += 1;
    }
    proof {
        lemma_first_legal_none(rules@, 0);
    }
    let out: Vec<ForgeStep> = Vec::new();
    proof {
        assert(out@ =~= suffix_spec(rules@));
    }
    out
}

/// The stored prefix for a residual, copied out, or empty out of range.
fn lookup_clone(pat: &Vec<Vec<ForgeStep>>, r: i64) -> (v: Vec<ForgeStep>)
    requires
        pat@.len() == 151,
    ensures
        v@ == lookup_seq(table_view(pat@), r as int),
{
    if 0 <= r && r <= 150 {
        clone_entry(pat, r as usize)
    } else {
        Vec::new()
    }
}

/// The stored prefix's length for a residual, or 0 out of range.
fn lookup_len(pat: &Vec<Vec<ForgeStep>>, r: i64) -> (n: usize)
    requires
        pat@.len() == 151,
    ensures
        n == lookup_seq(table_view(pat@), r as int).len(),
{
    if 0 <= r && r <= 150 {
        pat[r as usize].len()
    } else {
        0
    }
}

proof fn lemma_upgrade_unfold(s: Seq<ForgeStep>, budget: int)
    requires
        s.len() > 0,
        budget > 0,
    ensures
        upgrade(s, budget) == seq![upgrade_step(s.first(), budget).0] + upgrade(
            s.drop_first(),
            upgrade_step(s.first(), budget).1,
        ),
{
}

/// The residual left once the suffix's effect is subtracted from the
/// target, and the upgrade power the scan over the table selects.
fn residual_and_power(target: i32, suffix: &Vec<ForgeStep>, pat: &Vec<Vec<ForgeStep>>) -> (out: (
    i64,
    usize,
))
    requires
        pat@.len() == 151,
        suffix@.len() <= 3,
    ensures
        out.0 as int == target as int - sum_effects(suffix@),
        target as int - 48 <= out.0 as int <= target as int + 48,
        out.1 <= 6,
        out.1 as int == best_power_upto(
            table_view(pat@),
            target as int - sum_effects(suffix@),
            2 * count_light(suffix@),
        ),
{
    let ghost tab = table_view(pat@);
    let ghost sfx0 = suffix@;
    let mut ssum: i64 = 0;
    let mut lights: usize = 0;
    let mut i: usize = 0;
    while i < suffix.len()
        invariant
            suffix@ == sfx0,
            sfx0.len() <= 3,
            i <= sfx0.len(),
            -16 * (i as int) <= ssum as int <= 16 * (i as int),
            ssum as int == sum_effects(sfx0.take(i as int)),
            lights as int == count_light(sfx0.take(i as int)),
            lights <= i,
        decreases sfx0.len() - i,
    {
        let e = suffix[i].get_effect();
        ssum = ssum + e as i64;
        if suffix[i] == ForgeStep::HitLight {
            lights = lights + 1;
        }
        i += 1;
        proof {
            assert(sfx0.take(i as int).drop_last() =~= sfx0.take(i - 1));
            assert(sfx0.take(i as int).last() == sfx0[i - 1]);
        }
    }
    proof {
        assert(sfx0.take(i as int) =~= sfx0);
    }
    let r0: i64 = target as i64 - ssum;
    let pmax: usize = 2 * lights;
    let mut best: usize = 0;
    let mut best_len: usize = lookup_len(pat, r0);
    let mut p: usize = 1;
    while p <= pmax
        invariant
            pat@.len() == 151,
            tab == table_view(pat@),
            pmax <= 6,
            1 <= p <= pmax + 1,
            -(0x8000_0000i64) - 48 <= r0 <= 0x8000_0000i64 + 48,
            best as int == best_power_upto(tab, r0 as int, p - 1),
            best <= pmax,
            best_len == lookup_seq(tab, r0 as int + 3 * (best as int)).len(),
        decreases pmax + 1 - p,
    {
        let cand = lookup_len(pat, r0 + 3 * (p as i64));
        if cand < best_len {
            best = p;
            best_len = cand;
        }
        p += 1;
    }
    proof {
        assert(best as int == best_power_upto(tab, r0 as int, pmax as int));
    }
    (r0, best)
}

/// Reconciles the precomputed prefix with a chosen suffix: subtracts the
/// suffix's effect from the target, scans the upgrade powers for the
/// shortest residual prefix, drains the winning budget into the suffix,
/// and concatenates prefix and suffix.
pub fn reconcile_and_minimize(
    target: i32,
    suffix: Vec<ForgeStep>,
    pat: &Vec<Vec<ForgeStep>>,
) -> (result: Vec<ForgeStep>)
    requires
        pat@.len() == 151,
        suffix@.len() <= 3,
    ensures
        result@ == spec_reconcile(table_view(pat@), target as int, suffix@),
{
    let ghost tab = table_view(pat@);
    let ghost sfx0 = suffix@;
    let (r0, best) = residual_and_power(target, &suffix, pat);
    let mut sfx = suffix;
    proof {
        assert(sfx@.skip(0) =~= sfx0);
        assert(sfx@.take(0) + upgrade(sfx@.skip(0), best as int) =~= upgrade(sfx0, best as int));
    }
    let mut budget: usize = best;
    let mut j: usize = 0;
    while j < sfx.len() && budget > 0
        invariant
            sfx@.len() == sfx0.len(),
            j <= sfx0.len(),
            budget <= best,
            forall|x: int| j <= x < sfx0.len() ==> sfx@[x] == sfx0[x],
            upgrade(sfx0, best as int) == sfx@.take(j as int) + upgrade(
                sfx@.skip(j as int),
                budget as int,
            ),
        decreases sfx0.len() - j,
    {
        let ghost pre = sfx@;
        proof {
            assert(pre.skip(j as int).first() == pre[j as int]);
            lemma_upgrade_unfold(pre.skip(j as int), budget as int);
        }
        let ghost st = upgrade_step(pre[j as int], budget as int).0;
        let ghost b2 = upgrade_step(pre[j as int], budget as int).1;
        if sfx[j] == ForgeStep::HitLight {
            if budget >= 2 {
                sfx[j] = ForgeStep::HitHard;
                budget = budget - 2;
            } else {
                sfx[j] = ForgeStep::HitMedium;
                budget = budget - 1;
            }
        } else if sfx[j] == ForgeStep::HitMedium {
            sfx[j] = ForgeStep::HitHard;
            budget = budget - 1;
        }
        j += 1;
        proof {
            assert(sfx@[j - 1] == st);
            assert(budget as int == b2);
            assert(pre.skip(j - 1).drop_first() =~= sfx@.skip(j as int));
            assert(sfx@.take(j as int) =~= pre.take(j - 1) + seq![st]);
            assert(sfx@.take(j as int) + upgrade(sfx@.skip(j as int), budget as int) =~= pre.take(
                j - 1,
            ) + (seq![st] + upgrade(pre.skip(j - 1).drop_first(), b2)));
        }
    }
    proof {
        if j == sfx@.len() {
            assert(sfx@.skip(j as int) =~= Seq::<ForgeStep>::empty());
            assert(sfx@.take(j as int) =~= sfx@);
            assert(sfx@.take(j as int) + upgrade(sfx@.skip(j as int), budget as int) =~= sfx@);
        } else {
            assert(sfx@.take(j as int) + sfx@.skip(j as int) =~= sfx@);
        }
        assert(sfx@ == upgrade(sfx0, best as int));
    }
    let mut result = lookup_clone(pat, r0 + 3 * (best as i64));
    result.append(&mut sfx);
    result
}

/// Builds the table, chooses the suffix the rules allow, and reconciles.
/// The rule set must admit a legal triple: an unsatisfiable one is an
/// explicit failure, which `solve` reports before ever coming here.
pub fn calculate_optimal_steps_to_target(target: i32, rules: Vec<ForgeRule>) -> (result: Vec<ForgeStep>)
    requires
        first_legal_from(0, rules@) is Some,
    ensures
        table_wf(spec_table()),
        result@ == spec_solve(spec_table(), target as int, rules@),
{
    let pat = init_optimal_steps_to_target();
    let sfx = find_legal_suffix(&rules);
    proof {
        lemma_suffix_len(rules@);
    }
    let result = reconcile_and_minimize(target, sfx, &pat);
    result
}

/// Solves one request at the solver boundary: rejects a target outside
/// 0..=150, reports an unsatisfiable rule set, flags a chosen residual
/// the table cannot cover — an empty prefix beside a nonzero residual —
/// and otherwise returns the reconciled sequence, which then sums
/// exactly to the target.
pub fn solve(target: i32, rules: &Vec<ForgeRule>) -> (r: Result<Vec<ForgeStep>, ForgeError>)
    ensures
        !(0 <= target <= 150) ==> r == Result::<Vec<ForgeStep>, ForgeError>::Err(
            ForgeError::InvalidTarget,
        ),
        0 <= target <= 150 && first_legal_from(0, rules@) is None ==> r == Result::<
            Vec<ForgeStep>,
            ForgeError,
        >::Err(ForgeError::NoLegalSuffixFound),
        0 <= target <= 150 && first_legal_from(0, rules@) is Some && !in_range(
            chosen_residual(spec_table(), target as int, rules@),
        ) ==> r == Result::<Vec<ForgeStep>, ForgeError>::Err(ForgeError::UnreachableResidual),
        0 <= target <= 150 && first_legal_from(0, rules@) is Some && in_range(
            chosen_residual(spec_table(), target as int, rules@),
        ) ==> (r matches Ok(steps) && steps@ == spec_solve(spec_table(), target as int, rules@)
            && sum_effects(steps@) == target as int),
        r is Ok <==> 0 <= target <= 150 && first_legal_from(0, rules@) is Some && in_range(
            chosen_residual(spec_table(), target as int, rules@),
        ),
{
    if target < 0 || target > 150 {
        return Result::Err(ForgeError::InvalidTarget);
    }
    let pat = init_optimal_steps_to_target();
    let sfx = find_legal_suffix(&rules);
    proof {
        lemma_suffix_len(rules@);
    }
    if sfx.len() == 0 {
        return Result::Err(ForgeError::NoLegalSuffixFound);
    }
    let (r0, best) = residual_and_power(target, &sfx, &pat);
    let chosen = r0 + 3 * (best as i64);
    proof {
        assert(chosen as int == chosen_residual(spec_table(), target as int, rules@));
    }
    if chosen < 0 || chosen > 150 {
        return Result::Err(ForgeError::UnreachableResidual);
    }
    proof {
        lemma_solution_sums_to_target(spec_table(), target as int, rules@);
    }
    let result = reconcile_and_minimize(target, sfx, &pat);
    Result::Ok(result)
}

/// Whether a two-digit rule code has a usable position and operation digit.
pub open spec fn valid_rule_code(code: int) -> bool {
    1 <= code % 10 <= 5 && 1 <= code / 10 <= 6
}

/// The position constraint a units digit selects.
pub open spec fn order_of_digit(d: int) -> ForgeOrder {
    if d == 1 {
        ForgeOrder::Last
    } else if d == 2 {
        ForgeOrder::SecLast
    } else if d == 3 {
        ForgeOrder::ThiLast
    } else if d == 4 {
        ForgeOrder::NotLast
    } else {
        ForgeOrder::Any
    }
}

/// The operation a tens digit selects: only 6 of the variants can be
/// named by a rule code.
pub open spec fn typ_of_digit(d: int) -> ForgeStep {
    if d == 1 {
        ForgeStep::HitLight
    } else if d == 2 {
        ForgeStep::Draw
    } else if d == 3 {
        ForgeStep::Punch
    } else if d == 4 {
        ForgeStep::Bend
    } else if d == 5 {
        ForgeStep::Upset
    } else {
        ForgeStep::Shrink
    }
}

/// Decodes one user-supplied rule code: 0 means no rule; the tens digit
/// names the operation, the units digit the position; anything else is a
/// fatal input error.
pub fn rule_from_code(code: u64) -> (r: Result<Option<ForgeRule>, ForgeError>)
    ensures
        code == 0 ==> r == Result::<Option<ForgeRule>, ForgeError>::Ok(Option::<ForgeRule>::None),
        code != 0 && valid_rule_code(code as int) ==> r == Result::<
            Option<ForgeRule>,
            ForgeError,
        >::Ok(
            Option::Some(
                ForgeRule {
                    order: order_of_digit(code as int % 10),
                    typ: typ_of_digit(code as int / 10),
                },
            ),
        ),
        code != 0 && !valid_rule_code(code as int) ==> r == Result::<
            Option<ForgeRule>,
            ForgeError,
        >::Err(ForgeError::InvalidRuleCode),
{
    if code == 0 {
        return Result::Ok(Option::None);
    }
    let units = code % 10;
    let tens = code / 10;
    let order = if units == 1 {
        ForgeOrder::Last
    } else if units == 2 {
        ForgeOrder::SecLast
    } else if units == 3 {
        ForgeOrder::ThiLast
    } else if units == 4 {
        ForgeOrder::NotLast
    } else if units == 5 {
        ForgeOrder::Any
    } else {
        return Result::Err(ForgeError::InvalidRuleCode);
    };
    let typ = if tens == 1 {
        ForgeStep::HitLight
    } else if tens == 2 {
        ForgeStep::Draw
    } else if tens == 3 {
        ForgeStep::Punch
    } else if tens == 4 {
        ForgeStep::Bend
    } else if tens == 5 {
        ForgeStep::Upset
    } else if tens == 6 {
        ForgeStep::Shrink
    } else {
        return Result::Err(ForgeError::InvalidRuleCode);
    };
    Result::Ok(Option::Some(ForgeRule { order, typ }))
}

} // verus!

use forge_solver::solver::ForgeError;
use forge_solver::solver::calculate_optimal_steps_to_target;
use forge_solver::solver::find_legal_suffix;
use forge_solver::solver::rule_from_code;
use forge_solver::solver::solve;
use forge_solver::step::ForgeOrder;
use forge_solver::step::ForgeRule;
use forge_solver::step::ForgeStep;

fn sum_of(steps: &[ForgeStep]) -> i64 {
    let mut total: i64 = 0;
    for s in steps {
        total += s.get_effect() as i64;
    }
    total
}

fn rule(order: ForgeOrder, typ: ForgeStep) -> ForgeRule {
    ForgeRule { order, typ }
}

#[test]
fn no_rules_selects_three_light_hits() {
    let sfx = find_legal_suffix(&vec![]);
    assert_eq!(
        sfx,
        vec![ForgeStep::HitLight, ForgeStep::HitLight, ForgeStep::HitLight]
    );
}

#[test]
fn last_shrink_selects_first_triple_ending_in_shrink() {
    let sfx = find_legal_suffix(&vec![rule(ForgeOrder::Last, ForgeStep::Shrink)]);
    assert_eq!(
        sfx,
        vec![ForgeStep::HitLight, ForgeStep::HitLight, ForgeStep::Shrink]
    );
    assert_eq!(sfx[2], ForgeStep::Shrink);
}

#[test]
fn positional_rules_pin_their_slots() {
    let sfx = find_legal_suffix(&vec![rule(ForgeOrder::SecLast, ForgeStep::Punch)]);
    assert_eq!(
        sfx,
        vec![ForgeStep::HitLight, ForgeStep::Punch, ForgeStep::HitLight]
    );
    let sfx = find_legal_suffix(&vec![rule(ForgeOrder::ThiLast, ForgeStep::Bend)]);
    assert_eq!(
        sfx,
        vec![ForgeStep::Bend, ForgeStep::HitLight, ForgeStep::HitLight]
    );
    let sfx = find_legal_suffix(&vec![rule(ForgeOrder::Any, ForgeStep::Upset)]);
    assert_eq!(
        sfx,
        vec![ForgeStep::HitLight, ForgeStep::HitLight, ForgeStep::Upset]
    );
}

#[test]
fn not_last_requires_presence_away_from_the_last_slot() {
    let sfx = find_legal_suffix(&vec![rule(ForgeOrder::NotLast, ForgeStep::Draw)]);
    assert_eq!(
        sfx,
        vec![ForgeStep::HitLight, ForgeStep::Draw, ForgeStep::HitLight]
    );
}

#[test]
fn contradictory_rules_fail_with_an_empty_suffix() {
    let rules = vec![
        rule(ForgeOrder::Last, ForgeStep::HitLight),
        rule(ForgeOrder::NotLast, ForgeStep::HitLight),
    ];
    assert!(find_legal_suffix(&rules).is_empty());
}

#[test]
fn target_zero_without_rules() {
    let out = calculate_optimal_steps_to_target(0, vec![]);
    assert_eq!(
        out,
        vec![
            ForgeStep::Punch,
            ForgeStep::Bend,
            ForgeStep::HitLight,
            ForgeStep::HitLight,
            ForgeStep::HitLight,
        ]
    );
    assert_eq!(sum_of(&out), 0);
}

#[test]
fn target_sixteen_without_rules() {
    let out = calculate_optimal_steps_to_target(16, vec![]);
    assert_eq!(
        out,
        vec![
            ForgeStep::Punch,
            ForgeStep::Bend,
            ForgeStep::Shrink,
            ForgeStep::HitLight,
            ForgeStep::HitLight,
            ForgeStep::HitLight,
        ]
    );
    assert_eq!(sum_of(&out), 16);
    assert_eq!(out.len(), 6);
}

#[test]
fn upgrade_turns_a_light_hit_into_a_medium_hit() {
    // Suffix [light, light, shrink]; a budget of 1 beats the baseline,
    // so the first light hit becomes a medium hit.
    let out = calculate_optimal_steps_to_target(20, vec![rule(ForgeOrder::Last, ForgeStep::Shrink)]);
    assert_eq!(
        out,
        vec![
            ForgeStep::Upset,
            ForgeStep::HitMedium,
            ForgeStep::HitLight,
            ForgeStep::Shrink,
        ]
    );
    assert_eq!(sum_of(&out), 20);
}

#[test]
fn upgrade_drains_through_a_medium_hit() {
    // Suffix [medium, light, light]; a budget of 2 turns the medium hit
    // hard and the first light hit medium.
    let out = calculate_optimal_steps_to_target(
        -11,
        vec![rule(ForgeOrder::ThiLast, ForgeStep::HitMedium)],
    );
    assert_eq!(
        out,
        vec![
            ForgeStep::Bend,
            ForgeStep::HitHard,
            ForgeStep::HitMedium,
            ForgeStep::HitLight,
        ]
    );
    assert_eq!(sum_of(&out), -11);
}

#[test]
fn results_sum_to_the_target_while_the_residual_stays_in_range() {
    for target in 0..=123 {
        let out = calculate_optimal_steps_to_target(target, vec![]);
        assert_eq!(sum_of(&out), target as i64, "target {}", target);
    }
}

#[test]
fn high_targets_degrade_to_the_bare_suffix() {
    // With no rules the residual for 150 is 159, beyond the table, so the
    // prefix stays empty and only the suffix is returned.
    let out = calculate_optimal_steps_to_target(150, vec![]);
    assert_eq!(
        out,
        vec![ForgeStep::HitLight, ForgeStep::HitLight, ForgeStep::HitLight]
    );
}

#[test]
fn identical_requests_give_identical_sequences() {
    let rules = vec![rule(ForgeOrder::Last, ForgeStep::Shrink)];
    let first = calculate_optimal_steps_to_target(97, rules.clone());
    let second = calculate_optimal_steps_to_target(97, rules);
    assert_eq!(first, second);
}

#[test]
fn solve_rejects_targets_outside_the_range() {
    assert_eq!(solve(151, &vec![]), Err(ForgeError::InvalidTarget));
    assert_eq!(solve(-1, &vec![]), Err(ForgeError::InvalidTarget));
}

#[test]
fn solve_reports_an_unsatisfiable_rule_set() {
    let rules = vec![
        rule(ForgeOrder::Last, ForgeStep::HitLight),
        rule(ForgeOrder::NotLast, ForgeStep::HitLight),
    ];
    assert_eq!(solve(30, &rules), Err(ForgeError::NoLegalSuffixFound));
}

#[test]
fn solve_flags_an_unreachable_chosen_residual() {
    // With no rules the residual for 150 is 159, and for 124 the scan
    // drifts to 151: both leave the table's range and must be flagged
    // instead of silently returning a wrong sum.
    assert_eq!(solve(150, &vec![]), Err(ForgeError::UnreachableResidual));
    assert_eq!(solve(124, &vec![]), Err(ForgeError::UnreachableResidual));
    let ok = solve(123, &vec![]).unwrap();
    let total: i64 = ok.iter().map(|s| s.get_effect() as i64).sum();
    assert_eq!(total, 123);
}

#[test]
fn solve_agrees_with_the_plain_calculation() {
    let out = solve(16, &vec![]).unwrap();
    assert_eq!(out, calculate_optimal_steps_to_target(16, vec![]));
}

#[test]
fn rule_codes_decode_tens_as_operation_and_units_as_position() {
    assert_eq!(rule_from_code(0), Ok(None));
    assert_eq!(
        rule_from_code(61),
        Ok(Some(rule(ForgeOrder::Last, ForgeStep::Shrink)))
    );
    assert_eq!(
        rule_from_code(11),
        Ok(Some(rule(ForgeOrder::Last, ForgeStep::HitLight)))
    );
    assert_eq!(
        rule_from_code(45),
        Ok(Some(rule(ForgeOrder::Any, ForgeStep::Bend)))
    );
    assert_eq!(
        rule_from_code(24),
        Ok(Some(rule(ForgeOrder::NotLast, ForgeStep::Draw)))
    );
    assert_eq!(
        rule_from_code(32),
        Ok(Some(rule(ForgeOrder::SecLast, ForgeStep::Punch)))
    );
    assert_eq!(
        rule_from_code(53),
        Ok(Some(rule(ForgeOrder::ThiLast, ForgeStep::Upset)))
    );
}

#[test]
fn bad_rule_codes_are_fatal() {
    assert_eq!(rule_from_code(7), Err(ForgeError::InvalidRuleCode));
    assert_eq!(rule_from_code(10), Err(ForgeError::InvalidRuleCode));
    assert_eq!(rule_from_code(66), Err(ForgeError::InvalidRuleCode));
    assert_eq!(rule_from_code(71), Err(ForgeError::InvalidRuleCode));
    assert_eq!(rule_from_code(125), Err(ForgeError::InvalidRuleCode));
}

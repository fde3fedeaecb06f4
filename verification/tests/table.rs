use forge_solver::step::ForgeStep;
use forge_solver::table::get_optimal_steps_to_target;
use forge_solver::table::init_optimal_steps_to_target;

fn sum_of(steps: &[ForgeStep]) -> i64 {
    let mut total: i64 = 0;
    for s in steps {
        total += s.get_effect() as i64;
    }
    total
}

#[test]
fn effects_match_the_fixed_table() {
    assert_eq!(ForgeStep::HitLight.get_effect(), -3);
    assert_eq!(ForgeStep::HitMedium.get_effect(), -6);
    assert_eq!(ForgeStep::HitHard.get_effect(), -9);
    assert_eq!(ForgeStep::Draw.get_effect(), -15);
    assert_eq!(ForgeStep::Punch.get_effect(), 2);
    assert_eq!(ForgeStep::Bend.get_effect(), 7);
    assert_eq!(ForgeStep::Upset.get_effect(), 13);
    assert_eq!(ForgeStep::Shrink.get_effect(), 16);
    assert_eq!(ForgeStep::Rest.get_effect(), 0);
}

#[test]
fn names_are_fixed() {
    assert_eq!(ForgeStep::HitLight.get_name(), "轻击");
    assert_eq!(ForgeStep::HitMedium.get_name(), "击打");
    assert_eq!(ForgeStep::HitHard.get_name(), "重击");
    assert_eq!(ForgeStep::Draw.get_name(), "牵拉");
    assert_eq!(ForgeStep::Punch.get_name(), "冲压");
    assert_eq!(ForgeStep::Bend.get_name(), "弯曲");
    assert_eq!(ForgeStep::Upset.get_name(), "镦锻");
    assert_eq!(ForgeStep::Shrink.get_name(), "收缩");
    assert_eq!(ForgeStep::Rest.get_name(), "无");
}

#[test]
fn table_has_151_entries_and_every_entry_sums_to_its_index() {
    let pat = init_optimal_steps_to_target();
    assert_eq!(pat.len(), 151);
    assert!(pat[0].is_empty());
    for target in 0..=150usize {
        assert_eq!(sum_of(&pat[target]), target as i64, "entry {}", target);
    }
}

#[test]
fn table_holds_the_expected_first_discoveries() {
    let pat = init_optimal_steps_to_target();
    assert_eq!(pat[16], vec![ForgeStep::Shrink]);
    assert_eq!(pat[13], vec![ForgeStep::Upset]);
    assert_eq!(pat[7], vec![ForgeStep::Bend]);
    assert_eq!(pat[2], vec![ForgeStep::Punch]);
    assert_eq!(pat[9], vec![ForgeStep::Punch, ForgeStep::Bend]);
    assert_eq!(pat[1], vec![ForgeStep::Bend, ForgeStep::HitMedium]);
    assert_eq!(pat[4], vec![ForgeStep::Punch, ForgeStep::Punch]);
    assert_eq!(pat[10], vec![ForgeStep::Upset, ForgeStep::HitLight]);
}

#[test]
fn lookup_returns_empty_outside_the_range() {
    let pat = init_optimal_steps_to_target();
    assert!(get_optimal_steps_to_target(&pat, -1).is_empty());
    assert!(get_optimal_steps_to_target(&pat, 151).is_empty());
    assert_eq!(
        get_optimal_steps_to_target(&pat, 9),
        vec![ForgeStep::Punch, ForgeStep::Bend]
    );
}

#[test]
fn no_two_step_path_reaches_a_three_step_value() {
    // 12 needs three operations; every entry is minimal, so none of the
    // 64 ordered pairs may reach it while staying in range.
    let pat = init_optimal_steps_to_target();
    assert_eq!(pat[12].len(), 3);
    let ops = [
        ForgeStep::HitLight,
        ForgeStep::HitMedium,
        ForgeStep::HitHard,
        ForgeStep::Draw,
        ForgeStep::Punch,
        ForgeStep::Bend,
        ForgeStep::Upset,
        ForgeStep::Shrink,
    ];
    for a in ops {
        for b in ops {
            let mid = a.get_effect() as i64;
            let end = mid + b.get_effect() as i64;
            let in_range = (0..=150).contains(&mid) && (0..=150).contains(&end);
            assert!(!(in_range && end == 12));
        }
    }
}

use calldown::objective::alignment::ALIGNMENT_REWARD;
use calldown::objective::exclusion::EXCLUSION_PENALTY;
use calldown::objective::spacing::{SPACING_LIMIT, SPACING_PENALTY};
use calldown::{
    ExclusionObjective, GeneralAlignmentObjective, Loss, Objective, PairObjective,
    SpacingObjective, VectorObjective,
};

/// The loss of a whole number.
fn whole(number: i128) -> Loss {
    Loss { whole: number, fraction: 0 }
}

/// The loss `whole + 1 / 2^places`.
fn with_bit(whole: i128, places: u32) -> Loss {
    Loss { whole, fraction: 1u128 << (128 - places) }
}

fn names(items: &[&str]) -> Vec<String> {
    items.iter().map(|s| s.to_string()).collect()
}

#[test]
fn rules_score_in_whole_losses() {
    assert_eq!(ALIGNMENT_REWARD, 10);
    assert_eq!(EXCLUSION_PENALTY, 1000);
    assert_eq!(SPACING_PENALTY, 100);
    assert_eq!(SPACING_LIMIT, 50);
}

#[test]
fn losses_are_ordered_as_numbers() {
    assert!(whole(-1) < whole(0));
    assert!(whole(0) < with_bit(0, 128));
    assert!(with_bit(0, 128) < with_bit(0, 1));
    assert!(with_bit(0, 1) < whole(1));
    assert!(with_bit(-1, 1) < whole(0));
    assert!(whole(-1) < with_bit(-1, 1));
    assert!(whole(0).no_worse_than(whole(0)));
    assert!(with_bit(-1, 1).no_worse_than(whole(0)));
    assert!(!with_bit(0, 128).no_worse_than(whole(0)));
    assert!(whole(-2).no_worse_than(with_bit(-2, 128)));
    assert!(!whole(3).no_worse_than(with_bit(2, 1)));
}

#[test]
fn losses_add_with_carry() {
    assert_eq!(whole(2).plus(whole(-5)), whole(-3));
    assert_eq!(with_bit(0, 1).plus(with_bit(0, 1)), whole(1));
    assert_eq!(with_bit(-3, 1).plus(with_bit(1, 1)), whole(-1));
    assert_eq!(with_bit(0, 2).plus(with_bit(0, 2)), with_bit(0, 1));
    let nearly_one = Loss { whole: 0, fraction: u128::MAX };
    assert_eq!(nearly_one.plus(with_bit(0, 128)), whole(1));
    assert_eq!(nearly_one.plus(nearly_one), Loss { whole: 1, fraction: u128::MAX - 1 });
    // The least and the greatest are reached with a carry.
    let half = 1u128 << 127;
    assert_eq!(
        Loss { whole: i128::MIN, fraction: half }.plus(Loss { whole: -1, fraction: half }),
        whole(i128::MIN)
    );
    assert_eq!(
        Loss { whole: -1, fraction: half }.plus(Loss { whole: i128::MIN, fraction: half }),
        whole(i128::MIN)
    );
    assert_eq!(
        Loss { whole: i128::MAX - 1, fraction: u128::MAX }.plus(with_bit(0, 128)),
        whole(i128::MAX)
    );
    assert_eq!(
        with_bit(0, 128).plus(Loss { whole: i128::MAX - 1, fraction: u128::MAX }),
        whole(i128::MAX)
    );
    assert_eq!(Loss::times(-10, 4), whole(-40));
    assert_eq!(Loss::times(-1, 7), whole(-7));
    assert_eq!(Loss::times(1000, 0), whole(0));
}

#[test]
fn alignment_counts_matching_slots() {
    let objective = GeneralAlignmentObjective::new(names(&["A", "C", "B", "D"]));
    assert_eq!(objective.loss(&["A", "B", "C", "D"]), whole(-20));
    assert_eq!(objective.loss(&["A", "C", "B", "D"]), whole(-40));
    assert_eq!(objective.loss(&["D", "A", "C", "B"]), whole(0));
}

#[test]
fn alignment_of_nothing_is_zero() {
    let objective = GeneralAlignmentObjective::new(names(&[]));
    assert_eq!(objective.loss(&[]), whole(0));
}

#[test]
fn alignment_tells_identifiers_apart_by_every_character() {
    let objective = GeneralAlignmentObjective::new(names(&["Ann", "Bo", ""]));
    assert_eq!(objective.loss(&["Ann", "Bob", ""]), whole(-20));
    assert_eq!(objective.loss(&["ann", "Bo", " "]), whole(-10));
}

#[test]
fn alignment_falls_by_one_reward_for_each_new_match() {
    let objective = GeneralAlignmentObjective::new(names(&["A", "B", "C", "D"]));
    let steps: [[&str; 4]; 5] = [
        ["x", "x", "x", "x"],
        ["A", "x", "x", "x"],
        ["A", "x", "C", "x"],
        ["A", "B", "C", "x"],
        ["A", "B", "C", "D"],
    ];
    let mut last = objective.loss(&steps[0]);
    assert_eq!(last, whole(0));
    for step in &steps[1..] {
        let loss = objective.loss(step);
        assert_eq!(loss, last.plus(whole(-ALIGNMENT_REWARD)));
        last = loss;
    }
}

#[test]
fn exclusion_counts_forbidden_slots() {
    let objective = ExclusionObjective::new(vec![
        names(&["A", "B"]),
        names(&[]),
        names(&["B"]),
        names(&["D"]),
    ]);
    assert_eq!(objective.loss(&["A", "B", "C", "D"]), whole(2000));
    assert_eq!(objective.loss(&["B", "A", "B", "D"]), whole(3000));
    assert_eq!(objective.loss(&["C", "A", "D", "B"]), whole(0));
}

#[test]
fn exclusion_without_forbidden_identifiers_is_zero() {
    let objective = ExclusionObjective::new(vec![names(&[]), names(&[]), names(&[])]);
    assert_eq!(objective.loss(&["A", "B", "A"]), whole(0));
    assert_eq!(ExclusionObjective::new(vec![]).loss(&[]), whole(0));
}

#[test]
fn exclusion_lists_may_repeat_an_identifier() {
    let objective = ExclusionObjective::new(vec![names(&["A", "A", "B"])]);
    assert_eq!(objective.loss(&["A"]), whole(1000));
    assert_eq!(objective.loss(&["C"]), whole(0));
}

#[test]
fn forbidden_identifier_in_third_slot_costs_one_penalty() {
    let objective =
        ExclusionObjective::new(vec![names(&[]), names(&[]), names(&["B"]), names(&[])]);
    let with_b = objective.loss(&["A", "C", "B", "D"]);
    let without_b = objective.loss(&["A", "B", "C", "D"]);
    assert_eq!(with_b, without_b.plus(whole(1000)));
    assert_eq!(with_b, objective.loss(&["B", "C", "A", "D"]).plus(whole(EXCLUSION_PENALTY)));
}

#[test]
fn spacing_of_distinct_identifiers_is_zero() {
    let objective = SpacingObjective::new();
    assert_eq!(objective.loss(&["A", "B", "C", "D"]), whole(0));
    assert_eq!(objective.loss(&["A"]), whole(0));
    assert_eq!(objective.loss(&[]), whole(0));
}

#[test]
fn spacing_halves_with_distance() {
    let objective = SpacingObjective::new();
    assert_eq!(objective.loss(&["A", "A"]), whole(50));
    assert_eq!(objective.loss(&["A", "B", "A"]), whole(25));
    assert_eq!(objective.loss(&["A", "B", "C", "A"]), with_bit(12, 1));
    assert_eq!(objective.loss(&["x", "A", "B", "C", "D", "A"]), with_bit(6, 2));
}

#[test]
fn spacing_measures_from_the_last_occurrence() {
    let objective = SpacingObjective::new();
    // A at 0, 1 and 3: one slot apart, then two.
    assert_eq!(objective.loss(&["A", "A", "B", "A"]), whole(50 + 25));
    // A and B both return.
    assert_eq!(objective.loss(&["A", "B", "A", "B"]), whole(25 + 25));
    assert_eq!(objective.loss(&["A", "A", "A", "A"]), whole(150));
}

/// The spacing loss of an identifier that returns after `distance` slots,
/// with nothing else repeated.
fn spacing_at(distance: usize) -> Loss {
    let fillers: Vec<String> = (0..distance).map(|i| format!("f{}", i)).collect();
    let mut solution: Vec<&str> = vec!["A"];
    for filler in fillers.iter().take(distance - 1) {
        solution.push(filler.as_str());
    }
    solution.push("A");
    SpacingObjective::new().loss(&solution)
}

#[test]
fn spacing_is_exact_up_to_a_hundred_and_thirty_slots() {
    assert_eq!(spacing_at(1), whole(50));
    assert_eq!(spacing_at(2), whole(25));
    assert_eq!(spacing_at(3), with_bit(12, 1));
    assert_eq!(spacing_at(6), Loss { whole: 1, fraction: 0b1001 << 124 });
    // From here on: 25 / 2^(distance - 2), all of it below one.
    for distance in 7..=130usize {
        let loss = spacing_at(distance);
        assert_eq!(loss, Loss { whole: 0, fraction: 25u128 << (130 - distance) });
        assert!(loss > whole(0));
        assert!(loss < spacing_at(distance - 1));
    }
    assert_eq!(spacing_at(34), Loss { whole: 0, fraction: 25u128 << 96 });
    assert_eq!(spacing_at(126), Loss { whole: 0, fraction: 25u128 << 4 });
    assert_eq!(spacing_at(130), Loss { whole: 0, fraction: 25 });
}

#[test]
fn spacing_rounds_down_beyond_a_hundred_and_thirty_slots() {
    assert_eq!(spacing_at(131), Loss { whole: 0, fraction: 12 });
    assert_eq!(spacing_at(132), Loss { whole: 0, fraction: 6 });
    assert_eq!(spacing_at(133), Loss { whole: 0, fraction: 3 });
    assert_eq!(spacing_at(134), Loss { whole: 0, fraction: 1 });
    assert_eq!(spacing_at(135), whole(0));
    assert_eq!(spacing_at(136), whole(0));
    assert_eq!(spacing_at(1000), whole(0));
}

#[test]
fn spacing_sums_penalties_exactly() {
    let objective = SpacingObjective::new();
    // A returns after 1 slot and after 100; B after 50.
    let fillers: Vec<String> = (0..200).map(|i| format!("f{}", i)).collect();
    let mut solution: Vec<&str> = fillers.iter().map(|filler| filler.as_str()).collect();
    solution.truncate(102);
    solution[0] = "A";
    solution[1] = "A";
    solution[101] = "A";
    solution[20] = "B";
    solution[70] = "B";
    let expected = Loss { whole: 50, fraction: (25u128 << 30) + (25u128 << 80) };
    assert_eq!(objective.loss(&solution), expected);
}

#[test]
fn spacing_stays_within_fifty_for_every_repeat() {
    let objective = SpacingObjective::new();
    let solutions: [&[&str]; 5] = [
        &["A", "A", "A", "A"],
        &["A", "B", "A", "B", "C"],
        &["A", "B", "C"],
        &["A", "A", "B", "B", "C", "C", "A"],
        &[],
    ];
    for solution in solutions {
        let mut distinct: Vec<&str> = solution.to_vec();
        distinct.sort();
        distinct.dedup();
        let repeats = (solution.len() - distinct.len()) as i128;
        let loss = objective.loss(solution);
        assert!(loss >= whole(0));
        assert!(loss <= whole(50 * repeats));
        assert_eq!(loss > whole(0), repeats > 0);
    }
}

#[test]
fn spacing_default_is_the_same_objective() {
    let objective = SpacingObjective::default();
    assert_eq!(objective.loss(&["A", "A"]), whole(50));
}

#[test]
fn composite_sums_children() {
    let composite = VectorObjective(vec![
        Box::new(GeneralAlignmentObjective::new(names(&["A", "A"]))),
        Box::new(ExclusionObjective::new(vec![names(&["A"]), names(&[])])),
        Box::new(SpacingObjective::new()),
    ]);
    assert_eq!(composite.loss(&["A", "A"]), whole(-20 + 1000 + 50));
    assert_eq!(composite.loss(&["B", "A"]), whole(-10));
}

#[test]
fn composite_without_children_is_zero() {
    let composite = VectorObjective(vec![]);
    assert_eq!(composite.loss(&["A", "A"]), whole(0));
}

#[test]
fn composite_does_not_depend_on_the_order_of_children() {
    let build = |order: [usize; 3]| -> VectorObjective {
        let mut children: Vec<Box<dyn Objective>> = Vec::new();
        for which in order {
            let child: Box<dyn Objective> = match which {
                0 => Box::new(GeneralAlignmentObjective::new(names(&["A", "C", "B", "D"]))),
                1 => Box::new(ExclusionObjective::new(vec![
                    names(&[]),
                    names(&["B"]),
                    names(&["B"]),
                    names(&[]),
                ])),
                _ => Box::new(SpacingObjective::new()),
            };
            children.push(child);
        }
        VectorObjective(children)
    };
    let solutions: [[&str; 4]; 3] =
        [["A", "B", "C", "D"], ["A", "C", "B", "D"], ["D", "D", "B", "D"]];
    let orders = [[0, 1, 2], [0, 2, 1], [1, 0, 2], [1, 2, 0], [2, 0, 1], [2, 1, 0]];
    for solution in &solutions {
        let expected = build(orders[0]).loss(solution);
        for order in orders {
            assert_eq!(build(order).loss(solution), expected);
        }
    }
    assert_eq!(build(orders[0]).loss(&solutions[0]), whole(-20 + 1000));
    assert_eq!(build(orders[3]).loss(&solutions[2]), whole(-20 + 1000 + 50 + 25));
}

#[test]
fn composites_nest() {
    let inner = VectorObjective(vec![
        Box::new(SpacingObjective::new()),
        Box::new(SpacingObjective::new()),
    ]);
    let outer = VectorObjective(vec![
        Box::new(inner),
        Box::new(GeneralAlignmentObjective::new(names(&["A", "A"]))),
    ]);
    assert_eq!(outer.loss(&["A", "A"]), whole(50 + 50 - 20));
}

#[test]
fn pair_sums_its_two_objectives_in_either_order() {
    let alignment = || GeneralAlignmentObjective::new(names(&["A", "C", "B", "D"]));
    let exclusion = || {
        ExclusionObjective::new(vec![names(&[]), names(&["B"]), names(&["B"]), names(&[])])
    };
    let pair = PairObjective { first: alignment(), second: exclusion() };
    let turned = PairObjective { first: exclusion(), second: alignment() };
    assert_eq!(pair.loss(&["A", "B", "C", "D"]), whole(-20 + 1000));
    assert_eq!(turned.loss(&["A", "B", "C", "D"]), whole(-20 + 1000));
    let three = PairObjective { first: pair, second: SpacingObjective::new() };
    assert_eq!(three.loss(&["D", "D", "B", "D"]), whole(-20 + 1000 + 50 + 25));
    assert_eq!(three.loss(&["A", "C", "B", "D"]), whole(-40 + 1000));
}

use runecount::potions_pairs;
use runecount::potions_single;
use runecount::potions_trios;

#[test]
fn quest_1_part_1_example() {
    let creatures = "ABBAC";
    let result = potions_single::num_potions(creatures);
    assert_eq!(result, 5);
}

#[test]
fn quest_1_part_2_example() {
    let creatures = "AxBCDDCAxD";
    let result = potions_pairs::num_potions(creatures);
    assert_eq!(result, 28);
}

#[test]
fn quest_1_part_3_example() {
    let creatures = "xBxAAABCDxCC";
    let result = potions_trios::num_potions(creatures);
    assert_eq!(result, 30);
}

#[test]
fn no_creatures_need_no_potions() {
    assert_eq!(potions_single::num_potions(""), 0);
    assert_eq!(potions_pairs::num_potions(""), 0);
    assert_eq!(potions_trios::num_potions(""), 0);
}

#[test]
fn single_costs_per_creature() {
    assert_eq!(potions_single::potions_for_creature('A'), 0);
    assert_eq!(potions_single::potions_for_creature('B'), 1);
    assert_eq!(potions_single::potions_for_creature('C'), 3);
    assert_eq!(potions_pairs::potions_for_creature('D'), 5);
    assert_eq!(potions_trios::potions_for_creature('D'), 5);
}

#[test]
fn lone_creature_in_a_pair_gets_no_bonus() {
    assert_eq!(potions_pairs::potions_for_pair(&['B', 'x']), 1);
    assert_eq!(potions_pairs::potions_for_pair(&['B', 'C']), 6);
    assert_eq!(potions_pairs::potions_for_pair(&['x', 'x']), 0);
}

#[test]
fn pair_bonus_needs_exactly_two_creatures() {
    // the helpers take chunks of any length; the bonus stays tied to two
    assert_eq!(potions_pairs::potions_for_pair(&['B', 'B', 'B', 'x']), 3);
    assert_eq!(potions_trios::potions_for_group(&['B', 'B', 'B', 'B', 'B']), 25);
}

#[test]
fn trio_bonus_grows_with_company() {
    assert_eq!(potions_trios::potions_for_group(&['A', 'x', 'x']), 0);
    assert_eq!(potions_trios::potions_for_group(&['A', 'A', 'x']), 2);
    assert_eq!(potions_trios::potions_for_group(&['A', 'A', 'A']), 6);
    assert_eq!(potions_trios::potions_for_group(&['B', 'C', 'D']), 15);
}

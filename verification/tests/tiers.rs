use geo_relay::tiers::{select_from_tiers, split_tiers};

fn names(relays: &[&str]) -> Vec<String> {
    relays.iter().map(|relay| (*relay).to_owned()).collect()
}

#[test]
fn relays_of_a_tier_take_turns() {
    let tiers = vec![names(&["a", "b", "c"]), names(&["d"])];
    let online = names(&["c", "d", "a"]);
    let mut rotation: usize = 5;
    let mut chosen: Vec<String> = Vec::new();
    for _ in 0..4 {
        chosen.push(select_from_tiers(&tiers, &online, &mut rotation).unwrap());
    }
    assert_eq!(chosen, vec!["c", "a", "c", "a"]);
    assert_eq!(rotation, 9);
}

#[test]
fn the_name_as_reported_is_returned() {
    let tiers = vec![names(&["Relay-A.example.com"])];
    let online = names(&["relay-a.EXAMPLE.com", "RELAY-A.example.com"]);
    assert_eq!(
        select_from_tiers(&tiers, &online, &mut 3).unwrap(),
        "relay-a.EXAMPLE.com"
    );
}

#[test]
fn only_a_choice_uses_up_a_turn() {
    let tiers = vec![names(&["a"])];
    let mut rotation: usize = 7;
    assert_eq!(select_from_tiers(&tiers, &names(&["b"]), &mut rotation), None);
    assert_eq!(rotation, 7);
    assert_eq!(select_from_tiers(&[], &names(&["b"]), &mut rotation), None);
    assert_eq!(rotation, 7);
}

#[test]
fn turns_start_over_after_the_largest() {
    let tiers = vec![names(&["a", "b", "c"])];
    let online = names(&["a", "b", "c"]);
    let mut rotation: usize = usize::MAX;
    let expected = ["a", "b", "c"][usize::MAX % 3];
    assert_eq!(
        select_from_tiers(&tiers, &online, &mut rotation).unwrap(),
        expected
    );
    assert_eq!(rotation, 0);
    assert_eq!(select_from_tiers(&tiers, &online, &mut rotation).unwrap(), "a");
}

#[test]
fn a_lower_tier_serves_when_the_higher_ones_are_offline() {
    let tiers = split_tiers("a,b>c>d");
    assert_eq!(
        select_from_tiers(&tiers, &names(&["d", "c"]), &mut 1).unwrap(),
        "c"
    );
}

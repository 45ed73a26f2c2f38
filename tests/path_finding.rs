use hiking_routes::path_finding::{
    bills_safest_path, bills_shortest_path_from_green_lake_to_prairie_meadows,
    fastest_path_from_green_lake_to_prairie_meadows, least_cost, optimal_path,
};
use hiking_routes::trails::{Hiker, Skill, Terrain, Trail};

fn trail(start: &str, end: &str, distance: u32, terrain: Terrain, danger: u8) -> Trail {
    Trail { start: start.to_string(), end: end.to_string(), distance, terrain, danger }
}

fn hiker(hiking: Skill, swimming: Skill, strong: bool, brave: bool) -> Hiker {
    Hiker { hiking, swimming, strong, brave }
}

fn by_distance(_h: &Hiker, t: &Trail) -> Option<u64> {
    Some(t.distance as u64)
}

fn by_danger(_h: &Hiker, t: &Trail) -> Option<u64> {
    Some(t.danger as u64)
}

fn by_time(h: &Hiker, t: &Trail) -> Option<u64> {
    h.travel_time(&t.terrain, t.distance)
}

#[test]
fn travel_time_policy_examples() {
    let expert = hiker(Skill::Expert, Skill::Expert, false, false);
    let beginner = hiker(Skill::Beginner, Skill::Beginner, false, false);
    let intermediate = hiker(Skill::Intermediate, Skill::Intermediate, false, false);
    assert_eq!(expert.travel_time(&Terrain::RockyTrail, 100), Some(100));
    assert_eq!(beginner.travel_time(&Terrain::RockyTrail, 100), Some(400));
    assert_eq!(intermediate.travel_time(&Terrain::PavedTrail, 40), Some(20));
    let brave_strong = hiker(Skill::Beginner, Skill::Beginner, true, true);
    let brave_weak = hiker(Skill::Beginner, Skill::Beginner, false, true);
    assert_eq!(brave_strong.travel_time(&Terrain::Zipline, 50), Some(5));
    assert_eq!(brave_weak.travel_time(&Terrain::Zipline, 50), None);
    assert_eq!(beginner.travel_time(&Terrain::RopeBridge, 30), None);
    assert_eq!(brave_weak.travel_time(&Terrain::RopeBridge, 30), Some(30));
    assert_eq!(beginner.travel_time(&Terrain::Water, 10), Some(90));
}

#[test]
fn travel_time_remaining_multipliers() {
    let intermediate = hiker(Skill::Intermediate, Skill::Intermediate, true, true);
    let expert = hiker(Skill::Expert, Skill::Expert, true, true);
    assert_eq!(intermediate.travel_time(&Terrain::Water, 10), Some(60));
    assert_eq!(expert.travel_time(&Terrain::Water, 10), Some(30));
    assert_eq!(intermediate.travel_time(&Terrain::RockyTrail, 7), Some(14));
    assert_eq!(intermediate.travel_time(&Terrain::UnpavedTrail, 7), Some(7));
    assert_eq!(expert.travel_time(&Terrain::UnpavedTrail, 7), Some(3));
    assert_eq!(expert.travel_time(&Terrain::PavedTrail, 7), Some(1));
    let beginner = hiker(Skill::Beginner, Skill::Beginner, true, true);
    assert_eq!(beginner.travel_time(&Terrain::UnpavedTrail, 7), Some(14));
    assert_eq!(beginner.travel_time(&Terrain::PavedTrail, 7), Some(7));
    assert_eq!(beginner.travel_time(&Terrain::Water, u32::MAX), Some(9 * u32::MAX as u64));
}

#[test]
fn default_hiker_is_bill() {
    assert_eq!(Hiker::default(), hiker(Skill::Intermediate, Skill::Expert, true, false));
}

#[test]
fn end_to_end_three_criteria() {
    let trails = vec![
        trail("A", "B", 2000, Terrain::PavedTrail, 19),
        trail("B", "C", 400, Terrain::Zipline, 20),
    ];
    let bill = Hiker::default();
    assert_eq!(optimal_path("A".to_string(), "C".to_string(), &bill, &trails, by_distance), Some(2400));
    assert_eq!(optimal_path("A".to_string(), "C".to_string(), &bill, &trails, by_danger), Some(39));
    assert_eq!(optimal_path("A".to_string(), "C".to_string(), &bill, &trails, by_time), None);
    assert_eq!(bills_safest_path("A".to_string(), "C".to_string(), &trails), Some(39));

    let named = vec![
        trail("Green Lake", "B", 2000, Terrain::PavedTrail, 19),
        trail("B", "Prairie Meadows", 400, Terrain::Zipline, 20),
    ];
    assert_eq!(bills_shortest_path_from_green_lake_to_prairie_meadows(&named), Some(2400));
    assert_eq!(fastest_path_from_green_lake_to_prairie_meadows(&bill, &named), None);
    let daring = hiker(Skill::Intermediate, Skill::Expert, true, true);
    assert_eq!(fastest_path_from_green_lake_to_prairie_meadows(&daring, &named), Some(1040));
}

#[test]
fn same_endpoints_cost_nothing() {
    let trails = vec![trail("A", "B", 5, Terrain::Water, 3), trail("B", "A", 5, Terrain::Water, 3)];
    let bill = Hiker::default();
    assert_eq!(optimal_path("A".to_string(), "A".to_string(), &bill, &trails, by_distance), Some(0));
    assert_eq!(optimal_path("B".to_string(), "B".to_string(), &bill, &trails, by_time), Some(0));
    let none: Vec<Trail> = vec![];
    assert_eq!(optimal_path("X".to_string(), "X".to_string(), &bill, &none, by_distance), Some(0));
    assert_eq!(bills_safest_path("Nowhere".to_string(), "Nowhere".to_string(), &none), Some(0));
}

#[test]
fn no_walk_means_unreachable() {
    let trails = vec![
        trail("A", "B", 1, Terrain::PavedTrail, 0),
        trail("C", "B", 1, Terrain::PavedTrail, 0),
        trail("B", "B", 1, Terrain::PavedTrail, 0),
    ];
    let bill = Hiker::default();
    assert_eq!(optimal_path("A".to_string(), "C".to_string(), &bill, &trails, by_distance), None);
    assert_eq!(optimal_path("B".to_string(), "A".to_string(), &bill, &trails, by_distance), None);
    assert_eq!(optimal_path("A".to_string(), "Z".to_string(), &bill, &trails, by_distance), None);
    let none: Vec<Trail> = vec![];
    assert_eq!(optimal_path("A".to_string(), "B".to_string(), &bill, &none, by_distance), None);
}

#[test]
fn least_cost_beats_hand_summed_walks() {
    // A->B->D costs 1 + 10, A->C->D costs 4 + 2, A->D costs 9, A->B->C->D costs 1 + 1 + 2
    let trails = vec![
        trail("A", "B", 1, Terrain::PavedTrail, 0),
        trail("B", "D", 10, Terrain::PavedTrail, 0),
        trail("A", "C", 4, Terrain::PavedTrail, 0),
        trail("C", "D", 2, Terrain::PavedTrail, 0),
        trail("A", "D", 9, Terrain::PavedTrail, 0),
        trail("B", "C", 1, Terrain::PavedTrail, 0),
    ];
    let bill = Hiker::default();
    let r = optimal_path("A".to_string(), "D".to_string(), &bill, &trails, by_distance).unwrap();
    for walk_cost in [11u128, 6, 9, 4] {
        assert!(r <= walk_cost);
    }
    assert_eq!(r, 4);
}

#[test]
fn inadmissible_edges_are_skipped() {
    let trails = vec![
        trail("Green Lake", "Prairie Meadows", 10, Terrain::RopeBridge, 200),
        trail("Green Lake", "Camp", 100, Terrain::RockyTrail, 1),
        trail("Camp", "Prairie Meadows", 100, Terrain::Water, 1),
    ];
    let timid = hiker(Skill::Expert, Skill::Beginner, false, false);
    let brave = hiker(Skill::Expert, Skill::Beginner, false, true);
    assert_eq!(fastest_path_from_green_lake_to_prairie_meadows(&timid, &trails), Some(1000));
    assert_eq!(fastest_path_from_green_lake_to_prairie_meadows(&brave, &trails), Some(10));
    assert_eq!(bills_safest_path("Green Lake".to_string(), "Prairie Meadows".to_string(), &trails), Some(2));
}

#[test]
fn extra_costlier_trail_is_neutral() {
    let mut trails = vec![
        trail("A", "B", 5, Terrain::PavedTrail, 1),
        trail("B", "C", 7, Terrain::PavedTrail, 1),
    ];
    let bill = Hiker::default();
    let before = optimal_path("A".to_string(), "C".to_string(), &bill, &trails, by_distance);
    trails.push(trail("A", "B", 50, Terrain::PavedTrail, 9));
    let after = optimal_path("A".to_string(), "C".to_string(), &bill, &trails, by_distance);
    assert_eq!(before, Some(12));
    assert_eq!(after, before);
}

#[test]
fn duplicate_trails_take_the_cheapest() {
    let trails = vec![
        trail("A", "B", 8, Terrain::PavedTrail, 1),
        trail("A", "B", 3, Terrain::PavedTrail, 1),
        trail("A", "B", 5, Terrain::PavedTrail, 1),
    ];
    let costs = vec![Some(8), None, Some(5)];
    assert_eq!(least_cost(&"A".to_string(), &"B".to_string(), &trails, &costs), Some(5));
    let bill = Hiker::default();
    assert_eq!(optimal_path("A".to_string(), "B".to_string(), &bill, &trails, by_distance), Some(3));
}

#[test]
fn large_costs_do_not_overflow() {
    let trails = vec![
        trail("A", "B", u32::MAX, Terrain::Water, 0),
        trail("B", "C", u32::MAX, Terrain::Water, 0),
    ];
    let slow = hiker(Skill::Beginner, Skill::Beginner, false, false);
    assert_eq!(
        optimal_path("A".to_string(), "C".to_string(), &slow, &trails, by_time),
        Some(18 * u32::MAX as u128)
    );
}

#[test]
fn trail_equality_compares_all_fields() {
    let a = trail("A", "B", 1, Terrain::Water, 2);
    assert_eq!(a, a.clone());
    assert_ne!(a, trail("A", "B", 1, Terrain::Water, 3));
}

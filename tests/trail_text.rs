use hiking_routes::path_finding::bills_shortest_path_from_green_lake_to_prairie_meadows;
use hiking_routes::trails::{Hiker, Skill, Terrain, Trail};

#[test]
fn terrain_from_name() {
    assert_eq!(Terrain::try_from("PavedTrail".to_string()), Ok(Terrain::PavedTrail));
    assert_eq!(Terrain::try_from("UnpavedTrail".to_string()), Ok(Terrain::UnpavedTrail));
    assert_eq!(Terrain::try_from("RockyTrail".to_string()), Ok(Terrain::RockyTrail));
    assert_eq!(Terrain::try_from("Water".to_string()), Ok(Terrain::Water));
    assert_eq!(Terrain::try_from("Zipline".to_string()), Ok(Terrain::Zipline));
    assert_eq!(Terrain::try_from("RopeBridge".to_string()), Ok(Terrain::RopeBridge));
    assert_eq!(Terrain::try_from("Lava".to_string()), Err(()));
    assert_eq!(Terrain::try_from(" Water".to_string()), Err(()));
}

#[test]
fn skill_from_name() {
    assert_eq!(Skill::try_from("Beginner".to_string()), Ok(Skill::Beginner));
    assert_eq!(Skill::try_from("Intermediate".to_string()), Ok(Skill::Intermediate));
    assert_eq!(Skill::try_from("Expert".to_string()), Ok(Skill::Expert));
    assert_eq!(Skill::try_from("expert".to_string()), Err(()));
}

#[test]
fn hiker_from_text() {
    let h = Hiker::try_from(
        "hiking: Beginner, swimming: Intermediate, strong: false, brave: true".to_string(),
    );
    assert_eq!(
        h,
        Ok(Hiker { hiking: Skill::Beginner, swimming: Skill::Intermediate, strong: false, brave: true })
    );
    assert_eq!(Hiker::try_from("hiking: Beginner, swimming: Expert, strong: yes, brave: true".to_string()), Err(()));
    assert_eq!(Hiker::try_from("hiking: Beginner, swimming: Expert, strong: true".to_string()), Err(()));
    assert_eq!(Hiker::try_from("hiking Beginner, swimming: Expert, strong: true, brave: true".to_string()), Err(()));
}

#[test]
fn trail_from_text() {
    let t = Trail::try_from("Mountain Top => Green Lake: 2000 (PavedTrail) [19]".to_string()).unwrap();
    assert_eq!(t.start, "Mountain Top");
    assert_eq!(t.end, "Green Lake");
    assert_eq!(t.distance, 2000);
    assert_eq!(t.terrain, Terrain::PavedTrail);
    assert_eq!(t.danger, 19);
    let z = Trail::try_from("The Bird Watch => Lost Colony: 400 (Zipline) [20]".to_string()).unwrap();
    assert_eq!(
        z,
        Trail {
            start: "The Bird Watch".to_string(),
            end: "Lost Colony".to_string(),
            distance: 400,
            terrain: Terrain::Zipline,
            danger: 20,
        }
    );
}

#[test]
fn malformed_trails_are_rejected() {
    assert_eq!(Trail::try_from("A -> B: 1 (Water) [2]".to_string()), Err(()));
    assert_eq!(Trail::try_from("A => B: 1 (Water) [256]".to_string()), Err(()));
    assert_eq!(Trail::try_from("A => B: x1 (Water) [2]".to_string()), Err(()));
    assert_eq!(Trail::try_from("A => B: 1 (Swamp) [2]".to_string()), Err(()));
    assert_eq!(Trail::try_from("A => B: 1 (Water)".to_string()), Err(()));
}

#[test]
fn parsed_network_query() {
    let lines = [
        "Green Lake => Camp: 300 (RockyTrail) [10]",
        "Camp => Prairie Meadows: 200 (UnpavedTrail) [5]",
        "Green Lake => Prairie Meadows: 900 (PavedTrail) [0]",
    ];
    let trails: Vec<Trail> = lines.iter().map(|l| Trail::try_from(l.to_string()).unwrap()).collect();
    assert_eq!(bills_shortest_path_from_green_lake_to_prairie_meadows(&trails), Some(500));
}

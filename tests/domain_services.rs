use millennium_falcon::domain_models::{
    BountyHunterPlanning, DomainError, GalaxyRoutes, PlanetCatalog,
};
use millennium_falcon::domain_services::{least_encounters, least_encounters_between};
use std::collections::{HashMap, HashSet};

// The probability of success is 0.9 to the power of the hunters met, and 0 when
// no voyage makes it: 1.0, 0.9 and 0.81 are 0, 1 and 2 hunters met.

fn four_planets() -> (PlanetCatalog, GalaxyRoutes, BountyHunterPlanning) {
    let planet_id_map = PlanetCatalog::from_vec(vec![
        "Tatooine".to_string(),
        "Dagobah".to_string(),
        "Endor".to_string(),
        "Hoth".to_string(),
    ])
    .unwrap();

    let tatooine_id = planet_id_map.get("Tatooine").unwrap();
    let dagobah_id = planet_id_map.get("Dagobah").unwrap();
    let endor_id = planet_id_map.get("Endor").unwrap();
    let hoth_id = planet_id_map.get("Hoth").unwrap();

    let hunter_planning = BountyHunterPlanning::new(
        [(hoth_id, [6, 7, 8].into_iter().collect())]
            .into_iter()
            .collect(),
    );

    let galaxy_routes = GalaxyRoutes::from_hashmap(
        [
            (tatooine_id, vec![(dagobah_id, 6), (hoth_id, 6)]),
            (
                dagobah_id,
                vec![(tatooine_id, 6), (endor_id, 4), (hoth_id, 1)],
            ),
            (endor_id, vec![(dagobah_id, 4), (hoth_id, 1)]),
            (
                hoth_id,
                vec![(dagobah_id, 1), (endor_id, 1), (tatooine_id, 6)],
            ),
        ]
        .into_iter()
        .collect(),
    )
    .unwrap();
    (planet_id_map, galaxy_routes, hunter_planning)
}

#[test]
fn test_compute_probability_of_success_simple() {
    let planet_id_map = PlanetCatalog::from_vec(vec![
        "Tatooine".to_string(),
        "Dagobah".to_string(),
        "Endor".to_string(),
    ])
    .unwrap();

    let tatooine_id = planet_id_map.get("Tatooine").unwrap();
    let dagobah_id = planet_id_map.get("Dagobah").unwrap();
    let endor_id = planet_id_map.get("Endor").unwrap();

    let hunter_planning =
        BountyHunterPlanning::new([(dagobah_id, HashSet::from([1]))].into_iter().collect());
    let galaxy_routes = GalaxyRoutes::from_hashmap(Vec::from([
        (tatooine_id, vec![(dagobah_id, 1)]),
        (dagobah_id, vec![(tatooine_id, 1), (endor_id, 1)]),
        (endor_id, vec![(dagobah_id, 1)]),
    ]))
    .unwrap();

    let r = least_encounters_between(
        &hunter_planning,
        &galaxy_routes,
        &planet_id_map,
        2,
        "Tatooine",
        "Endor",
        2,
    )
    .unwrap();
    // probability 0.9
    assert_eq!(r, Some(1));
}

#[test]
fn test_compute_probability_of_success() {
    let (planet_id_map, galaxy_routes, hunter_planning) = four_planets();
    let run = |countdown: u64| {
        least_encounters_between(
            &hunter_planning,
            &galaxy_routes,
            &planet_id_map,
            6,
            "Tatooine",
            "Endor",
            countdown,
        )
        .unwrap()
    };
    // probability 0
    assert_eq!(run(7), None);
    // probability 0.81
    assert_eq!(run(8), Some(2));
    // probability 0.9
    assert_eq!(run(9), Some(1));
    // probability 1
    assert_eq!(run(10), Some(0));
}

#[test]
fn unknown_names_give_no_voyage() {
    let (planet_id_map, galaxy_routes, hunter_planning) = four_planets();
    for (departure, arrival) in [("Naboo", "Endor"), ("Tatooine", "Naboo"), ("Naboo", "Naboo")] {
        let r = least_encounters_between(
            &hunter_planning,
            &galaxy_routes,
            &planet_id_map,
            6,
            departure,
            arrival,
            100,
        );
        assert_eq!(r, Ok(None));
    }
}

#[test]
fn unconnected_arrival_gives_no_voyage() {
    let planet_id_map = PlanetCatalog::from_vec(vec![
        "Tatooine".to_string(),
        "Dagobah".to_string(),
        "Endor".to_string(),
        "Hoth".to_string(),
    ])
    .unwrap();
    let t = planet_id_map.get("Tatooine").unwrap();
    let d = planet_id_map.get("Dagobah").unwrap();
    let e = planet_id_map.get("Endor").unwrap();
    let h = planet_id_map.get("Hoth").unwrap();
    let mut routes = GalaxyRoutes::new();
    routes.add_route(t, d, 1);
    routes.add_route(e, h, 1);
    let planning = BountyHunterPlanning::new(Vec::new());
    for countdown in [0, 1, 5, 1000] {
        assert_eq!(least_encounters(&planning, &routes, 10, t, e, countdown), Ok(None));
    }
}

#[test]
fn larger_budget_never_lowers_the_outcome() {
    let (planet_id_map, galaxy_routes, hunter_planning) = four_planets();
    let mut previous: Option<u64> = None;
    for countdown in 0..20 {
        let r = least_encounters_between(
            &hunter_planning,
            &galaxy_routes,
            &planet_id_map,
            6,
            "Tatooine",
            "Endor",
            countdown,
        )
        .unwrap();
        if let Some(before) = previous {
            let now = r.expect("a voyage found with a smaller budget");
            assert!(now <= before);
        }
        previous = r.or(previous);
    }
    assert_eq!(previous, Some(0));
}

#[test]
fn arrival_without_routes_is_an_unknown_location() {
    let planet_id_map = PlanetCatalog::from_vec(vec![
        "Tatooine".to_string(),
        "Dagobah".to_string(),
    ])
    .unwrap();
    let t = planet_id_map.get("Tatooine").unwrap();
    let d = planet_id_map.get("Dagobah").unwrap();
    let routes = GalaxyRoutes::from_hashmap(vec![(t, vec![])]).unwrap();
    let planning = BountyHunterPlanning::new(Vec::new());
    assert_eq!(
        least_encounters(&planning, &routes, 1, t, d, 10),
        Err(DomainError::UnknownLocation)
    );
}

#[test]
fn departure_equal_to_arrival_counts_the_hunter_there() {
    let planet_id_map = PlanetCatalog::from_vec(vec!["Endor".to_string()]).unwrap();
    let e = planet_id_map.get("Endor").unwrap();
    let mut routes = GalaxyRoutes::new();
    routes.add_route(e, e, 1);
    let planning = BountyHunterPlanning::new(vec![(e, HashSet::from([0]))]);
    assert_eq!(least_encounters(&planning, &routes, 1, e, e, 0), Ok(Some(1)));
    let empty = BountyHunterPlanning::new(Vec::new());
    assert_eq!(least_encounters(&empty, &routes, 1, e, e, 0), Ok(Some(0)));
}

#[test]
fn too_little_fuel_for_the_only_route() {
    let planet_id_map =
        PlanetCatalog::from_vec(vec!["Tatooine".to_string(), "Endor".to_string()]).unwrap();
    let t = planet_id_map.get("Tatooine").unwrap();
    let e = planet_id_map.get("Endor").unwrap();
    let mut routes = GalaxyRoutes::new();
    routes.add_route(t, e, 3);
    let planning = BountyHunterPlanning::new(Vec::new());
    assert_eq!(least_encounters(&planning, &routes, 2, t, e, 100), Ok(None));
    assert_eq!(least_encounters(&planning, &routes, 3, t, e, 2), Ok(None));
    assert_eq!(least_encounters(&planning, &routes, 3, t, e, 3), Ok(Some(0)));
}

#[test]
fn hunter_at_the_arrival_is_counted_when_the_arrival_is_expanded() {
    // The search orders stops by the hunters met before their own planet, so the
    // stop on Endor on day 2 comes first and meets the hunter there, although a
    // day of refuelling on Dagobah would avoid it: one more than the best voyage.
    let planet_id_map = PlanetCatalog::from_vec(vec![
        "Tatooine".to_string(),
        "Dagobah".to_string(),
        "Endor".to_string(),
    ])
    .unwrap();
    let t = planet_id_map.get("Tatooine").unwrap();
    let d = planet_id_map.get("Dagobah").unwrap();
    let e = planet_id_map.get("Endor").unwrap();
    let mut routes = GalaxyRoutes::new();
    routes.add_route(t, d, 1);
    routes.add_route(d, e, 1);
    let planning: HashMap<_, HashSet<u64>> = HashMap::from([(e, HashSet::from([2]))]);
    let planning = BountyHunterPlanning::new(planning.into_iter().collect());
    assert_eq!(least_encounters(&planning, &routes, 5, t, e, 2), Ok(Some(1)));
    assert_eq!(least_encounters(&planning, &routes, 5, t, e, 3), Ok(Some(1)));
    // with the hunter on day 3 instead, the first voyage found meets none
    let later = BountyHunterPlanning::new(vec![(e, HashSet::from([3]))]);
    assert_eq!(least_encounters(&later, &routes, 5, t, e, 3), Ok(Some(0)));
}

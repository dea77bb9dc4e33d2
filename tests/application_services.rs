use millennium_falcon::application_services::{
    into_galaxy_routes_and_planet_id, BountyHunter, EmpireData, Route, RouteRow, RouteRowError,
};
use millennium_falcon::domain_models::{BountyHunterPlanning, GalaxyRoutes, PlanetCatalog};
use std::collections::HashSet;

fn get_planet_id_map() -> PlanetCatalog {
    PlanetCatalog::from_vec(vec![
        "Tatooine".to_string(),
        "Dagobah".to_string(),
        "Endor".to_string(),
        "Hoth".to_string(),
    ])
    .unwrap()
}

fn route(origin: &str, destination: &str, travel_time: u64) -> Route {
    Route {
        origin: origin.to_string(),
        destination: destination.to_string(),
        travel_time,
    }
}

#[test]
fn test_to_bounty_hunters_planning() {
    let empire_data = EmpireData {
        countdown: 7,
        bounty_hunters: vec![
            BountyHunter {
                planet: "Hoth".to_string(),
                day: 6,
            },
            BountyHunter {
                planet: "Hoth".to_string(),
                day: 7,
            },
            BountyHunter {
                planet: "Hoth".to_string(),
                day: 8,
            },
        ],
    };
    let planet_id_map = get_planet_id_map();
    let hoth_id = planet_id_map.get("Hoth").unwrap();
    let bh_planning = empire_data.to_bounty_hunters_planning(&planet_id_map);
    let bh_planning_gt = BountyHunterPlanning::new(
        [(hoth_id, [6, 7, 8].into_iter().collect())]
            .into_iter()
            .collect(),
    );
    assert_eq!(bh_planning, bh_planning_gt);
}

#[test]
fn test_into_galaxy_routes_and_planet_id() {
    let routes = vec![
        route("Tatooine", "Dagobah", 6),
        route("Dagobah", "Endor", 4),
        route("Dagobah", "Hoth", 1),
        route("Hoth", "Endor", 1),
        route("Tatooine", "Hoth", 6),
    ];
    let (galaxy_route, planet_id_map) = into_galaxy_routes_and_planet_id(routes);
    let planet_id_map_gt = get_planet_id_map();

    let tatooine_id = planet_id_map.get("Tatooine").unwrap();
    let dagobah_id = planet_id_map.get("Dagobah").unwrap();
    let endor_id = planet_id_map.get("Endor").unwrap();
    let hoth_id = planet_id_map.get("Hoth").unwrap();

    assert_eq!(planet_id_map, planet_id_map_gt);

    let galaxy_route_gt = GalaxyRoutes::from_hashmap(
        [
            (tatooine_id, vec![(dagobah_id, 6), (hoth_id, 6)]),
            (
                dagobah_id,
                vec![(tatooine_id, 6), (endor_id, 4), (hoth_id, 1)],
            ),
            (endor_id, vec![(dagobah_id, 4), (hoth_id, 1)]),
            (
                hoth_id,
                vec![(dagobah_id, 1), (endor_id, 1), (tatooine_id, 6)],
            ),
        ]
        .into_iter()
        .collect(),
    )
    .unwrap();
    assert_eq!(galaxy_route, galaxy_route_gt);
}

#[test]
fn planning_leaves_out_unknown_planets_and_merges_days() {
    let empire_data = EmpireData {
        countdown: 10,
        bounty_hunters: vec![
            BountyHunter {
                planet: "Hoth".to_string(),
                day: 6,
            },
            BountyHunter {
                planet: "Kashyyyk".to_string(),
                day: 2,
            },
            BountyHunter {
                planet: "Endor".to_string(),
                day: 3,
            },
            BountyHunter {
                planet: "Hoth".to_string(),
                day: 9,
            },
        ],
    };
    let planet_id_map = get_planet_id_map();
    let hoth_id = planet_id_map.get("Hoth").unwrap();
    let endor_id = planet_id_map.get("Endor").unwrap();
    let planning = empire_data.to_bounty_hunters_planning(&planet_id_map);
    let expected = BountyHunterPlanning::new(vec![
        (hoth_id, HashSet::from([6, 9])),
        (endor_id, HashSet::from([3])),
    ]);
    assert_eq!(planning, expected);
    assert_eq!(planning.meet_with_hunter(&hoth_id, &9), 1);
    assert_eq!(planning.meet_with_hunter(&endor_id, &2), 0);
}

#[test]
fn catalog_lists_planets_in_order_of_first_appearance() {
    let routes = vec![
        route("Endor", "Hoth", 2),
        route("Hoth", "Endor", 3),
        route("Hoth", "Bespin", 1),
    ];
    let (galaxy_routes, planet_id_map) = into_galaxy_routes_and_planet_id(routes);
    let expected = PlanetCatalog::from_vec(vec![
        "Endor".to_string(),
        "Hoth".to_string(),
        "Bespin".to_string(),
    ])
    .unwrap();
    assert_eq!(planet_id_map, expected);
    let endor_id = planet_id_map.get("Endor").unwrap();
    let hoth_id = planet_id_map.get("Hoth").unwrap();
    // parallel routes are all kept, in both directions
    assert_eq!(
        galaxy_routes.get(&endor_id).unwrap(),
        &vec![(hoth_id, 2), (hoth_id, 3)]
    );
}

fn row(origin: Option<&str>, destination: Option<&str>, travel_time: Option<i64>) -> RouteRow {
    RouteRow {
        origin: origin.map(|s| s.to_string()),
        destination: destination.map(|s| s.to_string()),
        travel_time,
    }
}

#[test]
fn route_rows_are_checked_in_order() {
    let ok = row(Some("Tatooine"), Some("Hoth"), Some(6)).into_route().unwrap();
    assert_eq!(ok.origin, "Tatooine");
    assert_eq!(ok.destination, "Hoth");
    assert_eq!(ok.travel_time, 6);
    assert_eq!(
        row(None, None, None).into_route().unwrap_err(),
        RouteRowError::MissingOrigin
    );
    assert_eq!(
        row(Some("A"), None, Some(1)).into_route().unwrap_err(),
        RouteRowError::MissingDestination
    );
    assert_eq!(
        row(Some("A"), Some("B"), None).into_route().unwrap_err(),
        RouteRowError::MissingTravelTime
    );
    assert_eq!(
        row(Some(""), Some("B"), Some(0)).into_route().unwrap_err(),
        RouteRowError::TravelTimeBelowOne
    );
    assert_eq!(
        row(Some("A"), Some("B"), Some(-3)).into_route().unwrap_err(),
        RouteRowError::TravelTimeBelowOne
    );
    assert_eq!(
        row(Some(""), Some(""), Some(1)).into_route().unwrap_err(),
        RouteRowError::EmptyOrigin
    );
    assert_eq!(
        row(Some("A"), Some(""), Some(1)).into_route().unwrap_err(),
        RouteRowError::EmptyDestination
    );
}

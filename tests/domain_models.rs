use millennium_falcon::domain_models::{
    BountyHunterPlanning, DomainError, GalaxyRoutes, PlanetCatalog,
};
use std::collections::HashSet;

fn catalog(names: &[&str]) -> PlanetCatalog {
    PlanetCatalog::from_vec(names.iter().map(|n| n.to_string()).collect()).unwrap()
}

#[test]
fn catalog_assigns_dense_ids_in_insertion_order() {
    let mut c = PlanetCatalog::new();
    let a = c.insert("Tatooine".to_string()).unwrap();
    let b = c.insert("Dagobah".to_string()).unwrap();
    assert_eq!(a.as_index(), 0);
    assert_eq!(b.as_index(), 1);
    assert_eq!(c.get("Dagobah"), Some(b));
    assert_eq!(c.get("Naboo"), None);
}

#[test]
fn catalog_refuses_a_duplicate_name() {
    let mut c = catalog(&["Tatooine"]);
    assert_eq!(
        c.insert("Tatooine".to_string()),
        Err(DomainError::DuplicateLocation)
    );
    assert_eq!(c, catalog(&["Tatooine"]));
    assert_eq!(
        PlanetCatalog::from_vec(vec!["Hoth".to_string(), "Hoth".to_string()]),
        Err(DomainError::DuplicateLocation)
    );
}

#[test]
fn get_or_insert_is_idempotent() {
    let mut c = PlanetCatalog::new();
    let first = c.get_or_insert("Endor".to_string());
    let second = c.get_or_insert("Endor".to_string());
    let other = c.get_or_insert("Hoth".to_string());
    assert_eq!(first, second);
    assert_eq!(other.as_index(), 1);
    assert_eq!(c, catalog(&["Endor", "Hoth"]));
}

#[test]
fn add_route_inserts_both_directions_and_is_accepted_by_the_validator() {
    let c = catalog(&["Tatooine", "Dagobah", "Endor"]);
    let t = c.get("Tatooine").unwrap();
    let d = c.get("Dagobah").unwrap();
    let e = c.get("Endor").unwrap();
    let mut routes = GalaxyRoutes::new();
    routes.add_route(t, d, 6);
    routes.add_route(d, e, 4);
    routes.add_route(e, e, 2);
    assert_eq!(routes.get(&t).unwrap(), &vec![(d, 6)]);
    assert_eq!(routes.get(&d).unwrap(), &vec![(t, 6), (e, 4)]);
    assert_eq!(routes.get(&e).unwrap(), &vec![(d, 4), (e, 2), (e, 2)]);
    let rebuilt = GalaxyRoutes::from_hashmap(vec![
        (t, routes.get(&t).unwrap().clone()),
        (d, routes.get(&d).unwrap().clone()),
        (e, routes.get(&e).unwrap().clone()),
    ]);
    assert_eq!(rebuilt, Ok(routes));
}

#[test]
fn get_fails_on_a_planet_without_entry() {
    let c = catalog(&["Tatooine", "Dagobah"]);
    let t = c.get("Tatooine").unwrap();
    let d = c.get("Dagobah").unwrap();
    let mut routes = GalaxyRoutes::new();
    assert_eq!(routes.get(&t), Err(DomainError::UnknownLocation));
    routes.add_route(t, t, 1);
    assert!(routes.get(&t).is_ok());
    assert_eq!(routes.get(&d), Err(DomainError::UnknownLocation));
}

#[test]
fn validator_refuses_asymmetric_routes() {
    let c = catalog(&["Tatooine", "Dagobah"]);
    let t = c.get("Tatooine").unwrap();
    let d = c.get("Dagobah").unwrap();
    // no entry at all for the destination
    assert_eq!(
        GalaxyRoutes::from_hashmap(vec![(t, vec![(d, 1)])]),
        Err(DomainError::AsymmetricRoute)
    );
    // a reciprocal with another travel time
    assert_eq!(
        GalaxyRoutes::from_hashmap(vec![(t, vec![(d, 1)]), (d, vec![(t, 2)])]),
        Err(DomainError::AsymmetricRoute)
    );
    // an isolated planet is fine
    assert!(GalaxyRoutes::from_hashmap(vec![(t, vec![]), (d, vec![])]).is_ok());
}

#[test]
fn validator_keeps_the_last_list_given_for_an_origin() {
    let c = catalog(&["Tatooine", "Dagobah"]);
    let t = c.get("Tatooine").unwrap();
    let d = c.get("Dagobah").unwrap();
    let routes = GalaxyRoutes::from_hashmap(vec![
        (t, vec![(d, 5)]),
        (d, vec![(t, 1)]),
        (t, vec![(d, 1)]),
    ])
    .unwrap();
    assert_eq!(routes.get(&t).unwrap(), &vec![(d, 1)]);
}

#[test]
fn meet_with_hunter_is_zero_or_one() {
    let c = catalog(&["Tatooine", "Hoth"]);
    let t = c.get("Tatooine").unwrap();
    let h = c.get("Hoth").unwrap();
    let planning = BountyHunterPlanning::new(vec![
        (h, HashSet::from([6, 7])),
        (h, HashSet::from([8])),
    ]);
    assert_eq!(planning.meet_with_hunter(&h, &6), 1);
    assert_eq!(planning.meet_with_hunter(&h, &8), 1);
    assert_eq!(planning.meet_with_hunter(&h, &9), 0);
    assert_eq!(planning.meet_with_hunter(&t, &6), 0);
}

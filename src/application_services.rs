use crate::domain_models::{
    days_view, distinct_planets, hunter_present, positive_routes, routes_from_edges, lemma_with_route_positive,
    BountyHunterPlanning, GalaxyRoutes, PlanetCatalog, PlanetId,
};
use std::collections::HashSet;
use vstd::prelude::*;

verus! {

broadcast use {vstd::std_specs::hash::group_hash_axioms, PlanetId::lemma_index_injective};

/// The mission of the Millennium Falcon.
#[derive(Debug, Clone)]
pub struct MillenniumFalconData {
    pub autonomy: u64,
    pub departure: String,
    pub arrival: String,
    pub routes_db: String,
}

/// What the rebels know of the Empire's plans.
#[derive(Debug, Clone)]
pub struct EmpireData {
    pub countdown: u64,
    pub bounty_hunters: Vec<BountyHunter>,
}

/// A bounty hunter on `planet` on day `day`.
#[derive(Debug, Clone)]
pub struct BountyHunter {
    pub planet: String,
    pub day: u64,
}

/// A route between two planets, in days.
#[derive(Debug, Clone)]
pub struct Route {
    pub origin: String,
    pub destination: String,
    pub travel_time: u64,
}

/// Some hunter among the first `upto` of `hunters` is on the planet of `catalog`
/// with id `planet` on day `day`.
pub open spec fn hunter_listed(
    hunters: Seq<BountyHunter>,
    catalog: PlanetCatalog,
    upto: int,
    planet: PlanetId,
    day: u64,
) -> bool {
    exists|k: int|
        0 <= k < upto && #[trigger] catalog.lookup(hunters[k].planet@, Some(planet))
            && hunters[k].day == day
}

proof fn lemma_listed_extend(
    hunters: Seq<BountyHunter>,
    catalog: PlanetCatalog,
    i: int,
    planet: PlanetId,
    day: u64,
)
    requires
        0 <= i < hunters.len(),
        hunter_listed(hunters, catalog, i, planet, day) || (catalog.lookup(
            hunters[i].planet@,
            Some(planet),
        ) && hunters[i].day == day),
    ensures
        hunter_listed(hunters, catalog, i + 1, planet, day),
{
    if hunter_listed(hunters, catalog, i, planet, day) {
        let k = choose|k: int|
            0 <= k < i && #[trigger] catalog.lookup(hunters[k].planet@, Some(planet))
                && hunters[k].day == day;
        assert(catalog.lookup(hunters[k].planet@, Some(planet)));
    } else {
        assert(catalog.lookup(hunters[i].planet@, Some(planet)));
    }
}

proof fn lemma_present_after_update(
    before: Seq<(PlanetId, Set<u64>)>,
    j: int,
    planet: PlanetId,
    day: u64,
)
    requires
        0 <= j < before.len(),
        before[j].0 == planet,
    ensures
        forall|p: PlanetId, d: u64|
            #[trigger] hunter_present(
                before.update(j, (planet, before[j].1.insert(day))),
                p,
                d,
            ) <==> (hunter_present(before, p, d) || (p == planet && d == day)),
{
    let after = before.update(j, (planet, before[j].1.insert(day)));
    assert forall|p: PlanetId, d: u64|
        hunter_present(after, p, d) <==> (hunter_present(before, p, d) || (p == planet && d
            == day)) by {
        if hunter_present(after, p, d) {
            let k = choose|k: int| 0 <= k < after.len() && after[k].0 == p && #[trigger] after[k].1.contains(d);
            if k != j || d != day {
                assert(before[k].1.contains(d));
            }
        }
        if hunter_present(before, p, d) {
            let k = choose|k: int| 0 <= k < before.len() && before[k].0 == p && #[trigger] before[k].1.contains(d);
            assert(after[k].1.contains(d));
        }
        if p == planet && d == day {
            assert(after[j].1.contains(d));
        }
    }
}

proof fn lemma_present_after_push(before: Seq<(PlanetId, Set<u64>)>, planet: PlanetId, day: u64)
    ensures
        forall|p: PlanetId, d: u64|
            #[trigger] hunter_present(before.push((planet, Set::empty().insert(day))), p, d) <==> (
            hunter_present(before, p, d) || (p == planet && d == day)),
{
    let after = before.push((planet, Set::empty().insert(day)));
    assert forall|p: PlanetId, d: u64|
        hunter_present(after, p, d) <==> (hunter_present(before, p, d) || (p == planet && d
            == day)) by {
        if hunter_present(after, p, d) {
            let k = choose|k: int| 0 <= k < after.len() && after[k].0 == p && #[trigger] after[k].1.contains(d);
            if k < before.len() {
                assert(before[k].1.contains(d));
            }
        }
        if hunter_present(before, p, d) {
            let k = choose|k: int| 0 <= k < before.len() && before[k].0 == p && #[trigger] before[k].1.contains(d);
            assert(after[k].1.contains(d));
        }
        if p == planet && d == day {
            assert(after[before.len() as int].1.contains(d));
        }
    }
}

/// Adding the day of the `i`-th hunter to the planning extends what it lists
/// to the first `i + 1` hunters.
proof fn lemma_planning_add_day(
    hunters: Seq<BountyHunter>,
    catalog: PlanetCatalog,
    i: int,
    before: Seq<(PlanetId, Set<u64>)>,
    after: Seq<(PlanetId, Set<u64>)>,
    planet: PlanetId,
    day: u64,
)
    requires
        0 <= i < hunters.len(),
        catalog.wf(),
        catalog.lookup(hunters[i].planet@, Some(planet)),
        hunters[i].day == day,
        forall|p: PlanetId, d: u64|
            hunter_present(before, p, d) <==> hunter_listed(hunters, catalog, i, p, d),
        forall|p: PlanetId, d: u64|
            #[trigger] hunter_present(after, p, d) <==> (hunter_present(before, p, d) || (p
                == planet && d == day)),
    ensures
        forall|p: PlanetId, d: u64|
            hunter_present(after, p, d) <==> hunter_listed(hunters, catalog, i + 1, p, d),
{
    assert forall|p: PlanetId, d: u64|
        hunter_present(after, p, d) <==> hunter_listed(hunters, catalog, i + 1, p, d) by {
        if hunter_present(after, p, d) {
            lemma_listed_extend(hunters, catalog, i, p, d);
        }
        if hunter_listed(hunters, catalog, i + 1, p, d) {
            let k = choose|k: int|
                0 <= k < i + 1 && #[trigger] catalog.lookup(hunters[k].planet@, Some(p))
                    && hunters[k].day == d;
            if k < i {
                assert(hunter_listed(hunters, catalog, i, p, d));
            } else {
                assert(p.index() == planet.index());
            }
        }
    }
}

impl EmpireData {
    /// The planning of the hunters whose planet the catalog knows; the others are
    /// left out.
    pub fn to_bounty_hunters_planning(&self, planet_id_map: &PlanetCatalog) -> (r:
        BountyHunterPlanning)
        requires
            planet_id_map.wf(),
        ensures
            distinct_planets(r@),
            forall|p: PlanetId, d: u64|
                r.present(p, d) <==> hunter_listed(
                    self.bounty_hunters@,
                    *planet_id_map,
                    self.bounty_hunters@.len() as int,
                    p,
                    d,
                ),
    {
        let ghost hunters = self.bounty_hunters@;
        let mut planet_to_days: Vec<(PlanetId, HashSet<u64>)> = Vec::new();
        let mut i: usize = 0;
        while i < self.bounty_hunters.len()
            invariant
                i <= hunters.len(),
                hunters == self.bounty_hunters@,
                planet_id_map.wf(),
                distinct_planets(days_view(planet_to_days@)),
                forall|p: PlanetId, d: u64|
                    hunter_present(
                        days_view(planet_to_days@),
                        p,
                        d,
                    ) <==> hunter_listed(hunters, *planet_id_map, i as int, p, d),
            decreases hunters.len() - i,
        {
            let hunter = &self.bounty_hunters[i];
            let ghost before = days_view(planet_to_days@);
            if let Some(planet_id) = planet_id_map.get(hunter.planet.as_str()) {
                let day = hunter.day;
                let mut j: usize = 0;
                let mut found = false;
                while !found && j < planet_to_days.len()
                    invariant
                        j <= planet_to_days@.len(),
                        before == days_view(planet_to_days@),
                        found ==> j < planet_to_days@.len() && planet_to_days@[j as int].0
                            == planet_id,
                        !found ==> forall|k: int| 0 <= k < j ==> planet_to_days@[k].0 != planet_id,
                    decreases planet_to_days@.len() - j + (if found {
                        0int
                    } else {
                        1int
                    }),
                {
                    if planet_to_days[j].0 == planet_id {
                        found = true;
                    } else {
                        j = j + 1;
                    }
                }
                if found {
                    let (found, mut days) = planet_to_days.remove(j);
                    days.insert(day);
                    planet_to_days.insert(j, (found, days));
                    proof {
                        assert(days_view(planet_to_days@) =~= before.update(
                            j as int,
                            (planet_id, before[j as int].1.insert(day)),
                        ));
                        lemma_present_after_update(before, j as int, planet_id, day);
                        let after = days_view(planet_to_days@);
                        assert(before[j as int].0 == planet_id);
                        assert forall|a: int, b: int|
                            0 <= a < after.len() && 0 <= b < after.len() && a != b implies #[trigger] after[a].0
                                != #[trigger] after[b].0 by {
                            assert(after[a].0 == before[a].0 && after[b].0 == before[b].0);
                        }
                    }
                } else {
                    let mut days: HashSet<u64> = HashSet::new();
                    days.insert(day);
                    planet_to_days.push((planet_id, days));
                    proof {
                        assert(days_view(planet_to_days@) =~= before.push(
                            (planet_id, Set::empty().insert(day)),
                        ));
                        lemma_present_after_push(before, planet_id, day);
                        assert(forall|k: int| 0 <= k < before.len() ==> before[k].0 != planet_id);
                        assert(distinct_planets(days_view(planet_to_days@)));
                    }
                }
                proof {
                    lemma_planning_add_day(
                        hunters,
                        *planet_id_map,
                        i as int,
                        before,
                        days_view(planet_to_days@),
                        planet_id,
                        day,
                    );
                }
            } else {
                proof {
                    assert forall|p: PlanetId, d: u64|
                        hunter_listed(hunters, *planet_id_map, i as int, p, d) implies hunter_listed(
                            hunters,
                            *planet_id_map,
                            i + 1,
                            p,
                            d,
                        ) by {
                        lemma_listed_extend(hunters, *planet_id_map, i as int, p, d);
                    }
                    assert forall|p: PlanetId, d: u64|
                        hunter_listed(hunters, *planet_id_map, i + 1, p, d) implies hunter_listed(
                            hunters,
                            *planet_id_map,
                            i as int,
                            p,
                            d,
                        ) by {
                        let k = choose|k: int|
                            0 <= k < i + 1 && #[trigger] planet_id_map.lookup(
                                hunters[k].planet@,
                                Some(p),
                            ) && hunters[k].day == d;
                        if k == i {
                            assert(planet_id_map@.contains(hunters[k].planet@));
                        }
                    }
                }
            }
            i = i + 1;
        }
        let r = BountyHunterPlanning::new(planet_to_days);
        r
    }
}

/// `names` with `name` added at the end, unless it is there already.
pub open spec fn register(names: Seq<Seq<char>>, name: Seq<char>) -> Seq<Seq<char>> {
    if names.contains(name) {
        names
    } else {
        names.push(name)
    }
}

/// The planet names of `routes`, in the order in which they first appear, the
/// origin of a route before its destination.
pub open spec fn catalog_of(routes: Seq<Route>) -> Seq<Seq<char>>
    decreases routes.len(),
{
    if routes.len() == 0 {
        Seq::empty()
    } else {
        let r = routes.last();
        register(register(catalog_of(routes.drop_last()), r.origin@), r.destination@)
    }
}

/// `edges` are `routes` with each planet name replaced by its id in `catalog`.
pub open spec fn edges_of(
    routes: Seq<Route>,
    catalog: PlanetCatalog,
    edges: Seq<(PlanetId, PlanetId, u64)>,
) -> bool {
    &&& edges.len() == routes.len()
    &&& forall|k: int|
        0 <= k < edges.len() ==> {
            &&& catalog.lookup(routes[k].origin@, Some(#[trigger] edges[k].0))
            &&& catalog.lookup(routes[k].destination@, Some(edges[k].1))
            &&& edges[k].2 == routes[k].travel_time
        }
}

/// Builds the catalog of the planets that the routes name, and the routes between
/// them, each in both directions.
pub fn into_galaxy_routes_and_planet_id(routes: Vec<Route>) -> (r: (GalaxyRoutes, PlanetCatalog))
    ensures
        r.0.wf(),
        r.1.wf(),
        r.1@ == catalog_of(routes@),
        exists|edges: Seq<(PlanetId, PlanetId, u64)>|
            edges_of(routes@, r.1, edges) && r.0@ == routes_from_edges(edges),
        (forall|k: int| 0 <= k < routes@.len() ==> #[trigger] routes@[k].travel_time >= 1)
            ==> positive_routes(r.0@),
{
    let mut galaxy_routes = GalaxyRoutes::new();
    let mut plannet_id_map = PlanetCatalog::new();
    let ghost mut edges: Seq<(PlanetId, PlanetId, u64)> = Seq::empty();
    let mut i: usize = 0;
    proof {
        assert(routes@.take(0) =~= Seq::<Route>::empty());
    }
    while i < routes.len()
        invariant
            i <= routes@.len(),
            galaxy_routes.wf(),
            plannet_id_map.wf(),
            plannet_id_map@ == catalog_of(routes@.take(i as int)),
            edges_of(routes@.take(i as int), plannet_id_map, edges),
            galaxy_routes@ == routes_from_edges(edges),
            (forall|k: int| 0 <= k < routes@.len() ==> #[trigger] routes@[k].travel_time >= 1)
                ==> positive_routes(galaxy_routes@),
        decreases routes@.len() - i,
    {
        let route = &routes[i];
        let ghost cat0 = plannet_id_map@;
        let origin_id = plannet_id_map.get_or_insert(route.origin.clone());
        let ghost cat1 = plannet_id_map@;
        let destination_id = plannet_id_map.get_or_insert(route.destination.clone());
        let ghost old_routes = galaxy_routes@;
        galaxy_routes.add_route(origin_id, destination_id, route.travel_time);
        proof {
            let e = (origin_id, destination_id, route.travel_time);
            let taken = routes@.take(i as int);
            let edges1 = edges.push(e);
            assert(routes@.take(i + 1).drop_last() =~= taken);
            assert(routes@.take(i + 1).last() == routes@[i as int]);
            assert(edges1.drop_last() =~= edges);
            assert(origin_id.index() < cat1.len() && cat1[origin_id.index() as int] == route.origin@);
            assert forall|k: int| 0 <= k < edges1.len() implies {
                &&& plannet_id_map.lookup(routes@.take(i + 1)[k].origin@, Some(#[trigger] edges1[k].0))
                &&& plannet_id_map.lookup(routes@.take(i + 1)[k].destination@, Some(edges1[k].1))
                &&& edges1[k].2 == routes@.take(i + 1)[k].travel_time
            } by {
                if k < i {
                    assert(edges1[k] == edges[k]);
                    assert(routes@.take(i + 1)[k] == taken[k]);
                    assert(cat0.len() <= cat1.len() <= plannet_id_map@.len());
                    assert(cat1[edges[k].0.index() as int] == cat0[edges[k].0.index() as int]);
                    assert(cat1[edges[k].1.index() as int] == cat0[edges[k].1.index() as int]);
                }
            }
            if forall|k: int| 0 <= k < routes@.len() ==> #[trigger] routes@[k].travel_time >= 1 {
                assert(routes@[i as int].travel_time >= 1);
                lemma_with_route_positive(old_routes, origin_id, destination_id, route.travel_time);
            }
            edges = edges1;
        }
        i = i + 1;
    }
    proof {
        assert(routes@.take(i as int) =~= routes@);
    }
    (galaxy_routes, plannet_id_map)
}

/// Why a row of the route table cannot be a route.
#[derive(Debug, PartialEq, Eq, Structural, Clone, Copy)]
pub enum RouteRowError {
    MissingOrigin,
    MissingDestination,
    MissingTravelTime,
    TravelTimeBelowOne,
    EmptyOrigin,
    EmptyDestination,
}

/// A row of the route table, whose fields may be missing.
#[derive(Debug, Clone)]
pub struct RouteRow {
    pub origin: Option<String>,
    pub destination: Option<String>,
    pub travel_time: Option<i64>,
}

/// The first reason, in the order in which they are checked, why `row` is not a
/// route; `None` when it is one.
pub open spec fn row_error(row: RouteRow) -> Option<RouteRowError> {
    if row.origin is None {
        Some(RouteRowError::MissingOrigin)
    } else if row.destination is None {
        Some(RouteRowError::MissingDestination)
    } else if row.travel_time is None {
        Some(RouteRowError::MissingTravelTime)
    } else if row.travel_time.unwrap() < 1 {
        Some(RouteRowError::TravelTimeBelowOne)
    } else if row.origin.unwrap()@.len() == 0 {
        Some(RouteRowError::EmptyOrigin)
    } else if row.destination.unwrap()@.len() == 0 {
        Some(RouteRowError::EmptyDestination)
    } else {
        None
    }
}

impl RouteRow {
    /// The route that the row holds, or why it holds none.
    pub fn into_route(self) -> (r: Result<Route, RouteRowError>)
        ensures
            match r {
                Ok(route) => {
                    &&& row_error(self) is None
                    &&& route.origin@ == self.origin.unwrap()@
                    &&& route.destination@ == self.destination.unwrap()@
                    &&& route.travel_time == self.travel_time.unwrap()
                    &&& route.travel_time >= 1
                },
                Err(e) => row_error(self) == Some(e),
            },
    {
        let ghost row = self;
        let origin = match self.origin {
            Some(o) => o,
            None => return Err(RouteRowError::MissingOrigin),
        };
        let destination = match self.destination {
            Some(d) => d,
            None => return Err(RouteRowError::MissingDestination),
        };
        let travel_time = match self.travel_time {
            Some(t) => t,
            None => return Err(RouteRowError::MissingTravelTime),
        };
        if travel_time < 1 {
            return Err(RouteRowError::TravelTimeBelowOne);
        }
        if origin.as_str().is_empty() {
            return Err(RouteRowError::EmptyOrigin);
        }
        if destination.as_str().is_empty() {
            return Err(RouteRowError::EmptyDestination);
        }
        Ok(Route { origin, destination, travel_time: travel_time as u64 })
    }
}

} // verus!

use crate::domain_models::{
    adjacency, hunter_present, positive_routes, routes_symmetric, BountyHunterPlanning, DomainError, GalaxyRoutes,
    PlanetCatalog, PlanetId,
};
use std::collections::HashMap;
use vstd::prelude::*;

verus! {

broadcast use {vstd::std_specs::hash::group_hash_axioms, PlanetId::lemma_index_injective};

/// The heuristic time from `p` to the arrival: its entry in `dist`, or `u64::MAX`
/// where the arrival cannot be reached from `p`.
pub open spec fn heuristic(dist: Map<usize, u64>, p: PlanetId) -> int {
    if dist.contains_key(p.index()) {
        dist[p.index()] as int
    } else {
        u64::MAX as int
    }
}

/// `a + b`, saturated at `u64::MAX`.
pub open spec fn sat_add(a: u64, b: u64) -> u64 {
    if a + b > u64::MAX {
        u64::MAX
    } else {
        (a + b) as u64
    }
}

/// `dist` is a consistent heuristic towards `destination`: it is zero there, it
/// only names planets that have routes, and no route shortens it by more than
/// the route's travel time.
pub open spec fn consistent_heuristic(
    routes: Map<PlanetId, Seq<(PlanetId, u64)>>,
    dist: Map<usize, u64>,
    destination: PlanetId,
) -> bool {
    &&& dist.contains_key(destination.index())
    &&& dist[destination.index()] == 0
    &&& forall|p: PlanetId| #[trigger]
        dist.contains_key(p.index()) ==> routes.contains_key(p)
    &&& forall|u: PlanetId, i: int|
        #![trigger routes[u][i]]
        routes.contains_key(u) && 0 <= i < routes[u].len() ==> heuristic(dist, u) <= routes[u][i].1
            + heuristic(dist, routes[u][i].0)
}

/// `x`, saturated at `u64::MAX`.
pub open spec fn sat_int(x: int) -> u64 {
    if x > u64::MAX {
        u64::MAX
    } else {
        x as u64
    }
}

/// The `k`-th step of `w` follows a route: from planet `w[k].0`, a route of
/// `w[k].1` days leads to planet `w[k + 1].0`.
pub open spec fn walk_step(routes: Map<PlanetId, Seq<(PlanetId, u64)>>, w: Seq<(PlanetId, u64)>, k: int) -> bool {
    routes.contains_key(w[k].0) && routes[w[k].0].contains((w[k + 1].0, w[k].1))
}

/// `w` is a path of routes from `from` to `to`: each element is a planet with
/// the travel time of the route taken from it (the last one's is unused).
pub open spec fn is_walk(
    routes: Map<PlanetId, Seq<(PlanetId, u64)>>,
    w: Seq<(PlanetId, u64)>,
    from: PlanetId,
    to: PlanetId,
) -> bool {
    &&& w.len() > 0
    &&& w[0].0 == from
    &&& w.last().0 == to
    &&& forall|k: int| 0 <= k < w.len() - 1 ==> #[trigger] walk_step(routes, w, k)
}

/// The total travel time of the routes of `w`.
pub open spec fn walk_cost(w: Seq<(PlanetId, u64)>) -> int
    decreases w.len(),
{
    if w.len() <= 1 {
        0
    } else {
        w[0].1 + walk_cost(w.subrange(1, w.len() as int))
    }
}

/// Some path of routes from `p` to `destination` takes `t` days, saturated.
pub open spec fn has_walk_of(
    routes: Map<PlanetId, Seq<(PlanetId, u64)>>,
    destination: PlanetId,
    p: PlanetId,
    t: u64,
) -> bool {
    exists|w: Seq<(PlanetId, u64)>|
        is_walk(routes, w, p, destination) && sat_int(walk_cost(w)) == t
}

/// `dist` holds, for each planet from which a path of routes leads to
/// `destination`, and for no other, the least travel time over such paths,
/// saturated at `u64::MAX`.
pub open spec fn shortest_times(
    routes: Map<PlanetId, Seq<(PlanetId, u64)>>,
    dist: Map<usize, u64>,
    destination: PlanetId,
) -> bool {
    forall|p: PlanetId|
        {
            &&& #[trigger] dist.contains_key(p.index()) <==> exists|w: Seq<(PlanetId, u64)>|
                is_walk(routes, w, p, destination)
            &&& dist.contains_key(p.index()) ==> has_walk_of(
                routes,
                destination,
                p,
                dist[p.index()],
            )
            &&& dist.contains_key(p.index()) ==> forall|w: Seq<(PlanetId, u64)>|
                is_walk(routes, w, p, destination) ==> dist[p.index()] <= #[trigger] walk_cost(w)
        }
}

proof fn lemma_walk_cost_nonneg(w: Seq<(PlanetId, u64)>)
    ensures
        walk_cost(w) >= 0,
    decreases w.len(),
{
    if w.len() > 1 {
        lemma_walk_cost_nonneg(w.subrange(1, w.len() as int));
    }
}

/// A route from `v` to the start of a path extends it.
proof fn lemma_walk_prepend(
    routes: Map<PlanetId, Seq<(PlanetId, u64)>>,
    destination: PlanetId,
    u: PlanetId,
    t: u64,
    v: PlanetId,
    time: u64,
)
    requires
        routes_symmetric(routes),
        routes.contains_key(u),
        routes[u].contains((v, time)),
        has_walk_of(routes, destination, u, t),
    ensures
        has_walk_of(routes, destination, v, sat_add(t, time)),
{
    let w = choose|w: Seq<(PlanetId, u64)>|
        is_walk(routes, w, u, destination) && sat_int(walk_cost(w)) == t;
    let j = choose|j: int| 0 <= j < routes[u].len() && routes[u][j] == (v, time);
    assert(routes[u][j] == (v, time));
    let w2 = seq![(v, time)] + w;
    assert(w2.subrange(1, w2.len() as int) =~= w);
    assert forall|k: int| 0 <= k < w2.len() - 1 implies #[trigger] walk_step(routes, w2, k) by {
        if k > 0 {
            assert(walk_step(routes, w, k - 1));
            assert(w2[k] == w[k - 1] && w2[k + 1] == w[k]);
        }
    }
    assert(is_walk(routes, w2, v, destination));
    lemma_walk_cost_nonneg(w);
    assert(walk_cost(w2) == time + walk_cost(w));
}

/// Where every route out of a planet with an entry leads to a planet with an
/// entry no more than the route's time further, every planet on a path to the
/// destination has an entry, no larger than the path's time.
proof fn lemma_walk_bound(
    routes: Map<PlanetId, Seq<(PlanetId, u64)>>,
    dist: Map<usize, u64>,
    destination: PlanetId,
    w: Seq<(PlanetId, u64)>,
)
    requires
        routes_symmetric(routes),
        dist.contains_key(destination.index()),
        dist[destination.index()] == 0,
        forall|u: PlanetId, i: int|
            #![trigger routes[u][i]]
            routes.contains_key(u) && dist.contains_key(u.index()) && 0 <= i < routes[u].len() ==> {
                &&& dist.contains_key(routes[u][i].0.index())
                &&& dist[routes[u][i].0.index()] <= sat_add(dist[u.index()], routes[u][i].1)
            },
        is_walk(routes, w, w[0].0, destination),
    ensures
        dist.contains_key(w[0].0.index()),
        dist[w[0].0.index()] <= sat_int(walk_cost(w)),
    decreases w.len(),
{
    lemma_walk_cost_nonneg(w);
    if w.len() > 1 {
        let rest = w.subrange(1, w.len() as int);
        assert forall|k: int| 0 <= k < rest.len() - 1 implies #[trigger] walk_step(routes, rest, k) by {
            assert(walk_step(routes, w, k + 1));
            assert(rest[k] == w[k + 1] && rest[k + 1] == w[k + 2]);
        }
        lemma_walk_bound(routes, dist, destination, rest);
        lemma_walk_cost_nonneg(rest);
        assert(walk_step(routes, w, 0));
        let u = w[0].0;
        let j = choose|j: int| 0 <= j < routes[u].len() && routes[u][j] == (w[1].0, w[0].1);
        assert(routes[u][j] == (w[1].0, w[0].1));
        let v = w[1].0;
        assert(routes.contains_key(v) && routes[v].contains((u, w[0].1)));
        let i = choose|i: int| 0 <= i < routes[v].len() && routes[v][i] == (u, w[0].1);
        assert(routes[v][i] == (u, w[0].1));
    }
}

/// Index of an entry of `queue` with the smallest time.
fn min_time_index(queue: &Vec<(u64, PlanetId)>) -> (r: usize)
    requires
        queue@.len() > 0,
    ensures
        r < queue@.len(),
        forall|k: int| 0 <= k < queue@.len() ==> queue@[r as int].0 <= #[trigger] queue@[k].0,
{
    let mut best: usize = 0;
    let mut i: usize = 1;
    while i < queue.len()
        invariant
            1 <= i <= queue@.len(),
            best < i,
            forall|k: int| 0 <= k < i ==> queue@[best as int].0 <= #[trigger] queue@[k].0,
        decreases queue@.len() - i,
    {
        if queue[i].0 < queue[best].0 {
            best = i;
        }
        i = i + 1;
    }
    best
}

proof fn lemma_remove_keeps<T>(s: Seq<T>, idx: int, x: T)
    requires
        0 <= idx < s.len(),
        s.contains(x),
        x != s[idx],
    ensures
        s.remove(idx).contains(x),
{
    let k = choose|k: int| 0 <= k < s.len() && s[k] == x;
    if k < idx {
        assert(s.remove(idx)[k] == x);
    } else {
        assert(s.remove(idx)[k - 1] == x);
    }
}

/// Dijkstra's algorithm from `destination_id`: the least time from each planet
/// to the destination, over the routes alone. Planets from which the destination
/// cannot be reached have no entry.
fn compute_all_time_to_destination(galaxy_routes: &GalaxyRoutes, destination_id: &PlanetId) -> (r:
    Result<HashMap<usize, u64>, DomainError>)
    requires
        galaxy_routes.wf(),
    ensures
        match r {
            Ok(dist) => {
                &&& galaxy_routes@.contains_key(*destination_id)
                &&& consistent_heuristic(galaxy_routes@, dist@, *destination_id)
                &&& shortest_times(galaxy_routes@, dist@, *destination_id)
            },
            Err(e) => e == DomainError::UnknownLocation && !galaxy_routes@.contains_key(
                *destination_id,
            ),
        },
{
    let ghost g = galaxy_routes@;
    let dest = *destination_id;
    if let Err(e) = galaxy_routes.get(&dest) {
        return Err(e);
    }
    proof {
        galaxy_routes.lemma_finite();
    }
    let ghost keys = galaxy_routes.indices();
    let mut time_to_destination: HashMap<usize, u64> = HashMap::new();
    let mut planet_to_process: Vec<(u64, PlanetId)> = Vec::new();
    planet_to_process.push((0, dest));
    let ghost mut last: u64 = 0;
    assert(planet_to_process@[0] == (0u64, dest));
    proof {
        let w0 = seq![(dest, 0u64)];
        assert(is_walk(g, w0, dest, dest));
        assert(sat_int(walk_cost(w0)) == 0);
    }
    while planet_to_process.len() > 0
        invariant
            g == galaxy_routes@,
            routes_symmetric(g),
            g.contains_key(dest),
            keys.finite(),
            forall|p: PlanetId| #[trigger] g.contains_key(p) <==> keys.contains(p.index()),
            forall|k: int|
                0 <= k < planet_to_process@.len() ==> g.contains_key(
                    #[trigger] planet_to_process@[k].1,
                ) && last <= planet_to_process@[k].0,
            forall|k: usize| #[trigger]
                time_to_destination@.contains_key(k) ==> keys.contains(k),
            forall|k: int|
                0 <= k < planet_to_process@.len() ==> has_walk_of(
                    g,
                    dest,
                    #[trigger] planet_to_process@[k].1,
                    planet_to_process@[k].0,
                ),
            forall|p: PlanetId| #[trigger]
                time_to_destination@.contains_key(p.index()) ==> has_walk_of(
                    g,
                    dest,
                    p,
                    time_to_destination@[p.index()],
                ),
            forall|p: PlanetId| #[trigger]
                time_to_destination@.contains_key(p.index()) ==> g.contains_key(p)
                    && time_to_destination@[p.index()] <= last,
            time_to_destination@.contains_key(dest.index()) ==> time_to_destination@[dest.index()]
                == 0,
            time_to_destination@.contains_key(dest.index()) || planet_to_process@.contains(
                (0u64, dest),
            ),
            forall|u: PlanetId, i: int|
                #![trigger g[u][i]]
                g.contains_key(u) && time_to_destination@.contains_key(u.index()) && 0 <= i
                    < g[u].len() ==> {
                    ||| (time_to_destination@.contains_key(g[u][i].0.index())
                        && time_to_destination@[g[u][i].0.index()] <= sat_add(
                        time_to_destination@[u.index()],
                        g[u][i].1,
                    ))
                    ||| planet_to_process@.contains(
                        (sat_add(time_to_destination@[u.index()], g[u][i].1), g[u][i].0),
                    )
                },
        decreases keys.len() - time_to_destination@.dom().len(), planet_to_process@.len(),
    {
        proof {
            vstd::set_lib::lemma_len_subset(time_to_destination@.dom(), keys);
        }
        let idx = min_time_index(&planet_to_process);
        let ghost q = planet_to_process@;
        let (time, planet_id) = planet_to_process.remove(idx);
        assert(planet_to_process@ == q.remove(idx as int));
        assert(q[idx as int] == (time, planet_id));
        if time_to_destination.contains_key(&planet_id.as_index()) {
            // this planet has already been processed
            proof {
                assert forall|u: PlanetId, i: int|
                    g.contains_key(u) && time_to_destination@.contains_key(u.index()) && 0 <= i
                        < g[u].len() && !(time_to_destination@.contains_key(g[u][i].0.index())
                        && time_to_destination@[g[u][i].0.index()] <= sat_add(
                        time_to_destination@[u.index()],
                        g[u][i].1,
                    )) implies planet_to_process@.contains(
                    (sat_add(time_to_destination@[u.index()], #[trigger] g[u][i].1), g[u][i].0),
                ) by {
                    lemma_remove_keeps(
                        q,
                        idx as int,
                        (sat_add(time_to_destination@[u.index()], g[u][i].1), g[u][i].0),
                    );
                }
                if !time_to_destination@.contains_key(dest.index()) {
                    lemma_remove_keeps(q, idx as int, (0u64, dest));
                }
            }
            continue;
        }
        let ghost before = time_to_destination@;
        proof {
            if !time_to_destination@.contains_key(dest.index()) {
                assert(q.contains((0u64, dest)));
                let k = choose|k: int| 0 <= k < q.len() && q[k] == (0u64, dest);
                assert(q[idx as int].0 <= q[k].0);
            }
        }
        time_to_destination.insert(planet_id.as_index(), time);
        proof {
            last = time;
            assert(has_walk_of(g, dest, q[idx as int].1, q[idx as int].0));
            assert forall|u: PlanetId, i: int|
                g.contains_key(u) && before.contains_key(u.index()) && 0 <= i < g[u].len() && !(
                time_to_destination@.contains_key(g[u][i].0.index())
                    && time_to_destination@[g[u][i].0.index()] <= sat_add(
                    time_to_destination@[u.index()],
                    g[u][i].1,
                )) implies planet_to_process@.contains(
                (sat_add(time_to_destination@[u.index()], #[trigger] g[u][i].1), g[u][i].0),
            ) by {
                assert(u != planet_id);
                lemma_remove_keeps(
                    q,
                    idx as int,
                    (sat_add(time_to_destination@[u.index()], g[u][i].1), g[u][i].0),
                );
            }
            if planet_id != dest && !before.contains_key(dest.index()) {
                lemma_remove_keeps(q, idx as int, (0u64, dest));
            }
            assert(time_to_destination@.dom() =~= before.dom().insert(planet_id.index()));
            assert(before.dom().finite());
            assert(time_to_destination@.dom().len() == before.dom().len() + 1);
        }
        let ghost after = time_to_destination@;
        let routes = galaxy_routes.get(&planet_id).unwrap();
        let ghost mid = planet_to_process@;
        let mut i: usize = 0;
        while i < routes.len()
            invariant
                g == galaxy_routes@,
                g.contains_key(planet_id),
                time_to_destination@ == after,
                routes@ == g[planet_id],
                i <= routes@.len(),
                time_to_destination@.contains_key(planet_id.index()),
                time_to_destination@[planet_id.index()] == time,
                last == time,
                forall|x: (u64, PlanetId)| mid.contains(x) ==> planet_to_process@.contains(x),
                forall|k: int|
                    0 <= k < planet_to_process@.len() ==> g.contains_key(
                        #[trigger] planet_to_process@[k].1,
                    ) && last <= planet_to_process@[k].0,
                routes_symmetric(g),
                has_walk_of(g, dest, planet_id, time),
                forall|k: int|
                    0 <= k < planet_to_process@.len() ==> has_walk_of(
                        g,
                        dest,
                        #[trigger] planet_to_process@[k].1,
                        planet_to_process@[k].0,
                    ),
                forall|k: int|
                    #![trigger g[planet_id][k]]
                    0 <= k < i ==> planet_to_process@.contains(
                        (sat_add(time, g[planet_id][k].1), g[planet_id][k].0),
                    ),
            decreases routes@.len() - i,
        {
            let (neighbour_planet_id, travel) = routes[i];
            assert(g[planet_id][i as int] == (neighbour_planet_id, travel));
            let ghost before_push = planet_to_process@;
            planet_to_process.push((time.saturating_add(travel), neighbour_planet_id));
            proof {
                assert(g[planet_id].contains((neighbour_planet_id, travel)));
                lemma_walk_prepend(g, dest, planet_id, time, neighbour_planet_id, travel);
                assert(planet_to_process@ == before_push.push((sat_add(time, travel), neighbour_planet_id)));
                assert(planet_to_process@[before_push.len() as int] == (sat_add(time, travel), neighbour_planet_id));
                assert forall|x: (u64, PlanetId)| before_push.contains(x) implies planet_to_process@.contains(x) by {
                    let k = choose|k: int| 0 <= k < before_push.len() && before_push[k] == x;
                    assert(planet_to_process@[k] == x);
                }
            }
            i = i + 1;
        }
        proof {
            assert forall|u: PlanetId, i: int|
                g.contains_key(u) && time_to_destination@.contains_key(u.index()) && 0 <= i
                    < g[u].len() && !(time_to_destination@.contains_key(g[u][i].0.index())
                    && time_to_destination@[g[u][i].0.index()] <= sat_add(
                    time_to_destination@[u.index()],
                    g[u][i].1,
                )) implies planet_to_process@.contains(
                (sat_add(time_to_destination@[u.index()], #[trigger] g[u][i].1), g[u][i].0),
            ) by {
                if u != planet_id {
                    assert(mid.contains(
                        (sat_add(time_to_destination@[u.index()], g[u][i].1), g[u][i].0),
                    ));
                }
            }
            assert(keys.contains(planet_id.index()));
            assert(time_to_destination@.dom().subset_of(keys));
            vstd::set_lib::lemma_len_subset(time_to_destination@.dom(), keys);
        }
    }
    proof {
        let dist = time_to_destination@;
        assert forall|p: PlanetId| #[trigger] dist.contains_key(p.index()) <==> exists|
            w: Seq<(PlanetId, u64)>,
        | is_walk(g, w, p, dest) by {
            if exists|w: Seq<(PlanetId, u64)>| is_walk(g, w, p, dest) {
                let w = choose|w: Seq<(PlanetId, u64)>| is_walk(g, w, p, dest);
                lemma_walk_bound(g, dist, dest, w);
            }
        }
        assert forall|p: PlanetId, w: Seq<(PlanetId, u64)>|
            #![trigger dist.contains_key(p.index()), walk_cost(w)]
            dist.contains_key(p.index()) && is_walk(g, w, p, dest) implies dist[p.index()]
            <= walk_cost(w) by {
            lemma_walk_bound(g, dist, dest, w);
            lemma_walk_cost_nonneg(w);
        }
        assert forall|u: PlanetId, i: int|
            g.contains_key(u) && 0 <= i < g[u].len() implies heuristic(dist, u) <= #[trigger] g[u][i].1
            + heuristic(dist, g[u][i].0) by {
            let v = g[u][i].0;
            let w = g[u][i].1;
            if dist.contains_key(v.index()) {
                assert(g.contains_key(v) && g[v].contains((u, w)));
                let j = choose|j: int| 0 <= j < g[v].len() && g[v][j] == (u, w);
                assert(g[v][j] == (u, w));
            }
        }
    }
    Ok(time_to_destination)
}


/// A point of a voyage: the bounty hunters met before this planet, the day, the
/// fuel left and the planet.
#[derive(Debug, PartialEq, Eq, Structural, Clone, Copy)]
pub struct Stop {
    pub encounters: u64,
    pub day: u64,
    pub fuel: u64,
    pub planet: PlanetId,
}

/// The hunters met once the stop's own planet and day are counted.
pub open spec fn charged(plan: Seq<(PlanetId, Set<u64>)>, s: Stop) -> int {
    s.encounters + if hunter_present(plan, s.planet, s.day) {
        1int
    } else {
        0int
    }
}

/// `t` follows `s` by the jump along the `i`-th route of `s`'s planet.
pub open spec fn jump(routes: Map<PlanetId, Seq<(PlanetId, u64)>>, s: Stop, t: Stop, i: int) -> bool {
    let r = adjacency(routes, s.planet);
    &&& 0 <= i < r.len()
    &&& r[i].0 == t.planet
    &&& r[i].1 <= s.fuel
    &&& t.day == s.day + r[i].1
    &&& t.fuel == s.fuel - r[i].1
}

/// `t` follows `s`: a day spent refuelling on the same planet, or a jump.
pub open spec fn next_stop(
    routes: Map<PlanetId, Seq<(PlanetId, u64)>>,
    plan: Seq<(PlanetId, Set<u64>)>,
    autonomy: u64,
    s: Stop,
    t: Stop,
) -> bool {
    &&& t.encounters == charged(plan, s)
    &&& {
        ||| (t.planet == s.planet && t.day == s.day + 1 && t.fuel == autonomy)
        ||| exists|i: int| #[trigger] jump(routes, s, t, i)
    }
}

pub open spec fn departure_stop(autonomy: u64, departure: PlanetId) -> Stop {
    Stop { encounters: 0, day: 0, fuel: autonomy, planet: departure }
}

/// `v` is a voyage from `departure` on day 0 with a full tank.
pub open spec fn is_voyage(
    routes: Map<PlanetId, Seq<(PlanetId, u64)>>,
    plan: Seq<(PlanetId, Set<u64>)>,
    autonomy: u64,
    departure: PlanetId,
    v: Seq<Stop>,
) -> bool {
    &&& v.len() > 0
    &&& v[0] == departure_stop(autonomy, departure)
    &&& forall|k: int|
        0 <= k < v.len() - 1 ==> #[trigger] next_stop(routes, plan, autonomy, v[k], v[k + 1])
}

/// `v` is a voyage that reaches `arrival` by day `countdown`.
pub open spec fn reaches(
    routes: Map<PlanetId, Seq<(PlanetId, u64)>>,
    plan: Seq<(PlanetId, Set<u64>)>,
    autonomy: u64,
    departure: PlanetId,
    arrival: PlanetId,
    countdown: u64,
    v: Seq<Stop>,
) -> bool {
    &&& is_voyage(routes, plan, autonomy, departure, v)
    &&& v.last().planet == arrival
    &&& v.last().day <= countdown
}

pub open spec fn stops_within(locs: Set<PlanetId>, n: int, e: int, f: int) -> Set<Stop> {
    Set::new(
        |s: Stop|
            locs.contains(s.planet) && s.encounters <= n && s.day <= e && s.fuel <= f,
    )
}

proof fn lemma_row_finite(locs: Set<PlanetId>, n: u64, e: u64, f: int)
    requires
        locs.finite(),
        f <= u64::MAX,
    ensures
        Set::new(
            |s: Stop| locs.contains(s.planet) && s.encounters == n && s.day == e && s.fuel <= f,
        ).finite(),
    decreases f + 1,
{
    let row = Set::new(
        |s: Stop| locs.contains(s.planet) && s.encounters == n && s.day == e && s.fuel <= f,
    );
    if f < 0 {
        assert(row =~= Set::empty());
    } else {
        lemma_row_finite(locs, n, e, f - 1);
        let prev = Set::new(
            |s: Stop| locs.contains(s.planet) && s.encounters == n && s.day == e && s.fuel <= f - 1,
        );
        let g = |p: PlanetId| Stop { encounters: n, day: e, fuel: f as u64, planet: p };
        locs.lemma_map_finite(g);
        assert forall|s: Stop| row.contains(s) implies #[trigger] prev.union(locs.map(g)).contains(s) by {
            if s.fuel == f {
                assert(g(s.planet) == s);
            }
        }
        assert(row =~= prev.union(locs.map(g)));
    }
}

proof fn lemma_plane_finite(locs: Set<PlanetId>, n: u64, e: int, f: u64)
    requires
        locs.finite(),
        e <= u64::MAX,
    ensures
        Set::new(
            |s: Stop| locs.contains(s.planet) && s.encounters == n && s.day <= e && s.fuel <= f,
        ).finite(),
    decreases e + 1,
{
    let plane = Set::new(
        |s: Stop| locs.contains(s.planet) && s.encounters == n && s.day <= e && s.fuel <= f,
    );
    if e < 0 {
        assert(plane =~= Set::empty());
    } else {
        lemma_plane_finite(locs, n, e - 1, f);
        lemma_row_finite(locs, n, e as u64, f as int);
        let prev = Set::new(
            |s: Stop| locs.contains(s.planet) && s.encounters == n && s.day <= e - 1 && s.fuel <= f,
        );
        let row = Set::new(
            |s: Stop| locs.contains(s.planet) && s.encounters == n && s.day == e as u64 && s.fuel <= f as int,
        );
        assert(plane =~= prev.union(row));
    }
}

proof fn lemma_stops_within_finite(locs: Set<PlanetId>, n: int, e: u64, f: u64)
    requires
        locs.finite(),
        n <= u64::MAX,
    ensures
        stops_within(locs, n, e as int, f as int).finite(),
    decreases n + 1,
{
    if n < 0 {
        assert(stops_within(locs, n, e as int, f as int) =~= Set::empty());
    } else {
        lemma_stops_within_finite(locs, n - 1, e, f);
        lemma_plane_finite(locs, n as u64, e as int, f);
        let plane = Set::new(
            |s: Stop| locs.contains(s.planet) && s.encounters == n as u64 && s.day <= e as int && s.fuel <= f,
        );
        assert(stops_within(locs, n, e as int, f as int) =~= stops_within(
            locs,
            n - 1,
            e as int,
            f as int,
        ).union(plane));
    }
}

/// A stop can still make the arrival by day `countdown`, by the heuristic.
pub open spec fn hopeful(dist: Map<usize, u64>, countdown: u64, s: Stop) -> bool {
    s.day + heuristic(dist, s.planet) <= countdown
}

/// A stop with its heuristic time, as it waits in the search's queue.
pub open spec fn queued(dist: Map<usize, u64>, s: Stop) -> (Stop, u64) {
    (s, heuristic(dist, s.planet) as u64)
}

/// Every stop of a voyage that reaches the arrival in time is hopeful, and has
/// met no more hunters than the last stop.
proof fn lemma_voyage_hopeful(
    routes: Map<PlanetId, Seq<(PlanetId, u64)>>,
    plan: Seq<(PlanetId, Set<u64>)>,
    autonomy: u64,
    departure: PlanetId,
    arrival: PlanetId,
    countdown: u64,
    dist: Map<usize, u64>,
    v: Seq<Stop>,
    k: int,
)
    requires
        reaches(routes, plan, autonomy, departure, arrival, countdown, v),
        consistent_heuristic(routes, dist, arrival),
        0 <= k < v.len(),
    ensures
        hopeful(dist, countdown, v[k]),
        v[k].day + heuristic(dist, v[k].planet) <= v.last().day,
        v[k].encounters <= v.last().encounters,
    decreases v.len() - k,
{
    if k < v.len() - 1 {
        lemma_voyage_hopeful(routes, plan, autonomy, departure, arrival, countdown, dist, v, k + 1);
        assert(next_stop(routes, plan, autonomy, v[k], v[k + 1]));
        if !(v[k + 1].planet == v[k].planet && v[k + 1].day == v[k].day + 1) {
            let i = choose|i: int| #[trigger] jump(routes, v[k], v[k + 1], i);
            assert(routes.contains_key(v[k].planet));
            assert(routes[v[k].planet][i] == adjacency(routes, v[k].planet)[i]);
        }
    }
}

/// The stops that the search has expanded, and what it still has to do: none is
/// the arrival, and each hopeful successor of one of them is expanded or queued.
pub open spec fn expansion_closed(
    routes: Map<PlanetId, Seq<(PlanetId, u64)>>,
    plan: Seq<(PlanetId, Set<u64>)>,
    autonomy: u64,
    arrival: PlanetId,
    countdown: u64,
    dist: Map<usize, u64>,
    visited: Set<Stop>,
    queue: Seq<(Stop, u64)>,
) -> bool {
    &&& forall|s: Stop| #[trigger] visited.contains(s) ==> s.planet != arrival
    &&& forall|s: Stop, t: Stop|
        #![trigger visited.contains(s), next_stop(routes, plan, autonomy, s, t)]
        visited.contains(s) && next_stop(routes, plan, autonomy, s, t) && hopeful(
            dist,
            countdown,
            t,
        ) ==> visited.contains(t) || queue.contains(queued(dist, t))
}

/// A voyage that reaches the arrival in time has a stop in the queue.
proof fn lemma_voyage_queued(
    routes: Map<PlanetId, Seq<(PlanetId, u64)>>,
    plan: Seq<(PlanetId, Set<u64>)>,
    autonomy: u64,
    departure: PlanetId,
    arrival: PlanetId,
    countdown: u64,
    dist: Map<usize, u64>,
    visited: Set<Stop>,
    queue: Seq<(Stop, u64)>,
    v: Seq<Stop>,
    j: int,
)
    requires
        reaches(routes, plan, autonomy, departure, arrival, countdown, v),
        consistent_heuristic(routes, dist, arrival),
        expansion_closed(routes, plan, autonomy, arrival, countdown, dist, visited, queue),
        hopeful(dist, countdown, departure_stop(autonomy, departure)) ==> visited.contains(
            departure_stop(autonomy, departure),
        ) || queue.contains(queued(dist, departure_stop(autonomy, departure))),
        0 <= j < v.len(),
    ensures
        (forall|k: int| 0 <= k <= j ==> visited.contains(#[trigger] v[k])) || exists|k: int|
            0 <= k <= j && queue.contains(queued(dist, #[trigger] v[k])),
    decreases j,
{
    lemma_voyage_hopeful(routes, plan, autonomy, departure, arrival, countdown, dist, v, j);
    if j > 0 {
        lemma_voyage_queued(
            routes,
            plan,
            autonomy,
            departure,
            arrival,
            countdown,
            dist,
            visited,
            queue,
            v,
            j - 1,
        );
        if forall|k: int| 0 <= k <= j - 1 ==> visited.contains(#[trigger] v[k]) {
            assert(visited.contains(v[j - 1]));
            assert(next_stop(routes, plan, autonomy, v[j - 1], v[(j - 1) + 1]));
            if !visited.contains(v[j]) {
                assert(queue.contains(queued(dist, v[j])));
            }
        }
    }
}

/// Some stop of a voyage that reaches the arrival in time waits in the queue.
proof fn lemma_voyage_in_queue(
    routes: Map<PlanetId, Seq<(PlanetId, u64)>>,
    plan: Seq<(PlanetId, Set<u64>)>,
    autonomy: u64,
    departure: PlanetId,
    arrival: PlanetId,
    countdown: u64,
    dist: Map<usize, u64>,
    visited: Set<Stop>,
    queue: Seq<(Stop, u64)>,
    v: Seq<Stop>,
) -> (k: int)
    requires
        reaches(routes, plan, autonomy, departure, arrival, countdown, v),
        consistent_heuristic(routes, dist, arrival),
        expansion_closed(routes, plan, autonomy, arrival, countdown, dist, visited, queue),
        hopeful(dist, countdown, departure_stop(autonomy, departure)) ==> visited.contains(
            departure_stop(autonomy, departure),
        ) || queue.contains(queued(dist, departure_stop(autonomy, departure))),
    ensures
        0 <= k < v.len(),
        queue.contains(queued(dist, v[k])),
        v[k].encounters <= v.last().encounters,
        v[k].day + heuristic(dist, v[k].planet) <= v.last().day,
{
    lemma_voyage_queued(
        routes,
        plan,
        autonomy,
        departure,
        arrival,
        countdown,
        dist,
        visited,
        queue,
        v,
        v.len() - 1,
    );
    if forall|k: int| 0 <= k <= v.len() - 1 ==> visited.contains(#[trigger] v[k]) {
        assert(visited.contains(v[v.len() - 1]));
    }
    let k = choose|k: int| 0 <= k <= v.len() - 1 && queue.contains(queued(dist, #[trigger] v[k]));
    lemma_voyage_hopeful(routes, plan, autonomy, departure, arrival, countdown, dist, v, k);
    k
}

fn heuristic_of(dist: &HashMap<usize, u64>, planet: PlanetId) -> (r: u64)
    ensures
        r as int == heuristic(dist@, planet),
{
    match dist.get(&planet.as_index()) {
        Some(t) => *t,
        None => u64::MAX,
    }
}

fn contains_stop(seen: &Vec<Stop>, stop: Stop) -> (r: bool)
    ensures
        r == seen@.contains(stop),
{
    let mut i: usize = 0;
    while i < seen.len()
        invariant
            i <= seen@.len(),
            forall|k: int| 0 <= k < i ==> seen@[k] != stop,
        decreases seen@.len() - i,
    {
        if seen[i] == stop {
            assert(seen@[i as int] == stop);
            return true;
        }
        i = i + 1;
    }
    false
}

/// `a` comes before `b` in the search, or ties with it: fewer hunters met, or as
/// many and an arrival hoped for no later.
pub open spec fn before_or_tied(a: (Stop, u64), b: (Stop, u64)) -> bool {
    ||| a.0.encounters < b.0.encounters
    ||| (a.0.encounters == b.0.encounters && sat_add(a.0.day, a.1) <= sat_add(b.0.day, b.1))
}

/// Index of the next stop to expand: fewest hunters met first, then the earliest
/// hoped-for arrival.
fn best_state_index(queue: &Vec<(Stop, u64)>) -> (r: usize)
    requires
        queue@.len() > 0,
    ensures
        r < queue@.len(),
        forall|k: int|
            0 <= k < queue@.len() ==> before_or_tied(queue@[r as int], #[trigger] queue@[k]),
{
    let mut best: usize = 0;
    let mut i: usize = 1;
    while i < queue.len()
        invariant
            1 <= i <= queue@.len(),
            best < i,
            forall|k: int| 0 <= k < i ==> before_or_tied(queue@[best as int], #[trigger] queue@[k]),
        decreases queue@.len() - i,
    {
        let (candidate, candidate_time) = queue[i];
        let (current, current_time) = queue[best];
        if candidate.encounters < current.encounters || (candidate.encounters == current.encounters
            && candidate.day.saturating_add(candidate_time) < current.day.saturating_add(
            current_time,
        )) {
            best = i;
        }
        i = i + 1;
    }
    best
}

proof fn lemma_extend_voyage(
    routes: Map<PlanetId, Seq<(PlanetId, u64)>>,
    plan: Seq<(PlanetId, Set<u64>)>,
    autonomy: u64,
    departure: PlanetId,
    v: Seq<Stop>,
    t: Stop,
)
    requires
        is_voyage(routes, plan, autonomy, departure, v),
        next_stop(routes, plan, autonomy, v.last(), t),
    ensures
        is_voyage(routes, plan, autonomy, departure, v.push(t)),
        v.push(t).last() == t,
{
    let w = v.push(t);
    assert forall|k: int| 0 <= k < w.len() - 1 implies #[trigger] next_stop(
        routes,
        plan,
        autonomy,
        w[k],
        w[k + 1],
    ) by {
        if k < v.len() - 1 {
            assert(w[k] == v[k] && w[k + 1] == v[k + 1]);
        }
    }
}

/// What the search returns: `UnknownLocation` exactly when the arrival has no
/// routes; otherwise `None` exactly when no voyage reaches the arrival in time,
/// and else the hunters met on a voyage that does, its arrival included, where
/// that voyage met, before its arrival, no more hunters than any other voyage
/// that makes it before its own, and arrives no later than any that met as many.
pub open spec fn search_outcome(
    routes: Map<PlanetId, Seq<(PlanetId, u64)>>,
    plan: Seq<(PlanetId, Set<u64>)>,
    autonomy: u64,
    departure: PlanetId,
    arrival: PlanetId,
    countdown: u64,
    r: Result<Option<u64>, DomainError>,
) -> bool {
    match r {
        Err(e) => e == DomainError::UnknownLocation && !routes.contains_key(arrival),
        Ok(None) => routes.contains_key(arrival) && forall|v: Seq<Stop>|
            !reaches(routes, plan, autonomy, departure, arrival, countdown, v),
        Ok(Some(n)) => {
            &&& routes.contains_key(arrival)
            &&& exists|v: Seq<Stop>|
                {
                    &&& reaches(routes, plan, autonomy, departure, arrival, countdown, v)
                    &&& charged(plan, v.last()) == n
                    &&& forall|w: Seq<Stop>|
                        reaches(routes, plan, autonomy, departure, arrival, countdown, w)
                            ==> v.last().encounters <= #[trigger] w.last().encounters
                    &&& forall|w: Seq<Stop>|
                        reaches(routes, plan, autonomy, departure, arrival, countdown, w)
                            && w.last().encounters == v.last().encounters ==> v.last().day
                            <= #[trigger] w.last().day
                }
        },
    }
}

/// `b` is reached from `a` by following routes.
pub open spec fn connected(routes: Map<PlanetId, Seq<(PlanetId, u64)>>, a: PlanetId, b: PlanetId) -> bool {
    exists|path: Seq<PlanetId>|
        {
            &&& path.len() > 0
            &&& path[0] == a
            &&& path.last() == b
            &&& forall|k: int|
                0 <= k < path.len() - 1 ==> #[trigger] route_step(routes, path[k], path[k + 1])
        }
}

/// `b` is `a`, or a route leads from `a` to `b`.
pub open spec fn route_step(routes: Map<PlanetId, Seq<(PlanetId, u64)>>, a: PlanetId, b: PlanetId) -> bool {
    a == b || exists|i: int|
        0 <= i < adjacency(routes, a).len() && #[trigger] adjacency(routes, a)[i].0 == b
}

/// No voyage reaches an arrival that the routes do not connect to the departure,
/// whatever the budget: the search then finds none.
pub proof fn lemma_unconnected_unreachable(
    routes: Map<PlanetId, Seq<(PlanetId, u64)>>,
    plan: Seq<(PlanetId, Set<u64>)>,
    autonomy: u64,
    departure: PlanetId,
    arrival: PlanetId,
    countdown: u64,
    v: Seq<Stop>,
)
    requires
        !connected(routes, departure, arrival),
    ensures
        !reaches(routes, plan, autonomy, departure, arrival, countdown, v),
{
    if reaches(routes, plan, autonomy, departure, arrival, countdown, v) {
        let path = v.map_values(|s: Stop| s.planet);
        assert forall|k: int| 0 <= k < path.len() - 1 implies #[trigger] route_step(
            routes,
            path[k],
            path[k + 1],
        ) by {
            assert(next_stop(routes, plan, autonomy, v[k], v[k + 1]));
            if path[k + 1] != path[k] {
                let i = choose|i: int| #[trigger] jump(routes, v[k], v[k + 1], i);
                assert(adjacency(routes, path[k])[i].0 == path[k + 1]);
            }
        }
        assert(path[0] == departure);
        assert(path.last() == arrival);
    }
}

/// The search between two planets given by name. When either name is unknown to
/// the catalog there is no voyage: `Ok(None)`, whatever the other inputs.
pub fn least_encounters_between(
    hunter_planning: &BountyHunterPlanning,
    galaxy_routes: &GalaxyRoutes,
    planet_id_map: &PlanetCatalog,
    autonomy: u64,
    departure: &str,
    arrival: &str,
    countdown: u64,
) -> (r: Result<Option<u64>, DomainError>)
    requires
        planet_id_map.wf(),
        galaxy_routes.wf(),
        planet_id_map@.contains(departure@) && planet_id_map@.contains(arrival@) ==> {
            &&& positive_routes(galaxy_routes@)
            &&& countdown < u64::MAX
        },
    ensures
        !planet_id_map@.contains(departure@) || !planet_id_map@.contains(arrival@) ==> r
            == Ok::<Option<u64>, DomainError>(None),
        planet_id_map@.contains(departure@) && planet_id_map@.contains(arrival@) ==> exists|
            departure_id: PlanetId,
            arrival_id: PlanetId,
        |
            {
                &&& planet_id_map.lookup(departure@, Some(departure_id))
                &&& planet_id_map.lookup(arrival@, Some(arrival_id))
                &&& search_outcome(
                    galaxy_routes@,
                    hunter_planning@,
                    autonomy,
                    departure_id,
                    arrival_id,
                    countdown,
                    r,
                )
            },
{
    let departure_id = match planet_id_map.get(departure) {
        Some(v) => v,
        None => return Ok(None),  // the departure planet is not connected to the others
    };
    let arrival_id = match planet_id_map.get(arrival) {
        Some(v) => v,
        None => return Ok(None),  // the arrival planet is not connected to the others
    };
    proof {
        assert(planet_id_map@[departure_id.index() as int] == departure@);
        assert(planet_id_map@[arrival_id.index() as int] == arrival@);
    }
    least_encounters(hunter_planning, galaxy_routes, autonomy, departure_id, arrival_id, countdown)
}

/// Searches the voyages from `departure_id` to `arrival_id` within `countdown` days,
/// fewest hunters first, then earliest hoped-for arrival, and stops at the first
/// one that makes it: `None` when none does, else the hunters met on it. The
/// hunter on the arrival itself is counted only once the arrival is reached, so
/// the count can be one more than on a voyage that waits for that hunter to leave.
/// Routes must take at least a day each, as the route table guarantees, so that
/// the search ends.
#[verifier::loop_isolation(false)]
pub fn least_encounters(
    hunter_planning: &BountyHunterPlanning,
    galaxy_routes: &GalaxyRoutes,
    autonomy: u64,
    departure_id: PlanetId,
    arrival_id: PlanetId,
    countdown: u64,
) -> (r: Result<Option<u64>, DomainError>)
    requires
        galaxy_routes.wf(),
        positive_routes(galaxy_routes@),
        countdown < u64::MAX,
    ensures
        search_outcome(
            galaxy_routes@,
            hunter_planning@,
            autonomy,
            departure_id,
            arrival_id,
            countdown,
            r,
        ),
{
    let ghost g = galaxy_routes@;
    let ghost plan = hunter_planning@;
    let all_time_to_destination = match compute_all_time_to_destination(galaxy_routes, &arrival_id) {
        Ok(d) => d,
        Err(e) => return Err(e),
    };
    let ghost dist = all_time_to_destination@;
    let start = Stop { encounters: 0, day: 0, fuel: autonomy, planet: departure_id };
    let mut state_to_process: Vec<(Stop, u64)> = Vec::new();
    state_to_process.push((start, heuristic_of(&all_time_to_destination, departure_id)));
    let mut seen_state: Vec<Stop> = Vec::new();
    let ghost mut visited: Set<Stop> = Set::empty();
    let ghost all_stops = stops_within(g.dom(), countdown as int, countdown as int, autonomy as int);
    proof {
        galaxy_routes.lemma_finite();
        lemma_stops_within_finite(g.dom(), countdown as int, countdown, autonomy);
        assert(state_to_process@[0] == queued(dist, start));
        assert(is_voyage(g, plan, autonomy, departure_id, seq![start]));
        assert(seq![start].last() == start);
        assert(state_to_process@[0].0 == start);
    }
    while state_to_process.len() > 0
        invariant
            all_stops.finite(),
            forall|s: Stop| visited.contains(s) <==> seen_state@.contains(s),
            visited.subset_of(all_stops),
            expansion_closed(g, plan, autonomy, arrival_id, countdown, dist, visited, state_to_process@),
            hopeful(dist, countdown, start) ==> visited.contains(start) || state_to_process@.contains(
                queued(dist, start),
            ),
            forall|k: int|
                0 <= k < state_to_process@.len() ==> {
                    &&& #[trigger] state_to_process@[k] == queued(dist, state_to_process@[k].0)
                    &&& state_to_process@[k].0.fuel <= autonomy
                    &&& state_to_process@[k].0.encounters <= state_to_process@[k].0.day
                    &&& exists|v: Seq<Stop>|
                        is_voyage(g, plan, autonomy, departure_id, v) && v.last()
                            == state_to_process@[k].0
                },
        decreases all_stops.len() - visited.len(), state_to_process@.len(),
    {
        proof {
            vstd::set_lib::lemma_len_subset(visited, all_stops);
        }
        let idx = best_state_index(&state_to_process);
        let ghost q = state_to_process@;
        let (state, time_to_destination) = state_to_process.remove(idx);
        proof {
            assert(state_to_process@ == q.remove(idx as int));
            assert(q[idx as int] == (state, time_to_destination));
            assert(q[idx as int] == queued(dist, q[idx as int].0));
        }
        if contains_stop(&seen_state, state) {
            // this state has already been explored
            proof {
                assert forall|t: Stop| q.contains(queued(dist, t)) && !visited.contains(t)
                    implies state_to_process@.contains(#[trigger] queued(dist, t)) by {
                    lemma_remove_keeps(q, idx as int, queued(dist, t));
                }
            }
            continue;
        }
        if state.day.saturating_add(time_to_destination) > countdown {
            // the arrival cannot be reached in time from this state
            proof {
                assert forall|t: Stop| q.contains(queued(dist, t)) && hopeful(dist, countdown, t)
                    implies state_to_process@.contains(#[trigger] queued(dist, t)) by {
                    lemma_remove_keeps(q, idx as int, queued(dist, t));
                }
            }
            continue;
        }
        proof {
            assert(dist.contains_key(state.planet.index()));
            assert(g.contains_key(state.planet));
        }
        let n_bounty_hunter = state.encounters + hunter_planning.meet_with_hunter(
            &state.planet,
            &state.day,
        );
        if state.planet == arrival_id {
            proof {
                let v = choose|v: Seq<Stop>|
                    is_voyage(g, plan, autonomy, departure_id, v) && v.last() == q[idx as int].0;
                assert(reaches(g, plan, autonomy, departure_id, arrival_id, countdown, v));
                assert forall|w: Seq<Stop>|
                    reaches(g, plan, autonomy, departure_id, arrival_id, countdown, w) implies
                    v.last().encounters <= #[trigger] w.last().encounters by {
                    let k = lemma_voyage_in_queue(
                        g,
                        plan,
                        autonomy,
                        departure_id,
                        arrival_id,
                        countdown,
                        dist,
                        visited,
                        q,
                        w,
                    );
                    let m = choose|m: int| 0 <= m < q.len() && q[m] == queued(dist, w[k]);
                    assert(before_or_tied(q[idx as int], q[m]));
                }
                assert forall|w: Seq<Stop>|
                    reaches(g, plan, autonomy, departure_id, arrival_id, countdown, w)
                        && w.last().encounters == v.last().encounters implies v.last().day
                    <= #[trigger] w.last().day by {
                    let k = lemma_voyage_in_queue(
                        g,
                        plan,
                        autonomy,
                        departure_id,
                        arrival_id,
                        countdown,
                        dist,
                        visited,
                        q,
                        w,
                    );
                    let m = choose|m: int| 0 <= m < q.len() && q[m] == queued(dist, w[k]);
                    assert(before_or_tied(q[idx as int], q[m]));
                    assert(heuristic(dist, arrival_id) == 0);
                }
            }
            return Ok(Some(n_bounty_hunter));
        }
        let ghost old_visited = visited;
        let ghost old_seen = seen_state@;
        seen_state.push(state);
        proof {
            visited = visited.insert(state);
            assert(seen_state@.last() == state);
            assert forall|s: Stop| visited.contains(s) <==> seen_state@.contains(s) by {
                if seen_state@.contains(s) && s != state {
                    let k = choose|k: int| 0 <= k < seen_state@.len() && seen_state@[k] == s;
                    assert(seen_state@.drop_last()[k] == s);
                }
                if old_visited.contains(s) {
                    assert(old_seen.contains(s));
                    let k = choose|k: int| 0 <= k < old_seen.len() && old_seen[k] == s;
                    assert(seen_state@ == old_seen.push(state));
                    assert(seen_state@[k] == s);
                }
            }
            assert(all_stops.contains(state));
            assert(visited.len() == old_visited.len() + 1);
            vstd::set_lib::lemma_len_subset(visited, all_stops);
        }
        let ghost v0 = choose|v: Seq<Stop>|
            is_voyage(g, plan, autonomy, departure_id, v) && v.last() == q[idx as int].0;
        // the Millennium Falcon can refuel
        let refuelled = Stop {
            encounters: n_bounty_hunter,
            day: state.day + 1,
            fuel: autonomy,
            planet: state.planet,
        };
        let ghost after_pop = state_to_process@;
        state_to_process.push((refuelled, time_to_destination));
        proof {
            assert(next_stop(g, plan, autonomy, state, refuelled));
            lemma_extend_voyage(g, plan, autonomy, departure_id, v0, refuelled);
        }
        let ghost mid = state_to_process@;
        proof {
            assert(mid.last() == queued(dist, refuelled));
            assert forall|x: (Stop, u64)| q.contains(x) && x != q[idx as int] implies mid.contains(x) by {
                lemma_remove_keeps(q, idx as int, x);
                assert(after_pop == q.remove(idx as int));
                assert(mid == after_pop.push(queued(dist, refuelled)));
                let k = choose|k: int| 0 <= k < after_pop.len() && after_pop[k] == x;
                assert(mid[k] == x);
            }
        }
        // or jump to a neighbouring planet, if it has enough fuel
        let routes = galaxy_routes.get(&state.planet).unwrap();
        let mut i: usize = 0;
        while i < routes.len()
            invariant
                routes@ == g[state.planet],
                i <= routes@.len(),
                forall|x: (Stop, u64)| mid.contains(x) ==> state_to_process@.contains(x),
                forall|k: int|
                    0 <= k < state_to_process@.len() ==> {
                        &&& #[trigger] state_to_process@[k] == queued(dist, state_to_process@[k].0)
                        &&& state_to_process@[k].0.fuel <= autonomy
                        &&& state_to_process@[k].0.encounters <= state_to_process@[k].0.day
                        &&& exists|v: Seq<Stop>|
                            is_voyage(g, plan, autonomy, departure_id, v) && v.last()
                                == state_to_process@[k].0
                    },
                forall|k: int|
                    #![trigger g[state.planet][k]]
                    0 <= k < i && g[state.planet][k].1 <= state.fuel && state.day
                        + g[state.planet][k].1 <= u64::MAX ==> state_to_process@.contains(
                        queued(
                            dist,
                            Stop {
                                encounters: n_bounty_hunter,
                                day: (state.day + g[state.planet][k].1) as u64,
                                fuel: (state.fuel - g[state.planet][k].1) as u64,
                                planet: g[state.planet][k].0,
                            },
                        ),
                    ),
            decreases routes@.len() - i,
        {
            let (new_planet_id, time) = routes[i];
            proof {
                assert(g[state.planet][i as int] == (new_planet_id, time));
            }
            if time <= state.fuel {
                if let Some(day) = state.day.checked_add(time) {
                    let next = Stop {
                        encounters: n_bounty_hunter,
                        day,
                        fuel: state.fuel - time,
                        planet: new_planet_id,
                    };
                    let ghost before_push = state_to_process@;
                    state_to_process.push(
                        (next, heuristic_of(&all_time_to_destination, new_planet_id)),
                    );
                    proof {
                        assert(adjacency(g, state.planet)[i as int] == (new_planet_id, time));
                        assert(jump(g, state, next, i as int));
                        assert(next_stop(g, plan, autonomy, state, next));
                        lemma_extend_voyage(g, plan, autonomy, departure_id, v0, next);
                        assert(state_to_process@.last() == queued(dist, next));
                        assert forall|x: (Stop, u64)| before_push.contains(x) implies state_to_process@.contains(x) by {
                            let k = choose|k: int| 0 <= k < before_push.len() && before_push[k] == x;
                            assert(state_to_process@[k] == x);
                        }
                    }
                }
            }
            i = i + 1;
        }
        proof {
            let q2 = state_to_process@;
            assert forall|s: Stop, t: Stop|
                #![trigger visited.contains(s), next_stop(g, plan, autonomy, s, t)]
                visited.contains(s) && next_stop(g, plan, autonomy, s, t) && hopeful(
                    dist,
                    countdown,
                    t,
                ) implies visited.contains(t) || q2.contains(queued(dist, t)) by {
                if s == state {
                    assert(t.encounters == n_bounty_hunter);
                    if t.planet == s.planet && t.day == s.day + 1 && t.fuel == autonomy {
                        assert(t == refuelled);
                        assert(mid[mid.len() - 1] == queued(dist, refuelled));
                        assert(mid.contains(queued(dist, t)));
                    } else {
                        let k = choose|k: int| #[trigger] jump(g, s, t, k);
                        assert(adjacency(g, state.planet)[k] == g[state.planet][k]);
                        assert(t == Stop {
                            encounters: n_bounty_hunter,
                            day: (state.day + g[state.planet][k].1) as u64,
                            fuel: (state.fuel - g[state.planet][k].1) as u64,
                            planet: g[state.planet][k].0,
                        });
                    }
                } else {
                    assert(old_visited.contains(s));
                    if !visited.contains(t) {
                        assert(q.contains(queued(dist, t)));
                        assert(queued(dist, t) != q[idx as int]);
                        assert(mid.contains(queued(dist, t)));
                    }
                }
            }
            if hopeful(dist, countdown, start) && !visited.contains(start) {
                assert(q.contains(queued(dist, start)));
                assert(queued(dist, start) != q[idx as int]);
                assert(mid.contains(queued(dist, start)));
            }
        }
    }
    proof {
        assert forall|v: Seq<Stop>|
            !reaches(g, plan, autonomy, departure_id, arrival_id, countdown, v) by {
            if reaches(g, plan, autonomy, departure_id, arrival_id, countdown, v) {
                let k = lemma_voyage_in_queue(
                    g,
                    plan,
                    autonomy,
                    departure_id,
                    arrival_id,
                    countdown,
                    dist,
                    visited,
                    state_to_process@,
                    v,
                );
            }
        }
    }
    Ok(None)
}

/// A larger budget never lowers the probability of success: where the search
/// finds a voyage meeting `found` hunters, it finds one with a larger budget too,
/// meeting no more.
pub proof fn lemma_larger_budget_no_more_hunters(
    routes: Map<PlanetId, Seq<(PlanetId, u64)>>,
    plan: Seq<(PlanetId, Set<u64>)>,
    autonomy: u64,
    departure: PlanetId,
    arrival: PlanetId,
    countdown: u64,
    larger: u64,
    found: u64,
    r: Result<Option<u64>, DomainError>,
)
    requires
        countdown <= larger,
        search_outcome(routes, plan, autonomy, departure, arrival, countdown, Ok(Some(found))),
        search_outcome(routes, plan, autonomy, departure, arrival, larger, r),
    ensures
        match r {
            Ok(Some(n)) => n <= found,
            _ => false,
        },
{
    let v = choose|v: Seq<Stop>|
        {
            &&& reaches(routes, plan, autonomy, departure, arrival, countdown, v)
            &&& charged(plan, v.last()) == found
            &&& forall|w: Seq<Stop>|
                reaches(routes, plan, autonomy, departure, arrival, countdown, w)
                    ==> v.last().encounters <= #[trigger] w.last().encounters
            &&& forall|w: Seq<Stop>|
                reaches(routes, plan, autonomy, departure, arrival, countdown, w)
                    && w.last().encounters == v.last().encounters ==> v.last().day
                    <= #[trigger] w.last().day
        };
    assert(reaches(routes, plan, autonomy, departure, arrival, larger, v));
    match r {
        Ok(Some(n)) => {
            let u = choose|u: Seq<Stop>|
                {
                    &&& reaches(routes, plan, autonomy, departure, arrival, larger, u)
                    &&& charged(plan, u.last()) == n
                    &&& forall|w: Seq<Stop>|
                        reaches(routes, plan, autonomy, departure, arrival, larger, w)
                            ==> u.last().encounters <= #[trigger] w.last().encounters
                    &&& forall|w: Seq<Stop>|
                        reaches(routes, plan, autonomy, departure, arrival, larger, w)
                            && w.last().encounters == u.last().encounters ==> u.last().day
                            <= #[trigger] w.last().day
                };
            assert(u.last().encounters <= v.last().encounters);
            if u.last().encounters == v.last().encounters {
                assert(u.last().day <= v.last().day);
                assert(reaches(routes, plan, autonomy, departure, arrival, countdown, u));
                assert(v.last().day <= u.last().day);
            }
        },
        _ => {},
    }
}

} // verus!
